//! Service fingerprinting: the pure classification of a banner into a
//! service name and optional version, and the decisions of the probe
//! protocol. All socket work stays with the caller; these functions see
//! only the text that came back.

use vstd::prelude::*;
use crate::strutil::{lower_seq, lower_chars, chars_of, trim_spec, trim_chars, string_of_chars};

verus! {

/// Whether `pat` occurs in `s` starting at `i`.
pub open spec fn contains_at(s: Seq<char>, i: int, pat: Seq<char>) -> bool {
    0 <= i && i + pat.len() <= s.len() && s.subrange(i, i + pat.len()) == pat
}

/// Whether `pat` occurs anywhere in `s`.
pub open spec fn spec_contains(s: Seq<char>, pat: Seq<char>) -> bool {
    exists|i: int| contains_at(s, i, pat)
}

/// The first occurrence of `pat` in `s` at or after `i`, or -1.
pub open spec fn find_pat(s: Seq<char>, pat: Seq<char>, i: int) -> int
    decreases s.len() - i,
{
    if i < 0 || i + pat.len() > s.len() {
        -1
    } else if pat.len() == 0 {
        i
    } else if contains_at(s, i, pat) {
        i
    } else {
        find_pat(s, pat, i + 1)
    }
}

/// The first occurrence of the character `c` in `s` at or after `i`, or -1.
pub open spec fn find_char_from(s: Seq<char>, c: char, i: int) -> int
    decreases s.len() - i,
{
    if i < 0 || i >= s.len() {
        -1
    } else if s[i] == c {
        i
    } else {
        find_char_from(s, c, i + 1)
    }
}

/// Whether `pat` matches `hay` at `i`, mirroring `contains_at`.
fn match_at(hay: &Vec<char>, pat: &Vec<char>, i: usize) -> (b: bool)
    requires
        i + pat@.len() <= hay@.len(),
    ensures
        b == contains_at(hay@, i as int, pat@),
{
    let n = hay.len();
    let m = pat.len();
    let mut j: usize = 0;
    while j < pat.len()
        invariant
            j <= pat@.len(),
            i + pat@.len() <= hay@.len() <= usize::MAX,
            forall|k: int| 0 <= k < j ==> hay@[i + k] == pat@[k],
        decreases pat@.len() - j,
    {
        if hay[i + j] != pat[j] {
            assert(hay@.subrange(i as int, i + pat@.len()) != pat@) by {
                assert(hay@.subrange(i as int, i + pat@.len())[j as int] == hay@[i + j]);
            }
            return false;
        }
        j = j + 1;
    }
    assert(hay@.subrange(i as int, i + pat@.len()) =~= pat@);
    true
}

/// The first match of `pat` at or after `i`, mirroring `find_pat`.
fn find_pat_from(hay: &Vec<char>, pat: &Vec<char>, i: usize) -> (r: Option<usize>)
    ensures
        match r {
            Some(j) => find_pat(hay@, pat@, i as int) == j && i <= j && j + pat@.len()
                <= hay@.len(),
            None => find_pat(hay@, pat@, i as int) == -1,
        },
    decreases hay@.len() - i,
{
    if pat.len() > hay.len() || i > hay.len() - pat.len() {
        None
    } else {
        if match_at(hay, pat, i) {
            Some(i)
        } else {
            proof {
                if pat@.len() == 0 {
                    assert(hay@.subrange(i as int, i as int) =~= pat@);
                }
            }
            find_pat_from(hay, pat, i + 1)
        }
    }
}

/// The first occurrence of `c` at or after `i`, mirroring `find_char_from`.
fn find_char(hay: &Vec<char>, c: char, i: usize) -> (r: Option<usize>)
    ensures
        match r {
            Some(j) => find_char_from(hay@, c, i as int) == j && i <= j < hay@.len(),
            None => find_char_from(hay@, c, i as int) == -1,
        },
    decreases hay@.len() - i,
{
    if i >= hay.len() {
        None
    } else if hay[i] == c {
        Some(i)
    } else {
        find_char(hay, c, i + 1)
    }
}

/// A found match witnesses an occurrence; a search that comes back empty
/// rules every occurrence out.
proof fn lemma_find_pat(s: Seq<char>, pat: Seq<char>, i: int)
    requires
        0 <= i,
    ensures
        find_pat(s, pat, i) == -1 ==> forall|j: int| i <= j ==> !contains_at(s, j, pat),
        find_pat(s, pat, i) != -1 ==> contains_at(s, find_pat(s, pat, i), pat),
    decreases s.len() - i,
{
    if i + pat.len() > s.len() {
        assert forall|j: int| i <= j implies !contains_at(s, j, pat) by {}
    } else if pat.len() == 0 {
        assert(s.subrange(i, i + pat.len()) =~= pat);
    } else if contains_at(s, i, pat) {
    } else {
        assert(pat.len() > 0) by {
            if pat.len() == 0 {
                assert(s.subrange(i, i) =~= pat);
            }
        }
        lemma_find_pat(s, pat, i + 1);
        if find_pat(s, pat, i) == -1 {
            assert forall|j: int| i <= j implies !contains_at(s, j, pat) by {
                if j > i {
                    assert(!contains_at(s, j, pat));
                }
            }
        }
    }
}

/// Whether `pat` occurs in `hay`.
fn contains_sub(hay: &Vec<char>, pat: &Vec<char>) -> (b: bool)
    ensures
        b == spec_contains(hay@, pat@),
{
    proof {
        lemma_find_pat(hay@, pat@, 0);
    }
    match find_pat_from(hay, pat, 0) {
        Some(j) => {
            assert(contains_at(hay@, j as int, pat@));
            true
        },
        None => {
            assert(!spec_contains(hay@, pat@)) by {
                if spec_contains(hay@, pat@) {
                    let j = choose|j: int| contains_at(hay@, j, pat@);
                    assert(j >= 0);
                }
            }
            false
        },
    }
}

/// The slice `v[from..to]` as its own `Vec`.
fn sub_vec(v: &Vec<char>, from: usize, to: usize) -> (r: Vec<char>)
    requires
        from <= to <= v@.len(),
    ensures
        r@ == v@.subrange(from as int, to as int),
{
    let mut r: Vec<char> = Vec::new();
    let mut i: usize = from;
    while i < to
        invariant
            from <= i <= to <= v@.len(),
            r@ == v@.subrange(from as int, i as int),
        decreases to - i,
    {
        r.push(v[i]);
        i = i + 1;
        assert(r@ =~= v@.subrange(from as int, i as int));
    }
    r
}

/// The HTTP version a banner announces: the text after the first
/// "HTTP/" anywhere in the banner, up to the next space on the marker's
/// own line, or to the end of that line, trimmed.
pub open spec fn http_version_of(s: Seq<char>) -> Option<Seq<char>> {
    let i = find_pat(s, "HTTP/"@, 0);
    if i < 0 {
        None
    } else {
        let after = s.skip(i + 5);
        let nl = find_char_from(after, '\n', 0);
        let part = if nl < 0 {
            after
        } else {
            after.take(nl)
        };
        let sp = find_char_from(part, ' ', 0);
        let ver = if sp < 0 {
            part
        } else {
            part.take(sp)
        };
        Some(trim_spec(ver))
    }
}

/// The SSH version a banner announces: the text after the first "SSH-"
/// anywhere in the banner, up to the next dash on the marker's own line,
/// else the next space, else the end of that line, trimmed.
pub open spec fn ssh_version_of(s: Seq<char>) -> Option<Seq<char>> {
    let i = find_pat(s, "SSH-"@, 0);
    if i < 0 {
        None
    } else {
        let after = s.skip(i + 4);
        let nl = find_char_from(after, '\n', 0);
        let part = if nl < 0 {
            after
        } else {
            after.take(nl)
        };
        let dash = find_char_from(part, '-', 0);
        let sp = find_char_from(part, ' ', 0);
        let ver = if dash >= 0 {
            part.take(dash)
        } else if sp >= 0 {
            part.take(sp)
        } else {
            part
        };
        Some(trim_spec(ver))
    }
}

/// Extracts the HTTP version from a banner, per `http_version_of`.
pub fn extract_http_version(banner: &str) -> (r: Option<String>)
    ensures
        match r {
            Some(v) => http_version_of(banner@) == Some(v@),
            None => http_version_of(banner@) is None,
        },
{
    let cs = chars_of(banner);
    let pat = chars_of("HTTP/");
    proof {
        reveal_strlit("HTTP/");
    }
    match find_pat_from(&cs, &pat, 0) {
        None => None,
        Some(i) => {
            let n = cs.len();
            let after = sub_vec(&cs, i + 5, n);
            proof {
                assert(after@ =~= banner@.skip(i + 5));
            }
            let part = match find_char(&after, '\n', 0) {
                Some(nl) => sub_vec(&after, 0, nl),
                None => after,
            };
            proof {
                let nls = find_char_from(banner@.skip(i + 5), '\n', 0);
                if nls >= 0 {
                    assert(part@ =~= banner@.skip(i + 5).take(nls));
                }
            }
            let ver = match find_char(&part, ' ', 0) {
                Some(sp) => sub_vec(&part, 0, sp),
                None => part,
            };
            let t = trim_chars(&ver);
            Some(string_of_chars(&t))
        },
    }
}

/// Extracts the SSH version from a banner, per `ssh_version_of`.
pub fn extract_ssh_version(banner: &str) -> (r: Option<String>)
    ensures
        match r {
            Some(v) => ssh_version_of(banner@) == Some(v@),
            None => ssh_version_of(banner@) is None,
        },
{
    let cs = chars_of(banner);
    let pat = chars_of("SSH-");
    proof {
        reveal_strlit("SSH-");
    }
    match find_pat_from(&cs, &pat, 0) {
        None => None,
        Some(i) => {
            let n = cs.len();
            let after = sub_vec(&cs, i + 4, n);
            proof {
                assert(after@ =~= banner@.skip(i + 4));
            }
            let part = match find_char(&after, '\n', 0) {
                Some(nl) => sub_vec(&after, 0, nl),
                None => after,
            };
            proof {
                let nls = find_char_from(banner@.skip(i + 4), '\n', 0);
                if nls >= 0 {
                    assert(part@ =~= banner@.skip(i + 4).take(nls));
                }
            }
            let dash = find_char(&part, '-', 0);
            let sp = find_char(&part, ' ', 0);
            let ver = match dash {
                Some(d) => sub_vec(&part, 0, d),
                None => match sp {
                    Some(p) => sub_vec(&part, 0, p),
                    None => part,
                },
            };
            let t = trim_chars(&ver);
            Some(string_of_chars(&t))
        },
    }
}

/// The service a banner announces, first match winning: "HTTP/", then
/// "SSH-", then an FTP or SMTP greeting, then Telnet, else "Unknown".
pub open spec fn service_of(s: Seq<char>) -> Seq<char> {
    let low = lower_seq(s);
    if spec_contains(s, "HTTP/"@) {
        "HTTP"@
    } else if spec_contains(s, "SSH-"@) {
        "SSH"@
    } else if spec_contains(s, "220"@) && spec_contains(low, "ftp"@) {
        "FTP"@
    } else if spec_contains(s, "220"@) && spec_contains(low, "smtp"@) {
        "SMTP"@
    } else if spec_contains(low, "telnet"@) {
        "Telnet"@
    } else {
        "Unknown"@
    }
}

/// The version a banner announces, where its service carries one.
pub open spec fn version_of(s: Seq<char>) -> Option<Seq<char>> {
    if spec_contains(s, "HTTP/"@) {
        http_version_of(s)
    } else if spec_contains(s, "SSH-"@) {
        ssh_version_of(s)
    } else {
        None
    }
}

/// Classifies a banner into a service name and optional version, per
/// `service_of` and `version_of`.
pub fn parse_banner(banner: &str) -> (r: (String, Option<String>))
    ensures
        r.0@ == service_of(banner@),
        match r.1 {
            Some(v) => version_of(banner@) == Some(v@),
            None => version_of(banner@) is None,
        },
{
    let cs = chars_of(banner);
    let low = lower_chars(&cs);
    if contains_sub(&cs, &chars_of("HTTP/")) {
        let ver = extract_http_version(banner);
        (String::from_str("HTTP"), ver)
    } else if contains_sub(&cs, &chars_of("SSH-")) {
        let ver = extract_ssh_version(banner);
        (String::from_str("SSH"), ver)
    } else if contains_sub(&cs, &chars_of("220")) && contains_sub(&low, &chars_of("ftp")) {
        (String::from_str("FTP"), None)
    } else if contains_sub(&cs, &chars_of("220")) && contains_sub(&low, &chars_of("smtp")) {
        (String::from_str("SMTP"), None)
    } else if contains_sub(&low, &chars_of("telnet")) {
        (String::from_str("Telnet"), None)
    } else {
        (String::from_str("Unknown"), None)
    }
}

/// Whether an open port should be fingerprinted: only when detection is
/// requested, and never for a closed port.
pub fn should_fingerprint(open: bool, service_detection: bool) -> (r: bool)
    ensures
        r == (open && service_detection),
        !open ==> !r,
{
    open && service_detection
}

/// Classifies an active probe's response: the banner classification when
/// it recognizes a service, else the probe's own name with no version.
pub fn classify_probe_response(probe_name: &str, response: &str) -> (r: (String, Option<String>))
    ensures
        service_of(response@) != "Unknown"@ ==> r.0@ == service_of(response@) && (match r.1 {
            Some(v) => version_of(response@) == Some(v@),
            None => version_of(response@) is None,
        }),
        service_of(response@) == "Unknown"@ ==> r.0@ == probe_name@ && r.1 is None,
{
    let (svc, ver) = parse_banner(response);
    let unknown = String::from_str("Unknown");
    if !svc.eq(&unknown) {
        (svc, ver)
    } else {
        (String::from_str(probe_name), None)
    }
}

/// Where a fingerprinting session stands: waiting for the unsolicited
/// banner, waiting for one active probe's response, or settled.
pub enum FingerprintState {
    /// A fresh connection should be opened to wait for a banner.
    Passive,
    /// A fresh connection should be opened to send the probe of this
    /// index and read the response.
    Probing(usize),
    /// The classification is settled.
    Done(Option<String>, Option<String>),
}

/// What one connection attempt of a session came to.
pub enum FingerprintEvent {
    /// The connection could not be opened, or the probe not sent.
    ConnectFailed,
    /// The connection worked but the read yielded no bytes.
    NoData,
    /// The read yielded this text.
    Data(String),
}

/// The name of the probe at `i`, in the fixed probe order.
pub open spec fn spec_probe_name(i: int) -> Seq<char> {
    if i == 0 {
        "HTTP"@
    } else if i == 1 {
        "FTP"@
    } else {
        "SSH"@
    }
}

/// How many connection attempts a session may still make.
pub open spec fn fingerprint_measure(s: FingerprintState) -> int {
    match s {
        FingerprintState::Passive => 4,
        FingerprintState::Probing(i) => 3 - i,
        FingerprintState::Done(_, _) => 0,
    }
}

/// A session state a driver can be in: settled states carry no work, and
/// a probe index stays within the fixed probe set.
pub open spec fn fingerprint_state_ok(s: FingerprintState) -> bool {
    match s {
        FingerprintState::Probing(i) => i < 3,
        _ => true,
    }
}

/// Advances a fingerprinting session by one connection attempt's outcome:
/// a banner classifies at once, even as "Unknown"; a silent passive
/// connection starts the active probes in their fixed order; a probe's
/// response classifies, falling back to the probe's own name, and ends
/// the session; a failed or silent probe passes to the next, and after
/// the last the session settles undetermined. Every step brings the
/// session strictly closer to its worst-case bound of one passive and
/// three active attempts.
pub fn fingerprint_step(state: FingerprintState, event: FingerprintEvent) -> (next:
    FingerprintState)
    requires
        fingerprint_state_ok(state),
        !(state is Done),
    ensures
        fingerprint_state_ok(next),
        fingerprint_measure(next) < fingerprint_measure(state),
        match state {
            FingerprintState::Passive => match event {
                FingerprintEvent::ConnectFailed => next == FingerprintState::Done(
                    None::<String>,
                    None::<String>,
                ),
                FingerprintEvent::NoData => next == FingerprintState::Probing(0usize),
                FingerprintEvent::Data(d) => {
                    &&& next matches FingerprintState::Done(Some(svc), ver)
                    &&& svc@ == service_of(d@)
                    &&& (match ver {
                        Some(v) => version_of(d@) == Some(v@),
                        None => version_of(d@) is None,
                    })
                },
            },
            FingerprintState::Probing(i) => match event {
                FingerprintEvent::Data(d) => {
                    &&& next matches FingerprintState::Done(Some(svc), ver)
                    &&& (if service_of(d@) != "Unknown"@ {
                        svc@ == service_of(d@) && (match ver {
                            Some(v) => version_of(d@) == Some(v@),
                            None => version_of(d@) is None,
                        })
                    } else {
                        svc@ == spec_probe_name(i as int) && ver is None
                    })
                },
                _ => {
                    if i + 1 < 3 {
                        next == FingerprintState::Probing((i + 1) as usize)
                    } else {
                        next == FingerprintState::Done(None::<String>, None::<String>)
                    }
                },
            },
            FingerprintState::Done(_, _) => true,
        },
{
    match state {
        FingerprintState::Passive => match event {
            FingerprintEvent::ConnectFailed => FingerprintState::Done(None, None),
            FingerprintEvent::NoData => FingerprintState::Probing(0),
            FingerprintEvent::Data(d) => {
                let (svc, ver) = parse_banner(d.as_str());
                FingerprintState::Done(Some(svc), ver)
            },
        },
        FingerprintState::Probing(i) => match event {
            FingerprintEvent::Data(d) => {
                let name: &str = if i == 0 {
                    "HTTP"
                } else if i == 1 {
                    "FTP"
                } else {
                    "SSH"
                };
                let (svc, ver) = classify_probe_response(name, d.as_str());
                FingerprintState::Done(Some(svc), ver)
            },
            _ => {
                if i + 1 < 3 {
                    FingerprintState::Probing(i + 1)
                } else {
                    FingerprintState::Done(None, None)
                }
            },
        },
        FingerprintState::Done(svc, ver) => FingerprintState::Done(svc, ver),
    }
}

/// What the probe at `i` sends, in the fixed probe order: an HTTP
/// request line, an FTP USER command, then an SSH identification string.
pub open spec fn spec_probe_payload(i: int) -> Seq<char> {
    if i == 0 {
        "GET / HTTP/1.0\r\n\r\n"@
    } else if i == 1 {
        "USER anonymous\r\n"@
    } else {
        "SSH-2.0-Ruscan\r\n"@
    }
}

/// The payload the probe at `i` sends over its fresh connection.
pub fn probe_payload(i: usize) -> (r: String)
    requires
        i < 3,
    ensures
        r@ == spec_probe_payload(i as int),
{
    if i == 0 {
        String::from_str("GET / HTTP/1.0\r\n\r\n")
    } else if i == 1 {
        String::from_str("USER anonymous\r\n")
    } else {
        String::from_str("SSH-2.0-Ruscan\r\n")
    }
}

/// The names of the active probes, in the order they are tried.
pub fn probe_names() -> (r: Vec<String>)
    ensures
        r@.len() == 3,
        r@[0]@ == "HTTP"@,
        r@[1]@ == "FTP"@,
        r@[2]@ == "SSH"@,
{
    let mut v: Vec<String> = Vec::new();
    v.push(String::from_str("HTTP"));
    v.push(String::from_str("FTP"));
    v.push(String::from_str("SSH"));
    v
}

} // verus!
