//! Port-set building: a single port, a dash range, and a comma list are
//! gathered in that order and deduplicated; when no source yields a port,
//! a fixed default list of common ports takes their place.

use vstd::prelude::*;
use crate::strutil::{split_on, split_chars, chars_of, trim_spec, trim_chars};
use crate::ip::{all_dec_digits, dec_val, dec_digit_val, is_dec_digit, lemma_dec_val_bound};
use crate::errors::{SetupError, SetupErrorKind};

verus! {

/// The port number written by `t`: an optional leading '+', then decimal
/// digits whose value fits 16 bits, as `u16::from_str` reads it.
pub open spec fn spec_parse_u16(t: Seq<char>) -> Option<u16> {
    let body = if t.len() > 0 && t[0] == '+' {
        t.skip(1)
    } else {
        t
    };
    if body.len() >= 1 && all_dec_digits(body) && dec_val(body) <= 65535 {
        Some((dec_val(body) as u16))
    } else {
        None
    }
}

/// A digit prefix never exceeds the value of the whole digit string.
proof fn lemma_dec_val_monotone(t: Seq<char>, i: int)
    requires
        all_dec_digits(t),
        0 <= i <= t.len(),
    ensures
        dec_val(t.take(i)) <= dec_val(t),
    decreases t.len() - i,
{
    if i < t.len() {
        lemma_dec_val_monotone(t, i + 1);
        let u = t.take(i + 1);
        assert(u.drop_last() =~= t.take(i));
        assert(all_dec_digits(u.drop_last()));
        assert(is_dec_digit(u.last()));
        lemma_dec_val_bound(u.drop_last());
        assert(dec_val(u) == dec_val(t.take(i)) * 10 + dec_digit_val(u.last()));
        assert(dec_val(t.take(i)) >= 0);
        assert(dec_digit_val(u.last()) >= 0);
        assert(dec_val(u) >= dec_val(t.take(i)));
    } else {
        assert(t.take(i) =~= t);
    }
}

/// Parses a port token, mirroring `spec_parse_u16`.
pub fn parse_port_token(t: &Vec<char>) -> (r: Option<u16>)
    ensures
        r == spec_parse_u16(t@),
{
    let ghost whole = t@;
    let start: usize = if t.len() > 0 && t[0] == '+' {
        1
    } else {
        0
    };
    let ghost body = if whole.len() > 0 && whole[0] == '+' {
        whole.skip(1)
    } else {
        whole
    };
    if t.len() == start {
        assert(body.len() == 0);
        return None;
    }
    let mut val: u32 = 0;
    let mut i: usize = start;
    while i < t.len()
        invariant
            start <= i <= t@.len(),
            start == 0 || start == 1,
            (start == 1) <==> (t@.len() > 0 && t@[0] == '+'),
            body == (if start == 1 {
                t@.skip(1)
            } else {
                t@
            }),
            body.len() == t@.len() - start,
            forall|k: int| 0 <= k < body.len() ==> body[k] == t@[k + start],
            all_dec_digits(body.take(i - start)),
            val as int == dec_val(body.take(i - start)),
            val <= 65535,
        decreases t@.len() - i,
    {
        let c = t[i];
        if c < '0' || c > '9' {
            assert(body[i - start] == t@[i as int]);
            assert(!is_dec_digit(body[i - start]));
            return None;
        }
        let d: u32 = (c as u32) - 48;
        proof {
            assert(body.take(i - start + 1).drop_last() =~= body.take(i - start));
            assert(body.take(i - start + 1).last() == body[i - start]);
            assert(body[i - start] == t@[i as int]);
        }
        val = val * 10 + d;
        i = i + 1;
        proof {
            assert(all_dec_digits(body.take(i - start)));
        }
        if val > 65535 {
            proof {
                if all_dec_digits(body) {
                    lemma_dec_val_monotone(body, i - start);
                    assert(dec_val(body) > 65535);
                }
                assert(spec_parse_u16(t@) is None);
            }
            return None;
        }
    }
    assert(body.take(body.len() as int) =~= body);
    Some(val as u16)
}

/// The ports named by a part list, malformed parts skipped.
pub open spec fn ports_of_parts(parts: Seq<Seq<char>>) -> Seq<u16>
    decreases parts.len(),
{
    if parts.len() == 0 {
        Seq::empty()
    } else {
        let rest = ports_of_parts(parts.drop_last());
        match spec_parse_u16(trim_spec(parts.last())) {
            Some(p) => rest.push(p),
            None => rest,
        }
    }
}

/// The ports named by comma-list text, malformed tokens silently skipped.
pub open spec fn spec_port_list(s: Seq<char>) -> Seq<u16> {
    ports_of_parts(split_on(s, ','))
}

/// Reads a comma-separated port list; a token that does not parse as a
/// 16-bit number is skipped, never an error.
pub fn parse_port_list(list_str: &str) -> (r: Vec<u16>)
    ensures
        r@ == spec_port_list(list_str@),
{
    let cs = chars_of(list_str);
    let parts = split_chars(&cs, ',');
    let ghost P = split_on(list_str@, ',');
    let mut out: Vec<u16> = Vec::new();
    let mut i: usize = 0;
    while i < parts.len()
        invariant
            i <= parts@.len(),
            parts@.len() == P.len(),
            forall|k: int| 0 <= k < P.len() ==> parts@[k]@ == P[k],
            out@ == ports_of_parts(P.take(i as int)),
        decreases parts@.len() - i,
    {
        let t = trim_chars(&parts[i]);
        proof {
            assert(P.take(i + 1 as int).drop_last() =~= P.take(i as int));
            assert(P.take(i + 1 as int).last() == P[i as int]);
        }
        match parse_port_token(&t) {
            Some(p) => {
                out.push(p);
            },
            None => {},
        }
        i = i + 1;
    }
    proof {
        assert(P.take(P.len() as int) =~= P);
    }
    out
}

/// The ports of range text "start-end": both tokens must be ports; the
/// list runs from start to end inclusive, empty when inverted.
pub open spec fn spec_port_range(s: Seq<char>) -> Option<Seq<u16>> {
    let parts = split_on(s, '-');
    if parts.len() == 2 {
        match (spec_parse_u16(parts[0]), spec_parse_u16(parts[1])) {
            (Some(a), Some(b)) => Some(
                Seq::new(
                    if a <= b {
                        (b - a + 1) as nat
                    } else {
                        0
                    },
                    |k: int| (a + k) as u16,
                ),
            ),
            _ => None,
        }
    } else {
        None
    }
}

/// Reads a port range; malformed range text is a fatal setup error.
pub fn parse_port_range(range_str: &str) -> (r: Result<Vec<u16>, SetupError>)
    ensures
        match r {
            Ok(v) => spec_port_range(range_str@) == Some(v@),
            Err(e) => {
                &&& spec_port_range(range_str@) is None
                &&& e.kind == SetupErrorKind::InvalidRange
                &&& e.input@ == range_str@
            },
        },
{
    let cs = chars_of(range_str);
    let parts = split_chars(&cs, '-');
    if parts.len() != 2 {
        return Err(SetupError::new(SetupErrorKind::InvalidRange, range_str));
    }
    let a = match parse_port_token(&parts[0]) {
        Some(a) => a,
        None => {
            return Err(SetupError::new(SetupErrorKind::InvalidRange, range_str));
        },
    };
    let b = match parse_port_token(&parts[1]) {
        Some(b) => b,
        None => {
            return Err(SetupError::new(SetupErrorKind::InvalidRange, range_str));
        },
    };
    let ghost expected = spec_port_range(range_str@)->0;
    let mut out: Vec<u16> = Vec::new();
    if a <= b {
        let mut cur: u32 = a as u32;
        while cur <= b as u32
            invariant
                a <= b,
                a as u32 <= cur <= b as u32 + 1,
                expected.len() == b - a + 1,
                forall|k: int| 0 <= k < expected.len() ==> expected[k] == (a + k) as u16,
                out@.len() == cur - a,
                forall|k: int| 0 <= k < out@.len() ==> out@[k] == expected[k],
            decreases b as u32 + 1 - cur,
        {
            out.push(cur as u16);
            cur = cur + 1;
        }
    }
    proof {
        assert(out@ =~= expected);
    }
    Ok(out)
}

/// The fixed list of common ports scanned when none is named.
pub open spec fn spec_default_ports() -> Seq<u16> {
    seq![21u16, 22u16, 23u16, 25u16, 53u16, 80u16, 110u16, 143u16, 443u16, 993u16, 995u16,
        3306u16, 3389u16, 5432u16, 8080u16]
}

/// The default common ports.
pub fn default_ports() -> (r: Vec<u16>)
    ensures
        r@ == spec_default_ports(),
{
    let mut v: Vec<u16> = Vec::new();
    v.push(21);
    v.push(22);
    v.push(23);
    v.push(25);
    v.push(53);
    v.push(80);
    v.push(110);
    v.push(143);
    v.push(443);
    v.push(993);
    v.push(995);
    v.push(3306);
    v.push(3389);
    v.push(5432);
    v.push(8080);
    proof {
        assert(v@ =~= spec_default_ports());
    }
    v
}

/// `s` with every later repetition of a port removed.
pub open spec fn dedup_ports(s: Seq<u16>) -> Seq<u16>
    decreases s.len(),
{
    if s.len() == 0 {
        Seq::empty()
    } else {
        let rest = dedup_ports(s.drop_last());
        if rest.contains(s.last()) {
            rest
        } else {
            rest.push(s.last())
        }
    }
}

/// The built port set is a true union: it holds each gathered port
/// exactly once, and nothing else.
pub proof fn lemma_dedup_ports_is_a_set(s: Seq<u16>)
    ensures
        forall|i: int, j: int|
            0 <= i < j < dedup_ports(s).len() ==> dedup_ports(s)[i] != dedup_ports(s)[j],
        forall|p: u16| #[trigger] dedup_ports(s).contains(p) <==> s.contains(p),
    decreases s.len(),
{
    let r = dedup_ports(s);
    if s.len() == 0 {
        assert forall|p: u16| #[trigger] r.contains(p) <==> s.contains(p) by {
            if r.contains(p) {
                let k = choose|k: int| 0 <= k < r.len() && r[k] == p;
            }
            if s.contains(p) {
                let k = choose|k: int| 0 <= k < s.len() && s[k] == p;
            }
        }
    } else {
        let d = s.drop_last();
        let last = s.last();
        lemma_dedup_ports_is_a_set(d);
        let r0 = dedup_ports(d);
        assert forall|p: u16| #[trigger] s.contains(p) <==> (d.contains(p) || p == last) by {
            if s.contains(p) {
                let k = choose|k: int| 0 <= k < s.len() && s[k] == p;
                if k < s.len() - 1 {
                    assert(d[k] == p);
                    assert(d.contains(p));
                }
            }
            if d.contains(p) {
                let k = choose|k: int| 0 <= k < d.len() && d[k] == p;
                assert(s[k] == p);
            }
            if p == last {
                assert(s[s.len() - 1] == p);
            }
        }
        if r0.contains(last) {
            assert(r == r0);
        } else {
            assert(r == r0.push(last));
            assert forall|i: int, j: int| 0 <= i < j < r.len() implies r[i] != r[j] by {
                if j < r0.len() {
                    assert(r[i] == r0[i] && r[j] == r0[j]);
                } else {
                    assert(r[j] == last);
                    assert(r[i] == r0[i]);
                    assert(r0.contains(r0[i]));
                }
            }
            assert forall|p: u16| #[trigger] r.contains(p) <==> s.contains(p) by {
                if r.contains(p) {
                    let k = choose|k: int| 0 <= k < r.len() && r[k] == p;
                    if k < r0.len() {
                        assert(r0[k] == p);
                        assert(r0.contains(p));
                    } else {
                        assert(p == last);
                    }
                }
                if s.contains(p) {
                    if d.contains(p) {
                        assert(r0.contains(p));
                        let k = choose|k: int| 0 <= k < r0.len() && r0[k] == p;
                        assert(r[k] == p);
                    } else {
                        assert(p == last);
                        assert(r[r.len() - 1] == p);
                    }
                }
            }
        }
    }
}

/// Whether `v` holds `x`.
fn vec_contains_u16(v: &Vec<u16>, x: u16) -> (b: bool)
    ensures
        b == v@.contains(x),
{
    let mut i: usize = 0;
    while i < v.len()
        invariant
            i <= v@.len(),
            forall|k: int| 0 <= k < i ==> v@[k] != x,
        decreases v@.len() - i,
    {
        if v[i] == x {
            return true;
        }
        i = i + 1;
    }
    false
}

/// Removes later repetitions, mirroring `dedup_ports`.
fn dedup_vec(s: &Vec<u16>) -> (r: Vec<u16>)
    ensures
        r@ == dedup_ports(s@),
{
    let mut out: Vec<u16> = Vec::new();
    let mut i: usize = 0;
    while i < s.len()
        invariant
            i <= s@.len(),
            out@ == dedup_ports(s@.take(i as int)),
        decreases s@.len() - i,
    {
        proof {
            assert(s@.take(i + 1 as int).drop_last() =~= s@.take(i as int));
            assert(s@.take(i + 1 as int).last() == s@[i as int]);
        }
        if !vec_contains_u16(&out, s[i]) {
            out.push(s[i]);
        }
        i = i + 1;
    }
    proof {
        assert(s@.take(s@.len() as int) =~= s@);
    }
    out
}

/// The view of an optional text argument.
pub open spec fn opt_text(o: Option<&str>) -> Option<Seq<char>> {
    match o {
        Some(s) => Some(s@),
        None => None,
    }
}

/// Every port the explicit sources name, in source order: the single
/// port, then the range, then the list.
pub open spec fn gathered_ports(
    single: Option<u16>,
    range_text: Option<Seq<char>>,
    list_text: Option<Seq<char>>,
) -> Seq<u16> {
    (match single {
        Some(p) => seq![p],
        None => Seq::empty(),
    }) + (match range_text {
        Some(s) => spec_port_range(s)->0,
        None => Seq::empty(),
    }) + (match list_text {
        Some(s) => spec_port_list(s),
        None => Seq::empty(),
    })
}

/// Builds the port set from the supplied sources: their union in source
/// order without repetitions, or the default list — flagged by the second
/// result — when the sources yield nothing. Only malformed range text is
/// an error.
pub fn build_ports(single: Option<u16>, range_str: Option<&str>, list_str: Option<&str>) -> (r:
    Result<(Vec<u16>, bool), SetupError>)
    ensures
        match r {
            Ok((v, used_default)) => {
                &&& (range_str matches Some(s) ==> spec_port_range(s@) is Some)
                &&& ({
                    let base = dedup_ports(
                        gathered_ports(single, opt_text(range_str), opt_text(list_str)),
                    );
                    if base.len() == 0 {
                        v@ == spec_default_ports() && used_default
                    } else {
                        v@ == base && !used_default
                    }
                })
            },
            Err(e) => {
                &&& range_str matches Some(s)
                &&& spec_port_range(s@) is None
                &&& e.kind == SetupErrorKind::InvalidRange
                &&& e.input@ == s@
            },
        },
{
    let mut base: Vec<u16> = Vec::new();
    match single {
        Some(p) => {
            base.push(p);
        },
        None => {},
    }
    let ghost after_single = base@;
    match range_str {
        Some(s) => {
            let mut ranged = match parse_port_range(s) {
                Ok(v) => v,
                Err(e) => {
                    return Err(e);
                },
            };
            base.append(&mut ranged);
        },
        None => {},
    }
    let ghost after_range = base@;
    match list_str {
        Some(s) => {
            let mut listed = parse_port_list(s);
            base.append(&mut listed);
        },
        None => {},
    }
    proof {
        assert(base@ =~= gathered_ports(single, opt_text(range_str), opt_text(list_str)));
    }
    let uniq = dedup_vec(&base);
    if uniq.len() == 0 {
        Ok((default_ports(), true))
    } else {
        Ok((uniq, false))
    }
}

} // verus!
