//! Scan results and their rendering. A `ScanResult` records one probe's
//! outcome; the `ReportGenerator` accumulates results and renders them as
//! plain text, JSON, CSV, or an HTML table. Writing the rendered text to
//! a file or the console stays with the caller.

use vstd::prelude::*;
use crate::ip::{dec_str, push_dec, hex_digit_char};
use crate::strutil::{lower_seq, lower_chars, chars_of, string_of_chars};

verus! {

/// One probe's outcome: the host and port, whether the port was open, and
/// the fingerprinted service and version when known.
#[derive(Debug, Clone)]
pub struct ScanResult {
    pub host: String,
    pub port: u16,
    pub status: String,
    pub service: Option<String>,
    pub version: Option<String>,
}

/// Accumulates results and renders the report.
pub struct ReportGenerator {
    pub results: Vec<ScanResult>,
}

/// The status a result records for a connection attempt's outcome:
/// "open" when the connection was accepted, "closed" for refusal,
/// timeout, and unreachability alike.
pub fn status_label(open: bool) -> (r: String)
    ensures
        open ==> r@ == "open"@,
        !open ==> r@ == "closed"@,
{
    if open {
        String::from_str("open")
    } else {
        String::from_str("closed")
    }
}

/// The parenthesized service annotation of the text format.
pub open spec fn text_info(service: Option<String>, version: Option<String>) -> Seq<char> {
    match service {
        Some(s) => match version {
            Some(v) => " ("@ + s@ + "/"@ + v@ + ")"@,
            None => " ("@ + s@ + ")"@,
        },
        None => Seq::empty(),
    }
}

/// One line of the text format.
pub open spec fn text_line(r: ScanResult) -> Seq<char> {
    r.host@ + ":"@ + dec_str(r.port as int) + " - "@ + r.status@ + " "@ + text_info(
        r.service,
        r.version,
    ) + "\n"@
}

/// The text format: one line per result.
pub open spec fn render_text(rs: Seq<ScanResult>) -> Seq<char>
    decreases rs.len(),
{
    if rs.len() == 0 {
        Seq::empty()
    } else {
        render_text(rs.drop_last()) + text_line(rs.last())
    }
}

/// How one character is written inside a JSON string.
pub open spec fn json_escape_char(c: char) -> Seq<char> {
    if c == '"' {
        seq!['\\', '"']
    } else if c == '\\' {
        seq!['\\', '\\']
    } else if c == '\n' {
        seq!['\\', 'n']
    } else if c == '\r' {
        seq!['\\', 'r']
    } else if c == '\t' {
        seq!['\\', 't']
    } else if c as int == 8 {
        seq!['\\', 'b']
    } else if c as int == 12 {
        seq!['\\', 'f']
    } else if (c as int) < 32 {
        seq!['\\', 'u', '0', '0', hex_digit_char((c as int) / 16), hex_digit_char((c as int) % 16)]
    } else {
        seq![c]
    }
}

/// A string's characters as JSON writes them.
pub open spec fn json_escape(s: Seq<char>) -> Seq<char>
    decreases s.len(),
{
    if s.len() == 0 {
        Seq::empty()
    } else {
        json_escape(s.drop_last()) + json_escape_char(s.last())
    }
}

/// An optional string as a JSON value: quoted, or `null`.
pub open spec fn json_opt(o: Option<String>) -> Seq<char> {
    match o {
        Some(s) => "\""@ + json_escape(s@) + "\""@,
        None => "null"@,
    }
}

/// One result as a pretty-printed JSON object.
pub open spec fn json_record(r: ScanResult) -> Seq<char> {
    "{\n    \"host\": \""@ + json_escape(r.host@) + "\",\n    \"port\": "@ + dec_str(r.port as int)
        + ",\n    \"status\": \""@ + json_escape(r.status@) + "\",\n    \"service\": "@ + json_opt(
        r.service,
    ) + ",\n    \"version\": "@ + json_opt(r.version) + "\n  }"@
}

/// The records joined with the separator of a pretty-printed array.
pub open spec fn json_records(rs: Seq<ScanResult>) -> Seq<char>
    decreases rs.len(),
{
    if rs.len() == 0 {
        Seq::empty()
    } else if rs.len() == 1 {
        json_record(rs[0])
    } else {
        json_records(rs.drop_last()) + ",\n  "@ + json_record(rs.last())
    }
}

/// The JSON format: a pretty-printed array of records.
pub open spec fn render_json(rs: Seq<ScanResult>) -> Seq<char> {
    if rs.len() == 0 {
        "[]"@
    } else {
        "[\n  "@ + json_records(rs) + "\n]"@
    }
}

/// Whether a CSV field must be quoted.
pub open spec fn csv_needs_quote(s: Seq<char>) -> bool {
    s.contains(',') || s.contains('"') || s.contains('\n') || s.contains('\r')
}

/// A quoted CSV field's body: every quote doubled.
pub open spec fn csv_escape(s: Seq<char>) -> Seq<char>
    decreases s.len(),
{
    if s.len() == 0 {
        Seq::empty()
    } else {
        csv_escape(s.drop_last()) + (if s.last() == '"' {
            seq!['"', '"']
        } else {
            seq![s.last()]
        })
    }
}

/// A CSV field, quoted exactly when it needs to be.
pub open spec fn csv_field(s: Seq<char>) -> Seq<char> {
    if csv_needs_quote(s) {
        seq!['"'] + csv_escape(s) + seq!['"']
    } else {
        s
    }
}

/// The text of an optional field, empty when absent.
pub open spec fn opt_or_empty(o: Option<String>) -> Seq<char> {
    match o {
        Some(s) => s@,
        None => Seq::empty(),
    }
}

/// One result as a CSV record.
pub open spec fn csv_row(r: ScanResult) -> Seq<char> {
    csv_field(r.host@) + ","@ + dec_str(r.port as int) + ","@ + csv_field(r.status@) + ","@
        + csv_field(opt_or_empty(r.service)) + ","@ + csv_field(opt_or_empty(r.version)) + "\n"@
}

pub open spec fn csv_rows(rs: Seq<ScanResult>) -> Seq<char>
    decreases rs.len(),
{
    if rs.len() == 0 {
        Seq::empty()
    } else {
        csv_rows(rs.drop_last()) + csv_row(rs.last())
    }
}

/// The CSV format: a header line, then one record per result.
pub open spec fn render_csv(rs: Seq<ScanResult>) -> Seq<char> {
    "Host,Port,Status,Service,Version\n"@ + csv_rows(rs)
}

/// The text of an optional field, "N/A" when absent.
pub open spec fn opt_or_na(o: Option<String>) -> Seq<char> {
    match o {
        Some(s) => s@,
        None => "N/A"@,
    }
}

/// One result as an HTML table row.
pub open spec fn html_row(r: ScanResult) -> Seq<char> {
    "        <tr>\n            <td>"@ + r.host@ + "</td>\n            <td>"@ + dec_str(
        r.port as int,
    ) + "</td>\n            <td class=\""@ + (if r.status@ == "open"@ {
        "open"@
    } else {
        "closed"@
    }) + "\">"@ + r.status@ + "</td>\n            <td>"@ + opt_or_na(r.service)
        + "</td>\n            <td>"@ + opt_or_na(r.version) + "</td>\n        </tr>\n"@
}

pub open spec fn html_rows(rs: Seq<ScanResult>) -> Seq<char>
    decreases rs.len(),
{
    if rs.len() == 0 {
        Seq::empty()
    } else {
        html_rows(rs.drop_last()) + html_row(rs.last())
    }
}

/// The page that opens the HTML report's table.
pub open spec fn html_head() -> Seq<char> {
    "<!DOCTYPE html>\n<html>\n<head>\n    <title>Ruscan Scan Results</title>\n    <style>\n        body { font-family: Arial, sans-serif; margin: 20px; }\n        table { border-collapse: collapse; width: 100%; }\n        th, td { border: 1px solid #ddd; padding: 8px; text-align: left; }\n        th { background-color: #4CAF50; color: white; }\n        tr:nth-child(even) { background-color: #f2f2f2; }\n        .open { color: green; font-weight: bold; }\n        .closed { color: red; }\n    </style>\n</head>\n<body>\n    <h1>Ruscan Scan Results</h1>\n    <table>\n        <tr>\n            <th>Host</th>\n            <th>Port</th>\n            <th>Status</th>\n            <th>Service</th>\n            <th>Version</th>\n        </tr>\n"@
}

/// The HTML format: the page head, one row per result, and the closing
/// tags.
pub open spec fn render_html(rs: Seq<ScanResult>) -> Seq<char> {
    html_head() + html_rows(rs) + "    </table>\n</body>\n</html>"@
}

/// Appends one character as JSON escapes it.
fn push_json_char(s: &mut String, c: char)
    ensures
        final(s)@ == old(s)@ + json_escape_char(c),
{
    if c == '"' {
        s.push('\\');
        s.push('"');
        assert(final(s)@ =~= old(s)@ + json_escape_char(c));
    } else if c == '\\' {
        s.push('\\');
        s.push('\\');
        assert(final(s)@ =~= old(s)@ + json_escape_char(c));
    } else if c == '\n' {
        s.push('\\');
        s.push('n');
        assert(final(s)@ =~= old(s)@ + json_escape_char(c));
    } else if c == '\r' {
        s.push('\\');
        s.push('r');
        assert(final(s)@ =~= old(s)@ + json_escape_char(c));
    } else if c == '\t' {
        s.push('\\');
        s.push('t');
        assert(final(s)@ =~= old(s)@ + json_escape_char(c));
    } else if (c as u32) == 8 {
        s.push('\\');
        s.push('b');
        assert(final(s)@ =~= old(s)@ + json_escape_char(c));
    } else if (c as u32) == 12 {
        s.push('\\');
        s.push('f');
        assert(final(s)@ =~= old(s)@ + json_escape_char(c));
    } else if (c as u32) < 32 {
        s.push('\\');
        s.push('u');
        s.push('0');
        s.push('0');
        let hi = (c as u32) / 16;
        let lo = (c as u32) % 16;
        s.push(((48 + hi) as u8) as char);
        if lo < 10 {
            s.push(((48 + lo) as u8) as char);
        } else {
            s.push(((87 + lo) as u8) as char);
        }
        assert(final(s)@ =~= old(s)@ + json_escape_char(c));
    } else {
        s.push(c);
        assert(final(s)@ =~= old(s)@ + json_escape_char(c));
    }
}

/// Appends a string as JSON escapes it.
fn push_json_escaped(s: &mut String, t: &String)
    ensures
        final(s)@ == old(s)@ + json_escape(t@),
{
    let cs = chars_of(t.as_str());
    let mut i: usize = 0;
    proof {
        assert(s@ =~= old(s)@ + json_escape(t@.take(0)));
    }
    while i < cs.len()
        invariant
            i <= cs@.len(),
            cs@ == t@,
            s@ == old(s)@ + json_escape(t@.take(i as int)),
        decreases cs@.len() - i,
    {
        let c = cs[i];
        proof {
            assert(t@.take(i + 1 as int).drop_last() =~= t@.take(i as int));
            assert(t@.take(i + 1 as int).last() == t@[i as int]);
        }
        push_json_char(s, c);
        i = i + 1;
        assert(s@ =~= old(s)@ + json_escape(t@.take(i as int)));
    }
    assert(t@.take(t@.len() as int) =~= t@);
}

/// Appends an optional string as a JSON value.
fn push_json_opt(s: &mut String, o: &Option<String>)
    ensures
        final(s)@ == old(s)@ + json_opt(*o),
{
    match o {
        Some(t) => {
            s.append("\"");
            push_json_escaped(s, t);
            s.append("\"");
            assert(final(s)@ =~= old(s)@ + json_opt(*o));
        },
        None => {
            s.append("null");
        },
    }
}

/// Appends one result as a pretty-printed JSON object.
fn push_json_record(s: &mut String, r: &ScanResult)
    ensures
        final(s)@ == old(s)@ + json_record(*r),
{
    s.append("{\n    \"host\": \"");
    push_json_escaped(s, &r.host);
    s.append("\",\n    \"port\": ");
    push_dec(s, r.port as u32);
    s.append(",\n    \"status\": \"");
    push_json_escaped(s, &r.status);
    s.append("\",\n    \"service\": ");
    push_json_opt(s, &r.service);
    s.append(",\n    \"version\": ");
    push_json_opt(s, &r.version);
    s.append("\n  }");
    assert(final(s)@ =~= old(s)@ + json_record(*r));
}

/// Appends a CSV field, quoting it when it needs quoting.
fn push_csv_field(s: &mut String, t: &String)
    ensures
        final(s)@ == old(s)@ + csv_field(t@),
{
    let cs = chars_of(t.as_str());
    let mut needs: bool = false;
    let mut i: usize = 0;
    while i < cs.len()
        invariant
            i <= cs@.len(),
            cs@ == t@,
            needs ==> csv_needs_quote(t@),
            !needs ==> forall|k: int|
                0 <= k < i ==> t@[k] != ',' && t@[k] != '"' && t@[k] != '\n' && t@[k] != '\r',
        decreases cs@.len() - i,
    {
        let c = cs[i];
        if c == ',' || c == '"' || c == '\n' || c == '\r' {
            needs = true;
        }
        i = i + 1;
    }
    proof {
        if !needs {
            assert(!csv_needs_quote(t@)) by {
                if t@.contains(',') {
                    let k = choose|k: int| 0 <= k < t@.len() && t@[k] == ',';
                }
                if t@.contains('"') {
                    let k = choose|k: int| 0 <= k < t@.len() && t@[k] == '"';
                }
                if t@.contains('\n') {
                    let k = choose|k: int| 0 <= k < t@.len() && t@[k] == '\n';
                }
                if t@.contains('\r') {
                    let k = choose|k: int| 0 <= k < t@.len() && t@[k] == '\r';
                }
            }
        }
    }
    if !needs {
        s.append(t.as_str());
    } else {
        s.push('"');
        let mut j: usize = 0;
        while j < cs.len()
            invariant
                j <= cs@.len(),
                cs@ == t@,
                csv_needs_quote(t@),
                s@ == old(s)@ + seq!['"'] + csv_escape(t@.take(j as int)),
            decreases cs@.len() - j,
        {
            let c = cs[j];
            proof {
                assert(t@.take(j + 1 as int).drop_last() =~= t@.take(j as int));
                assert(t@.take(j + 1 as int).last() == t@[j as int]);
            }
            if c == '"' {
                s.push('"');
                s.push('"');
            } else {
                s.push(c);
            }
            j = j + 1;
            assert(s@ =~= old(s)@ + seq!['"'] + csv_escape(t@.take(j as int)));
        }
        s.push('"');
        proof {
            assert(t@.take(t@.len() as int) =~= t@);
            assert(final(s)@ =~= old(s)@ + csv_field(t@));
        }
    }
}

/// Appends the text of an optional field, or nothing.
fn push_opt_or_empty_field(s: &mut String, o: &Option<String>)
    ensures
        final(s)@ == old(s)@ + csv_field(opt_or_empty(*o)),
{
    match o {
        Some(t) => {
            push_csv_field(s, t);
        },
        None => {
            proof {
                assert(!csv_needs_quote(Seq::<char>::empty()));
                assert(final(s)@ =~= old(s)@ + csv_field(opt_or_empty(*o)));
            }
        },
    }
}

/// Appends one result as a CSV record.
#[verifier::rlimit(50)]
fn push_csv_row(s: &mut String, r: &ScanResult)
    ensures
        final(s)@ == old(s)@ + csv_row(*r),
{
    push_csv_field(s, &r.host);
    s.append(",");
    push_dec(s, r.port as u32);
    s.append(",");
    push_csv_field(s, &r.status);
    s.append(",");
    push_opt_or_empty_field(s, &r.service);
    s.append(",");
    push_opt_or_empty_field(s, &r.version);
    s.append("\n");
    assert(final(s)@ =~= old(s)@ + csv_row(*r));
}

/// Appends one result as an HTML table row.
#[verifier::rlimit(50)]
fn push_html_row(s: &mut String, r: &ScanResult)
    ensures
        final(s)@ == old(s)@ + html_row(*r),
{
    s.append("        <tr>\n            <td>");
    s.append(r.host.as_str());
    s.append("</td>\n            <td>");
    push_dec(s, r.port as u32);
    s.append("</td>\n            <td class=\"");
    let open_name = String::from_str("open");
    if r.status.eq(&open_name) {
        s.append("open");
    } else {
        s.append("closed");
    }
    s.append("\">");
    s.append(r.status.as_str());
    s.append("</td>\n            <td>");
    match &r.service {
        Some(svc) => s.append(svc.as_str()),
        None => s.append("N/A"),
    }
    s.append("</td>\n            <td>");
    match &r.version {
        Some(ver) => s.append(ver.as_str()),
        None => s.append("N/A"),
    }
    s.append("</td>\n        </tr>\n");
    assert(final(s)@ =~= old(s)@ + html_row(*r));
}

impl ReportGenerator {
    /// An empty report.
    pub fn new() -> (g: ReportGenerator)
        ensures
            g.results@.len() == 0,
    {
        ReportGenerator { results: Vec::new() }
    }

    /// Records one result.
    pub fn add_result(&mut self, result: ScanResult)
        ensures
            final(self).results@ == old(self).results@.push(result),
    {
        self.results.push(result);
    }

    /// Renders the accumulated results as text.
    #[verifier::rlimit(50)]
    pub fn render_text_report(&self) -> (out: String)
        ensures
            out@ == render_text(self.results@),
    {
        let mut s = String::new();
        let mut i: usize = 0;
        while i < self.results.len()
            invariant
                i <= self.results@.len(),
                s@ == render_text(self.results@.take(i as int)),
            decreases self.results@.len() - i,
        {
            let r = &self.results[i];
            proof {
                assert(self.results@.take(i + 1 as int).drop_last() =~= self.results@.take(
                    i as int,
                ));
                assert(self.results@.take(i + 1 as int).last() == self.results@[i as int]);
            }
            s.append(r.host.as_str());
            s.append(":");
            push_dec(&mut s, r.port as u32);
            s.append(" - ");
            s.append(r.status.as_str());
            s.append(" ");
            match &r.service {
                Some(svc) => {
                    s.append(" (");
                    s.append(svc.as_str());
                    match &r.version {
                        Some(ver) => {
                            s.append("/");
                            s.append(ver.as_str());
                        },
                        None => {},
                    }
                    s.append(")");
                },
                None => {},
            }
            s.append("\n");
            i = i + 1;
            assert(s@ =~= render_text(self.results@.take(i as int)));
        }
        assert(self.results@.take(self.results@.len() as int) =~= self.results@);
        s
    }

    /// Renders the accumulated results as pretty-printed JSON.
    #[verifier::rlimit(50)]
    pub fn render_json_report(&self) -> (out: String)
        ensures
            out@ == render_json(self.results@),
    {
        if self.results.len() == 0 {
            return String::from_str("[]");
        }
        let mut s = String::new();
        s.append("[\n  ");
        let mut i: usize = 0;
        while i < self.results.len()
            invariant
                1 <= self.results@.len(),
                i <= self.results@.len(),
                i == 0 ==> s@ == "[\n  "@,
                i >= 1 ==> s@ == "[\n  "@ + json_records(self.results@.take(i as int)),
            decreases self.results@.len() - i,
        {
            proof {
                assert(self.results@.take(i + 1 as int).drop_last() =~= self.results@.take(
                    i as int,
                ));
                assert(self.results@.take(i + 1 as int).last() == self.results@[i as int]);
            }
            if i > 0 {
                s.append(",\n  ");
            }
            push_json_record(&mut s, &self.results[i]);
            i = i + 1;
            proof {
                let cur = self.results@.take(i as int);
                if i == 1 {
                    assert(cur.len() == 1);
                    assert(json_records(cur) == json_record(cur[0]));
                    assert(s@ =~= "[\n  "@ + json_records(cur));
                } else {
                    assert(s@ =~= "[\n  "@ + json_records(cur));
                }
            }
        }
        s.append("\n]");
        proof {
            assert(self.results@.take(self.results@.len() as int) =~= self.results@);
            assert(s@ =~= "[\n  "@ + json_records(self.results@) + "\n]"@);
        }
        s
    }

    /// Renders the accumulated results as CSV.
    #[verifier::rlimit(50)]
    pub fn render_csv_report(&self) -> (out: String)
        ensures
            out@ == render_csv(self.results@),
    {
        let mut s = String::new();
        s.append("Host,Port,Status,Service,Version\n");
        let mut i: usize = 0;
        proof {
            assert(s@ =~= "Host,Port,Status,Service,Version\n"@ + csv_rows(
                self.results@.take(0),
            ));
        }
        while i < self.results.len()
            invariant
                i <= self.results@.len(),
                s@ == "Host,Port,Status,Service,Version\n"@ + csv_rows(
                    self.results@.take(i as int),
                ),
            decreases self.results@.len() - i,
        {
            let r = &self.results[i];
            proof {
                assert(self.results@.take(i + 1 as int).drop_last() =~= self.results@.take(
                    i as int,
                ));
                assert(self.results@.take(i + 1 as int).last() == self.results@[i as int]);
            }
            push_csv_row(&mut s, r);
            i = i + 1;
            assert(s@ =~= "Host,Port,Status,Service,Version\n"@ + csv_rows(
                self.results@.take(i as int),
            ));
        }
        proof {
            assert(self.results@.take(self.results@.len() as int) =~= self.results@);
        }
        s
    }

    /// Renders the accumulated results as an HTML table.
    #[verifier::rlimit(50)]
    pub fn render_html_report(&self) -> (out: String)
        ensures
            out@ == render_html(self.results@),
    {
        let mut s = String::new();
        s.append(
            "<!DOCTYPE html>\n<html>\n<head>\n    <title>Ruscan Scan Results</title>\n    <style>\n        body { font-family: Arial, sans-serif; margin: 20px; }\n        table { border-collapse: collapse; width: 100%; }\n        th, td { border: 1px solid #ddd; padding: 8px; text-align: left; }\n        th { background-color: #4CAF50; color: white; }\n        tr:nth-child(even) { background-color: #f2f2f2; }\n        .open { color: green; font-weight: bold; }\n        .closed { color: red; }\n    </style>\n</head>\n<body>\n    <h1>Ruscan Scan Results</h1>\n    <table>\n        <tr>\n            <th>Host</th>\n            <th>Port</th>\n            <th>Status</th>\n            <th>Service</th>\n            <th>Version</th>\n        </tr>\n",
        );
        let mut i: usize = 0;
        proof {
            assert(s@ =~= html_head() + html_rows(self.results@.take(0)));
        }
        while i < self.results.len()
            invariant
                i <= self.results@.len(),
                s@ == html_head() + html_rows(self.results@.take(i as int)),
            decreases self.results@.len() - i,
        {
            let r = &self.results[i];
            proof {
                assert(self.results@.take(i + 1 as int).drop_last() =~= self.results@.take(
                    i as int,
                ));
                assert(self.results@.take(i + 1 as int).last() == self.results@[i as int]);
            }
            push_html_row(&mut s, r);
            i = i + 1;
            assert(s@ =~= html_head() + html_rows(self.results@.take(i as int)));
        }
        s.append("    </table>\n</body>\n</html>");
        proof {
            assert(self.results@.take(self.results@.len() as int) =~= self.results@);
            assert(s@ =~= render_html(self.results@));
        }
        s
    }

    /// Renders the report in the named format — json, csv, html, or text,
    /// in any letter case — or says the format is unsupported.
    pub fn generate(&self, format: &str) -> (r: Result<String, String>)
        ensures
            ({
                let lf = lower_seq(format@);
                match r {
                    Ok(out) => {
                        ||| (lf == "json"@ && out@ == render_json(self.results@))
                        ||| (lf == "csv"@ && out@ == render_csv(self.results@))
                        ||| (lf == "html"@ && out@ == render_html(self.results@))
                        ||| (lf == "text"@ && out@ == render_text(self.results@))
                    },
                    Err(m) => {
                        &&& lf != "json"@
                        &&& lf != "csv"@
                        &&& lf != "html"@
                        &&& lf != "text"@
                        &&& m@ == "Unsupported output format: "@ + format@
                    },
                }
            }),
    {
        let cs = chars_of(format);
        let lowv = lower_chars(&cs);
        let low = string_of_chars(&lowv);
        if low.eq(&String::from_str("json")) {
            Ok(self.render_json_report())
        } else if low.eq(&String::from_str("csv")) {
            Ok(self.render_csv_report())
        } else if low.eq(&String::from_str("html")) {
            Ok(self.render_html_report())
        } else if low.eq(&String::from_str("text")) {
            Ok(self.render_text_report())
        } else {
            let mut m = String::new();
            m.append("Unsupported output format: ");
            m.append(format);
            Err(m)
        }
    }
}

} // verus!
