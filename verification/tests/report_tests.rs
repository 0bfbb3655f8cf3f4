use ruscan::report::{status_label, ReportGenerator, ScanResult};

fn sample(host: &str, port: u16, status: &str, service: Option<&str>, version: Option<&str>)
    -> ScanResult {
    ScanResult {
        host: host.to_string(),
        port,
        status: status.to_string(),
        service: service.map(|s| s.to_string()),
        version: version.map(|s| s.to_string()),
    }
}

#[test]
fn text_report_lists_one_line_per_result() {
    let mut g = ReportGenerator::new();
    g.add_result(sample("1.2.3.4", 80, "open", Some("HTTP"), Some("1.1")));
    g.add_result(sample("1.2.3.4", 81, "closed", None, None));
    g.add_result(sample("1.2.3.4", 22, "open", Some("SSH"), None));
    let out = g.generate("text").unwrap();
    assert_eq!(
        out,
        "1.2.3.4:80 - open  (HTTP/1.1)\n1.2.3.4:81 - closed \n1.2.3.4:22 - open  (SSH)\n"
    );
}

#[test]
fn json_report_is_a_pretty_array() {
    let mut g = ReportGenerator::new();
    g.add_result(sample("1.2.3.4", 80, "open", Some("HTTP"), None));
    let out = g.generate("json").unwrap();
    assert_eq!(
        out,
        "[\n  {\n    \"host\": \"1.2.3.4\",\n    \"port\": 80,\n    \"status\": \"open\",\n    \"service\": \"HTTP\",\n    \"version\": null\n  }\n]"
    );
}

#[test]
fn json_report_of_nothing_is_an_empty_array() {
    let g = ReportGenerator::new();
    assert_eq!(g.generate("json").unwrap(), "[]");
}

#[test]
fn json_report_escapes_strings() {
    let mut g = ReportGenerator::new();
    g.add_result(sample("h\"st", 1, "open", Some("a\\b"), None));
    let out = g.generate("json").unwrap();
    assert!(out.contains("\"host\": \"h\\\"st\""));
    assert!(out.contains("\"service\": \"a\\\\b\""));
}

#[test]
fn csv_report_has_header_and_rows() {
    let mut g = ReportGenerator::new();
    g.add_result(sample("1.2.3.4", 80, "open", Some("HTTP"), Some("1.1")));
    g.add_result(sample("1.2.3.4", 81, "closed", None, None));
    let out = g.generate("csv").unwrap();
    assert_eq!(
        out,
        "Host,Port,Status,Service,Version\n1.2.3.4,80,open,HTTP,1.1\n1.2.3.4,81,closed,,\n"
    );
}

#[test]
fn csv_report_quotes_fields_that_need_it() {
    let mut g = ReportGenerator::new();
    g.add_result(sample("bad,host", 1, "open", Some("quo\"te"), None));
    let out = g.generate("csv").unwrap();
    assert_eq!(
        out,
        "Host,Port,Status,Service,Version\n\"bad,host\",1,open,\"quo\"\"te\",\n"
    );
}

#[test]
fn html_report_renders_rows_with_status_class() {
    let mut g = ReportGenerator::new();
    g.add_result(sample("1.2.3.4", 80, "open", None, None));
    g.add_result(sample("1.2.3.4", 81, "closed", Some("X"), None));
    let out = g.generate("html").unwrap();
    assert!(out.starts_with("<!DOCTYPE html>"));
    assert!(out.ends_with("</html>"));
    assert!(out.contains("<td>1.2.3.4</td>"));
    assert!(out.contains("<td class=\"open\">open</td>"));
    assert!(out.contains("<td class=\"closed\">closed</td>"));
    assert!(out.contains("<td>N/A</td>"));
    assert!(out.contains("<td>X</td>"));
}

#[test]
fn format_name_ignores_case() {
    let g = ReportGenerator::new();
    assert!(g.generate("JSON").is_ok());
    assert!(g.generate("Text").is_ok());
    assert!(g.generate("CSV").is_ok());
    assert!(g.generate("Html").is_ok());
}

#[test]
fn unsupported_format_is_an_error() {
    let g = ReportGenerator::new();
    let e = g.generate("yaml").unwrap_err();
    assert_eq!(e, "Unsupported output format: yaml");
}

#[test]
fn status_labels_name_the_two_outcomes() {
    assert_eq!(status_label(true), "open");
    assert_eq!(status_label(false), "closed");
}
