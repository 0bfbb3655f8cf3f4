use ruscan::service::{
    classify_probe_response, extract_http_version, extract_ssh_version, fingerprint_step,
    parse_banner, probe_names, probe_payload, should_fingerprint, FingerprintEvent,
    FingerprintState,
};

#[test]
fn ssh_banner_classifies_with_version() {
    let (service, version) = parse_banner("SSH-2.0-OpenSSH_8.9");
    assert_eq!(service, "SSH");
    assert_eq!(version.as_deref(), Some("2.0"));
}

#[test]
fn http_banner_classifies_with_version() {
    let (service, version) = parse_banner("HTTP/1.1 200 OK");
    assert_eq!(service, "HTTP");
    assert_eq!(version.as_deref(), Some("1.1"));
}

#[test]
fn unrecognized_banner_is_unknown_without_version() {
    let (service, version) = parse_banner("nothing to see here");
    assert_eq!(service, "Unknown");
    assert_eq!(version, None);
}

#[test]
fn ftp_greeting_classifies() {
    let (service, version) = parse_banner("220 Welcome to My FTP Server");
    assert_eq!(service, "FTP");
    assert_eq!(version, None);
}

#[test]
fn smtp_greeting_classifies() {
    let (service, version) = parse_banner("220 mail.example.com ESMTP Postfix smtp");
    assert_eq!(service, "SMTP");
    assert_eq!(version, None);
}

#[test]
fn telnet_banner_classifies() {
    let (service, version) = parse_banner("Welcome to TELNET access");
    assert_eq!(service, "Telnet");
    assert_eq!(version, None);
}

#[test]
fn http_marker_on_a_later_line_yields_its_version() {
    let (service, version) = parse_banner("greetings\r\nHTTP/1.0 200 OK");
    assert_eq!(service, "HTTP");
    assert_eq!(version.as_deref(), Some("1.0"));
}

#[test]
fn ssh_marker_on_a_later_line_yields_its_version() {
    let (service, version) = parse_banner("welcome\nSSH-2.0-OpenSSH_8.9\r\nmore");
    assert_eq!(service, "SSH");
    assert_eq!(version.as_deref(), Some("2.0"));
}

#[test]
fn version_stops_at_the_marker_line_end() {
    assert_eq!(extract_http_version("noise\r\nHTTP/1.1\r\nServer: x").as_deref(), Some("1.1"));
    assert_eq!(extract_ssh_version("noise\r\nSSH-1.99 x\r\ny").as_deref(), Some("1.99"));
}

#[test]
fn http_version_runs_to_end_of_line_without_space() {
    assert_eq!(extract_http_version("HTTP/1.0\r\nServer: x").as_deref(), Some("1.0"));
    assert_eq!(extract_http_version("no marker"), None);
    assert_eq!(extract_http_version(""), None);
}

#[test]
fn ssh_version_stops_at_dash_then_space() {
    assert_eq!(extract_ssh_version("SSH-2.0-OpenSSH_8.9").as_deref(), Some("2.0"));
    assert_eq!(extract_ssh_version("SSH-1.99 server").as_deref(), Some("1.99"));
    assert_eq!(extract_ssh_version("SSH-2.0").as_deref(), Some("2.0"));
    assert_eq!(extract_ssh_version("plain text"), None);
}

#[test]
fn closed_port_never_fingerprints() {
    assert!(!should_fingerprint(false, true));
    assert!(!should_fingerprint(false, false));
    assert!(should_fingerprint(true, true));
    assert!(!should_fingerprint(true, false));
}

#[test]
fn probe_response_falls_back_to_probe_name() {
    let (service, version) = classify_probe_response("FTP", "garbled bytes");
    assert_eq!(service, "FTP");
    assert_eq!(version, None);

    let (service2, version2) = classify_probe_response("HTTP", "HTTP/1.1 301 Moved");
    assert_eq!(service2, "HTTP");
    assert_eq!(version2.as_deref(), Some("1.1"));
}

#[test]
fn probes_run_in_fixed_order() {
    let names = probe_names();
    assert_eq!(names, vec!["HTTP".to_string(), "FTP".to_string(), "SSH".to_string()]);
}

#[test]
fn session_classifies_a_passive_banner_at_once() {
    let s = fingerprint_step(
        FingerprintState::Passive,
        FingerprintEvent::Data("SSH-2.0-OpenSSH_8.9".to_string()),
    );
    match s {
        FingerprintState::Done(service, version) => {
            assert_eq!(service.as_deref(), Some("SSH"));
            assert_eq!(version.as_deref(), Some("2.0"));
        },
        _ => panic!("session should settle on a banner"),
    }
}

#[test]
fn session_keeps_an_unknown_passive_banner() {
    let s = fingerprint_step(
        FingerprintState::Passive,
        FingerprintEvent::Data("mystery".to_string()),
    );
    match s {
        FingerprintState::Done(service, version) => {
            assert_eq!(service.as_deref(), Some("Unknown"));
            assert_eq!(version, None);
        },
        _ => panic!("session should settle even on an unknown banner"),
    }
}

#[test]
fn session_aborts_when_the_passive_connection_fails() {
    let s = fingerprint_step(FingerprintState::Passive, FingerprintEvent::ConnectFailed);
    assert!(matches!(s, FingerprintState::Done(None, None)));
}

#[test]
fn session_walks_the_probes_in_order_then_gives_up() {
    let mut s = fingerprint_step(FingerprintState::Passive, FingerprintEvent::NoData);
    assert!(matches!(s, FingerprintState::Probing(0)));
    s = fingerprint_step(s, FingerprintEvent::ConnectFailed);
    assert!(matches!(s, FingerprintState::Probing(1)));
    s = fingerprint_step(s, FingerprintEvent::NoData);
    assert!(matches!(s, FingerprintState::Probing(2)));
    s = fingerprint_step(s, FingerprintEvent::NoData);
    assert!(matches!(s, FingerprintState::Done(None, None)));
}

#[test]
fn session_probe_response_falls_back_to_the_probe_name() {
    let s = fingerprint_step(
        FingerprintState::Probing(1),
        FingerprintEvent::Data("strange reply".to_string()),
    );
    match s {
        FingerprintState::Done(service, version) => {
            assert_eq!(service.as_deref(), Some("FTP"));
            assert_eq!(version, None);
        },
        _ => panic!("a probe response settles the session"),
    }
}

#[test]
fn probe_payloads_are_the_fixed_protocol_strings() {
    assert_eq!(probe_payload(0), "GET / HTTP/1.0\r\n\r\n");
    assert_eq!(probe_payload(1), "USER anonymous\r\n");
    assert_eq!(probe_payload(2), "SSH-2.0-Ruscan\r\n");
}
