use ruscan::report::ScanResult;
use ruscan::scheduler::ScanScheduler;

fn fixture_outcome(port: u16) -> &'static str {
    if port == 80 || port == 22 {
        "open"
    } else {
        "closed"
    }
}

/// Drives a whole run sequentially, completing tasks as soon as they are
/// handed out, and reports the results and the highest concurrency seen.
fn drive(hosts: &[&str], ports: &[u16], limit: usize) -> (Vec<ScanResult>, usize) {
    let host_vec: Vec<String> = hosts.iter().map(|h| h.to_string()).collect();
    let port_vec: Vec<u16> = ports.to_vec();
    let mut s = ScanScheduler::new(&host_vec, &port_vec, limit);
    let mut max_in_flight: usize = 0;
    while !s.is_finished() {
        match s.try_start() {
            Some((idx, task)) => {
                if s.in_flight > max_in_flight {
                    max_in_flight = s.in_flight;
                }
                assert!(s.in_flight <= s.limit);
                let result = ScanResult {
                    host: task.host,
                    port: task.port,
                    status: fixture_outcome(task.port).to_string(),
                    service: None,
                    version: None,
                };
                s.complete(idx, result);
            },
            None => {
                panic!("no task to start but the run is not finished");
            },
        }
    }
    (s.results_ref().clone(), max_in_flight)
}

#[test]
fn run_yields_exactly_one_result_per_pair_for_every_limit() {
    let hosts = ["10.0.0.1", "10.0.0.2"];
    let ports = [22, 80, 443];
    for limit in [1usize, 5, 1000] {
        let (results, _) = drive(&hosts, &ports, limit);
        assert_eq!(results.len(), hosts.len() * ports.len());
        let mut pairs: Vec<(String, u16)> =
            results.iter().map(|r| (r.host.clone(), r.port)).collect();
        pairs.sort();
        let mut expected: Vec<(String, u16)> = Vec::new();
        for h in &hosts {
            for p in &ports {
                expected.push((h.to_string(), *p));
            }
        }
        expected.sort();
        assert_eq!(pairs, expected);
    }
}

#[test]
fn outcomes_follow_the_fixture() {
    let (results, _) = drive(&["192.0.2.1"], &[22, 23, 80], 5);
    for r in &results {
        assert_eq!(r.status, fixture_outcome(r.port));
    }
}

#[test]
fn cap_refuses_tasks_beyond_the_limit() {
    let hosts = vec!["10.0.0.1".to_string()];
    let ports = vec![1u16, 2, 3, 4, 5];
    let mut s = ScanScheduler::new(&hosts, &ports, 2);

    let first = s.try_start().expect("first slot");
    let second = s.try_start().expect("second slot");
    assert_eq!(s.in_flight, 2);
    assert!(s.try_start().is_none(), "no slot may open at the limit");

    let r1 = ScanResult {
        host: first.1.host,
        port: first.1.port,
        status: "closed".to_string(),
        service: None,
        version: None,
    };
    s.complete(first.0, r1);
    assert_eq!(s.in_flight, 1);
    assert!(s.try_start().is_some(), "a freed slot admits the next task");

    let r2 = ScanResult {
        host: second.1.host,
        port: second.1.port,
        status: "closed".to_string(),
        service: None,
        version: None,
    };
    s.complete(second.0, r2);
}

#[test]
fn concurrency_never_exceeds_the_limit() {
    for limit in [1usize, 2, 3] {
        let (_, max_seen) = drive(&["a.test", "b.test"], &[1, 2, 3, 4], limit);
        assert!(max_seen <= limit);
    }
}

#[test]
fn tasks_cover_the_cross_product_in_order() {
    let hosts = vec!["h1".to_string(), "h2".to_string()];
    let ports = vec![10u16, 20];
    let mut s = ScanScheduler::new(&hosts, &ports, 1000);
    let mut seen: Vec<(String, u16)> = Vec::new();
    while let Some((idx, task)) = s.try_start() {
        seen.push((task.host.clone(), task.port));
        let r = ScanResult {
            host: task.host,
            port: task.port,
            status: "closed".to_string(),
            service: None,
            version: None,
        };
        s.complete(idx, r);
    }
    assert_eq!(
        seen,
        vec![
            ("h1".to_string(), 10),
            ("h1".to_string(), 20),
            ("h2".to_string(), 10),
            ("h2".to_string(), 20)
        ]
    );
}

#[test]
fn empty_port_set_finishes_immediately() {
    let hosts = vec!["h1".to_string()];
    let ports: Vec<u16> = Vec::new();
    let mut s = ScanScheduler::new(&hosts, &ports, 1);
    assert!(s.is_finished());
    assert!(s.try_start().is_none());
    assert_eq!(s.results_ref().len(), 0);
}
