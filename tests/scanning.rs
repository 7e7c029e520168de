use li_domain_scanner::{
    available_report, DispatchAction, DispatchEvent, Dispatcher, DomainStatus, LiDomainScanner, ProbeResult,
    ResultAggregator,
};
use std::collections::VecDeque;

#[test]
fn available_set_is_idempotent() {
    let mut a = ResultAggregator::new();
    a.record(ProbeResult::from_response("a", "1:ok", 1));
    a.record(ProbeResult::from_response("a", "1:ok", 2));
    assert_eq!(a.available_count(), 1);
    assert_eq!(a.len(), 2);
    assert_eq!(a.available_sorted(), &vec!["a.li".to_string()]);
}

#[test]
fn available_domains_are_sorted() {
    let mut a = ResultAggregator::new();
    for label in ["zz", "a", "m1", "a", "b-c"] {
        a.record(ProbeResult::from_response(label, "1:free", 0));
    }
    a.record(ProbeResult::from_response("q", "0:taken", 0));
    let expected: Vec<String> = ["a.li", "b-c.li", "m1.li", "zz.li"].iter().map(|s| s.to_string()).collect();
    assert_eq!(a.available_sorted(), &expected);
    assert_eq!(a.results().len(), 6);
}

fn max_in_flight(workers: usize, total: usize) -> usize {
    let mut d = Dispatcher::new(workers, total);
    let mut running: usize = 0;
    let mut seen: usize = 0;
    let mut launched: usize = 0;
    loop {
        match d.next_action() {
            DispatchAction::Launch(i) => {
                assert_eq!(i, launched);
                launched += 1;
                running += 1;
                seen = seen.max(running);
                d.apply(DispatchEvent::Launched);
            }
            DispatchAction::AwaitDelay => {
                if running > 0 && launched % 3 == 0 {
                    running -= 1;
                    d.apply(DispatchEvent::ProbeFinished(DomainStatus::Registered));
                }
                d.apply(DispatchEvent::DelayElapsed);
            }
            DispatchAction::AwaitProbe => {
                assert!(running > 0);
                running -= 1;
                d.apply(DispatchEvent::ProbeFinished(DomainStatus::Available));
            }
            DispatchAction::Finished => break,
        }
    }
    assert_eq!(launched, total);
    assert_eq!(d.completed, total);
    seen
}

#[test]
fn in_flight_never_exceeds_workers() {
    for w in [1usize, 5, 50] {
        let seen = max_in_flight(w, 200);
        assert!(seen <= w, "{} > {}", seen, w);
        assert!(seen >= 1);
    }
}

fn stub(label: &str) -> Option<&'static str> {
    match label {
        "a" => Some("1:ok"),
        "b" => Some("0:taken"),
        "c" => Some("-95:slow"),
        _ => None,
    }
}

fn run(scanner: &mut LiDomainScanner) {
    let mut pending: VecDeque<ProbeResult> = VecDeque::new();
    loop {
        match scanner.next_action() {
            DispatchAction::Launch(i) => {
                let label = scanner.candidate(i).clone();
                let r = match stub(&label) {
                    Some(reply) => ProbeResult::from_response(&label, reply, 0),
                    None => ProbeResult::failed(&label, "connection refused", 0),
                };
                pending.push_back(r);
                scanner.launched();
            }
            DispatchAction::AwaitDelay => scanner.delay_elapsed(),
            DispatchAction::AwaitProbe => {
                let r = pending.pop_front().unwrap();
                scanner.record(r);
            }
            DispatchAction::Finished => break,
        }
    }
}

#[test]
fn end_to_end_with_stub_responder() {
    let labels: Vec<String> = ["a", "b", "c"].iter().map(|s| s.to_string()).collect();
    let mut s = LiDomainScanner::new(2, labels);
    run(&mut s);
    assert_eq!(s.available_sorted(), &vec!["a.li".to_string()]);
    assert_eq!(s.results().len(), 3);
    let mut statuses: Vec<&str> = s.results().iter().map(|r| r.status.as_str()).collect();
    statuses.sort();
    assert_eq!(statuses, vec!["available", "rate_limited", "registered"]);
}

#[test]
fn failure_does_not_stop_the_run() {
    let labels: Vec<String> = ["x", "a", "y", "c"].iter().map(|s| s.to_string()).collect();
    let mut s = LiDomainScanner::new(1, labels);
    run(&mut s);
    assert_eq!(s.results().len(), 4);
    let domains: Vec<&str> = s.results().iter().map(|r| r.domain.as_str()).collect();
    assert_eq!(domains, vec!["x.li", "a.li", "y.li", "c.li"]);
    assert_eq!(s.results()[0].status, DomainStatus::Error);
    assert_eq!(s.results()[3].status, DomainStatus::RateLimited);
    assert_eq!(s.available_count(), 1);
}

#[test]
fn report_text() {
    let ds = vec!["a.li".to_string(), "b.li".to_string()];
    let r = available_report(&ds, "2024-01-02 03:04:05");
    assert_eq!(r, "# 可用域名列表\n# 扫描时间: 2024-01-02 03:04:05\n\na.li\nb.li\n");
    let empty = available_report(&Vec::new(), "t");
    assert_eq!(empty, "# 可用域名列表\n# 扫描时间: t\n\n");
}

#[test]
fn scanner_for_default_plan() {
    let s = LiDomainScanner::for_scan(50, false, true);
    assert_eq!(s.total(), 26 + 26 * 26 + 26 * 27 * 26 + (26 + 7 * 26 * 25));
    assert_eq!(s.next_action(), DispatchAction::Launch(0));
}
