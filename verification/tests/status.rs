use kairos::ranking::UNREACHABLE;
use kairos::status::{status_report, EndpointStatus};

fn strings(v: &[&str]) -> Vec<String> {
    v.iter().map(|s| s.to_string()).collect()
}

#[test]
fn report_classifies_each_endpoint() {
    let endpoints = strings(&["http://ok:8000", "http://bad:8000", "http://pending:8000"]);
    let scores = vec![Some(3), Some(UNREACHABLE), None];
    let report = status_report(&endpoints, &scores, &Some("http://ok:8000".to_string()));
    assert_eq!(report.len(), 3);
    assert_eq!(report[0].endpoint, "http://ok:8000");
    assert_eq!(report[0].status, EndpointStatus::Healthy);
    assert_eq!(report[0].score, Some(3));
    assert!(report[0].top);
    assert_eq!(report[1].status, EndpointStatus::Unreachable);
    assert_eq!(report[1].score, None);
    assert!(!report[1].top);
    assert_eq!(report[2].status, EndpointStatus::Pending);
    assert_eq!(report[2].score, None);
    assert!(!report[2].top);
}

#[test]
fn report_of_empty_fleet_is_empty() {
    assert!(status_report(&Vec::new(), &Vec::new(), &None).is_empty());
}

#[test]
fn report_without_mark_matches_empty_url_only() {
    let report = status_report(&strings(&["", "http://a"]), &vec![None, None], &None);
    assert!(report[0].top);
    assert!(!report[1].top);
}

#[test]
fn status_labels() {
    assert_eq!(EndpointStatus::Pending.label(), "pending");
    assert_eq!(EndpointStatus::Unreachable.label(), "unreachable");
    assert_eq!(EndpointStatus::Healthy.label(), "ok");
}
