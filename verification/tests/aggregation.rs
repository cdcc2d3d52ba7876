use swarm::message::{ErrorType, ReportMessage, TaskResult};
use swarm::report::{aggregate_results, print_error_type, AggregatedResults, UrlResults};
use swarm::stats::calculate_stats;
use swarm::user::{response_outcome, transport_outcome};

fn ok_result(id: &str, duration: usize) -> TaskResult {
    response_outcome(&id.to_string(), &id.to_string(), duration, 200)
}

#[test]
fn requests_split_into_errors_and_samples() {
    let mut map: Vec<(String, UrlResults)> = Vec::new();
    let results = vec![
        ok_result("http://host/x", 10),
        ok_result("http://host/x", 12),
        response_outcome(&"http://host/x".to_string(), &"http://host/x".to_string(), 3, 500),
        transport_outcome(&"http://host/x".to_string(), &"http://host/x".to_string(), 7, false),
    ];
    aggregate_results(&mut map, results);
    assert_eq!(map.len(), 1);
    let entry = &map[0].1;
    assert_eq!(entry.num_of_requests, 4);
    assert_eq!(entry.num_of_errors, 2);
    let sample_count: usize = entry.durations.iter().map(|p| p.1).sum();
    assert_eq!(entry.num_of_requests, entry.num_of_errors + sample_count);
}

#[test]
fn aggregation_groups_by_endpoint_id() {
    let mut map: Vec<(String, UrlResults)> = Vec::new();
    let results = vec![
        ok_result("http://host/a", 5),
        ok_result("http://host/b", 6),
        ok_result("http://host/a", 7),
    ];
    aggregate_results(&mut map, results);
    assert_eq!(map.len(), 2);
    assert_eq!(map[0].0, "http://host/a");
    assert_eq!(map[0].1.num_of_requests, 2);
    assert_eq!(map[1].0, "http://host/b");
    assert_eq!(map[1].1.num_of_requests, 1);
}

#[test]
fn five_fast_gets_aggregate_cleanly() {
    // A constant single user repeating one GET five times against a
    // fast stub that always answers 200 in about 10 ms.
    let id = "http://host/x".to_string();
    let mut map: Vec<(String, UrlResults)> = Vec::new();
    let mut results = Vec::new();
    for _ in 0..5 {
        results.push(response_outcome(&id, &id, 10, 200));
    }
    aggregate_results(&mut map, results);
    assert_eq!(map.len(), 1);
    assert_eq!(map[0].0, "http://host/x");
    let entry = &map[0].1;
    assert!(entry.num_of_requests >= 5);
    assert_eq!(entry.num_of_errors, 0);
    let stats = calculate_stats(&entry.durations);
    assert!(stats.average >= 5 && stats.average <= 50);
}

#[test]
fn not_found_classifies_as_request4xx() {
    let id = "http://host/missing".to_string();
    let mut map: Vec<(String, UrlResults)> = Vec::new();
    let mut results = Vec::new();
    for _ in 0..3 {
        let r = response_outcome(&id, &id, 4, 404);
        assert!(r.error);
        assert!(!r.success);
        assert_eq!(r.error_type, ErrorType::Request4xx);
        results.push(r);
    }
    aggregate_results(&mut map, results);
    let entry = &map[0].1;
    assert_eq!(entry.num_of_errors, entry.num_of_requests);
    assert_eq!(entry.error_types, vec![(ErrorType::Request4xx, 3)]);
}

#[test]
fn timeout_classifies_as_timeout_with_measured_duration() {
    // A stub that sleeps past the 10-second cap: the wall clock lands just
    // above the cap and the result carries the Timeout kind.
    let id = "http://host/slow".to_string();
    let r = transport_outcome(&id, &id, 10050, true);
    assert!(r.error);
    assert_eq!(r.error_type, ErrorType::Timeout);
    assert!(r.duration >= 9800 && r.duration <= 11000);
}

#[test]
fn status_classification_covers_all_classes() {
    let id = "i".to_string();
    assert!(response_outcome(&id, &id, 1, 204).success);
    assert_eq!(response_outcome(&id, &id, 1, 404).error_type, ErrorType::Request4xx);
    assert_eq!(response_outcome(&id, &id, 1, 503).error_type, ErrorType::Request5xx);
    let redirect = response_outcome(&id, &id, 1, 301);
    assert!(redirect.error);
    assert_eq!(redirect.error_type, ErrorType::RequestOther);
    assert_eq!(transport_outcome(&id, &id, 1, false).error_type, ErrorType::Connection);
    assert_eq!(transport_outcome(&id, &id, 1, true).error_type, ErrorType::Timeout);
}

#[test]
fn error_labels() {
    assert_eq!(print_error_type(&ErrorType::Connection), "Connection");
    assert_eq!(print_error_type(&ErrorType::Internal), "Internal application");
    assert_eq!(print_error_type(&ErrorType::RequestOther), "Other");
    assert_eq!(print_error_type(&ErrorType::Request4xx), "4XX");
    assert_eq!(print_error_type(&ErrorType::Request5xx), "5XX");
    assert_eq!(print_error_type(&ErrorType::Timeout), "Timeout");
}

#[test]
fn report_messages_fold_into_the_aggregate() {
    let mut agg = AggregatedResults::new();
    let msg = ReportMessage {
        current_users: 3,
        results: vec![
            Ok(vec![ok_result("http://host/a", 5)]),
            Err("panic: boom".to_string()),
            Ok(vec![ok_result("http://host/a", 9)]),
        ],
        duration: 2,
    };
    agg.apply_report_message(msg);
    assert_eq!(agg.current_users, 3);
    assert_eq!(agg.duration, 2);
    assert_eq!(agg.num_of_failed_users, 1);
    assert_eq!(agg.url_results.len(), 1);
    assert_eq!(agg.url_results[0].1.num_of_requests, 2);
}

#[test]
fn empty_run_reports_nothing() {
    let agg = AggregatedResults::new();
    assert_eq!(agg.url_results.len(), 0);
    assert_eq!(agg.current_users, 0);
    assert_eq!(agg.num_of_failed_users, 0);
}
