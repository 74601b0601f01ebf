use nano_downloader::stress::{is_success_status, report_for, requests_per_task, RequestReport};

#[test]
fn shares_requests_between_tasks() {
    assert_eq!(requests_per_task(10, 2), 5);
    assert_eq!(requests_per_task(10, 3), 3);
    assert_eq!(requests_per_task(1, 4), 0);
}

#[test]
fn success_statuses() {
    assert!(is_success_status(200));
    assert!(is_success_status(299));
    assert!(!is_success_status(199));
    assert!(!is_success_status(300));
    assert!(!is_success_status(404));
}

#[test]
fn reports_outcomes() {
    assert_eq!(report_for(Some(204)), RequestReport::Successful);
    assert_eq!(report_for(Some(404)), RequestReport::FailedWithStatus(404));
    assert_eq!(report_for(None), RequestReport::Failed);
}
