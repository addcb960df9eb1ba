use rcli::error::AppError;
use rcli::http::{response_attempt, Attempt, RetryingFetcher, Step};
use serde_json::Value;

fn json(text: &str) -> Value {
    serde_json::from_str(text).unwrap()
}

fn status(code: &str) -> Attempt {
    Attempt::Status { status: code.to_string(), body: "oops".to_string() }
}

#[test]
fn relative_urls_join_the_base() {
    let f = RetryingFetcher::new("https://api.example.com/".to_string(), 30, 3);
    assert_eq!(f.full_url("/users/1"), "https://api.example.com/users/1");
    assert_eq!(f.full_url("users"), "https://api.example.com/users");
    assert_eq!(f.full_url("http://other/x"), "http://other/x");
    assert_eq!(f.full_url("https://other/y"), "https://other/y");
    let g = RetryingFetcher::new("https://h//".to_string(), 30, 3);
    assert_eq!(g.full_url("//a"), "https://h/a");
    assert_eq!(g.full_url(""), "https://h/");
}

#[test]
fn success_after_failures_returns_the_payload() {
    let f = RetryingFetcher::new("b".to_string(), 1, 3);
    assert!(matches!(f.next_step(1, status("500 Internal Server Error")), Step::RetryAfter(1000)));
    assert!(matches!(
        f.next_step(2, Attempt::Transport { message: "refused".to_string() }),
        Step::RetryAfter(2000)
    ));
    match f.next_step(3, Attempt::Received(json(r#"{"ok":true}"#))) {
        Step::Finish(v) => assert_eq!(v, json(r#"{"ok":true}"#)),
        _ => panic!("expected the payload"),
    }
}

#[test]
fn always_failing_endpoint_fails_after_the_limit() {
    let f = RetryingFetcher::new("b".to_string(), 1, 3);
    assert_eq!(f.max_attempts(), 3);
    let mut delays = Vec::new();
    let mut attempt: u32 = 1;
    let end = loop {
        match f.next_step(attempt, status("503 Service Unavailable")) {
            Step::RetryAfter(ms) => delays.push(ms),
            other => break other,
        }
        attempt += 1;
    };
    assert_eq!(attempt, 3);
    assert_eq!(delays, vec![1000, 2000]);
    match end {
        Step::Fail(AppError::OperationFailed { reason }) => {
            assert_eq!(reason, "HTTP 503 Service Unavailable: oops")
        }
        _ => panic!("expected OperationFailed"),
    }
}

#[test]
fn last_transport_failure_surfaces() {
    let f = RetryingFetcher::new("b".to_string(), 1, 1);
    match f.next_step(1, Attempt::Transport { message: "timed out".to_string() }) {
        Step::Fail(AppError::Http { message }) => assert_eq!(message, "timed out"),
        _ => panic!("expected Http"),
    }
}

#[test]
fn zero_attempts_still_tries_once() {
    let f = RetryingFetcher::new("b".to_string(), 1, 0);
    assert_eq!(f.max_attempts(), 1);
    assert!(matches!(f.next_step(1, status("404 Not Found")), Step::Fail(_)));
}

#[test]
fn unparsable_body_is_not_retried() {
    let f = RetryingFetcher::new("b".to_string(), 1, 5);
    let a = response_attempt(200, "200 OK".to_string(), "not json".to_string());
    assert!(matches!(a, Attempt::Unparsable(_)));
    assert!(matches!(f.next_step(1, a), Step::Fail(AppError::Json { .. })));
}

#[test]
fn responses_are_classified_by_status() {
    match response_attempt(201, "201 Created".to_string(), "[1, 2]".to_string()) {
        Attempt::Received(v) => assert_eq!(v, json("[1,2]")),
        _ => panic!("expected a value"),
    }
    match response_attempt(404, "404 Not Found".to_string(), "[1]".to_string()) {
        Attempt::Status { status, body } => {
            assert_eq!(status, "404 Not Found");
            assert_eq!(body, "[1]");
        }
        _ => panic!("expected a status"),
    }
}

#[test]
fn single_requests_are_not_retried() {
    let f = RetryingFetcher::new("b".to_string(), 1, 3);
    assert_eq!(f.single_outcome(Attempt::Received(json("7"))).unwrap(), json("7"));
    match f.single_outcome(status("500 Internal Server Error")) {
        Err(AppError::OperationFailed { reason }) => {
            assert_eq!(reason, "HTTP 500 Internal Server Error: oops")
        }
        _ => panic!("expected OperationFailed"),
    }
}
