use seekfs::fetch::{stream_item, Fetch, FetchAction, FetchEvent, STREAM_CHUNK};
use seekfs::gate::Gate;
use seekfs::store::{
    budget_refill, get_failure, head_failure, range_header, retries_exhausted, Engine, GetFailure,
    HeadInfo, S3Config, StoreError,
};

fn with_limit(mib: u32) -> S3Config {
    S3Config { range_coalesce_max_mib: mib, ..S3Config::default() }
}

#[test]
fn defaults_of_the_store() {
    let c = S3Config::default();
    assert_eq!(c.engine.as_deref(), Some("sdk"));
    assert_eq!(c.region, "us-east-1");
    assert_eq!(c.bucket, "seekfs");
    assert_eq!(c.get_budget_per_sec, 200);
    assert_eq!(c.range_coalesce_max_mib, 32);
    assert_eq!(c.max_inflight_gets, 128);
    assert_eq!(c.retry_max_attempts, 3);
    assert_eq!(c.retry_initial_backoff_ms, 100);
    assert!(c.endpoint.is_none() && c.access_key_id.is_none() && c.secret_access_key.is_none());
    let h = HeadInfo::default();
    assert!(h.size.is_none() && h.etag.is_none());
}

#[test]
fn ranges_with_small_gaps_are_coalesced() {
    let c = with_limit(1);
    assert_eq!(c.coalesce_ranges(vec![]), vec![]);
    assert_eq!(c.coalesce_ranges(vec![100..200, 0..50]), vec![0..200]);
    assert_eq!(c.coalesce_ranges(vec![0..10, 10 + 65536..65600]), vec![0..65600]);
    assert_eq!(
        c.coalesce_ranges(vec![0..10, 10 + 65537..65600]),
        vec![0..10, 65547..65600]
    );
}

#[test]
fn coalescing_stops_at_the_limit() {
    let c = with_limit(1);
    let mib: u64 = 1024 * 1024;
    assert_eq!(c.coalesce_ranges(vec![0..mib / 2, mib / 2..mib]), vec![0..mib]);
    assert_eq!(
        c.coalesce_ranges(vec![0..mib / 2, mib / 2..mib + 1]),
        vec![0..mib / 2, mib / 2..mib + 1]
    );
    // A range inside the last one changes nothing.
    assert_eq!(c.coalesce_ranges(vec![0..100, 20..30]), vec![0..100]);
}

#[test]
fn coalescing_again_changes_nothing() {
    let c = with_limit(1);
    let mib: u64 = 1024 * 1024;
    let given = vec![3 * mib..3 * mib + 5, 0..10, 60_000..60_001, 200_000..mib, 5..8, mib..2 * mib];
    let once = c.coalesce_ranges(given.clone());
    assert_eq!(once, vec![0..60_001, 200_000..mib, mib..2 * mib, 3 * mib..3 * mib + 5]);
    for r in &once {
        assert!(given.iter().any(|g| g.start == r.start));
        assert!(given.iter().any(|g| g.end == r.end));
    }
    assert_eq!(c.coalesce_ranges(once.clone()), once);
}

#[test]
fn settings_of_a_client() {
    let mut c = S3Config::default();
    let s = c.client_settings();
    assert_eq!(s.region, "us-east-1");
    assert!(s.endpoint.is_none() && !s.force_path_style && s.credentials.is_none());
    c.endpoint = Some("http://localhost:9000".to_string());
    c.access_key_id = Some("id".to_string());
    assert!(c.client_settings().credentials.is_none());
    c.secret_access_key = Some("key".to_string());
    let s = c.client_settings();
    assert!(s.force_path_style);
    assert_eq!(s.endpoint.as_deref(), Some("http://localhost:9000"));
    assert_eq!(s.credentials, Some(("id".to_string(), "key".to_string())));
}

#[test]
fn engines_have_names() {
    let named = |e: Option<&str>| {
        S3Config { engine: e.map(|s| s.to_string()), ..S3Config::default() }.engine()
    };
    assert_eq!(named(None), Engine::Sdk);
    assert_eq!(named(Some("sdk")), Engine::Sdk);
    assert_eq!(named(Some("crt")), Engine::Crt);
    assert_eq!(named(Some("SDK")), Engine::Unknown);
}

#[test]
fn errors_have_texts() {
    let s = || "x".to_string();
    assert_eq!(StoreError::Client(s()).message(), "client error: x");
    assert_eq!(StoreError::Get(s()).message(), "get error: x");
    assert_eq!(StoreError::Head(s()).message(), "head error: x");
    assert_eq!(StoreError::Budget(s()).message(), "budget exceeded: x");
    assert_eq!(StoreError::Retry(s()).message(), "retry exhausted: x");
    assert_eq!(StoreError::NotImplemented.message(), "not implemented");
    assert_eq!(
        retries_exhausted(&StoreError::Get(s())).message(),
        "retry exhausted: get error: x"
    );
}

#[test]
fn headers_name_the_last_byte() {
    assert_eq!(range_header(0, 1024), "bytes=0-1023");
    assert_eq!(range_header(5, 6), "bytes=5-5");
    assert_eq!(range_header(0, 0), "bytes=0-0");
}

#[test]
fn failures_are_told_apart() {
    assert!(matches!(head_failure("service: NotFound".to_string()), Ok(None)));
    assert!(matches!(head_failure("status 404".to_string()), Ok(None)));
    assert!(matches!(head_failure("denied".to_string()), Err(StoreError::Head(s)) if s == "denied"));
    for t in ["throttled", "timeout", "500", "503 Slow Down"] {
        assert!(matches!(get_failure(t.to_string()), GetFailure::Transient(StoreError::Get(_))));
    }
    assert!(matches!(get_failure("403".to_string()), GetFailure::Permanent(StoreError::Get(_))));
}

#[test]
fn the_budget_is_filled_up() {
    assert_eq!(budget_refill(200, 50), 150);
    assert_eq!(budget_refill(200, 200), 0);
    assert_eq!(budget_refill(200, 300), 0);
}

#[test]
fn lengths_are_taken_over() {
    let h = HeadInfo::from_response(Some(7), Some("\"e\"".to_string()));
    assert_eq!(h.size, Some(7));
    assert_eq!(h.etag.as_deref(), Some("\"e\""));
    assert_eq!(HeadInfo::from_response(None, None).size, None);
    assert_eq!(HeadInfo::from_response(Some(-1), None).size, Some(u64::MAX));
}

fn sent(a: Option<FetchAction>) -> (String, String) {
    match a {
        Some(FetchAction::Send { key, range }) => (key, range),
        other => panic!("{:?}", other),
    }
}

#[test]
fn a_get_is_tried_again_after_a_passing_error() {
    let mut f = Fetch::new("k", 10, 20, false, 3);
    assert!(matches!(f.step(FetchEvent::Begin), Some(FetchAction::AcquireBudget)));
    assert!(matches!(f.step(FetchEvent::Acquired), Some(FetchAction::AcquireSlot)));
    let first = sent(f.step(FetchEvent::Acquired));
    assert_eq!(first, ("k".to_string(), "bytes=10-19".to_string()));
    assert!(matches!(
        f.step(FetchEvent::SendFailed("503".to_string())),
        Some(FetchAction::Backoff)
    ));
    assert_eq!(sent(f.step(FetchEvent::Again)), first);
    assert!(matches!(f.step(FetchEvent::Sent), Some(FetchAction::Collect)));
    assert!(matches!(
        f.step(FetchEvent::BodyFailed("broken".to_string())),
        Some(FetchAction::Backoff)
    ));
    assert_eq!(sent(f.step(FetchEvent::Again)), first);
    assert!(matches!(f.step(FetchEvent::Sent), Some(FetchAction::Collect)));
    match f.step(FetchEvent::Body(vec![1, 2])) {
        Some(FetchAction::Return(b)) => assert_eq!(b, vec![1, 2]),
        other => panic!("{:?}", other),
    }
    assert!(f.step(FetchEvent::Sent).is_none());
}

#[test]
fn a_get_fails_with_the_last_error() {
    let failed = |a: Option<FetchAction>| match a {
        Some(FetchAction::Fail(e)) => e.message(),
        other => panic!("{:?}", other),
    };
    let at_send = |streamed: bool| {
        let mut f = Fetch::new("k", 0, 4, streamed, 3);
        f.step(FetchEvent::Begin);
        f.step(FetchEvent::Acquired);
        f.step(FetchEvent::Acquired);
        f
    };
    let mut f = at_send(false);
    assert_eq!(
        failed(f.step(FetchEvent::SendFailed("403".to_string()))),
        "retry exhausted: get error: 403"
    );
    let mut f = at_send(false);
    f.step(FetchEvent::SendFailed("timeout".to_string()));
    assert_eq!(failed(f.step(FetchEvent::GiveUp)), "retry exhausted: get error: timeout");
    let mut f = at_send(true);
    assert_eq!(failed(f.step(FetchEvent::SendFailed("503".to_string()))), "get error: 503");
    let mut f = at_send(true);
    assert!(matches!(f.step(FetchEvent::Sent), Some(FetchAction::Stream)));
    assert!(f.under_way());
    assert!(matches!(f.step(FetchEvent::Dropped), Some(FetchAction::Close)));
    assert!(!f.under_way());
    let mut f = Fetch::new("k", 0, 4, false, 3);
    f.step(FetchEvent::Begin);
    assert_eq!(
        failed(f.step(FetchEvent::Closed("closed".to_string()))),
        "budget exceeded: closed"
    );
    let mut f = Fetch::new("k", 0, 4, false, 3);
    f.step(FetchEvent::Begin);
    f.step(FetchEvent::Acquired);
    assert_eq!(failed(f.step(FetchEvent::Closed("closed".to_string()))), "client error: closed");
}

#[test]
fn a_get_is_sent_no_more_often_than_configured() {
    let tries = |max_attempts: u32, body: bool| {
        let mut f = Fetch::new("k", 0, 4, false, max_attempts);
        f.step(FetchEvent::Begin);
        f.step(FetchEvent::Acquired);
        let mut sent = 0;
        let mut action = f.step(FetchEvent::Acquired);
        loop {
            action = match action {
                Some(FetchAction::Send { .. }) => {
                    sent += 1;
                    if body {
                        f.step(FetchEvent::Sent)
                    } else {
                        f.step(FetchEvent::SendFailed("503".to_string()))
                    }
                }
                Some(FetchAction::Collect) => f.step(FetchEvent::BodyFailed("cut".to_string())),
                Some(FetchAction::Backoff) => f.step(FetchEvent::Again),
                Some(FetchAction::Fail(e)) => return (sent, e.message()),
                other => panic!("{:?}", other),
            };
        }
    };
    let last = "retry exhausted: get error: 503".to_string();
    assert_eq!(tries(3, false), (3, last.clone()));
    assert_eq!(tries(1, false), (1, last.clone()));
    assert_eq!(tries(0, false), (1, last));
    assert_eq!(tries(3, true), (3, "retry exhausted: get error: cut".to_string()));
}

#[test]
fn a_token_is_not_given_back() {
    let mut g = Gate::new(2, 5);
    assert!(g.take() && g.take());
    assert!(!g.take());
    assert!(g.enter());
    assert!(g.release());
    assert!(!g.take());
    g.refill();
    assert!(g.take() && g.take() && !g.take());
    // A bucket that is full stays as it is.
    g.refill();
    g.refill();
    assert!(g.take() && g.take() && !g.take());
    assert!(!Gate::new(0, 1).take());
}

#[test]
fn slots_are_given_back() {
    let mut g = Gate::new(9, 2);
    assert!(g.enter() && g.enter());
    assert!(!g.enter());
    assert!(g.release());
    assert!(g.enter() && !g.enter());
    assert!(g.release() && g.release());
    assert!(!g.release());
}

#[test]
fn a_stream_ends_with_an_empty_read() {
    assert!(stream_item(Ok(vec![])).is_none());
    assert!(matches!(stream_item(Ok(vec![3])), Some(Ok(b)) if b == vec![3]));
    assert_eq!(STREAM_CHUNK, 64 * 1024);
    let longest = vec![7; STREAM_CHUNK];
    assert!(matches!(stream_item(Ok(longest.clone())), Some(Ok(b)) if b == longest));
    match stream_item(Err("reset".to_string())) {
        Some(Err(e)) => assert_eq!(e.message(), "get error: reset"),
        _ => panic!("no error"),
    }
}
