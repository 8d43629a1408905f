use alma_client::batch::{last_page_offset, page_start, PageWorker};
use alma_client::document::Value;
use alma_client::errors::ClientError;
use alma_client::limiter::{Admission, TokenBucket};
use alma_client::requests::{base_url_for_region, listing_path, user_record_path,
    user_record_path_with_fees, with_api_key};
use alma_client::transform::TransformConfig;

#[test]
fn last_page_is_total_over_limit_when_unbounded() {
    assert_eq!(last_page_offset(None, 250, 100), 2);
    assert_eq!(last_page_offset(None, 100, 100), 1);
    assert_eq!(last_page_offset(None, 99, 100), 0);
    assert_eq!(last_page_offset(None, 0, 100), 0);
}

#[test]
fn explicit_end_is_capped_by_the_total() {
    assert_eq!(last_page_offset(Some(1), 250, 100), 1);
    assert_eq!(last_page_offset(Some(7), 250, 100), 2);
    assert_eq!(page_start(2, 100), 200);
}

fn removable_record() -> Value {
    Value::Obj(vec![(
        "user_statistic".to_string(),
        Value::Arr(vec![Value::Obj(vec![(
            "category_type".to_string(),
            Value::Obj(vec![("value".to_string(), Value::Str("GONE".to_string()))]),
        )])]),
    )])
}

fn plain_record() -> Value {
    Value::Obj(vec![("first_name".to_string(), Value::Str("Ann".to_string()))])
}

#[test]
fn page_worker_isolates_one_failed_fetch() {
    let config = TransformConfig {
        normalize_title: false,
        prune_role_parameters: false,
        categories_to_remove: vec!["GONE".to_string()],
        external_groups: vec![],
    };
    let ids = vec!["a1".to_string(), "b2".to_string(), "c3".to_string()];
    let mut worker = PageWorker::new(ids);

    // First identifier: fetched, changed, written back.
    assert_eq!(worker.next_to_fetch(), Some("a1".to_string()));
    let (replace, _) = worker.fetched(&removable_record(), &config);
    assert!(replace.is_some());
    worker.replace_ok();

    // Second identifier: the fetch fails; recorded, the page goes on.
    assert_eq!(worker.next_to_fetch(), Some("b2".to_string()));
    worker.fetch_failed(ClientError::Transport { detail: "timed out".to_string() });

    // Third identifier is still processed.
    assert_eq!(worker.next_to_fetch(), Some("c3".to_string()));
    let (replace, _) = worker.fetched(&plain_record(), &config);
    assert!(replace.is_none());

    assert_eq!(worker.next_to_fetch(), None);
    assert_eq!(worker.updated, 1);
    assert_eq!(worker.failures.len(), 1);
    assert_eq!(worker.failures[0].0, "b2");
}

#[test]
fn page_worker_records_failed_replace() {
    let config = TransformConfig {
        normalize_title: false,
        prune_role_parameters: false,
        categories_to_remove: vec!["GONE".to_string()],
        external_groups: vec![],
    };
    let mut worker = PageWorker::new(vec!["a1".to_string()]);
    let (replace, _) = worker.fetched(&removable_record(), &config);
    assert!(replace.is_some());
    worker.replace_failed(ClientError::Transport { detail: "reset".to_string() });
    assert_eq!(worker.updated, 0);
    assert_eq!(worker.failures.len(), 1);
    assert_eq!(worker.failures[0].0, "a1");
    assert_eq!(worker.next_to_fetch(), None);
}

#[test]
fn token_bucket_admits_bursts_then_throttles() {
    let mut bucket = TokenBucket::new(10, 0);
    for _ in 0..10 {
        assert!(matches!(bucket.request(0), Admission::Admit));
    }
    // The burst is exhausted: the caller is told when the next token exists.
    let wait = match bucket.request(0) {
        Admission::WaitUntil(w) => w,
        Admission::Admit => panic!("admitted past the burst"),
    };
    assert_eq!(wait, 100_000_000);
    // At that instant the call is admitted: nobody is denied for good.
    assert!(matches!(bucket.request(wait), Admission::Admit));
    // But not twice within the same period.
    assert!(matches!(bucket.request(wait), Admission::WaitUntil(_)));
}

#[test]
fn token_bucket_long_run_rate_is_capped() {
    let mut bucket = TokenBucket::new(10, 0);
    let mut admitted: u64 = 0;
    // Sustained demand: ask every millisecond for two seconds.
    for ms in 0..2000u64 {
        if matches!(bucket.request(ms * 1_000_000), Admission::Admit) {
            admitted += 1;
        }
    }
    // At ten per second: the initial burst of ten plus at most twenty refills.
    assert!(admitted <= 30);
    assert!(admitted >= 29);
}

#[test]
fn request_paths_are_built_exactly() {
    assert_eq!(listing_path(300, 100), "users?order_by=primary_id&limit=100&offset=300");
    assert_eq!(user_record_path("jdoe"), "users/jdoe");
    assert_eq!(user_record_path("ab#1"), "users/ab%231");
    assert_eq!(user_record_path_with_fees("ab#1"), "users/ab%231?expand=fees");
    assert_eq!(
        base_url_for_region("eu"),
        "https://api-eu.hosted.exlibrisgroup.com/almaws/v1/"
    );
    assert_eq!(with_api_key("users/1", "k1"), "users/1?apikey=k1");
    assert_eq!(
        with_api_key("users?limit=1", "k1"),
        "users?limit=1&apikey=k1"
    );
}
