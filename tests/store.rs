use edge_cache::cache::CacheStorage;
use edge_cache::models::{CacheError, CacheRequest, CacheResponse};
use edge_cache::plan::{decode_payload, plan_invalidate, plan_set, plan_sweep, Statement};
use edge_cache::utils::{future_time, is_authorized};
use serde_json::Value;

fn parse(text: &str) -> Value {
    serde_json::from_str(text).unwrap()
}

fn request(key: &str, value: Value, tags: &[&str], ttl: Option<u64>) -> CacheRequest {
    CacheRequest {
        key: key.to_string(),
        value,
        tags: tags.iter().map(|t| t.to_string()).collect(),
        ttl,
    }
}

fn tags(list: &[&str]) -> Vec<String> {
    list.iter().map(|t| t.to_string()).collect()
}

#[test]
fn round_trip_returns_the_value() {
    let mut c = CacheStorage::new();
    let v = parse(r#"{"name":"x","n":[1,2,3]}"#);
    assert_eq!(c.set(request("k", v.clone(), &[], None), 1000), Ok(()));
    assert_eq!(c.get("k", 1000), Ok(Some(v.clone())));
    assert_eq!(c.get("k", 5000), Ok(Some(v)));
}

#[test]
fn missing_key_is_none() {
    let mut c = CacheStorage::new();
    assert_eq!(c.get("nothing", 0), Ok(None));
}

#[test]
fn entry_expires_after_ttl() {
    let mut c = CacheStorage::new();
    let v = Value::from(7);
    c.set(request("k", v.clone(), &[], Some(100)), 1000).unwrap();
    assert_eq!(c.get("k", 1099), Ok(Some(v)));
    assert_eq!(c.get("k", 1100), Ok(None));
    assert_eq!(c.get("k", 1200), Ok(None));
}

#[test]
fn entry_without_ttl_never_expires() {
    let mut c = CacheStorage::new();
    c.set(request("k", Value::from("v"), &[], None), 0).unwrap();
    c.set(request("short", Value::from(1), &[], Some(1)), 0).unwrap();
    assert_eq!(c.get("k", u64::MAX), Ok(Some(Value::from("v"))));
    assert_eq!(c.get("short", u64::MAX), Ok(None));
}

#[test]
fn overwrite_keeps_only_second_write() {
    let mut c = CacheStorage::new();
    c.set(request("k", Value::from(1), &["first"], None), 0).unwrap();
    c.set(request("k", Value::from(2), &["second"], None), 0).unwrap();
    assert_eq!(c.get("k", 0), Ok(Some(Value::from(2))));
    c.invalidate_tags(tags(&["first"]));
    assert_eq!(c.get("k", 0), Ok(Some(Value::from(2))));
    c.invalidate_tags(tags(&["second"]));
    assert_eq!(c.get("k", 0), Ok(None));
}

#[test]
fn overwrite_replaces_expiry() {
    let mut c = CacheStorage::new();
    c.set(request("k", Value::from(1), &[], Some(10)), 0).unwrap();
    c.set(request("k", Value::from(2), &[], None), 0).unwrap();
    assert_eq!(c.get("k", 50), Ok(Some(Value::from(2))));
}

#[test]
fn invalidation_is_a_union_of_tags() {
    let mut c = CacheStorage::new();
    c.set(request("a", Value::from("A"), &["x"], None), 0).unwrap();
    c.set(request("b", Value::from("B"), &["y"], None), 0).unwrap();
    c.set(request("c", Value::from("C"), &["z"], None), 0).unwrap();
    c.invalidate_tags(tags(&["x"]));
    assert_eq!(c.get("a", 0), Ok(None));
    assert_eq!(c.get("b", 0), Ok(Some(Value::from("B"))));
    c.invalidate_tags(tags(&["y", "z"]));
    assert_eq!(c.get("b", 0), Ok(None));
    assert_eq!(c.get("c", 0), Ok(None));
}

#[test]
fn invalidation_leaves_no_stale_tag_rows() {
    let mut c = CacheStorage::new();
    c.set(request("a", Value::from(1), &["x", "w"], None), 0).unwrap();
    c.invalidate_tags(tags(&["x"]));
    c.set(request("a", Value::from(2), &[], None), 0).unwrap();
    c.invalidate_tags(tags(&["x", "w"]));
    assert_eq!(c.get("a", 0), Ok(Some(Value::from(2))));
}

#[test]
fn empty_invalidation_changes_nothing() {
    let mut c = CacheStorage::new();
    c.set(request("a", Value::from(1), &["x"], None), 0).unwrap();
    c.invalidate_tags(Vec::new());
    assert_eq!(c.get("a", 0), Ok(Some(Value::from(1))));
    assert!(plan_invalidate(Vec::new()).is_empty());
}

#[test]
fn later_write_wins_in_full() {
    let mut c = CacheStorage::new();
    c.set(request("k", Value::from("one"), &["t1"], None), 0).unwrap();
    c.set(request("k", Value::from("two"), &["t2"], Some(1000)), 0).unwrap();
    c.invalidate_tags(tags(&["t1"]));
    assert_eq!(c.get("k", 10), Ok(Some(Value::from("two"))));
    assert_eq!(c.get("k", 1000), Ok(None));
}

#[test]
fn duplicate_tags_in_one_request() {
    let mut c = CacheStorage::new();
    c.set(request("k", Value::from(1), &["t", "t"], None), 0).unwrap();
    c.invalidate_tags(tags(&["t"]));
    assert_eq!(c.get("k", 0), Ok(None));
}

#[test]
fn bearer_token_is_checked() {
    assert!(is_authorized(Some("Bearer secret"), "secret"));
    assert!(!is_authorized(Some("Bearer wrong"), "secret"));
    assert!(!is_authorized(Some("secret"), "secret"));
    assert!(!is_authorized(Some("Basic secret"), "secret"));
    assert!(!is_authorized(Some("Bearer "), "secret"));
    assert!(!is_authorized(None, "secret"));
    assert!(!is_authorized(Some("Bearer Bearer secret"), "secret"));
    assert!(!is_authorized(Some("bearer secret"), "secret"));
    assert!(!is_authorized(Some("Bearer secret "), "secret"));
    assert!(is_authorized(Some("Bearer "), ""));
}

#[test]
fn future_time_adds_and_saturates() {
    assert_eq!(future_time(1000, 100), 1100);
    assert_eq!(future_time(0, 0), 0);
    assert_eq!(future_time(u64::MAX - 1, 5), u64::MAX);
}

#[test]
fn set_plan_has_delete_insert_and_tags() {
    let plan = plan_set(&request("k", parse(r#"{"a":1}"#), &["x", "y"], Some(50)), 1000).unwrap();
    assert_eq!(plan.len(), 4);
    assert!(matches!(&plan[0], Statement::DeleteKey { key } if key == "k"));
    assert!(matches!(&plan[1], Statement::InsertEntry { key, value, expires_at: Some(1050) }
        if key == "k" && value == r#"{"a":1}"#));
    assert!(matches!(&plan[2], Statement::InsertTag { tag, cache_key } if tag == "x" && cache_key == "k"));
    assert!(matches!(&plan[3], Statement::InsertTag { tag, cache_key } if tag == "y" && cache_key == "k"));
}

#[test]
fn invalidate_and_sweep_plans() {
    let plan = plan_invalidate(tags(&["x", "y"]));
    assert_eq!(plan.len(), 1);
    assert!(matches!(&plan[0], Statement::DeleteTagged { tags } if tags.len() == 2));
    let plan = plan_sweep(77);
    assert_eq!(plan.len(), 1);
    assert!(matches!(&plan[0], Statement::DeleteExpired { now: 77 }));
}

#[test]
fn payload_decoding() {
    assert_eq!(decode_payload(None), Ok(None));
    assert_eq!(decode_payload(Some("[1,2]".to_string())), Ok(Some(parse("[1,2]"))));
    assert_eq!(decode_payload(Some("{not json".to_string())), Err(CacheError::Decode));
}

#[test]
fn response_envelopes() {
    let ok = CacheResponse::success(Some(Value::from(3)));
    assert!(ok.success);
    assert_eq!(ok.data, Some(Value::from(3)));
    assert_eq!(ok.message, None);
    let err = CacheResponse::failure("Unauthorized".to_string());
    assert!(!err.success);
    assert_eq!(err.data, None);
    assert_eq!(err.message, Some("Unauthorized".to_string()));
}

#[test]
fn set_over_existing_key_succeeds() {
    let mut c = CacheStorage::new();
    assert_eq!(c.set(request("k", Value::from(1), &["t"], Some(5)), 0), Ok(()));
    assert_eq!(c.set(request("k", Value::from(2), &["t"], Some(5)), 0), Ok(()));
    assert_eq!(c.get("k", 1), Ok(Some(Value::from(2))));
}
