use mvsqlite::client::{
    is_retryable, with_fdb_retry, CommitError, ErrorCause, MultiVersionClient,
    MultiVersionClientConfig, NamespaceLookup, NamespaceNotFound, RetryStep, StatResponse,
};

fn client(hashproof: Option<&str>, lock_owner: Option<&str>) -> MultiVersionClient {
    MultiVersionClient::new(MultiVersionClientConfig {
        ns_key: "shop".to_string(),
        ns_key_hashproof: hashproof.map(|x| x.to_string()),
        lock_owner: lock_owner.map(|x| x.to_string()),
    })
}

fn stat(version: &str) -> StatResponse {
    StatResponse {
        version: version.to_string(),
        metadata: "meta".to_string(),
        read_only: true,
        interval: Some(vec![1, 2]),
    }
}

const RETRYABLE: ErrorCause = ErrorCause::Fdb { retryable: true };
const PERMANENT: ErrorCause = ErrorCause::Fdb { retryable: false };
const OTHER: ErrorCause = ErrorCause::Other;

#[test]
fn commit_errors_have_texts() {
    assert_eq!(CommitError::Failed("disk".to_string()).message(), "commit error: disk");
    assert_eq!(CommitError::BadPageReference.message(), "bad page reference");
    assert_eq!(CommitError::NamespaceNotDistinct.message(), "namespace not distinct");
}

#[test]
fn first_database_error_in_the_chain_decides() {
    assert!(is_retryable(&[RETRYABLE]));
    assert!(is_retryable(&[OTHER, OTHER, RETRYABLE]));
    assert!(is_retryable(&[RETRYABLE, PERMANENT]));
    assert!(!is_retryable(&[PERMANENT, RETRYABLE]));
    assert!(!is_retryable(&[OTHER, PERMANENT]));
    assert!(!is_retryable(&[OTHER]));
    assert!(!is_retryable(&[]));
}

#[test]
fn context_does_not_hide_a_database_error() {
    for causes in [vec![RETRYABLE], vec![PERMANENT], vec![], vec![OTHER, RETRYABLE]] {
        let mut wrapped = vec![OTHER];
        wrapped.extend(causes.iter().copied());
        assert_eq!(is_retryable(&wrapped), is_retryable(&causes));
    }
}

#[test]
fn only_errors_that_may_go_away_are_retried() {
    assert!(matches!(with_fdb_retry::<u8, u8>(Ok(1), &[]), RetryStep::Done(1)));
    assert!(matches!(with_fdb_retry::<u8, u8>(Err(2), &[OTHER, RETRYABLE]), RetryStep::Retry));
    assert!(matches!(with_fdb_retry::<u8, u8>(Err(2), &[PERMANENT]), RetryStep::Fail(2)));
}

#[test]
fn stat_request_fills_in_what_is_missing() {
    let c = client(None, None);
    let req = c.stat_request(None);
    assert_eq!(req.ns_key, "shop");
    assert_eq!(req.hashproof, None);
    assert_eq!(req.from_version, "");
    assert_eq!(req.lock_owner, "");
    let c = client(Some("ab"), Some("me"));
    let req = c.stat_request(Some("v"));
    assert_eq!(req.hashproof, Some("ab"));
    assert_eq!(req.from_version, "v");
    assert_eq!(req.lock_owner, "me");
    assert_eq!(c.config().ns_key, "shop");
}

#[test]
fn transaction_opens_at_the_version_found() {
    let c = client(None, None);
    let found = NamespaceLookup::Found { ns_id: [3; 10], stat: stat("v7") };
    let (txn, info) = c.create_transaction_with_info(found).ok().unwrap();
    assert_eq!(txn.version(), "v7");
    assert_eq!(txn.ns_id(), [3; 10]);
    assert!(txn.is_read_only());
    assert_eq!(info.metadata, "meta");
    assert_eq!(info.interval, Some(vec![1, 2]));
    let found = NamespaceLookup::Found { ns_id: [3; 10], stat: stat("v7") };
    assert_eq!(c.create_transaction(found).ok().unwrap().version(), "v7");
}

#[test]
fn missing_namespace_opens_no_transaction() {
    assert_eq!(NamespaceNotFound.message(), "namespace not found");
    let c = client(None, None);
    assert_eq!(
        c.create_transaction_with_info(NamespaceLookup::NotFound).err(),
        Some(NamespaceNotFound)
    );
    assert_eq!(c.create_transaction(NamespaceLookup::NotFound).err(), Some(NamespaceNotFound));
    assert_eq!(c.create_transaction_at_version(None, "v", false).err(), Some(NamespaceNotFound));
}

#[test]
fn transaction_opens_at_a_known_version() {
    let txn = client(None, None)
        .create_transaction_at_version(Some([9; 10]), "v3", false)
        .ok()
        .unwrap();
    assert_eq!(txn.version(), "v3");
    assert_eq!(txn.ns_id(), [9; 10]);
    assert!(!txn.is_read_only());
    assert!(!txn.is_read_set_enabled());
    assert!(txn.written_pages().is_empty());
}

#[test]
fn points_in_time_are_handed_on() {
    let r = client(None, None).time2version(Some(("a".to_string(), 5)), None);
    let after = r.after.unwrap();
    assert_eq!((after.version.as_str(), after.time), ("a", 5));
    assert!(r.not_after.is_none());
}
