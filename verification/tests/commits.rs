use std::collections::{HashMap, HashSet};
use std::time::Duration;

use bytes::Bytes;
use mvsqlite::client::{
    CommitError, CommitNamespaceInit, CommitRequest, ErrorCause, MultiVersionClient,
    MultiVersionClientConfig, NamespaceCommitIntent, RetryStep,
};
use mvsqlite::commit::{
    key_from_bytes, plan_commit, CommitAttempts, CommitFailure, CoreCommitResult, IntentError,
};

fn intent(version: &str, requests: Vec<CommitRequest>) -> NamespaceCommitIntent {
    NamespaceCommitIntent {
        ns_id: [2; 10],
        init: CommitNamespaceInit {
            ns_key: "shop".to_string(),
            ns_key_hashproof: None,
            version: version.to_string(),
            metadata: Some("meta".to_string()),
            num_pages: requests.len() as u32,
            read_set: None,
        },
        requests,
    }
}

fn stored(page_index: u32, hash: Vec<u8>) -> CommitRequest {
    CommitRequest { page_index, hash, data: None }
}

fn client(lock_owner: Option<&str>) -> MultiVersionClient {
    MultiVersionClient::new(MultiVersionClientConfig {
        ns_key: "shop".to_string(),
        ns_key_hashproof: None,
        lock_owner: lock_owner.map(|x| x.to_string()),
    })
}

const VERSION: &str = "0102030405060708090a";

#[test]
fn intents_that_cannot_be_committed() {
    assert_eq!(IntentError::NoIntents.message(), "no commit intents");
    assert_eq!(IntentError::InvalidHashLength.message(), "invalid hash length");
    assert_eq!(IntentError::InvalidVersion.message(), "invalid version");
    assert_eq!(plan_commit(&[], [0; 16]).err(), Some(IntentError::NoIntents));
    let short = vec![intent(VERSION, vec![stored(1, vec![0; 31])])];
    assert_eq!(plan_commit(&short, [0; 16]).err(), Some(IntentError::InvalidHashLength));
    let version = vec![intent("nonsense", vec![stored(1, vec![0; 32])])];
    assert_eq!(plan_commit(&version, [0; 16]).err(), Some(IntentError::InvalidVersion));
    let both = vec![intent("nonsense", vec![stored(1, vec![0; 33])])];
    assert_eq!(plan_commit(&both, [0; 16]).err(), Some(IntentError::InvalidHashLength));
    let order = vec![
        intent(VERSION, vec![]),
        intent("nonsense", vec![]),
        intent(VERSION, vec![stored(1, vec![])]),
    ];
    assert_eq!(plan_commit(&order, [0; 16]).err(), Some(IntentError::InvalidVersion));
    assert_eq!(client(None).apply_commit_intents(&[]).err(), Some(IntentError::NoIntents));
}

#[test]
fn plan_hands_on_what_the_intents_say() {
    let carried = CommitRequest {
        page_index: 7,
        hash: vec![9; 32],
        data: Some(Bytes::from_static(b"content")),
    };
    let mut first = intent(VERSION, vec![stored(3, vec![4; 32]), carried]);
    first.init.read_set = Some(HashSet::from([5, 6]));
    let intents = vec![first, intent("00000000000000000000", vec![stored(8, vec![1; 32])])];
    let plan = plan_commit(&intents, [5; 16]).ok().unwrap();
    assert_eq!(plan.idempotency_key, [5; 16]);
    assert_eq!(plan.num_pages, 3);
    assert_eq!(plan.namespaces.len(), 2);
    let ns = &plan.namespaces[0];
    assert_eq!(ns.ns_key, "shop");
    assert_eq!(ns.ns_id, [2; 10]);
    assert_eq!(ns.client_assumed_version, [1, 2, 3, 4, 5, 6, 7, 8, 9, 10]);
    assert!(ns.use_read_set);
    assert_eq!(ns.read_set, HashSet::from([5, 6]));
    assert_eq!(ns.index_writes, vec![(3, [4; 32]), (7, [9; 32])]);
    assert_eq!(ns.page_writes.len(), 1);
    assert_eq!(ns.page_writes[0].data, b"content");
    assert_eq!(ns.page_writes[0].delta_base, Some(7));
    assert_eq!(ns.metadata.as_deref(), Some("meta"));
    let ns = &plan.namespaces[1];
    assert!(!ns.use_read_set);
    assert!(ns.read_set.is_empty());
    assert!(ns.page_writes.is_empty());
    assert_eq!(ns.index_writes, vec![(8, [1; 32])]);
}

#[test]
fn each_commit_has_a_key_of_its_own() {
    let intents = vec![intent(VERSION, vec![])];
    let c = client(None);
    let a = c.apply_commit_intents(&intents).ok().unwrap();
    let b = c.apply_commit_intents(&intents).ok().unwrap();
    assert_ne!(a.idempotency_key, b.idempotency_key);
    assert_ne!(a.idempotency_key, [0; 16]);
    let bytes: Vec<u8> = (0..16).collect();
    assert_eq!(key_from_bytes(&bytes).to_vec(), bytes);
}

#[test]
fn only_the_first_attempt_skips_the_check() {
    let intents = vec![intent(VERSION, vec![])];
    let plan = plan_commit(&intents, [5; 16]).ok().unwrap();
    let c = client(Some("me"));
    let mut attempts = CommitAttempts::new();
    for k in 0..4 {
        let ctx = plan.next_context(&mut attempts, &c);
        assert_eq!(ctx.allow_skip_idempotency_check, k == 0);
        assert_eq!(ctx.idempotency_key, [5; 16]);
        assert_eq!(ctx.namespaces.len(), 1);
        assert_eq!(ctx.lock_owner, Some("me"));
    }
    let ctx_owner = client(None);
    assert_eq!(plan.next_context(&mut attempts, &ctx_owner).lock_owner, None);
}

#[test]
fn committed_attempt_yields_the_result() {
    let intents = vec![intent(VERSION, vec![stored(1, vec![0; 32]), stored(2, vec![0; 32])])];
    let plan = plan_commit(&intents, [5; 16]).ok().unwrap();
    let changelog = HashMap::from([("shop".to_string(), vec![1, 2])]);
    let attempt: Result<CoreCommitResult, u8> =
        Ok(CoreCommitResult::Committed { versionstamp: [0xab; 10], changelog });
    match plan.settle_attempt(attempt, &[], Duration::from_millis(12)) {
        RetryStep::Done(Some(result)) => {
            assert_eq!(result.version, "abababababababababab");
            assert_eq!(result.duration, Duration::from_millis(12));
            assert_eq!(result.num_pages, 2);
            assert_eq!(result.changelog["shop"], vec![1, 2]);
        }
        _ => panic!(),
    }
}

#[test]
fn attempts_that_did_not_commit() {
    let intents = vec![intent(VERSION, vec![])];
    let plan = plan_commit(&intents, [5; 16]).ok().unwrap();
    let settle = |attempt: Result<CoreCommitResult, u8>, causes: &[ErrorCause]| {
        plan.settle_attempt(attempt, causes, Duration::ZERO)
    };
    assert!(matches!(settle(Ok(CoreCommitResult::Conflict), &[]), RetryStep::Done(None)));
    assert!(matches!(
        settle(Ok(CoreCommitResult::BadPageReference), &[]),
        RetryStep::Fail(CommitFailure::Refused(CommitError::BadPageReference))
    ));
    assert!(matches!(
        settle(Ok(CoreCommitResult::NamespaceNotDistinct), &[]),
        RetryStep::Fail(CommitFailure::Refused(CommitError::NamespaceNotDistinct))
    ));
    assert!(matches!(
        settle(Err(3), &[ErrorCause::Other, ErrorCause::Fdb { retryable: true }]),
        RetryStep::Retry
    ));
    assert!(matches!(
        settle(Err(3), &[ErrorCause::Fdb { retryable: false }]),
        RetryStep::Fail(CommitFailure::Store(3))
    ));
}

#[test]
fn carried_content_is_indexed_under_its_hash() {
    let txn_client = client(None);
    let txn = txn_client.create_transaction_with_ns_id([1; 10], VERSION, false);
    let fast = HashMap::from([(4, Bytes::from_static(b"payload"))]);
    let intents = vec![txn.commit_intent(None, &fast).unwrap()];
    let plan = plan_commit(&intents, [0; 16]).ok().unwrap();
    let ns = &plan.namespaces[0];
    assert_eq!(ns.page_writes[0].data, b"payload");
    assert_eq!(ns.index_writes, vec![(4, *blake3::hash(b"payload").as_bytes())]);
    assert!(intents[0].requests.iter().all(|r| r.hash.len() == 32));
    let junk = txn_client.create_transaction_with_ns_id([1; 10], "junk", false);
    let intents = vec![junk.commit_intent(None, &fast).unwrap()];
    assert_eq!(plan_commit(&intents, [0; 16]).err(), Some(IntentError::InvalidVersion));
}
