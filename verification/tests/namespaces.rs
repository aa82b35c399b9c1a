use mvsqlite::namespace::{
    asked_hash, settle_hashproof, CausalReadFault, CreateNamespaceError, CreateNamespaceEvent,
    CreateNamespaceStep, HashproofError, LookupError, NamespaceMetadata,
    NamespaceOverlayBase, OverlayBaseError,
};
use mvsqlite::store::{CachePolicy, Core, CoreConfig};
use mvsqlite::version::version_from_parts;

fn open_store(read_only: bool, content_cache_size: usize) -> Core {
    Core::open(CoreConfig {
        cluster: "fdb.cluster".to_string(),
        raw_data_prefix: "m\u{e9}".to_string(),
        metadata_prefix: "meta".to_string(),
        read_only,
        dr_tag: "default".to_string(),
        content_cache_size,
        auto_create_ns: true,
    })
}

fn base(ns_id: &str, snapshot_version: &str) -> Option<NamespaceOverlayBase> {
    Some(NamespaceOverlayBase {
        ns_id: ns_id.to_string(),
        snapshot_version: snapshot_version.to_string(),
    })
}

const GOOD: &str = "00000000000000000001";

#[test]
fn store_settings_follow_the_configuration() {
    let c = open_store(false, 0);
    assert_eq!(c.cluster, "fdb.cluster");
    assert_eq!(c.key_codec.raw_data_prefix, vec![b'm', 0xc3, 0xa9]);
    assert_eq!(c.key_codec.metadata_prefix, "meta");
    assert!(!c.is_read_only());
    assert_eq!(c.replica_tag, None);
    assert_eq!(c.content_cache, None);
    assert!(c.auto_create_ns);
    assert_eq!(
        c.nskey_cache,
        CachePolicy {
            time_to_live_secs: Some(120),
            time_to_idle_secs: Some(5),
            max_capacity: Some(10000),
        }
    );
    assert_eq!(
        c.read_version_cache,
        CachePolicy {
            time_to_live_secs: Some(2),
            time_to_idle_secs: None,
            max_capacity: Some(1000),
        }
    );
    assert_eq!(
        c.read_version_and_nsid_to_lwv_cache,
        CachePolicy { time_to_live_secs: None, time_to_idle_secs: Some(2), max_capacity: None }
    );
    let c = open_store(true, 7);
    assert!(c.is_read_only());
    assert_eq!(c.replica_tag.as_deref(), Some("default"));
    assert_eq!(
        c.content_cache,
        Some(CachePolicy {
            time_to_live_secs: None,
            time_to_idle_secs: None,
            max_capacity: Some(7),
        })
    );
}

#[test]
fn namespace_is_created_where_its_key_is_absent() {
    let c = open_store(false, 0);
    assert_eq!(
        c.create_namespace(CreateNamespaceEvent::Requested(&None)),
        CreateNamespaceStep::ReadKey
    );
    assert_eq!(
        c.create_namespace(CreateNamespaceEvent::Requested(&base(GOOD, GOOD))),
        CreateNamespaceStep::ReadKey
    );
    assert_eq!(
        c.create_namespace(CreateNamespaceEvent::KeyRead { present: false }),
        CreateNamespaceStep::WriteAndCommit {
            nsmd_placeholder: [0; 10],
            nskey_placeholder: [0; 14],
        }
    );
    assert_eq!(
        c.create_namespace(CreateNamespaceEvent::CommitFailed),
        CreateNamespaceStep::Recover
    );
    assert_eq!(
        c.create_namespace(CreateNamespaceEvent::Recovered),
        CreateNamespaceStep::ReadKey
    );
    assert_eq!(
        c.create_namespace(CreateNamespaceEvent::StoreFailed),
        CreateNamespaceStep::Fail
    );
    assert_eq!(
        c.create_namespace(CreateNamespaceEvent::Committed),
        CreateNamespaceStep::Done
    );
}

#[test]
fn existing_namespace_is_refused() {
    assert_eq!(
        open_store(false, 0).create_namespace(CreateNamespaceEvent::KeyRead { present: true }),
        CreateNamespaceStep::Refuse(CreateNamespaceError::AlreadyExist)
    );
    assert_eq!(CreateNamespaceError::AlreadyExist.message(), "AlreadyExist");
}

#[test]
fn malformed_overlay_base_is_refused() {
    let c = open_store(false, 0);
    assert_eq!(
        c.create_namespace(CreateNamespaceEvent::Requested(&base("x", "x"))),
        CreateNamespaceStep::Malformed(OverlayBaseError::InvalidNsId)
    );
    assert_eq!(
        c.create_namespace(CreateNamespaceEvent::Requested(&base(GOOD, "x"))),
        CreateNamespaceStep::Malformed(OverlayBaseError::InvalidSnapshotVersion)
    );
    assert_eq!(OverlayBaseError::InvalidNsId.message(), "overlay_base: invalid ns_id");
    assert_eq!(
        OverlayBaseError::InvalidSnapshotVersion.message(),
        "overlay_base: invalid snapshot_version"
    );
}

#[test]
fn key_without_colon_asks_for_nothing() {
    let c = open_store(false, 0);
    assert_eq!(asked_hash("shop"), Ok(None));
    assert_eq!(asked_hash(""), Ok(None));
    assert_eq!(c.lookup_nskey("shop", None), Ok(()));
    assert_eq!(c.lookup_nskey("shop", Some("not hex")), Ok(()));
}

#[test]
fn second_segment_of_a_key_is_the_hash() {
    let hash = "af1349b9f5f9a1a6a0404dea36dcc9499bcb25c9adc112b7cc9a93cae41f3262";
    let bytes = *blake3::hash(b"").as_bytes();
    assert_eq!(asked_hash(&format!("shop:{}", hash)), Ok(Some(bytes)));
    assert_eq!(asked_hash(&format!("shop:{}:more:colons", hash)), Ok(Some(bytes)));
    assert_eq!(asked_hash(&format!(":{}", hash.to_uppercase())), Ok(Some(bytes)));
    assert_eq!(asked_hash("shop:"), Err(HashproofError::BadHash));
    assert_eq!(asked_hash("shop::x"), Err(HashproofError::BadHash));
    assert_eq!(asked_hash(&format!("shop:{}0", hash)), Err(HashproofError::BadHash));
    assert_eq!(asked_hash("caf\u{e9}:zz"), Err(HashproofError::BadHash));
}

#[test]
fn preimage_opens_a_key() {
    let c = open_store(false, 0);
    let key = format!("shop:{}", blake3::hash(b"open sesame").to_hex());
    assert_eq!(c.lookup_nskey(&key, Some("6f70656e20736573616d65")), Ok(()));
    assert_eq!(c.lookup_nskey(&key, Some("6F70656E20736573616D65")), Ok(()));
    assert_eq!(c.lookup_nskey(&key, Some("6f70656e20736573616d66")), Err(HashproofError::Mismatch));
    assert_eq!(c.lookup_nskey(&key, Some("")), Err(HashproofError::Mismatch));
    assert_eq!(c.lookup_nskey(&key, None), Err(HashproofError::Mismatch));
    assert_eq!(c.lookup_nskey(&key, Some("6f7")), Err(HashproofError::BadProof));
    assert_eq!(c.lookup_nskey(&key, Some("xx")), Err(HashproofError::BadProof));
    assert_eq!(c.lookup_nskey("shop:xx", Some("xx")), Err(HashproofError::BadHash));
    let empty = format!("shop:{}", blake3::hash(b"").to_hex());
    assert_eq!(c.lookup_nskey(&empty, None), Ok(()));
}

#[test]
fn proofs_are_compared_byte_by_byte() {
    let a = [1; 32];
    let mut b = a;
    assert_eq!(settle_hashproof(&a, &b), Ok(()));
    b[31] = 2;
    assert_eq!(settle_hashproof(&a, &b), Err(HashproofError::Mismatch));
}

#[test]
fn refused_caller_is_told_that_there_is_no_namespace() {
    let c = open_store(false, 0);
    let refused = Err(HashproofError::Mismatch);
    assert_eq!(c.answer_lookup(refused, Some(&[7; 10])), Ok(None));
    assert_eq!(c.answer_lookup(refused, Some(&[7; 3])), Ok(None));
    assert_eq!(c.answer_lookup(refused, None), c.answer_lookup(Ok(()), None));
    assert_eq!(c.answer_lookup(Ok(()), Some(&[7; 10])), Ok(Some([7; 10])));
    assert_eq!(
        c.answer_lookup(Ok(()), Some(&[7; 3])),
        Err(LookupError::InvalidNamespaceId)
    );
    assert_eq!(HashproofError::BadHash.message(), "hashproof_hash hex decode failed");
    assert_eq!(HashproofError::BadProof.message(), "hashproof hex decode failed");
    assert_eq!(HashproofError::Mismatch.message(), "hashproof mismatch");
}

#[test]
fn new_namespace_is_not_locked() {
    let md = NamespaceMetadata::of_new_namespace(base(GOOD, "snap"));
    assert!(md.lock.is_none());
    assert_eq!(md.overlay_base.unwrap().snapshot_version, "snap");
    assert!(NamespaceMetadata::of_new_namespace(None).overlay_base.is_none());
}

#[test]
fn stored_id_has_ten_bytes() {
    let c = open_store(false, 0);
    assert_eq!(c.found_namespace(None), Ok(None));
    assert_eq!(c.found_namespace(Some(&[7; 10])), Ok(Some([7; 10])));
    assert_eq!(c.found_namespace(Some(&[7; 9])), Err(LookupError::InvalidNamespaceId));
    assert_eq!(c.found_namespace(Some(&[7; 11])), Err(LookupError::InvalidNamespaceId));
    assert_eq!(
        LookupError::InvalidNamespaceId.message(),
        "nskey lookup failed: invalid namespace id"
    );
    assert_eq!(
        LookupError::TransactionFailed.message(),
        "nskey lookup failed: transaction failed"
    );
    assert_eq!(
        LookupError::TransactionCreationFailed.message(),
        "nskey lookup failed: transaction creation failed"
    );
}

#[test]
fn versioned_read_is_checked_on_a_primary() {
    let c = open_store(false, 0);
    assert!(c.create_versioned_read_txn("junk").is_err());
    let mut read = c.create_versioned_read_txn("00000000000000050000").ok().unwrap();
    assert_eq!(read.version, version_from_parts(5, 0));
    assert!(!read.read_lock_aware);
    assert!(read.causal_read_risky);
    assert_eq!(read.read_version_to_set(9), Some(9));
    assert_eq!(c.admit_read_version(&mut read, 4), Err(CausalReadFault));
    assert_eq!(c.admit_read_version(&mut read, 5), Ok(5));
    assert_eq!(c.admit_read_version(&mut read, 6), Ok(6));
    assert!(read.grv_called);
    assert_eq!(
        CausalReadFault.message(),
        "fdb read version older than requested version - causal read fault?"
    );
    assert_eq!(read.read_version_to_set(6), None);
}

#[test]
fn versioned_read_is_not_checked_on_a_replica() {
    let c = open_store(true, 0);
    let mut read = c.create_versioned_read_txn("00000000000000050000").ok().unwrap();
    assert!(read.read_lock_aware);
    assert_eq!(c.admit_read_version(&mut read, 4), Ok(4));
}
