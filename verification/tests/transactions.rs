use std::collections::HashMap;

use bytes::Bytes;
use mvsqlite::client::{
    CommitOutput, CommitResult, MultiVersionClient, MultiVersionClientConfig,
};
use mvsqlite::read::Page;
use mvsqlite::transaction::{commit_output, CommitStart, Transaction};

fn open() -> Transaction {
    let client = MultiVersionClient::new(MultiVersionClientConfig {
        ns_key: "shop".to_string(),
        ns_key_hashproof: Some("cafe".to_string()),
        lock_owner: None,
    });
    client.create_transaction_with_ns_id([1; 10], "00000000000000000001", false)
}

fn hash(data: &[u8]) -> [u8; 32] {
    *blake3::hash(data).as_bytes()
}

fn sorted(mut v: Vec<u32>) -> Vec<u32> {
    v.sort();
    v
}

#[test]
fn transaction_asks_for_its_own_writes_by_hash() {
    let mut txn = open();
    assert_eq!(txn.read_requests(&[4])[0].hash, None);
    txn.write_many(&[(4, b"one"), (5, b"two"), (4, b"three")]);
    let reqs = txn.read_requests(&[4, 6, 5]);
    assert_eq!(reqs.len(), 3);
    assert_eq!(reqs[0].page_index, 4);
    assert_eq!(reqs[0].version, "00000000000000000001");
    assert_eq!(reqs[0].hash, Some(hash(b"three")));
    assert_eq!(reqs[1].page_index, 6);
    assert_eq!(reqs[1].hash, None);
    assert_eq!(reqs[2].hash, Some(hash(b"two")));
    assert!(txn.page_is_written(4) && txn.page_is_written(5) && !txn.page_is_written(6));
    assert_eq!(sorted(txn.written_pages()), vec![4, 5]);
}

#[test]
fn unseen_contents_are_handed_out_for_storing() {
    let mut txn = open();
    let reqs = txn.write_many(&[(1, b"a"), (2, b"b"), (3, b"a")]);
    let handed: Vec<(&[u8], Option<u32>)> = reqs.iter().map(|r| (r.data, r.delta_base)).collect();
    assert_eq!(
        handed,
        vec![
            (b"a".as_slice(), Some(1)),
            (b"b".as_slice(), Some(2)),
            (b"a".as_slice(), Some(3))
        ]
    );
    assert!(txn.write_many(&[(7, b"b"), (8, b"a")]).is_empty());
    let reqs = txn.write_many(&[(7, b"b"), (8, b"c")]);
    assert_eq!(reqs.len(), 1);
    assert_eq!((reqs[0].data, reqs[0].delta_base), (b"c".as_slice(), Some(8)));
    assert_eq!(sorted(txn.written_pages()), vec![1, 2, 3, 7, 8]);
    assert!(txn.write_many(&[]).is_empty());
}

#[test]
fn contents_that_were_read_need_not_be_stored() {
    let mut txn = open();
    let pages = txn.read_many_nomark(vec![
        Some(Page { version: "v".to_string(), data: Bytes::from_static(b"old") }),
        None,
    ]);
    assert_eq!(pages, vec![b"old".to_vec(), Vec::new()]);
    assert!(txn.write_many(&[(1, b"old"), (2, b"")]).is_empty());
    assert_eq!(txn.write_many(&[(1, b"new")]).len(), 1);
}

#[test]
fn hashes_can_be_handed_in() {
    let mut txn = open();
    txn.note_contents(&vec![[7; 32]]);
    let reqs = txn.write_hashed(&[(1, b"x"), (2, b"y")], &vec![[7; 32], [8; 32]]);
    assert_eq!(reqs.len(), 1);
    assert_eq!(reqs[0].delta_base, Some(2));
    assert_eq!(txn.read_requests(&[1, 2])[0].hash, Some([7; 32]));
    assert_eq!(txn.read_requests(&[1, 2])[1].hash, Some([8; 32]));
}

#[test]
fn read_set_is_kept_only_when_enabled() {
    let mut txn = open();
    txn.mark_read(1);
    assert_eq!(txn.read_set_size(), 0);
    assert!(!txn.is_read_set_enabled());
    txn.enable_read_set();
    txn.mark_read(1);
    txn.mark_read(2);
    txn.mark_read(1);
    assert_eq!(txn.read_set_size(), 2);
    txn.enable_read_set();
    assert_eq!(txn.read_set_size(), 2);
    txn.disable_read_set();
    assert!(!txn.is_read_set_enabled());
    txn.enable_read_set();
    assert_eq!(txn.read_set_size(), 0);
}

#[test]
fn nothing_to_commit_gives_no_intent() {
    let txn = open();
    assert!(txn.commit_intent(None, &HashMap::new()).is_none());
    assert!(txn.commit_intent(Some("m".to_string()), &HashMap::new()).is_some());
    let fast = HashMap::from([(1, Bytes::from_static(b"x"))]);
    assert!(txn.commit_intent(None, &fast).is_some());
    assert!(matches!(txn.commit(None, &HashMap::new()), CommitStart::Empty));
}

#[test]
fn intent_names_every_page_once() {
    let mut txn = open();
    txn.write_many(&[(1, b"one"), (2, b"two"), (3, b"three")]);
    txn.enable_read_set();
    txn.mark_read(9);
    let fast = HashMap::from([
        (2, Bytes::from_static(b"fast two")),
        (5, Bytes::from_static(b"fast five")),
    ]);
    let intent = txn.commit_intent(Some("meta".to_string()), &fast).unwrap();
    assert_eq!(intent.ns_id, [1; 10]);
    assert_eq!(intent.init.ns_key, "shop");
    assert_eq!(intent.init.ns_key_hashproof.as_deref(), Some("cafe"));
    assert_eq!(intent.init.version, "00000000000000000001");
    assert_eq!(intent.init.metadata.as_deref(), Some("meta"));
    assert_eq!(intent.init.num_pages, 5);
    assert_eq!(intent.init.read_set.unwrap().into_iter().collect::<Vec<u32>>(), vec![9]);
    let pages: Vec<u32> = intent.requests.iter().map(|r| r.page_index).collect();
    assert_eq!(sorted(pages), vec![1, 2, 3, 5]);
    for (i, req) in intent.requests.iter().enumerate() {
        match req.page_index {
            2 => {
                assert!(i < 2);
                assert_eq!(req.data.as_deref(), Some(b"fast two".as_slice()));
                assert_eq!(req.hash, hash(b"fast two").to_vec());
            }
            5 => {
                assert!(i < 2);
                assert_eq!(req.data.as_deref(), Some(b"fast five".as_slice()));
                assert_eq!(req.hash, hash(b"fast five").to_vec());
            }
            1 => {
                assert!(req.data.is_none());
                assert_eq!(req.hash, hash(b"one").to_vec());
            }
            3 => {
                assert!(req.data.is_none());
                assert_eq!(req.hash, hash(b"three").to_vec());
            }
            _ => unreachable!(),
        }
    }
}

#[test]
fn intent_without_read_set_carries_none() {
    let mut txn = open();
    txn.write_many(&[(1, b"one")]);
    txn.mark_read(4);
    let start = txn.commit(Some("meta"), &HashMap::new());
    match start {
        CommitStart::Apply(intent) => {
            assert!(intent.init.read_set.is_none());
            assert_eq!(intent.init.metadata.as_deref(), Some("meta"));
            assert_eq!(intent.init.num_pages, 1);
        }
        CommitStart::Empty => panic!(),
    }
}

#[test]
fn outcome_of_a_commit() {
    assert!(matches!(commit_output(None), CommitOutput::Conflict));
    let result = CommitResult {
        version: "v".to_string(),
        duration: std::time::Duration::from_millis(3),
        num_pages: 4,
        changelog: HashMap::new(),
    };
    match commit_output(Some(result)) {
        CommitOutput::Committed(r) => assert_eq!((r.version.as_str(), r.num_pages), ("v", 4)),
        _ => panic!(),
    }
}
