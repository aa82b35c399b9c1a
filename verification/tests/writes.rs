use std::time::Duration;

use mvsqlite::hashes::ContentHashSet;
use mvsqlite::store::{Core, CoreConfig};
use mvsqlite::write::{
    DeltaEncoding, Mutation, PageTooLarge, WriteApplier, WriteApplierContext, WriteRequest,
};

const NOW: Duration = Duration::from_secs(77);

fn applier() -> WriteApplier {
    WriteApplier::new(WriteApplierContext { ns_id: [1; 10], now: NOW, max_page_size: 16 })
}

fn req(data: &[u8]) -> WriteRequest<'_> {
    WriteRequest { data, delta_base: Some(3) }
}

fn hash(data: &[u8]) -> [u8; 32] {
    *blake3::hash(data).as_bytes()
}

#[test]
fn hashes_are_kept_apart() {
    let mut set = ContentHashSet::new();
    let mut a = [1; 32];
    assert!(!set.contains(&a));
    set.insert(&a);
    assert!(set.contains(&a));
    a[31] = 2;
    assert!(!set.contains(&a));
    set.insert(&a);
    set.insert(&a);
    a[0] = 9;
    assert!(!set.contains(&a));
    assert!(set.contains(&[1; 32]));
}

#[test]
fn responses_hold_the_content_hashes() {
    let batch = applier().apply_write(&[req(b"abc"), req(b"")]).ok().unwrap();
    assert_eq!(
        blake3::Hash::from_bytes(batch.responses[0].hash[..].try_into().unwrap())
            .to_hex()
            .as_str(),
        "6437b3ac38465133ffb63b75273a8db548c558465d79db03fd359c6cd5bd9d85"
    );
    assert_eq!(batch.responses[1].hash, hash(b"").to_vec());
    assert_eq!(batch.pending.len(), 2);
}

#[test]
fn first_page_that_is_too_large_is_reported() {
    let r = applier().apply_write(&[req(&[0; 16]), req(&[0; 17]), req(&[0; 18])]);
    let e = r.err().unwrap();
    assert_eq!(e, PageTooLarge { len: 17, limit: 16 });
    assert_eq!(e.message(), "page is too large: 17 bytes (limit 16)");
    assert!(applier().apply_write(&[req(&[0; 16])]).is_ok());
}

#[test]
fn runs_of_equal_pages_are_stored_once() {
    let batch = applier()
        .apply_write(&[req(b"a"), req(b"a"), req(b"b"), req(b"a")])
        .ok()
        .unwrap();
    assert_eq!(batch.responses.len(), 4);
    let pending: Vec<[u8; 32]> = batch.pending.iter().map(|p| p.hash).collect();
    assert_eq!(pending, vec![hash(b"a"), hash(b"b"), hash(b"a")]);
}

#[test]
fn finished_batch_writes_contents_and_index_entries() {
    let mut ap = applier();
    let mut batch = ap.apply_write(&[req(b"a"), req(b"b")]).ok().unwrap();
    batch.note_indexed(0, true);
    batch.note_indexed(1, false);
    assert_eq!(batch.delta_request(0), None);
    assert_eq!(batch.delta_request(1), Some(3));
    assert!(batch.note_delta(1, None, NOW).is_empty());
    let (mutations, responses) = ap.finish(batch);
    assert_eq!(responses.len(), 2);
    assert_eq!(mutations.len(), 3);
    assert!(matches!(
        &mutations[0],
        Mutation::StampContentIndex { hash: h, now } if *h == hash(b"a") && *now == NOW
    ));
    assert!(matches!(
        &mutations[1],
        Mutation::SetPage { hash: h, data } if *h == hash(b"b") && *data == b"b"
    ));
    assert!(matches!(
        &mutations[2],
        Mutation::StampContentIndex { hash: h, .. } if *h == hash(b"b")
    ));
}

#[test]
fn delta_is_written_in_place_of_the_page() {
    let mut ap = applier();
    let mut batch = ap.apply_write(&[req(b"a")]).ok().unwrap();
    let delta = DeltaEncoding { encoded: vec![1, 2], base: [4; 32] };
    let mutations = batch.note_delta(0, Some(delta), NOW);
    assert_eq!(mutations.len(), 3);
    assert!(matches!(
        &mutations[0],
        Mutation::SetDelta { hash: h, encoded } if *h == hash(b"a") && *encoded == vec![1, 2]
    ));
    assert!(matches!(
        &mutations[1],
        Mutation::SetDeltaReferrer { hash: h, base } if *h == hash(b"a") && *base == [4; 32]
    ));
    assert!(matches!(
        &mutations[2],
        Mutation::StampContentIndex { hash: h, now } if *h == [4; 32] && *now == NOW
    ));
    assert_eq!(batch.delta_request(0), None);
    let (mutations, _) = ap.finish(batch);
    assert_eq!(mutations.len(), 1);
    assert!(ap.seen_hashes.contains(&[4; 32]));
    assert!(ap.seen_hashes.contains(&hash(b"a")));
}

#[test]
fn deltas_of_a_batch_are_taken_in_together() {
    let mut ap = applier();
    let mut batch = ap.apply_write(&[req(b"a"), req(b"b"), req(b"c")]).ok().unwrap();
    batch.note_indexed(0, true);
    let encodings = vec![
        None,
        Some(DeltaEncoding { encoded: vec![1], base: [4; 32] }),
        None,
    ];
    let mutations = batch.note_deltas(encodings, NOW);
    assert_eq!(mutations.len(), 3);
    assert!(matches!(
        &mutations[1],
        Mutation::SetDeltaReferrer { hash: h, base } if *h == hash(b"b") && *base == [4; 32]
    ));
    assert_eq!(batch.delta_bases, vec![[4; 32]]);
    let early: Vec<bool> = batch.pending.iter().map(|p| p.early_completion).collect();
    assert_eq!(early, vec![true, true, false]);
    let (mutations, _) = ap.finish(batch);
    let pages: Vec<[u8; 32]> = mutations
        .iter()
        .filter_map(|m| match m {
            Mutation::SetPage { hash, .. } => Some(*hash),
            _ => None,
        })
        .collect();
    assert_eq!(pages, vec![hash(b"c")]);
}

#[test]
fn batch_is_stored_only_once_in_a_transaction() {
    let mut ap = applier();
    let reqs = [req(b"a"), req(b"b"), req(b"a")];
    let batch = ap.apply_write(&reqs).ok().unwrap();
    ap.finish(batch);
    let again = ap.apply_write(&reqs).ok().unwrap();
    assert!(again.pending.is_empty());
    assert_eq!(again.responses.len(), 3);
    let (mutations, _) = ap.finish(again);
    assert!(mutations.is_empty());
}

#[test]
fn store_starts_with_a_fresh_applier() {
    let core = Core::open(CoreConfig {
        cluster: String::new(),
        raw_data_prefix: String::new(),
        metadata_prefix: String::new(),
        read_only: false,
        dr_tag: String::new(),
        content_cache_size: 0,
        auto_create_ns: false,
    });
    let (ap, batch) = core.write_pages([6; 10], NOW, 4, &[req(b"four")]).ok().unwrap();
    assert_eq!(ap.ns_id, [6; 10]);
    assert_eq!(ap.now, NOW);
    assert_eq!(batch.pending.len(), 1);
    assert_eq!(batch.pending[0].data, b"four");
    assert!(core.write_pages([6; 10], NOW, 3, &[req(b"four")]).is_err());
}

#[test]
fn hashes_decide_what_is_stored() {
    let ap = applier();
    let batch = ap.plan_write(&[req(b"x"), req(b"y")], &vec![[1; 32], [1; 32]]);
    assert_eq!(batch.pending.len(), 1);
    assert_eq!(batch.pending[0].data, b"x");
    assert_eq!(batch.responses[1].hash, vec![1; 32]);
}
