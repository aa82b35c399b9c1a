use std::collections::{HashMap, HashSet};
use std::time::Duration;

use mvsqlite::bench::{
    concurrency_per_shard, decode, draw_transfer_entity, encode_owned, encode_tombstone,
    other_shard, owned_shards, ownership_matches, shard_ns_key, shard_server, transfer_entity,
    LatencyStats, Move, MoveOutcome, Ownership, ScatterGatherBench, SetupFailure, TransferBench,
    TransferOutcome,
};
use mvsqlite::client::{CommitOutput, CommitResult};

fn committed() -> CommitOutput {
    CommitOutput::Committed(CommitResult {
        version: "v".to_string(),
        duration: Duration::ZERO,
        num_pages: 1,
        changelog: HashMap::new(),
    })
}

fn ownership(homes: &[u32], num_shards: u32) -> Ownership {
    let mut owner = Ownership::new(num_shards);
    for (i, home) in homes.iter().enumerate() {
        assert_eq!(owner.setup_entity(*home, &committed()), Ok(i as u32));
    }
    owner
}

#[test]
fn payloads_tell_three_states_apart() {
    assert_eq!(encode_owned(0x0403_0201), vec![1, 1, 2, 3, 4]);
    assert_eq!(encode_tombstone(), vec![0, 0, 0, 0, 0]);
    for shard in [0, 1, 255, 256, 0x0403_0201, u32::MAX] {
        assert_eq!(decode(&encode_owned(shard)), Some((true, shard)));
    }
    assert_eq!(decode(&encode_tombstone()), Some((false, 0)));
    assert_eq!(decode(&[]), None);
    assert_eq!(decode(&[1, 0, 0, 0]), None);
    assert_eq!(decode(&[1, 0, 0, 0, 0, 0]), None);
    assert_eq!(decode(&[2, 5, 0, 0, 0]), Some((false, 5)));
}

#[test]
fn average_latency_is_rounded_down() {
    let mut stats = LatencyStats::new();
    assert_eq!(stats.report(), (0, 0));
    stats.record(10);
    stats.record(11);
    stats.record(11);
    assert_eq!(stats.report(), (3, 10));
}

#[test]
fn latency_counters_wrap_around() {
    let mut stats = LatencyStats { count: u64::MAX, total_us: u64::MAX };
    stats.record((1u128 << 64) + 5);
    assert_eq!(stats, LatencyStats { count: 0, total_us: 4 });
    assert_eq!(stats.report(), (0, 0));
}

#[test]
fn entities_are_set_up_in_order() {
    let mut owner = ownership(&[2, 0, 1], 3);
    assert_eq!(owner.owner_of(0), 2);
    assert_eq!(owner.owner_of(2), 1);
    assert_eq!(owner.setup_entity(1, &CommitOutput::Conflict), Err(SetupFailure::Conflict));
    assert_eq!(owner.setup_entity(1, &CommitOutput::Empty), Err(SetupFailure::Empty));
    assert_eq!(owner.setup_entity(1, &committed()), Ok(3));
    assert_eq!(SetupFailure::Conflict.message(), "Conflict");
    assert_eq!(SetupFailure::Empty.message(), "Empty");
}

#[test]
fn draws_stay_in_range() {
    let owner = ownership(&[2, 0, 1], 3);
    let mut homes = HashSet::new();
    for _ in 0..200 {
        homes.insert(owner.draw_home());
        let (entity, home) = owner.draw_entity();
        assert_eq!(home, [2, 0, 1][entity as usize]);
        let target = owner.draw_target(1);
        assert!(target == 0 || target == 2);
    }
    assert_eq!(homes, HashSet::from([0, 1, 2]));
    assert_eq!(ownership(&[0], 1).draw_target(0), 0);
    assert_eq!(other_shard(0, 1), 0);
    assert_eq!(other_shard(1, 1), 2);
    assert_eq!(other_shard(2, 1), 3);
}

#[test]
fn exactly_the_expected_shard_owns_an_entity() {
    let owned = Some(vec![encode_owned(1)]);
    let gone = Some(vec![encode_tombstone()]);
    let empty = Some(vec![Vec::new()]);
    let replies =
        vec![gone.clone(), owned.clone(), empty.clone(), None, Some(vec![])];
    assert_eq!(owned_shards(&replies), vec![1]);
    assert!(ownership_matches(&replies, 1));
    assert!(!ownership_matches(&replies, 0));
    assert!(!ownership_matches(&replies, 9));
    let twice = vec![owned.clone(), owned.clone()];
    assert_eq!(owned_shards(&twice), vec![0, 1]);
    assert!(!ownership_matches(&twice, 0));
    assert!(!ownership_matches(&[gone, empty], 0));
    assert!(!ownership_matches(&[], 0));
}

#[test]
fn slices_of_workers_are_disjoint() {
    for (n, c) in [(10u32, 3u32), (9, 3), (4, 4), (7, 1)] {
        let mut seen = HashSet::new();
        for worker in 0..c {
            for offset in 0..(n / c) {
                let entity = transfer_entity(n, c, worker, offset);
                assert!(entity < n);
                assert!(seen.insert(entity));
            }
            assert_eq!(draw_transfer_entity(n, c, worker).unwrap() % c, worker);
        }
    }
    assert_eq!(transfer_entity(10, 3, 2, 2), 8);
}

#[test]
fn surplus_workers_have_no_entity() {
    assert_eq!(draw_transfer_entity(1, 2, 0), Some(0));
    assert_eq!(draw_transfer_entity(1, 2, 1), None);
    assert_eq!(transfer_entity(2, 5, 1, 0), 1);
    let drawn: Vec<Option<u32>> = (0..5).map(|w| draw_transfer_entity(2, 5, w)).collect();
    assert_eq!(drawn, vec![Some(0), Some(1), None, None, None]);
    let bench = TransferBench::new(ownership(&[0, 1], 2), 2, 5);
    assert_eq!(bench.next_move(4), None);
    assert_eq!(bench.next_move(1).unwrap(), Move { entity_id: 1, source: 1, target: 0 });
}

#[test]
fn committed_move_changes_the_owner() {
    let mut bench = TransferBench::new(ownership(&[0, 1, 2, 0], 3), 4, 2);
    for worker in 0..2 {
        for _ in 0..50 {
            let mv = bench.next_move(worker).unwrap();
            assert_eq!(mv.entity_id % 2, worker);
            assert_eq!(mv.source, bench.owner.owner_of(mv.entity_id));
            assert_ne!(mv.target, mv.source);
            assert!(mv.target < 3);
        }
    }
    let mv = bench.next_move(0).unwrap();
    let (source, target) = bench.move_payloads(&mv);
    assert_eq!(decode(&source), Some((false, 0)));
    assert_eq!(decode(&target), Some((true, mv.target)));
    bench.settle_move(&mv, &MoveOutcome::NotWritten);
    assert_eq!(bench.owner.owner_of(mv.entity_id), mv.source);
    assert_eq!(bench.stats.count, 0);
    let settled = |outcome: TransferOutcome| MoveOutcome::Settled { outcome, micros: 5 };
    bench.settle_move(&mv, &settled(TransferOutcome::Conflict));
    assert_eq!((bench.conflicts, bench.stats.count), (1, 1));
    assert_eq!(bench.owner.owner_of(mv.entity_id), mv.source);
    bench.settle_move(&mv, &settled(TransferOutcome::Other));
    assert_eq!((bench.conflicts, bench.stats.count), (1, 2));
    bench.settle_move(&mv, &settled(TransferOutcome::Committed));
    assert_eq!(bench.owner.owner_of(mv.entity_id), mv.target);
    assert_eq!(bench.stats.report(), (3, 5));
}

#[test]
fn moved_entity_has_one_owner() {
    let mut shards = vec![vec![encode_owned(0)], vec![Vec::new()], vec![Vec::new()]];
    shards[0] = vec![encode_tombstone()];
    shards[2] = vec![encode_owned(2)];
    let replies: Vec<Option<Vec<Vec<u8>>>> = shards.into_iter().map(Some).collect();
    assert!(ownership_matches(&replies, 2));
}

#[test]
fn committed_move_is_verified() {
    let mut bench = TransferBench::new(ownership(&[0], 3), 1, 1);
    let mv = Move { entity_id: 0, source: 0, target: 2 };
    let owned = || Some(vec![encode_owned(2)]);
    let gone = || Some(vec![encode_tombstone()]);
    let empty = || Some(vec![Vec::new()]);
    assert!(bench.verify_move(&mv, &[gone(), empty(), owned()]));
    assert_eq!(bench.violations, 0);
    assert!(!bench.verify_move(&mv, &[owned(), empty(), owned()]));
    assert!(!bench.verify_move(&mv, &[gone(), empty(), empty()]));
    assert!(!bench.verify_move(&mv, &[gone(), owned(), empty()]));
    assert!(!bench.verify_move(&mv, &[gone()]));
    assert_eq!(bench.violations, 4);
    assert_eq!((bench.conflicts, bench.stats.count), (0, 0));
    let settled = |outcome: TransferOutcome| MoveOutcome::Settled { outcome, micros: 5 };
    assert!(settled(TransferOutcome::Committed).is_committed());
    assert!(!settled(TransferOutcome::Conflict).is_committed());
    assert!(!settled(TransferOutcome::Other).is_committed());
    assert!(!MoveOutcome::NotWritten.is_committed());
}

#[test]
fn mismatches_are_counted() {
    let mut bench = ScatterGatherBench::new(ownership(&[1, 1], 2));
    let (entity, home) = bench.next_read();
    assert!(entity < 2);
    assert_eq!(home, 1);
    let replies = vec![Some(vec![Vec::new()]), Some(vec![encode_owned(1)])];
    bench.settle_read(home, &replies, 8);
    assert_eq!((bench.mismatches, bench.stats.count), (0, 1));
    bench.settle_read(home, &[None, None], 8);
    assert_eq!((bench.mismatches, bench.stats.count), (1, 2));
}

#[test]
fn shards_are_named_and_placed() {
    assert_eq!(shard_ns_key("bench", 0), "bench_0000");
    assert_eq!(shard_ns_key("bench", 42), "bench_0042");
    assert_eq!(shard_ns_key("", 9999), "_9999");
    assert_eq!(shard_ns_key("x", 12345), "x_12345");
    assert_eq!(shard_ns_key("x", u32::MAX), "x_4294967295");
    assert_eq!(shard_server(7, 3), 1);
    assert_eq!(concurrency_per_shard(16, 4), 4);
    assert_eq!(concurrency_per_shard(3, 4), 1);
}
