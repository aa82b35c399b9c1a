use std::collections::{HashMap, HashSet};
use std::time::Duration;

use mvsqlite::client::{
    CommitError, CommitOutput, CommitResult, ErrorCause, MultiVersionClient,
    MultiVersionClientConfig,
};
use mvsqlite::commit::CommitFailure;
use mvsqlite::stress::{
    is_heads, make_writes, mark_reads, next_content, patch_content, retain_versions, sweep_pause,
    task_mode, truncate_pause, TaskAction, TaskDraws, TaskFollowUp, TaskMode, TaskState, Tester,
    TesterConfig, WriteDraw,
};
use mvsqlite::transaction::Transaction;

fn tester(disable_ryw: bool, permit: bool) -> Tester {
    Tester::new(TesterConfig {
        disable_ryw,
        num_pages: 4,
        disable_read_set: false,
        permit_bad_page_reference: permit,
    })
}

fn open() -> Transaction {
    MultiVersionClient::new(MultiVersionClientConfig {
        ns_key: "shop".to_string(),
        ns_key_hashproof: None,
        lock_owner: None,
    })
    .create_transaction_with_ns_id([1; 10], "v", false)
}

fn strings(v: &[&str]) -> Vec<String> {
    v.iter().map(|x| x.to_string()).collect()
}

#[test]
fn versions_are_counted_per_task() {
    let mut t = tester(false, false);
    assert_eq!(t.oldest_busy_version(), None);
    t.acquire_version("b");
    t.acquire_version("c");
    t.acquire_version("a");
    t.acquire_version("a");
    assert_eq!(t.oldest_busy_version(), Some("a"));
    t.release_version("a");
    assert_eq!(t.oldest_busy_version(), Some("a"));
    t.release_version("a");
    assert_eq!(t.oldest_busy_version(), Some("b"));
    t.release_version("b");
    t.release_version("c");
    assert_eq!(t.oldest_busy_version(), None);
}

#[test]
fn truncation_keeps_versions_in_use() {
    let mut t = tester(false, false);
    let versions = strings(&["1", "2", "3", "4", "5"]);
    let plan = t.plan_truncation(&versions, 3);
    assert_eq!(plan.remove_point, "4");
    assert_eq!(plan.removals, strings(&["1", "2", "3"]));
    t.acquire_version("3");
    t.acquire_version("4");
    let plan = t.plan_truncation(&versions, 3);
    assert_eq!(plan.remove_point, "3");
    assert_eq!(plan.removals, strings(&["1", "2"]));
    let plan = t.plan_truncation(&versions, 1);
    assert_eq!(plan.remove_point, "2");
    assert_eq!(plan.removals, strings(&["1"]));
    assert!(t.plan_truncation(&versions, 0).removals.is_empty());
}

#[test]
fn latest_version_is_never_removed() {
    let t = tester(false, false);
    assert!(t.draw_truncation(&[]).is_none());
    assert!(t.draw_truncation(&strings(&["1"])).is_none());
    let versions = strings(&["1", "2", "3"]);
    for _ in 0..100 {
        let plan = t.draw_truncation(&versions).unwrap();
        assert!(!plan.removals.contains(&"3".to_string()));
        assert!(plan.removals.iter().all(|v| *v < plan.remove_point));
    }
}

#[test]
fn list_of_versions_keeps_its_order() {
    let list = strings(&["b", "a", "c", "a"]);
    assert_eq!(retain_versions(&list, &strings(&["a", "x"])), strings(&["b", "c"]));
    assert_eq!(retain_versions(&list, &Vec::new()), list);
}

#[test]
fn draws_stand_for_modes() {
    let modes: Vec<TaskMode> = (0..11).map(task_mode).collect();
    assert!(modes[0..6].iter().all(|m| *m == TaskMode::Read));
    assert!(modes[6..8].iter().all(|m| *m == TaskMode::Write));
    assert_eq!(modes[8], TaskMode::Commit);
    assert_eq!(modes[9], TaskMode::Abandon);
    assert_eq!(modes[10], TaskMode::Sleep);
}

#[test]
fn own_writes_are_left_out_of_reads_on_request() {
    let mut txn = open();
    txn.write_many(&[(1, b"x"), (3, b"y")]);
    assert_eq!(tester(true, false).select_reads(&txn, &[0, 1, 2, 3, 0]), vec![0, 2, 0]);
    assert_eq!(tester(false, false).select_reads(&txn, &[0, 1, 2, 3]), vec![0, 1, 2, 3]);
}

#[test]
fn reads_are_noted() {
    let mut txn = open();
    mark_reads(&mut txn, &[1, 2]);
    assert_eq!(txn.read_set_size(), 0);
    txn.enable_read_set();
    mark_reads(&mut txn, &[1, 2, 1]);
    assert_eq!(txn.read_set_size(), 2);
}

#[test]
fn part_of_a_content_is_replaced() {
    let last = vec![1, 2, 3, 4];
    assert_eq!(patch_content(&last, 1, &vec![9, 8]), vec![1, 9, 8, 4]);
    assert_eq!(patch_content(&last, 4, &vec![]), last);
    assert_eq!(patch_content(&last, 0, &vec![5, 6, 7, 8]), vec![5, 6, 7, 8]);
}

#[test]
fn kept_content_is_patched_and_others_are_fresh() {
    let kept = Some(vec![1, 2, 3]);
    let patch = || Some((1, vec![9]));
    assert_eq!(next_content(&kept, patch(), vec![7]), vec![1, 9, 3]);
    assert_eq!(next_content(&kept, None, vec![7]), vec![7]);
    assert_eq!(next_content(&None, patch(), vec![7]), vec![7]);
    assert!(is_heads(0));
    assert!(!is_heads(1));
}

#[test]
fn later_writes_of_a_batch_see_what_was_kept() {
    let mut kept: Vec<Option<Vec<u8>>> = vec![None; 4];
    let draw = |page: u32, patch: Option<(usize, Vec<u8>)>, byte: u8, keep: bool| WriteDraw {
        page,
        patch,
        fresh: vec![byte; 2048],
        keep,
    };
    let writes = make_writes(
        &mut kept,
        vec![
            draw(2, Some((0, vec![5])), 1, true),
            draw(2, Some((3, vec![6, 6])), 2, false),
            draw(1, None, 3, false),
        ],
    );
    assert_eq!(writes[0], (2, vec![1; 2048]));
    let mut near_copy = vec![1; 2048];
    near_copy[3] = 6;
    near_copy[4] = 6;
    assert_eq!(writes[1], (2, near_copy));
    assert_eq!(writes[2], (1, vec![3; 2048]));
    assert_eq!(kept, vec![None, None, Some(vec![1; 2048]), None]);
}

#[test]
fn draws_decide_what_a_task_does() {
    let t = tester(true, false);
    let mut txn = open();
    txn.enable_read_set();
    txn.write_many(&[(1, b"x")]);
    let mut task = TaskState::new(4, 7);
    let draws = |mode: u64| TaskDraws {
        mode,
        pages: vec![1, 3],
        writes: vec![WriteDraw { page: 2, patch: None, fresh: vec![8; 2048], keep: true }],
        pause: 17,
    };
    match t.task_with(&mut task, &mut txn, draws(0)) {
        TaskAction::Read(pages) => assert_eq!(pages, vec![3]),
        _ => panic!(),
    }
    assert_eq!(txn.read_set_size(), 1);
    let only_own = TaskDraws { pages: vec![1, 1], ..draws(5) };
    assert!(matches!(t.task_with(&mut task, &mut txn, only_own), TaskAction::Skip));
    match t.task_with(&mut task, &mut txn, draws(7)) {
        TaskAction::Write(writes) => assert_eq!(writes, vec![(2, vec![8; 2048])]),
        _ => panic!(),
    }
    assert_eq!(task.last_writes[2], Some(vec![8; 2048]));
    assert!(matches!(t.task_with(&mut task, &mut txn, draws(8)), TaskAction::Commit));
    assert!(matches!(t.task_with(&mut task, &mut txn, draws(9)), TaskAction::Abandon));
    assert!(matches!(t.task_with(&mut task, &mut txn, draws(10)), TaskAction::Sleep(17)));
    assert_eq!(task.iterations_left, 1);
    assert!(matches!(t.task_with(&mut task, &mut txn, draws(8)), TaskAction::Commit));
    assert!(matches!(t.task_with(&mut task, &mut txn, draws(8)), TaskAction::Finished));
}

#[test]
fn task_without_pages_gives_up_when_it_needs_one() {
    let t = Tester::new(TesterConfig {
        disable_ryw: false,
        num_pages: 0,
        disable_read_set: false,
        permit_bad_page_reference: false,
    });
    let mut txn = open();
    let mut task = TaskState::new(0, 100);
    for _ in 0..100 {
        assert!(matches!(
            t.task(&mut task, &mut txn),
            TaskAction::NoPages | TaskAction::Commit | TaskAction::Abandon | TaskAction::Sleep(_)
        ));
    }
    let draws = TaskDraws { mode: 6, pages: vec![], writes: vec![], pause: 0 };
    task.iterations_left = 1;
    assert!(matches!(t.task_with(&mut task, &mut txn, draws), TaskAction::NoPages));
}

#[test]
fn task_holds_one_version_at_a_time() {
    let mut t = tester(false, false);
    let mut task = TaskState::new(4, 10);
    let mut other = TaskState::new(4, 10);
    t.begin_transaction(&mut other, "5");
    t.begin_transaction(&mut task, "1");
    assert_eq!(task.held.as_deref(), Some("1"));
    assert_eq!(t.oldest_busy_version(), Some("1"));
    assert!(!t.settle_transaction::<u8>(&mut task, &TaskFollowUp::Continue));
    assert!(!t.settle_transaction::<u8>(&mut task, &TaskFollowUp::Fail(1)));
    assert_eq!(t.oldest_busy_version(), Some("1"));
    assert!(t.settle_transaction::<u8>(&mut task, &TaskFollowUp::Renew));
    assert_eq!(task.held, None);
    assert_eq!(t.oldest_busy_version(), Some("5"));
    t.begin_transaction(&mut task, "3");
    let committed = TaskFollowUp::<u8>::RecordCommit("4".to_string());
    assert!(t.settle_transaction(&mut task, &committed));
    t.begin_transaction(&mut task, "4");
    assert_eq!(t.oldest_busy_version(), Some("4"));
    t.end_transaction(&mut task);
    t.end_transaction(&mut other);
    assert_eq!(t.oldest_busy_version(), None);
}

#[test]
fn task_runs_for_its_iterations() {
    let t = tester(false, false);
    let mut task = TaskState::new(4, 300);
    let mut txn = open();
    let mut kinds = HashSet::new();
    let mut contents = HashSet::new();
    for left in (0..300).rev() {
        match t.task(&mut task, &mut txn) {
            TaskAction::Finished | TaskAction::Skip | TaskAction::NoPages => panic!(),
            TaskAction::Read(pages) => {
                assert!((1..=10).contains(&pages.len()));
                assert!(pages.iter().all(|p| *p < 4));
                kinds.insert("read");
            }
            TaskAction::Write(writes) => {
                assert!((1..=10).contains(&writes.len()));
                for (page, data) in writes {
                    assert!(page < 4);
                    assert_eq!(data.len(), 2048);
                    contents.insert(data);
                }
                kinds.insert("write");
            }
            TaskAction::Commit => {
                kinds.insert("commit");
            }
            TaskAction::Abandon => {
                kinds.insert("abandon");
            }
            TaskAction::Sleep(millis) => {
                assert!((1..100).contains(&millis));
                kinds.insert("sleep");
            }
        }
        assert_eq!(task.iterations_left, left);
    }
    assert_eq!(kinds.len(), 5);
    assert!(contents.len() > 10);
    assert!(matches!(t.task(&mut task, &mut txn), TaskAction::Finished));
}

#[test]
fn task_without_readable_pages_skips() {
    let t = tester(true, false);
    let mut txn = open();
    txn.write_many(&[(0, b"a"), (1, b"a"), (2, b"a"), (3, b"a")]);
    let mut task = TaskState::new(4, 100);
    for _ in 0..100 {
        assert!(!matches!(t.task(&mut task, &mut txn), TaskAction::Read(_)));
    }
}

#[test]
fn failed_reads_cost_the_transaction_or_the_task() {
    let t = tester(false, false);
    let (pages, next) = t.after_read::<u8, u8>(Ok(1), &[]);
    assert_eq!(pages, Some(1));
    assert!(matches!(next, TaskFollowUp::Continue));
    let retryable = [ErrorCause::Other, ErrorCause::Fdb { retryable: true }];
    let (pages, next) = t.after_read::<u8, u8>(Err(2), &retryable);
    assert_eq!(pages, None);
    assert!(matches!(next, TaskFollowUp::Renew));
    let (_, next) = t.after_read::<u8, u8>(Err(2), &[ErrorCause::Other]);
    assert!(matches!(next, TaskFollowUp::Fail(2)));
}

#[test]
fn commits_end_the_transaction() {
    let committed = || {
        CommitOutput::Committed(CommitResult {
            version: "v9".to_string(),
            duration: Duration::ZERO,
            num_pages: 0,
            changelog: HashMap::new(),
        })
    };
    let bad = || CommitFailure::<u8>::Refused(CommitError::BadPageReference);
    for permit in [false, true] {
        let t = tester(false, permit);
        match t.after_commit::<u8>(Ok(committed())) {
            TaskFollowUp::RecordCommit(version) => assert_eq!(version, "v9"),
            _ => panic!(),
        }
        assert!(matches!(t.after_commit::<u8>(Ok(CommitOutput::Conflict)), TaskFollowUp::Renew));
        assert!(matches!(t.after_commit::<u8>(Ok(CommitOutput::Empty)), TaskFollowUp::Renew));
        assert_eq!(matches!(t.after_commit(Err(bad())), TaskFollowUp::Renew), permit);
        assert!(matches!(
            t.after_commit::<u8>(Err(CommitFailure::Store(3))),
            TaskFollowUp::Fail(CommitFailure::Store(3))
        ));
        assert!(matches!(
            t.after_commit::<u8>(Err(CommitFailure::Refused(CommitError::NamespaceNotDistinct))),
            TaskFollowUp::Fail(_)
        ));
    }
}

#[test]
fn next_transaction_starts_from_an_old_version_or_the_latest() {
    let t = tester(false, false);
    let picked = || Some("v1".to_string());
    assert_eq!(t.choose_base(true, true, picked()), (picked(), true));
    assert_eq!(t.choose_base(false, false, picked()), (None, false));
    assert_eq!(t.choose_base(true, false, None), (None, false));
    let strict = Tester::new(TesterConfig {
        disable_ryw: false,
        num_pages: 1,
        disable_read_set: true,
        permit_bad_page_reference: false,
    });
    let mut bases = HashSet::new();
    for _ in 0..100 {
        let (base, track) = strict.create_transaction_random_base(picked());
        assert!(!track);
        bases.insert(base);
    }
    assert_eq!(bases.len(), 2);
}

#[test]
fn pauses_are_bounded() {
    for _ in 0..100 {
        assert!((1..1000).contains(&truncate_pause()));
        assert!((1..5000).contains(&sweep_pause()));
    }
}
