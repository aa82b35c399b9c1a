//! A stress test of the store: what its tasks do, which versions they hold on to, and which
//! versions may be removed meanwhile.

use vstd::prelude::*;

use crate::client::{is_retryable, CommitError, CommitOutput, ErrorCause};
use crate::commit::CommitFailure;
use crate::order::{str_eq, str_lt};
use crate::outside::{fill_random, random_below};
use crate::transaction::Transaction;

verus! {

/// The size of a page that is written anew.
pub const PAGE_SIZE: usize = 2048;

/// The most pages that one step of a task reads or writes.
pub const MAX_BATCH: u64 = 10;

pub struct TesterConfig {
    /// Whether tasks keep from reading pages that they have written themselves.
    pub disable_ryw: bool,
    pub num_pages: u32,
    pub disable_read_set: bool,
    /// Whether a commit may be refused for a reference to a page that was removed.
    pub permit_bad_page_reference: bool,
}

/// The state that all tasks of a stress test share.
pub struct Tester {
    config: TesterConfig,
    /// The versions that tasks read at, and how many tasks read at each.
    busy_versions: Vec<(String, u64)>,
}

/// The entry at `i` is that of `version`.
pub open spec fn entry_at(entries: Seq<(String, u64)>, version: Seq<char>, i: int) -> bool {
    0 <= i < entries.len() && entries[i].0@ == version
}

/// What some entries stand for.
pub open spec fn entry_map(entries: Seq<(String, u64)>) -> Map<Seq<char>, u64> {
    Map::new(
        |v: Seq<char>| exists|i: int| entry_at(entries, v, i),
        |v: Seq<char>| entries[choose|i: int| entry_at(entries, v, i)].1,
    )
}

/// How many tasks read at `version`.
pub open spec fn holders(busy: Map<Seq<char>, u64>, version: Seq<char>) -> u64 {
    if busy.contains_key(version) {
        busy[version]
    } else {
        0
    }
}

/// One more task reads at `version`.
pub open spec fn acquired(busy: Map<Seq<char>, u64>, version: Seq<char>) -> Map<Seq<char>, u64> {
    busy.insert(version, (holders(busy, version) + 1) as u64)
}

/// One task less reads at `version`.
pub open spec fn released(busy: Map<Seq<char>, u64>, version: Seq<char>) -> Map<Seq<char>, u64> {
    if busy[version] == 1 {
        busy.remove(version)
    } else {
        busy.insert(version, (busy[version] - 1) as u64)
    }
}

impl View for Tester {
    type V = Map<Seq<char>, u64>;

    closed spec fn view(&self) -> Map<Seq<char>, u64> {
        entry_map(self.busy_versions@)
    }
}

proof fn lemma_entry(entries: Seq<(String, u64)>, i: int)
    requires
        0 <= i < entries.len(),
        forall|j: int, k: int|
            0 <= j < k < entries.len() ==> (#[trigger] entries[j]).0@ != (#[trigger] entries[k]).0@,
    ensures
        entry_map(entries).contains_key(entries[i].0@),
        entry_map(entries)[entries[i].0@] == entries[i].1,
{
    assert(entry_at(entries, entries[i].0@, i));
    let k: int = choose|k: int| entry_at(entries, entries[i].0@, k);
    assert(entry_at(entries, entries[i].0@, k));
    assert(k == i) by {
        if k < i {
            assert(entries[k].0@ != entries[i].0@);
        } else if i < k {
            assert(entries[i].0@ != entries[k].0@);
        }
    }
}

impl Tester {
    /// How the test is set up.
    pub closed spec fn settings(&self) -> TesterConfig {
        self.config
    }

    /// No version has two entries, and some task reads at each version that has one.
    pub closed spec fn wf(&self) -> bool {
        &&& forall|j: int, k: int|
            0 <= j < k < self.busy_versions@.len() ==> (#[trigger] self.busy_versions@[j]).0@ != (
            #[trigger] self.busy_versions@[k]).0@
        &&& forall|j: int|
            0 <= j < self.busy_versions@.len() ==> (#[trigger] self.busy_versions@[j]).1 > 0
    }

    /// A stress test without tasks.
    pub fn new(config: TesterConfig) -> (r: Self)
        ensures
            r.wf(),
            r.settings() == config,
            r@ == Map::<Seq<char>, u64>::empty(),
    {
        let r = Tester { config, busy_versions: Vec::new() };
        assert(r@ =~= Map::<Seq<char>, u64>::empty());
        r
    }

    fn position(&self, version: &str) -> (r: Option<usize>)
        requires
            self.wf(),
        ensures
            match r {
                Some(i) => entry_at(self.busy_versions@, version@, i as int),
                None => forall|i: int| !entry_at(self.busy_versions@, version@, i),
            },
    {
        let mut i: usize = 0;
        while i < self.busy_versions.len()
            invariant
                i <= self.busy_versions@.len(),
                forall|j: int| 0 <= j < i ==> !entry_at(self.busy_versions@, version@, j),
            decreases self.busy_versions@.len() - i,
        {
            if str_eq(self.busy_versions[i].0.as_str(), version) {
                return Some(i);
            }
            i = i + 1;
        }
        None
    }

    /// Notes that one more task reads at `version`.
    pub fn acquire_version(&mut self, version: &str)
        requires
            old(self).wf(),
            holders(old(self)@, version@) < u64::MAX,
        ensures
            final(self).wf(),
            final(self).settings() == old(self).settings(),
            final(self)@ == acquired(old(self)@, version@),
    {
        let ghost before = self.busy_versions@;
        match self.position(version) {
            Some(i) => {
                proof {
                    lemma_entry(before, i as int);
                }
                let count: u64 = self.busy_versions[i].1;
                self.busy_versions[i].1 = count + 1;
                proof {
                    lemma_update(before, i as int, (count + 1) as u64, self.busy_versions@);
                    lemma_entry(self.busy_versions@, i as int);
                }
            },
            None => {
                self.busy_versions.push((version.to_owned(), 1));
                proof {
                    let after = self.busy_versions@;
                    let n: int = before.len() as int;
                    assert(forall|j: int| 0 <= j < n ==> #[trigger] after[j] == before[j]);
                    assert(forall|j: int|
                        0 <= j < n ==> (#[trigger] before[j]).0@ != version@) by {
                        assert forall|j: int| 0 <= j < n implies (#[trigger] before[j]).0@
                            != version@ by {
                            assert(!entry_at(before, version@, j));
                        }
                    }
                    lemma_entry(after, n);
                    let wanted = entry_map(before).insert(version@, 1);
                    assert forall|v: Seq<char>|
                        #![trigger entry_map(after).dom().contains(v)]
                        #![trigger wanted.dom().contains(v)]
                        entry_map(after).dom().contains(v) == wanted.dom().contains(v) && (
                        wanted.dom().contains(v) ==> entry_map(after)[v] == wanted[v]) by {
                        if v != version@ && entry_map(before).contains_key(v) {
                            let i: int = choose|i: int| entry_at(before, v, i);
                            assert(after[i] == before[i]);
                            lemma_entry(before, i);
                            lemma_entry(after, i);
                        }
                        if v != version@ && entry_map(after).contains_key(v) {
                            let i: int = choose|i: int| entry_at(after, v, i);
                            assert(entry_at(before, v, i));
                        }
                    }
                    assert(entry_map(after) =~= wanted);
                }
            },
        }
        assert(self@ =~= acquired(old(self)@, version@));
    }

    /// Notes that one task less reads at `version`.
    pub fn release_version(&mut self, version: &str)
        requires
            old(self).wf(),
            old(self)@.contains_key(version@),
        ensures
            final(self).wf(),
            final(self).settings() == old(self).settings(),
            final(self)@ == released(old(self)@, version@),
    {
        let ghost before = self.busy_versions@;
        match self.position(version) {
            Some(i) => {
                proof {
                    lemma_entry(before, i as int);
                }
                let count: u64 = self.busy_versions[i].1;
                if count == 1 {
                    self.busy_versions.remove(i);
                    proof {
                        lemma_remove(before, i as int, self.busy_versions@);
                    }
                } else {
                    self.busy_versions[i].1 = count - 1;
                    proof {
                        lemma_update(before, i as int, (count - 1) as u64, self.busy_versions@);
                        lemma_entry(self.busy_versions@, i as int);
                    }
                }
            },
            None => {
                assert(false);
            },
        }
        assert(self@ =~= released(old(self)@, version@));
    }

    /// The oldest version that any task reads at.
    pub fn oldest_busy_version(&self) -> (r: Option<&str>)
        requires
            self.wf(),
        ensures
            match r {
                Some(v) => is_oldest(self@, v@),
                None => self@ == Map::<Seq<char>, u64>::empty(),
            },
    {
        if self.busy_versions.len() == 0 {
            assert(self@ =~= Map::<Seq<char>, u64>::empty());
            return None;
        }
        let mut oldest: usize = 0;
        let mut i: usize = 1;
        proof {
            crate::order::text_lt_is_strict_total_order(
                self.busy_versions@[0].0@,
                self.busy_versions@[0].0@,
                self.busy_versions@[0].0@,
            );
        }
        while i < self.busy_versions.len()
            invariant
                oldest < i <= self.busy_versions@.len(),
                forall|j: int|
                    0 <= j < i ==> !crate::order::text_lt(
                        (#[trigger] self.busy_versions@[j]).0@,
                        self.busy_versions@[oldest as int].0@,
                    ),
            decreases self.busy_versions@.len() - i,
        {
            if str_lt(
                self.busy_versions[i].0.as_str(),
                self.busy_versions[oldest].0.as_str(),
            ) {
                proof {
                    let a = self.busy_versions@[i as int].0@;
                    let b = self.busy_versions@[oldest as int].0@;
                    crate::order::text_lt_is_strict_total_order(a, a, a);
                    assert forall|j: int| 0 <= j < i + 1 implies !crate::order::text_lt(
                        (#[trigger] self.busy_versions@[j]).0@,
                        a,
                    ) by {
                        crate::order::text_lt_is_strict_total_order(
                            self.busy_versions@[j].0@,
                            a,
                            b,
                        );
                    }
                }
                oldest = i;
            }
            i = i + 1;
        }
        proof {
            lemma_entry(self.busy_versions@, oldest as int);
            assert forall|w: Seq<char>| #[trigger]
                self@.contains_key(w) implies !crate::order::text_lt(
                w,
                self.busy_versions@[oldest as int].0@,
            ) by {
                let j: int = choose|j: int| entry_at(self.busy_versions@, w, j);
                assert(self.busy_versions@[j].0@ == w);
            }
        }
        Some(self.busy_versions[oldest].0.as_str())
    }
}

proof fn lemma_update(
    before: Seq<(String, u64)>,
    i: int,
    count: u64,
    after: Seq<(String, u64)>,
)
    requires
        0 <= i < before.len(),
        after == before.update(i, (before[i].0, count)),
        forall|j: int, k: int|
            0 <= j < k < before.len() ==> (#[trigger] before[j]).0@ != (#[trigger] before[k]).0@,
    ensures
        forall|j: int, k: int|
            0 <= j < k < after.len() ==> (#[trigger] after[j]).0@ != (#[trigger] after[k]).0@,
        entry_map(after) == entry_map(before).insert(before[i].0@, count),
{
    assert forall|j: int, k: int| 0 <= j < k < after.len() implies (#[trigger] after[j]).0@ != (
    #[trigger] after[k]).0@ by {
        assert(before[j].0@ != before[k].0@);
        assert(after[j].0 == before[j].0 && after[k].0 == before[k].0);
    }
    lemma_entry(after, i);
    let wanted = entry_map(before).insert(before[i].0@, count);
    assert forall|v: Seq<char>|
        #![trigger entry_map(after).dom().contains(v)]
        #![trigger wanted.dom().contains(v)]
        entry_map(after).dom().contains(v) == wanted.dom().contains(v) && (wanted.dom().contains(v)
            ==> entry_map(after)[v] == wanted[v]) by {
        if v != before[i].0@ && entry_map(before).contains_key(v) {
            let j: int = choose|j: int| entry_at(before, v, j);
            assert(after[j] == before[j]);
            lemma_entry(before, j);
            lemma_entry(after, j);
        }
        if v != before[i].0@ && entry_map(after).contains_key(v) {
            let j: int = choose|j: int| entry_at(after, v, j);
            assert(before[j].0 == after[j].0);
            assert(entry_at(before, v, j));
        }
    }
    assert(entry_map(after) =~= wanted);
}

proof fn lemma_remove(before: Seq<(String, u64)>, i: int, after: Seq<(String, u64)>)
    requires
        0 <= i < before.len(),
        after == before.remove(i),
        forall|j: int, k: int|
            0 <= j < k < before.len() ==> (#[trigger] before[j]).0@ != (#[trigger] before[k]).0@,
    ensures
        forall|j: int, k: int|
            0 <= j < k < after.len() ==> (#[trigger] after[j]).0@ != (#[trigger] after[k]).0@,
        entry_map(after) == entry_map(before).remove(before[i].0@),
{
    let old_place = |j: int| if j < i { j } else { j + 1 };
    assert forall|j: int, k: int| 0 <= j < k < after.len() implies (#[trigger] after[j]).0@ != (
    #[trigger] after[k]).0@ by {
        assert(after[j] == before[old_place(j)] && after[k] == before[old_place(k)]);
        assert(before[old_place(j)].0@ != before[old_place(k)].0@);
    }
    let wanted = entry_map(before).remove(before[i].0@);
    assert forall|v: Seq<char>|
        #![trigger entry_map(after).dom().contains(v)]
        #![trigger wanted.dom().contains(v)]
        entry_map(after).dom().contains(v) == wanted.dom().contains(v) && (wanted.dom().contains(v)
            ==> entry_map(after)[v] == wanted[v]) by {
        if v != before[i].0@ && entry_map(before).contains_key(v) {
            let j: int = choose|j: int| entry_at(before, v, j);
            let k: int = if j < i { j } else { j - 1 };
            assert(after[k] == before[j]);
            lemma_entry(before, j);
            lemma_entry(after, k);
        }
        if entry_map(after).contains_key(v) {
            let j: int = choose|j: int| entry_at(after, v, j);
            assert(after[j] == before[old_place(j)]);
            assert(entry_at(before, v, old_place(j)));
            if old_place(j) < i {
                assert(before[old_place(j)].0@ != before[i].0@);
            } else {
                assert(before[i].0@ != before[old_place(j)].0@);
            }
        }
    }
    assert(entry_map(after) =~= wanted);
}

/// `version` is the oldest of the versions that tasks read at.
pub open spec fn is_oldest(busy: Map<Seq<char>, u64>, version: Seq<char>) -> bool {
    &&& busy.contains_key(version)
    &&& forall|w: Seq<char>| #[trigger]
        busy.contains_key(w) ==> !crate::order::text_lt(w, version)
}

/// Noting that a task stops reading at a version undoes noting that it starts.
pub proof fn release_undoes_acquire(busy: Map<Seq<char>, u64>, version: Seq<char>)
    requires
        holders(busy, version) < u64::MAX,
        busy.contains_key(version) ==> busy[version] > 0,
    ensures
        released(acquired(busy, version), version) == busy,
{
    assert(released(acquired(busy, version), version) =~= busy);
}

/// Some task reads at every version that is noted as busy.
pub proof fn busy_versions_have_holders(tester: Tester)
    requires
        tester.wf(),
    ensures
        forall|v: Seq<char>| #[trigger] tester@.contains_key(v) ==> tester@[v] > 0,
{
    assert forall|v: Seq<char>| #[trigger] tester@.contains_key(v) implies tester@[v] > 0 by {
        let i: int = choose|i: int| entry_at(tester.busy_versions@, v, i);
        lemma_entry(tester.busy_versions@, i);
    }
}

/// The texts of some strings.
pub open spec fn texts(strings: Seq<String>) -> Seq<Seq<char>> {
    strings.map_values(|s: String| s@)
}

/// `point` is `candidate`, or the oldest version that a task reads at if that is older.
pub open spec fn is_remove_point(
    point: Seq<char>,
    busy: Map<Seq<char>, u64>,
    candidate: Seq<char>,
) -> bool {
    ||| {
        &&& point == candidate
        &&& forall|w: Seq<char>| #[trigger]
            busy.contains_key(w) ==> !crate::order::text_lt(w, candidate)
    }
    ||| is_oldest(busy, point) && crate::order::text_lt(point, candidate)
}

/// Those of the first `n` versions that are older than `point`.
pub open spec fn older_versions(versions: Seq<Seq<char>>, point: Seq<char>, n: int) -> Seq<
    Seq<char>,
>
    decreases n,
{
    if n <= 0 {
        Seq::empty()
    } else if crate::order::text_lt(versions[n - 1], point) {
        older_versions(versions, point, n - 1).push(versions[n - 1])
    } else {
        older_versions(versions, point, n - 1)
    }
}

/// Those of the first `n` versions that are not among `removals`.
pub open spec fn kept_versions(
    versions: Seq<Seq<char>>,
    removals: Seq<Seq<char>>,
    n: int,
) -> Seq<Seq<char>>
    decreases n,
{
    if n <= 0 {
        Seq::empty()
    } else if removals.contains(versions[n - 1]) {
        kept_versions(versions, removals, n - 1)
    } else {
        kept_versions(versions, removals, n - 1).push(versions[n - 1])
    }
}

/// Which versions to remove.
pub struct Truncation {
    /// All versions before this one go.
    pub remove_point: String,
    /// The versions that go, of those that were known.
    pub removals: Vec<String>,
}

impl Tester {
    /// Decides which of the versions, given in their order, to remove: all before the one at
    /// `split_point`, but none that a task reads at, nor any after such a one.
    pub fn plan_truncation(&self, versions: &[String], split_point: usize) -> (r: Truncation)
        requires
            self.wf(),
            split_point + 1 < versions@.len(),
        ensures
            is_remove_point(r.remove_point@, self@, versions@[split_point as int]@),
            texts(r.removals@) == older_versions(
                texts(versions@),
                r.remove_point@,
                versions@.len() - 1,
            ),
    {
        let mut remove_point = versions[split_point].clone();
        match self.oldest_busy_version() {
            Some(oldest) => {
                if str_lt(oldest, remove_point.as_str()) {
                    remove_point = oldest.to_owned();
                } else {
                    proof {
                        let candidate = versions@[split_point as int]@;
                        assert forall|w: Seq<char>| #[trigger]
                            self@.contains_key(w) implies !crate::order::text_lt(w, candidate) by {
                            crate::order::text_lt_is_strict_total_order(w, oldest@, candidate);
                            crate::order::text_lt_is_strict_total_order(oldest@, w, candidate);
                        }
                    }
                }
            },
            None => {},
        }
        let mut removals: Vec<String> = Vec::new();
        let last: usize = versions.len() - 1;
        let mut i: usize = 0;
        assert(texts(removals@) =~= Seq::<Seq<char>>::empty());
        while i < last
            invariant
                i <= last,
                last == versions@.len() - 1,
                texts(removals@) == older_versions(texts(versions@), remove_point@, i as int),
            decreases last - i,
        {
            if str_lt(versions[i].as_str(), remove_point.as_str()) {
                let ghost before = removals@;
                removals.push(versions[i].clone());
                assert(texts(removals@) =~= texts(before).push(versions@[i as int]@));
            }
            i = i + 1;
        }
        Truncation { remove_point, removals }
    }

    /// Decides at random which of the versions, given in their order, to remove. The latest
    /// version is never removed; nothing is, if it is the only one.
    pub fn draw_truncation(&self, versions: &[String]) -> (r: Option<Truncation>)
        requires
            self.wf(),
        ensures
            r is None <==> versions@.len() <= 1,
            r matches Some(truncation) ==> {
                &&& exists|split: int|
                    {
                        &&& 0 <= split < versions@.len() - 1
                        &&& is_remove_point(
                            truncation.remove_point@,
                            self@,
                            (#[trigger] versions@[split])@,
                        )
                    }
                &&& texts(truncation.removals@) == older_versions(
                    texts(versions@),
                    truncation.remove_point@,
                    versions@.len() - 1,
                )
            },
    {
        if versions.len() <= 1 {
            return None;
        }
        let split_point: usize = random_below(0, (versions.len() - 1) as u64) as usize;
        assert(versions@[split_point as int]@ == versions@[split_point as int]@);
        Some(self.plan_truncation(versions, split_point))
    }
}

fn contains_text(strings: &Vec<String>, text: &str) -> (r: bool)
    ensures
        r == texts(strings@).contains(text@),
{
    let mut i: usize = 0;
    while i < strings.len()
        invariant
            i <= strings@.len(),
            forall|j: int| 0 <= j < i ==> (#[trigger] texts(strings@)[j]) != text@,
        decreases strings@.len() - i,
    {
        if str_eq(strings[i].as_str(), text) {
            assert(texts(strings@)[i as int] == text@);
            return true;
        }
        i = i + 1;
    }
    false
}

/// The versions that are left once some are removed, in the same order.
pub fn retain_versions(version_list: &[String], removals: &Vec<String>) -> (r: Vec<String>)
    ensures
        texts(r@) == kept_versions(
            texts(version_list@),
            texts(removals@),
            version_list@.len() as int,
        ),
{
    let mut kept: Vec<String> = Vec::new();
    let mut i: usize = 0;
    assert(texts(kept@) =~= Seq::<Seq<char>>::empty());
    while i < version_list.len()
        invariant
            i <= version_list@.len(),
            texts(kept@) == kept_versions(texts(version_list@), texts(removals@), i as int),
        decreases version_list@.len() - i,
    {
        if !contains_text(removals, version_list[i].as_str()) {
            let ghost before = kept@;
            kept.push(version_list[i].clone());
            assert(texts(kept@) =~= texts(before).push(version_list@[i as int]@));
        }
        i = i + 1;
    }
    kept
}

proof fn lemma_older_versions(versions: Seq<Seq<char>>, point: Seq<char>, n: int)
    requires
        0 <= n <= versions.len(),
    ensures
        forall|v: Seq<char>| #[trigger]
            older_versions(versions, point, n).contains(v) <==> crate::order::text_lt(v, point)
                && exists|i: int| 0 <= i < n && #[trigger] versions[i] == v,
    decreases n,
{
    if n > 0 {
        lemma_older_versions(versions, point, n - 1);
        let before = older_versions(versions, point, n - 1);
        let after = older_versions(versions, point, n);
        let last = versions[n - 1];
        assert forall|v: Seq<char>| #[trigger] after.contains(v) <==> crate::order::text_lt(
            v,
            point,
        ) && exists|i: int| 0 <= i < n && #[trigger] versions[i] == v by {
            if after.contains(v) {
                let k: int = choose|k: int| 0 <= k < after.len() && after[k] == v;
                if k < before.len() {
                    assert(before[k] == v);
                    assert(before.contains(v));
                } else {
                    assert(versions[n - 1] == v);
                }
            }
            if crate::order::text_lt(v, point) && exists|i: int|
                0 <= i < n && #[trigger] versions[i] == v {
                if v == last {
                    assert(after[after.len() - 1] == v);
                } else {
                    assert(before.contains(v));
                    let k: int = choose|k: int| 0 <= k < before.len() && before[k] == v;
                    assert(after[k] == v);
                }
            }
        }
    } else {
        assert(older_versions(versions, point, n) =~= Seq::<Seq<char>>::empty());
    }
}

/// A truncation takes away only versions before the point of removal. It never takes away a
/// version that a task reads at, nor the latest version, nor the point of removal itself.
pub proof fn truncation_spares_versions_in_use(
    busy: Map<Seq<char>, u64>,
    versions: Seq<Seq<char>>,
    candidate: Seq<char>,
    point: Seq<char>,
)
    requires
        versions.len() > 0,
        versions.no_duplicates(),
        is_remove_point(point, busy, candidate),
    ensures
        ({
            let removals = older_versions(versions, point, versions.len() - 1);
            &&& forall|v: Seq<char>| #[trigger]
                removals.contains(v) ==> versions.contains(v) && crate::order::text_lt(v, point)
            &&& forall|v: Seq<char>| #[trigger] busy.contains_key(v) ==> !removals.contains(v)
            &&& !removals.contains(versions.last())
            &&& !removals.contains(point)
        }),
{
    let n: int = versions.len() - 1;
    let removals = older_versions(versions, point, n);
    lemma_older_versions(versions, point, n);
    assert forall|v: Seq<char>| #[trigger] busy.contains_key(v) implies !removals.contains(v) by {
        assert(!crate::order::text_lt(v, point));
    }
    if removals.contains(versions.last()) {
        let i: int = choose|i: int| 0 <= i < n && #[trigger] versions[i] == versions.last();
        assert(versions[i] == versions[n]);
    }
    crate::order::text_lt_is_strict_total_order(point, point, point);
}

/// What is left of a list of versions are those that were not removed, and all of them.
pub proof fn retained_versions_are_the_rest(
    versions: Seq<Seq<char>>,
    removals: Seq<Seq<char>>,
    n: int,
)
    requires
        0 <= n <= versions.len(),
    ensures
        forall|v: Seq<char>| #[trigger]
            kept_versions(versions, removals, n).contains(v) <==> !removals.contains(v)
                && exists|i: int| 0 <= i < n && #[trigger] versions[i] == v,
    decreases n,
{
    if n > 0 {
        retained_versions_are_the_rest(versions, removals, n - 1);
        let before = kept_versions(versions, removals, n - 1);
        let after = kept_versions(versions, removals, n);
        let last = versions[n - 1];
        assert forall|v: Seq<char>| #[trigger] after.contains(v) <==> !removals.contains(v)
            && exists|i: int| 0 <= i < n && #[trigger] versions[i] == v by {
            if after.contains(v) {
                let k: int = choose|k: int| 0 <= k < after.len() && after[k] == v;
                if k < before.len() {
                    assert(before[k] == v);
                    assert(before.contains(v));
                } else {
                    assert(versions[n - 1] == v);
                }
            }
            if !removals.contains(v) && exists|i: int| 0 <= i < n && #[trigger] versions[i] == v {
                if v == last {
                    assert(after[after.len() - 1] == v);
                } else {
                    assert(before.contains(v));
                    let k: int = choose|k: int| 0 <= k < before.len() && before[k] == v;
                    assert(after[k] == v);
                }
            }
        }
    } else {
        assert(kept_versions(versions, removals, n) =~= Seq::<Seq<char>>::empty());
    }
}

/// `busy` counts, for each version, the tasks that hold it. A task holds one version at a time,
/// or none between two transactions.
pub open spec fn counts_tasks(busy: Map<Seq<char>, u64>, tasks: Seq<Option<Seq<char>>>) -> bool {
    forall|v: Seq<char>|
        {
            &&& #[trigger] holders(busy, v) == tasks.to_multiset().count(Some(v))
            &&& busy.contains_key(v) <==> tasks.to_multiset().count(Some(v)) > 0
        }
}

/// As long as every task notes the version of its transaction when that begins, and again when
/// it ends, the versions that are busy are exactly those that some task holds.
pub proof fn busy_versions_are_those_of_tasks(
    busy: Map<Seq<char>, u64>,
    tasks: Seq<Option<Seq<char>>>,
    i: int,
    version: Seq<char>,
)
    requires
        counts_tasks(busy, tasks),
        tasks.len() < u64::MAX,
        0 <= i < tasks.len(),
    ensures
        tasks[i] is None ==> counts_tasks(
            acquired(busy, version),
            tasks.update(i, Some(version)),
        ),
        tasks[i] == Some(version) ==> counts_tasks(
            released(busy, version),
            tasks.update(i, None),
        ),
{
    broadcast use vstd::seq_lib::group_to_multiset_ensures;

    vstd::seq_lib::to_multiset_update(tasks, i, Some(version));
    vstd::seq_lib::to_multiset_update(tasks, i, None);
    let m = tasks.to_multiset();
    assert(tasks.contains(tasks[i]));
    assert(m.count(tasks[i]) > 0);
    assert(holders(busy, version) == m.count(Some(version)));
    assert(m.count(Some(version)) <= m.len());
    if tasks[i] is None {
        let after = tasks.update(i, Some(version)).to_multiset();
        assert forall|v: Seq<char>|
            {
                &&& #[trigger] holders(acquired(busy, version), v) == after.count(Some(v))
                &&& acquired(busy, version).contains_key(v) <==> after.count(Some(v)) > 0
            } by {
            assert(holders(busy, v) == m.count(Some(v)));
        }
    }
    if tasks[i] == Some(version) {
        let after = tasks.update(i, None).to_multiset();
        assert forall|v: Seq<char>|
            {
                &&& #[trigger] holders(released(busy, version), v) == after.count(Some(v))
                &&& released(busy, version).contains_key(v) <==> after.count(Some(v)) > 0
            } by {
            assert(holders(busy, v) == m.count(Some(v)));
        }
    }
}

/// The versions that are busy while a task is in its transaction number `k`, of those that begin
/// at `versions` one after the other, each when the one before has ended.
pub open spec fn busy_during(
    busy: Map<Seq<char>, u64>,
    versions: Seq<Seq<char>>,
    k: int,
) -> Map<Seq<char>, u64>
    decreases k,
{
    if k <= 0 {
        acquired(busy, versions[0])
    } else {
        acquired(released(busy_during(busy, versions, k - 1), versions[k - 1]), versions[k])
    }
}

/// However many transactions a task has been through, it holds the version of the last one and
/// no other: all that it held before it has let go, each once.
pub proof fn task_holds_its_last_version(
    busy: Map<Seq<char>, u64>,
    versions: Seq<Seq<char>>,
    k: int,
)
    requires
        0 <= k < versions.len(),
        forall|v: Seq<char>| #[trigger] busy.contains_key(v) ==> 0 < busy[v] < u64::MAX,
    ensures
        busy_during(busy, versions, k) == acquired(busy, versions[k]),
    decreases k,
{
    if k > 0 {
        task_holds_its_last_version(busy, versions, k - 1);
        release_undoes_acquire(busy, versions[k - 1]);
    }
}

/// What a task does in one step.
#[derive(Debug, Clone, Copy, PartialEq, Eq, Structural)]
pub enum TaskMode {
    Read,
    Write,
    Commit,
    Abandon,
    Sleep,
}

/// How many equally likely draws there are for the mode of a step.
pub const NUM_MODES: u64 = 11;

/// The mode that a draw stands for. Reading comes up in six of eleven draws, and writing in
/// two.
pub open spec fn mode_of(draw: u64) -> TaskMode {
    if draw <= 5 {
        TaskMode::Read
    } else if draw <= 7 {
        TaskMode::Write
    } else if draw == 8 {
        TaskMode::Commit
    } else if draw == 9 {
        TaskMode::Abandon
    } else {
        TaskMode::Sleep
    }
}

/// The mode that a draw stands for.
pub fn task_mode(draw: u64) -> (r: TaskMode)
    requires
        draw < NUM_MODES,
    ensures
        r == mode_of(draw),
{
    if draw <= 5 {
        TaskMode::Read
    } else if draw <= 7 {
        TaskMode::Write
    } else if draw == 8 {
        TaskMode::Commit
    } else if draw == 9 {
        TaskMode::Abandon
    } else {
        TaskMode::Sleep
    }
}

/// A page that a task may read: any, unless tasks keep from reading their own writes.
pub open spec fn may_read(
    config: TesterConfig,
    pages: Map<u32, Seq<u8>>,
    page: u32,
) -> bool {
    !config.disable_ryw || !pages.contains_key(page)
}

/// Those of the first `n` pages that a task may read.
pub open spec fn readable_pages(
    config: TesterConfig,
    pages: Map<u32, Seq<u8>>,
    drawn: Seq<u32>,
    n: int,
) -> Seq<u32>
    decreases n,
{
    if n <= 0 {
        Seq::empty()
    } else if may_read(config, pages, drawn[n - 1]) {
        readable_pages(config, pages, drawn, n - 1).push(drawn[n - 1])
    } else {
        readable_pages(config, pages, drawn, n - 1)
    }
}

/// A transaction that has noted some pages as read.
pub open spec fn with_reads(
    txn: crate::transaction::TransactionView,
    reads: Seq<u32>,
) -> crate::transaction::TransactionView {
    crate::transaction::TransactionView {
        read_set: match txn.read_set {
            Some(read_set) => Some(read_set.union(reads.to_set())),
            None => None,
        },
        ..txn
    }
}

/// `last` with the bytes from `start` on replaced by `patch`.
pub open spec fn patched_content(last: Seq<u8>, start: int, patch: Seq<u8>) -> Seq<u8> {
    last.subrange(0, start) + patch + last.subrange(start + patch.len(), last.len() as int)
}

/// The next content of a page: the content that was kept of it, with a part replaced, where there
/// is one and a part was drawn, and a fresh page otherwise.
pub open spec fn content_after(
    last: Option<Seq<u8>>,
    patch: Option<(usize, Vec<u8>)>,
    fresh: Seq<u8>,
) -> Seq<u8> {
    match (last, patch) {
        (Some(last), Some((start, patch))) => patched_content(last, start as int, patch@),
        _ => fresh,
    }
}

/// The bytes of a content that was kept.
pub open spec fn kept_bytes(kept: Option<Vec<u8>>) -> Option<Seq<u8>> {
    match kept {
        Some(kept) => Some(kept@),
        None => None,
    }
}

/// The bytes of all contents that were kept.
pub open spec fn all_kept(last_writes: Seq<Option<Vec<u8>>>) -> Seq<Option<Seq<u8>>> {
    last_writes.map_values(|kept: Option<Vec<u8>>| kept_bytes(kept))
}

/// The bytes of some writes.
pub open spec fn write_bytes(writes: Seq<(u32, Vec<u8>)>) -> Seq<(u32, Seq<u8>)> {
    writes.map_values(|w: (u32, Vec<u8>)| (w.0, w.1@))
}

/// What is drawn for one write.
pub struct WriteDraw {
    pub page: u32,
    /// The part of the content that was kept of the page that is to be replaced: where it starts,
    /// and what by. Nothing, if the page is to be written anew.
    pub patch: Option<(usize, Vec<u8>)>,
    pub fresh: Vec<u8>,
    /// Whether the content is to be kept.
    pub keep: bool,
}

impl WriteDraw {
    /// The draw is one of those that can come up.
    pub open spec fn wf(&self, num_pages: u32) -> bool {
        &&& self.page < num_pages
        &&& self.fresh@.len() == PAGE_SIZE
        &&& self.patch matches Some((start, patch)) ==> start + patch@.len() < PAGE_SIZE
    }
}

/// What is drawn for one step of a task. Only what the mode needs is there.
pub struct TaskDraws {
    pub mode: u64,
    pub pages: Vec<u32>,
    pub writes: Vec<WriteDraw>,
    /// In milliseconds.
    pub pause: u64,
}

/// `draws` is one of those that can come up.
pub open spec fn may_be_drawn(draws: TaskDraws, num_pages: u32) -> bool {
    &&& draws.mode < NUM_MODES
    &&& forall|i: int| 0 <= i < draws.pages@.len() ==> #[trigger] draws.pages@[i] < num_pages
    &&& forall|i: int| 0 <= i < draws.writes@.len() ==> (#[trigger] draws.writes@[i]).wf(num_pages)
    &&& mode_of(draws.mode) is Read && num_pages > 0 ==> 1 <= draws.pages@.len() <= MAX_BATCH
    &&& mode_of(draws.mode) is Write && num_pages > 0 ==> 1 <= draws.writes@.len() <= MAX_BATCH
    &&& mode_of(draws.mode) is Sleep ==> 1 <= draws.pause < 100
}

/// What a task has kept of each page after the first `n` writes.
pub open spec fn kept_after(
    kept: Seq<Option<Seq<u8>>>,
    draws: Seq<WriteDraw>,
    n: int,
) -> Seq<Option<Seq<u8>>>
    decreases n,
{
    if n <= 0 {
        kept
    } else {
        let before = kept_after(kept, draws, n - 1);
        let draw = draws[n - 1];
        if draw.keep {
            before.update(
                draw.page as int,
                Some(content_after(before[draw.page as int], draw.patch, draw.fresh@)),
            )
        } else {
            before
        }
    }
}

/// The first `n` writes: each goes by what the task has kept by then.
pub open spec fn drawn_writes(
    kept: Seq<Option<Seq<u8>>>,
    draws: Seq<WriteDraw>,
    n: int,
) -> Seq<(u32, Seq<u8>)>
    decreases n,
{
    if n <= 0 {
        Seq::empty()
    } else {
        let draw = draws[n - 1];
        drawn_writes(kept, draws, n - 1).push(
            (
                draw.page,
                content_after(
                    kept_after(kept, draws, n - 1)[draw.page as int],
                    draw.patch,
                    draw.fresh@,
                ),
            ),
        )
    }
}

/// On `draws` a task goes on from `before` to `after`, its transaction from `txn` to `txn_after`,
/// and `action` is next.
pub open spec fn task_step(
    config: TesterConfig,
    before: TaskState,
    txn: crate::transaction::TransactionView,
    draws: TaskDraws,
    after: TaskState,
    txn_after: crate::transaction::TransactionView,
    action: TaskAction,
) -> bool {
    &&& after.held == before.held
    &&& if before.iterations_left == 0 {
        &&& action is Finished
        &&& after.iterations_left == 0
        &&& all_kept(after.last_writes@) == all_kept(before.last_writes@)
        &&& txn_after == txn
    } else {
        &&& after.iterations_left == before.iterations_left - 1
        &&& match mode_of(draws.mode) {
            TaskMode::Read => {
                let reads = readable_pages(
                    config,
                    txn.pages,
                    draws.pages@,
                    draws.pages@.len() as int,
                );
                &&& all_kept(after.last_writes@) == all_kept(before.last_writes@)
                &&& if config.num_pages == 0 {
                    action is NoPages && txn_after == txn
                } else if reads.len() == 0 {
                    action is Skip && txn_after == txn
                } else {
                    &&& action matches TaskAction::Read(pages)
                    &&& pages@ == reads
                    &&& txn_after == with_reads(txn, reads)
                }
            },
            TaskMode::Write => {
                let n: int = draws.writes@.len() as int;
                &&& txn_after == txn
                &&& if config.num_pages == 0 {
                    &&& action is NoPages
                    &&& all_kept(after.last_writes@) == all_kept(before.last_writes@)
                } else {
                    &&& action matches TaskAction::Write(writes)
                    &&& write_bytes(writes@) == drawn_writes(
                        all_kept(before.last_writes@),
                        draws.writes@,
                        n,
                    )
                    &&& all_kept(after.last_writes@) == kept_after(
                        all_kept(before.last_writes@),
                        draws.writes@,
                        n,
                    )
                }
            },
            TaskMode::Commit => {
                &&& action is Commit
                &&& all_kept(after.last_writes@) == all_kept(before.last_writes@)
                &&& txn_after == txn
            },
            TaskMode::Abandon => {
                &&& action is Abandon
                &&& all_kept(after.last_writes@) == all_kept(before.last_writes@)
                &&& txn_after == txn
            },
            TaskMode::Sleep => {
                &&& action == TaskAction::Sleep(draws.pause)
                &&& all_kept(after.last_writes@) == all_kept(before.last_writes@)
                &&& txn_after == txn
            },
        }
    }
}

/// A task, between two steps.
pub struct TaskState {
    pub iterations_left: u64,
    /// For each page a content that the task has written, where it has kept one.
    pub last_writes: Vec<Option<Vec<u8>>>,
    /// The version of the transaction that the task is in.
    pub held: Option<String>,
}

impl TaskState {
    /// There is a place for each page, and each content that was kept is a whole page.
    pub open spec fn wf(&self, num_pages: u32) -> bool {
        &&& self.last_writes@.len() == num_pages
        &&& forall|i: int|
            0 <= i < num_pages ==> ((#[trigger] self.last_writes@[i]) matches Some(last)
                ==> last@.len() == PAGE_SIZE)
    }

    /// A task that has not done anything.
    pub fn new(num_pages: u32, iterations: u64) -> (r: Self)
        ensures
            r.wf(num_pages),
            r.iterations_left == iterations,
            r.held is None,
            forall|i: int| 0 <= i < num_pages ==> #[trigger] r.last_writes@[i] is None,
    {
        let mut last_writes: Vec<Option<Vec<u8>>> = Vec::new();
        let mut i: u32 = 0;
        while i < num_pages
            invariant
                i <= num_pages,
                last_writes@.len() == i,
                forall|j: int| 0 <= j < i ==> #[trigger] last_writes@[j] is None,
            decreases num_pages - i,
        {
            last_writes.push(None);
            i = i + 1;
        }
        TaskState { iterations_left: iterations, last_writes, held: None }
    }
}

/// What a task does next.
pub enum TaskAction {
    /// The task is over.
    Finished,
    /// Nothing: there is no page that the task may read.
    Skip,
    /// Give up: there is no page at all to draw.
    NoPages,
    /// Read these pages, which were noted as read.
    Read(Vec<u32>),
    /// Write these pages.
    Write(Vec<(u32, Vec<u8>)>),
    Commit,
    /// Drop the transaction and go on with another.
    Abandon,
    /// Wait for some milliseconds.
    Sleep(u64),
}

/// How a task goes on after a step.
pub enum TaskFollowUp<E> {
    /// With the same transaction.
    Continue,
    /// Record that the transaction was committed at this version, and go on with another.
    RecordCommit(String),
    /// Drop the transaction and go on with another.
    Renew,
    /// Not at all.
    Fail(E),
}

/// A draw is the one that counts as heads.
pub open spec fn shows_heads(draw: u64) -> bool {
    draw == 0
}

/// Whether a draw is the one that counts as heads.
pub fn is_heads(draw: u64) -> (r: bool)
    ensures
        r == shows_heads(draw),
{
    draw == 0
}

/// A coin that shows heads once in `n` throws: one of `n` draws counts as heads. Which draw
/// comes up is a matter of chance.
fn one_in(n: u64) -> (r: bool)
    requires
        n > 0,
    ensures
        exists|draw: u64| draw < n && r == #[trigger] shows_heads(draw),
{
    is_heads(random_below(0, n))
}

fn random_page(len: usize) -> (r: Vec<u8>)
    ensures
        r@.len() == len,
{
    let mut data: Vec<u8> = Vec::new();
    data.resize(len, 0);
    fill_random(&mut data);
    data
}

/// `last` with the bytes from `start` on replaced by `patch`.
pub fn patch_content(last: &Vec<u8>, start: usize, patch: &Vec<u8>) -> (r: Vec<u8>)
    requires
        start + patch@.len() <= last@.len(),
    ensures
        r@ == patched_content(last@, start as int, patch@),
{
    let mut r: Vec<u8> = Vec::new();
    let mut i: usize = 0;
    while i < last.len()
        invariant
            i <= last@.len(),
            r@.len() == i,
            start + patch@.len() <= last@.len(),
            forall|j: int|
                0 <= j < i ==> #[trigger] r@[j] == if start <= j < start + patch@.len() {
                    patch@[j - start]
                } else {
                    last@[j]
                },
        decreases last@.len() - i,
    {
        if start <= i && i - start < patch.len() {
            r.push(patch[i - start]);
        } else {
            r.push(last[i]);
        }
        i = i + 1;
    }
    assert(r@ =~= patched_content(last@, start as int, patch@));
    r
}

/// The next content of a page, given the content that was kept of it, the part of it that was
/// drawn to be replaced, and a fresh page.
pub fn next_content(
    last: &Option<Vec<u8>>,
    patch: Option<(usize, Vec<u8>)>,
    fresh: Vec<u8>,
) -> (r: Vec<u8>)
    requires
        *last matches Some(last) ==> (patch matches Some((start, patch)) ==> start + patch@.len()
            <= last@.len()),
    ensures
        r@ == content_after(kept_bytes(*last), patch, fresh@),
{
    match (last, patch) {
        (Some(last), Some((start, patch))) => patch_content(last, start, &patch),
        _ => fresh,
    }
}

/// Makes the writes that were drawn, one after the other, and keeps the contents that are to be
/// kept.
pub fn make_writes(last_writes: &mut Vec<Option<Vec<u8>>>, draws: Vec<WriteDraw>) -> (r: Vec<
    (u32, Vec<u8>),
>)
    requires
        old(last_writes)@.len() <= u32::MAX,
        forall|i: int|
            0 <= i < draws@.len() ==> (#[trigger] draws@[i]).wf(old(last_writes)@.len() as u32),
        whole_pages(all_kept(old(last_writes)@)),
    ensures
        write_bytes(r@) == drawn_writes(
            all_kept(old(last_writes)@),
            draws@,
            draws@.len() as int,
        ),
        all_kept(final(last_writes)@) == kept_after(
            all_kept(old(last_writes)@),
            draws@,
            draws@.len() as int,
        ),
        final(last_writes)@.len() == old(last_writes)@.len(),
{
    let ghost kept = all_kept(last_writes@);
    let ghost all = draws@;
    let mut left = draws;
    let n: usize = left.len();
    let mut writes: Vec<(u32, Vec<u8>)> = Vec::new();
    let mut i: usize = 0;
    assert(write_bytes(writes@) =~= drawn_writes(kept, all, 0));
    while i < n
        invariant
            i <= n,
            n == all.len(),
            left@ == all.skip(i as int),
            kept == all_kept(old(last_writes)@),
            last_writes@.len() == old(last_writes)@.len(),
            last_writes@.len() <= u32::MAX,
            forall|j: int|
                0 <= j < all.len() ==> (#[trigger] all[j]).wf(old(last_writes)@.len() as u32),
            whole_pages(kept),
            all_kept(last_writes@) == kept_after(kept, all, i as int),
            write_bytes(writes@) == drawn_writes(kept, all, i as int),
        decreases n - i,
    {
        let draw = left.remove(0);
        proof {
            assert(draw == all[i as int]);
            assert(left@ =~= all.skip(i as int + 1));
            lemma_writes_are_whole_pages(kept, all, last_writes@.len() as u32, i as int);
            assert(all_kept(last_writes@)[draw.page as int] == kept_bytes(
                last_writes@[draw.page as int],
            ));
        }
        let WriteDraw { page, patch, fresh, keep } = draw;
        let ghost before = writes@;
        let ghost had = last_writes@;
        let data = next_content(&last_writes[page as usize], patch, fresh);
        if keep {
            let copy = vstd::slice::slice_to_vec(data.as_slice());
            last_writes.set(page as usize, Some(copy));
            assert(all_kept(last_writes@) =~= all_kept(had).update(page as int, Some(data@)));
        }
        writes.push((page, data));
        assert(write_bytes(writes@) =~= write_bytes(before).push((page, data@)));
        i = i + 1;
    }
    writes
}

/// Each content that was kept is a whole page.
pub open spec fn whole_pages(kept: Seq<Option<Seq<u8>>>) -> bool {
    forall|i: int|
        0 <= i < kept.len() ==> ((#[trigger] kept[i]) matches Some(last) ==> last.len()
            == PAGE_SIZE)
}

/// Every content that a task writes or keeps is a whole page, and goes to a page that there is.
proof fn lemma_writes_are_whole_pages(
    kept: Seq<Option<Seq<u8>>>,
    draws: Seq<WriteDraw>,
    num_pages: u32,
    n: int,
)
    requires
        0 <= n <= draws.len(),
        kept.len() == num_pages,
        whole_pages(kept),
        forall|i: int| 0 <= i < draws.len() ==> (#[trigger] draws[i]).wf(num_pages),
    ensures
        kept_after(kept, draws, n).len() == num_pages,
        whole_pages(kept_after(kept, draws, n)),
        drawn_writes(kept, draws, n).len() == n,
        forall|i: int|
            0 <= i < n ==> {
                &&& (#[trigger] drawn_writes(kept, draws, n)[i]).0 < num_pages
                &&& drawn_writes(kept, draws, n)[i].1.len() == PAGE_SIZE
            },
    decreases n,
{
    if n > 0 {
        lemma_writes_are_whole_pages(kept, draws, num_pages, n - 1);
        let draw = draws[n - 1];
        let before = kept_after(kept, draws, n - 1);
        let last = before[draw.page as int];
        assert(draw.wf(num_pages));
        assert(content_after(last, draw.patch, draw.fresh@).len() == PAGE_SIZE);
        let writes = drawn_writes(kept, draws, n - 1);
        assert forall|i: int| 0 <= i < n implies {
            &&& (#[trigger] drawn_writes(kept, draws, n)[i]).0 < num_pages
            &&& drawn_writes(kept, draws, n)[i].1.len() == PAGE_SIZE
        } by {
            if i < n - 1 {
                assert(drawn_writes(kept, draws, n)[i] == writes[i]);
            }
        }
    }
}

/// Notes that some pages are read.
pub fn mark_reads(txn: &mut Transaction, reads: &[u32])
    ensures
        final(txn)@ == with_reads(old(txn)@, reads@),
{
    let mut i: usize = 0;
    assert(reads@.take(0).to_set() =~= Set::<u32>::empty());
    assert(txn@ =~= with_reads(old(txn)@, reads@.take(0)));
    while i < reads.len()
        invariant
            i <= reads@.len(),
            txn@ == with_reads(old(txn)@, reads@.take(i as int)),
        decreases reads@.len() - i,
    {
        txn.mark_read(reads[i]);
        proof {
            let before = reads@.take(i as int);
            let after = reads@.take(i as int + 1);
            assert(after =~= before.push(reads@[i as int]));
            assert(after.to_set() =~= before.to_set().insert(reads@[i as int])) by {
                broadcast use vstd::seq_lib::group_seq_properties;

            }
            assert(txn@ =~= with_reads(old(txn)@, after)) by {
                match old(txn)@.read_set {
                    Some(read_set) => {
                        assert(read_set.union(before.to_set()).insert(reads@[i as int])
                            =~= read_set.union(after.to_set()));
                    },
                    None => {},
                }
            }
        }
        i = i + 1;
    }
    assert(reads@.take(reads@.len() as int) =~= reads@);
}

impl Tester {
    /// Those of the pages drawn that the task may read.
    pub fn select_reads(&self, txn: &Transaction, drawn: &[u32]) -> (r: Vec<u32>)
        ensures
            r@ == readable_pages(self.settings(), txn@.pages, drawn@, drawn@.len() as int),
    {
        let mut reads: Vec<u32> = Vec::new();
        let mut i: usize = 0;
        while i < drawn.len()
            invariant
                i <= drawn@.len(),
                reads@ == readable_pages(self.settings(), txn@.pages, drawn@, i as int),
            decreases drawn@.len() - i,
        {
            if !self.config.disable_ryw || !txn.page_is_written(drawn[i]) {
                reads.push(drawn[i]);
            }
            i = i + 1;
        }
        reads
    }

    /// Draws pages, at least one and not more than ten.
    fn draw_pages(&self) -> (r: Vec<u32>)
        requires
            self.settings().num_pages > 0,
        ensures
            1 <= r@.len() <= MAX_BATCH,
            forall|i: int| 0 <= i < r@.len() ==> #[trigger] r@[i] < self.settings().num_pages,
    {
        let n: u64 = random_below(1, MAX_BATCH + 1);
        let mut drawn: Vec<u32> = Vec::new();
        let mut i: u64 = 0;
        while i < n
            invariant
                i <= n,
                drawn@.len() == i,
                self.settings().num_pages > 0,
                forall|j: int|
                    0 <= j < i ==> #[trigger] drawn@[j] < self.settings().num_pages,
            decreases n - i,
        {
            drawn.push(random_below(0, self.config.num_pages as u64) as u32);
            i = i + 1;
        }
        drawn
    }

    /// Draws a write: to some page; in one of five draws with a part of the content that was kept
    /// to be replaced; and in every other draw to be kept.
    fn draw_write(&self) -> (r: WriteDraw)
        requires
            self.settings().num_pages > 0,
        ensures
            r.wf(self.settings().num_pages),
    {
        let page: u32 = random_below(0, self.config.num_pages as u64) as u32;
        let patch = if one_in(5) {
            let start: usize = random_below(0, PAGE_SIZE as u64) as usize;
            let end: usize = random_below(start as u64, PAGE_SIZE as u64) as usize;
            Some((start, random_page(end - start)))
        } else {
            None
        };
        WriteDraw { page, patch, fresh: random_page(PAGE_SIZE), keep: one_in(2) }
    }

    /// Draws some writes, at least one and not more than ten.
    fn draw_writes(&self) -> (r: Vec<WriteDraw>)
        requires
            self.settings().num_pages > 0,
        ensures
            1 <= r@.len() <= MAX_BATCH,
            forall|i: int|
                0 <= i < r@.len() ==> (#[trigger] r@[i]).wf(self.settings().num_pages),
    {
        let n: u64 = random_below(1, MAX_BATCH + 1);
        let mut writes: Vec<WriteDraw> = Vec::new();
        let mut i: u64 = 0;
        while i < n
            invariant
                i <= n,
                writes@.len() == i,
                self.settings().num_pages > 0,
                forall|j: int|
                    0 <= j < i ==> (#[trigger] writes@[j]).wf(self.settings().num_pages),
            decreases n - i,
        {
            writes.push(self.draw_write());
            i = i + 1;
        }
        writes
    }

    /// Draws all that one step of a task leaves to chance: the mode, and what the mode needs.
    pub fn draw_task(&self) -> (r: TaskDraws)
        ensures
            may_be_drawn(r, self.settings().num_pages),
    {
        let mut draws = TaskDraws {
            mode: random_below(0, NUM_MODES),
            pages: Vec::new(),
            writes: Vec::new(),
            pause: 0,
        };
        match task_mode(draws.mode) {
            TaskMode::Read => if self.config.num_pages > 0 {
                draws.pages = self.draw_pages();
            },
            TaskMode::Write => if self.config.num_pages > 0 {
                draws.writes = self.draw_writes();
            },
            TaskMode::Commit => {},
            TaskMode::Abandon => {},
            TaskMode::Sleep => {
                draws.pause = random_below(1, 100);
            },
        }
        draws
    }

    /// Decides what a task does next, given what was drawn. Pages that it is to read are noted as
    /// read.
    pub fn task_with(&self, task: &mut TaskState, txn: &mut Transaction, draws: TaskDraws) -> (r:
        TaskAction)
        requires
            old(task).wf(self.settings().num_pages),
            draws.mode < NUM_MODES,
            forall|i: int|
                0 <= i < draws.writes@.len() ==> (#[trigger] draws.writes@[i]).wf(
                    self.settings().num_pages,
                ),
        ensures
            final(task).wf(self.settings().num_pages),
            task_step(
                self.settings(),
                *old(task),
                old(txn)@,
                draws,
                *final(task),
                final(txn)@,
                r,
            ),
    {
        if task.iterations_left == 0 {
            return TaskAction::Finished;
        }
        task.iterations_left = task.iterations_left - 1;
        match task_mode(draws.mode) {
            TaskMode::Read => {
                if self.config.num_pages == 0 {
                    return TaskAction::NoPages;
                }
                let reads = self.select_reads(txn, draws.pages.as_slice());
                if reads.len() == 0 {
                    return TaskAction::Skip;
                }
                mark_reads(txn, reads.as_slice());
                TaskAction::Read(reads)
            },
            TaskMode::Write => {
                if self.config.num_pages == 0 {
                    return TaskAction::NoPages;
                }
                let ghost kept = all_kept(task.last_writes@);
                let ghost drawn = draws.writes@;
                proof {
                    assert forall|i: int| 0 <= i < kept.len() implies ((
                    #[trigger] kept[i]) matches Some(last) ==> last.len() == PAGE_SIZE) by {
                        assert(kept[i] == kept_bytes(old(task).last_writes@[i]));
                    }
                    lemma_writes_are_whole_pages(
                        kept,
                        drawn,
                        self.settings().num_pages,
                        drawn.len() as int,
                    );
                }
                let writes = make_writes(&mut task.last_writes, draws.writes);
                proof {
                    assert forall|i: int|
                        0 <= i < task.last_writes@.len() implies ((
                    #[trigger] task.last_writes@[i]) matches Some(last) ==> last@.len()
                        == PAGE_SIZE) by {
                        assert(all_kept(task.last_writes@)[i] == kept_bytes(task.last_writes@[i]));
                    }
                }
                TaskAction::Write(writes)
            },
            TaskMode::Commit => TaskAction::Commit,
            TaskMode::Abandon => TaskAction::Abandon,
            TaskMode::Sleep => TaskAction::Sleep(draws.pause),
        }
    }

    /// Decides at random what a task does next. Pages that it is to read are noted as read.
    pub fn task(&self, task: &mut TaskState, txn: &mut Transaction) -> (r: TaskAction)
        requires
            old(task).wf(self.settings().num_pages),
        ensures
            final(task).wf(self.settings().num_pages),
            exists|draws: TaskDraws|
                {
                    &&& may_be_drawn(draws, self.settings().num_pages)
                    &&& #[trigger] task_step(
                        self.settings(),
                        *old(task),
                        old(txn)@,
                        draws,
                        *final(task),
                        final(txn)@,
                        r,
                    )
                },
    {
        let draws = self.draw_task();
        self.task_with(task, txn, draws)
    }

    /// Notes that a task begins a transaction at `version`. From then on the task holds the
    /// version.
    pub fn begin_transaction(&mut self, task: &mut TaskState, version: &str)
        requires
            old(self).wf(),
            holders(old(self)@, version@) < u64::MAX,
            old(task).held is None,
        ensures
            final(self).wf(),
            final(self).settings() == old(self).settings(),
            final(self)@ == acquired(old(self)@, version@),
            crate::client::opt_text(final(task).held) == Some(version@),
            final(task).iterations_left == old(task).iterations_left,
            final(task).last_writes == old(task).last_writes,
            forall|tasks: Seq<Option<Seq<char>>>, i: int|
                #![trigger counts_tasks(old(self)@, tasks), tasks[i]]
                counts_tasks(old(self)@, tasks) && tasks.len() < u64::MAX && 0 <= i < tasks.len()
                    && tasks[i] is None ==> counts_tasks(
                    final(self)@,
                    tasks.update(i, Some(version@)),
                ),
    {
        self.acquire_version(version);
        task.held = Some(version.to_owned());
        proof {
            assert forall|tasks: Seq<Option<Seq<char>>>, i: int|
                #![trigger counts_tasks(old(self)@, tasks), tasks[i]]
                counts_tasks(old(self)@, tasks) && tasks.len() < u64::MAX && 0 <= i < tasks.len()
                    && tasks[i] is None implies counts_tasks(
                self@,
                tasks.update(i, Some(version@)),
            ) by {
                busy_versions_are_those_of_tasks(old(self)@, tasks, i, version@);
            }
        }
    }

    /// Notes that the transaction of a task has ended. The task lets go of the version that it
    /// held.
    pub fn end_transaction(&mut self, task: &mut TaskState)
        requires
            old(self).wf(),
            old(task).held is Some,
            old(self)@.contains_key(old(task).held->0@),
        ensures
            final(self).wf(),
            final(self).settings() == old(self).settings(),
            final(self)@ == released(old(self)@, old(task).held->0@),
            final(task).held is None,
            final(task).iterations_left == old(task).iterations_left,
            final(task).last_writes == old(task).last_writes,
            forall|tasks: Seq<Option<Seq<char>>>, i: int|
                #![trigger counts_tasks(old(self)@, tasks), tasks[i]]
                counts_tasks(old(self)@, tasks) && tasks.len() < u64::MAX && 0 <= i < tasks.len()
                    && tasks[i] == Some(old(task).held->0@) ==> counts_tasks(
                    final(self)@,
                    tasks.update(i, None),
                ),
    {
        match task.held.take() {
            Some(version) => {
                self.release_version(version.as_str());
                proof {
                    assert forall|tasks: Seq<Option<Seq<char>>>, i: int|
                        #![trigger counts_tasks(old(self)@, tasks), tasks[i]]
                        counts_tasks(old(self)@, tasks) && tasks.len() < u64::MAX && 0 <= i
                            < tasks.len() && tasks[i] == Some(version@) implies counts_tasks(
                        self@,
                        tasks.update(i, None),
                    ) by {
                        busy_versions_are_those_of_tasks(old(self)@, tasks, i, version@);
                    }
                }
            },
            None => {},
        }
    }

    /// Ends the transaction of a task if that is how the task goes on, and tells whether it is:
    /// whether the task begins another one. A task that fails keeps its version.
    pub fn settle_transaction<E>(&mut self, task: &mut TaskState, next: &TaskFollowUp<E>) -> (r: bool)
        requires
            old(self).wf(),
            old(task).held is Some,
            old(self)@.contains_key(old(task).held->0@),
        ensures
            final(self).wf(),
            final(self).settings() == old(self).settings(),
            final(task).iterations_left == old(task).iterations_left,
            final(task).last_writes == old(task).last_writes,
            r == (next is RecordCommit || next is Renew),
            if r {
                final(self)@ == released(old(self)@, old(task).held->0@) && final(task).held is None
            } else {
                final(self)@ == old(self)@ && final(task).held == old(task).held
            },
    {
        match next {
            TaskFollowUp::Continue => false,
            TaskFollowUp::RecordCommit(_) => {
                self.end_transaction(task);
                true
            },
            TaskFollowUp::Renew => {
                self.end_transaction(task);
                true
            },
            TaskFollowUp::Fail(_) => false,
        }
    }

    /// How a task goes on after a read: a read that failed in a way that may go away costs
    /// the task its transaction, and any other failure ends it.
    pub fn after_read<T, E>(&self, result: Result<T, E>, causes: &[ErrorCause]) -> (r: (
        Option<T>,
        TaskFollowUp<E>,
    ))
        ensures
            match result {
                Ok(pages) => r.0 == Some(pages) && r.1 is Continue,
                Err(e) => r.0 is None && r.1 == if crate::client::may_go_away(causes@) {
                    TaskFollowUp::Renew
                } else {
                    TaskFollowUp::Fail(e)
                },
            },
    {
        match result {
            Ok(pages) => (Some(pages), TaskFollowUp::Continue),
            Err(e) => if is_retryable(causes) {
                (None, TaskFollowUp::Renew)
            } else {
                (None, TaskFollowUp::Fail(e))
            },
        }
    }

    /// How a task goes on after a commit: with another transaction, unless the commit failed.
    /// That a page was removed which the commit refers to is no failure where the test is
    /// set up to permit it.
    pub fn after_commit<E>(&self, result: Result<CommitOutput, CommitFailure<E>>) -> (r:
        TaskFollowUp<CommitFailure<E>>)
        ensures
            match result {
                Ok(CommitOutput::Committed(info)) => r == TaskFollowUp::<
                    CommitFailure<E>,
                >::RecordCommit(info.version),
                Ok(_) => r is Renew,
                Err(e) => r == if self.settings().permit_bad_page_reference && e
                    == CommitFailure::<E>::Refused(CommitError::BadPageReference) {
                    TaskFollowUp::<CommitFailure<E>>::Renew
                } else {
                    TaskFollowUp::<CommitFailure<E>>::Fail(e)
                },
            },
    {
        match result {
            Ok(CommitOutput::Committed(info)) => TaskFollowUp::RecordCommit(info.version),
            Ok(CommitOutput::Conflict) => TaskFollowUp::Renew,
            Ok(CommitOutput::Empty) => TaskFollowUp::Renew,
            Err(CommitFailure::Refused(CommitError::BadPageReference)) => {
                if self.config.permit_bad_page_reference {
                    TaskFollowUp::Renew
                } else {
                    TaskFollowUp::Fail(CommitFailure::Refused(CommitError::BadPageReference))
                }
            },
            Err(e) => TaskFollowUp::Fail(e),
        }
    }

    /// The version that the next transaction of a task starts from, and whether it keeps
    /// track of its reads, given two throws of a coin and a version picked from those that
    /// are left. Without a version it starts from the latest.
    pub fn choose_base(&self, from_old: bool, track_reads: bool, picked: Option<String>) -> (r: (
        Option<String>,
        bool,
    ))
        ensures
            r.0 == if from_old {
                picked
            } else {
                None
            },
            r.1 == (!self.settings().disable_read_set && track_reads),
    {
        let base = if from_old {
            picked
        } else {
            None
        };
        (base, !self.config.disable_read_set && track_reads)
    }

    /// Draws the version that the next transaction of a task starts from, and whether it
    /// keeps track of its reads.
    pub fn create_transaction_random_base(&self, picked: Option<String>) -> (r: (
        Option<String>,
        bool,
    ))
        ensures
            r.0 is None || r.0 == picked,
            self.settings().disable_read_set ==> !r.1,
    {
        let from_old = one_in(2);
        let track_reads = one_in(2);
        self.choose_base(from_old, track_reads, picked)
    }
}

/// Whatever is drawn, a task reads only pages that there are and that it may read, at least one
/// and not more than ten; it writes as many whole pages; and it waits for less than a tenth of a
/// second.
pub proof fn task_actions_stay_in_bounds(
    config: TesterConfig,
    before: TaskState,
    txn: crate::transaction::TransactionView,
    draws: TaskDraws,
    after: TaskState,
    txn_after: crate::transaction::TransactionView,
    action: TaskAction,
)
    requires
        before.wf(config.num_pages),
        may_be_drawn(draws, config.num_pages),
        task_step(config, before, txn, draws, after, txn_after, action),
    ensures
        action matches TaskAction::Read(reads) ==> {
            &&& 1 <= reads@.len() <= MAX_BATCH
            &&& forall|i: int|
                0 <= i < reads@.len() ==> {
                    &&& #[trigger] reads@[i] < config.num_pages
                    &&& may_read(config, txn.pages, reads@[i])
                }
        },
        action matches TaskAction::Write(writes) ==> {
            &&& 1 <= writes@.len() <= MAX_BATCH
            &&& forall|i: int|
                0 <= i < writes@.len() ==> {
                    &&& (#[trigger] writes@[i]).0 < config.num_pages
                    &&& writes@[i].1@.len() == PAGE_SIZE
                }
        },
        action matches TaskAction::Sleep(millis) ==> 1 <= millis < 100,
        action is Skip ==> config.disable_ryw,
        action is NoPages ==> config.num_pages == 0,
{
    lemma_readable_pages(config, txn.pages, draws.pages@, draws.pages@.len() as int);
    if before.iterations_left > 0 && mode_of(draws.mode) is Write && config.num_pages > 0 {
        let kept = all_kept(before.last_writes@);
        let n: int = draws.writes@.len() as int;
        assert forall|i: int| 0 <= i < kept.len() implies ((#[trigger] kept[i]) matches Some(last)
            ==> last.len() == PAGE_SIZE) by {
            assert(kept[i] == kept_bytes(before.last_writes@[i]));
        }
        lemma_writes_are_whole_pages(kept, draws.writes@, config.num_pages, n);
        let writes = action->Write_0;
        let bytes = drawn_writes(kept, draws.writes@, n);
        assert(write_bytes(writes@).len() == n);
        assert forall|i: int| 0 <= i < writes@.len() implies {
            &&& (#[trigger] writes@[i]).0 < config.num_pages
            &&& writes@[i].1@.len() == PAGE_SIZE
        } by {
            assert(write_bytes(writes@)[i] == (writes@[i].0, writes@[i].1@));
            assert(bytes[i].0 < config.num_pages);
        }
    }
}

proof fn lemma_readable_pages(
    config: TesterConfig,
    pages: Map<u32, Seq<u8>>,
    drawn: Seq<u32>,
    n: int,
)
    requires
        0 <= n <= drawn.len(),
    ensures
        readable_pages(config, pages, drawn, n).len() <= n,
        forall|i: int|
            0 <= i < readable_pages(config, pages, drawn, n).len() ==> {
                let page = #[trigger] readable_pages(config, pages, drawn, n)[i];
                &&& may_read(config, pages, page)
                &&& drawn.contains(page)
            },
        !config.disable_ryw ==> readable_pages(config, pages, drawn, n).len() == n,
    decreases n,
{
    if n > 0 {
        lemma_readable_pages(config, pages, drawn, n - 1);
        let before = readable_pages(config, pages, drawn, n - 1);
        let after = readable_pages(config, pages, drawn, n);
        assert forall|i: int| 0 <= i < after.len() implies {
            let page = #[trigger] after[i];
            &&& may_read(config, pages, page)
            &&& drawn.contains(page)
        } by {
            if i < before.len() {
                assert(after[i] == before[i]);
            } else {
                assert(drawn[n - 1] == after[i]);
            }
        }
    }
}

/// How long the worker that removes old versions waits before it does so again, in
/// milliseconds.
pub fn truncate_pause() -> (r: u64)
    ensures
        1 <= r < 1000,
{
    random_below(1, 1000)
}

/// How long the workers that remove contents and records which nobody needs wait before they
/// do so again, in milliseconds.
pub fn sweep_pause() -> (r: u64)
    ensures
        1 <= r < 5000,
{
    random_below(1, 5000)
}

/// One more task reads at a version that is noted, and one less at one that is let go; a version
/// is busy exactly as long as a task reads at it. No other version is touched, and noting and
/// letting go of one leaves all as it was.
pub proof fn versions_are_counted(
    config: TesterConfig,
    fresh: Tester,
    taken: &mut Tester,
    let_go: &mut Tester,
    version: &str,
    other: Seq<char>,
)
    requires
        call_ensures(Tester::new, (config,), fresh),
        old(taken).wf(),
        old(taken)@.contains_key(version@) ==> old(taken)@[version@] < u64::MAX,
        call_ensures(Tester::acquire_version, (taken, version), ()),
        *old(let_go) == *final(taken),
        call_ensures(Tester::release_version, (let_go, version), ()),
    ensures
        forall|v: Seq<char>| !#[trigger] fresh@.contains_key(v),
        fresh.settings() == config,
        final(taken)@.contains_key(version@),
        final(taken)@[version@] == if old(taken)@.contains_key(version@) {
            old(taken)@[version@] + 1
        } else {
            1
        },
        other != version@ ==> {
            &&& final(taken)@.contains_key(other) <==> old(taken)@.contains_key(other)
            &&& old(taken)@.contains_key(other) ==> final(taken)@[other] == old(taken)@[other]
        },
        final(let_go)@ == old(taken)@,
        final(let_go).settings() == old(taken).settings(),
        final(taken).settings() == old(taken).settings(),
{
    busy_versions_have_holders(*old(taken));
    release_undoes_acquire(old(taken)@, version@);
}

/// A version that some tasks read at has one of them less when one lets go of it, and is busy no
/// more when that was the last one. No other version is touched.
pub proof fn last_task_frees_the_version(
    tester: &mut Tester,
    version: &str,
    other: Seq<char>,
)
    requires
        old(tester).wf(),
        old(tester)@.contains_key(version@),
        call_ensures(Tester::release_version, (tester, version), ()),
    ensures
        final(tester)@.contains_key(version@) <==> old(tester)@[version@] > 1,
        final(tester)@.contains_key(version@)
            ==> final(tester)@[version@] == old(tester)@[version@] - 1,
        other != version@ ==> {
            &&& final(tester)@.contains_key(other) <==> old(tester)@.contains_key(other)
            &&& old(tester)@.contains_key(other) ==> final(tester)@[other] == old(tester)@[other]
        },
{
    busy_versions_have_holders(*old(tester));
}

/// The oldest busy version is busy, and none that is busy comes before it. There is none exactly
/// if no version is busy.
pub proof fn no_busy_version_is_older_than_the_oldest(
    tester: &Tester,
    r: Option<&str>,
    busy: &str,
    older: bool,
)
    requires
        call_ensures(Tester::oldest_busy_version, (tester,), r),
        tester@.contains_key(busy@),
        r matches Some(oldest) ==> call_ensures(str_lt, (busy, oldest), older),
    ensures
        r matches Some(oldest) && tester@.contains_key(oldest@) && !older,
{
}

/// Versions are removed up to the point that was drawn, or up to the oldest version that a task
/// reads at if that comes before it: so no version that a task reads at comes before the point.
/// What is removed are the versions before the point, in order, but never the latest.
pub proof fn truncation_stops_at_the_oldest_busy_version(
    tester: &Tester,
    versions: &[String],
    split_point: usize,
    r: Truncation,
)
    requires
        tester.wf(),
        split_point + 1 < versions@.len(),
        call_ensures(Tester::plan_truncation, (tester, versions, split_point), r),
    ensures
        ({
            let point = r.remove_point@;
            let drawn = versions@[split_point as int]@;
            &&& point == drawn || (tester@.contains_key(point) && crate::order::text_lt(
                point,
                drawn,
            ))
            &&& forall|busy: Seq<char>| #[trigger]
                tester@.contains_key(busy) ==> !crate::order::text_lt(busy, point)
            &&& r.removals@.map_values(|s: String| s@) == versions@.map_values(
                |s: String| s@,
            ).drop_last().filter(|v: Seq<char>| crate::order::text_lt(v, point))
        }),
{
    let n: int = versions@.len() - 1;
    let point = r.remove_point@;
    let all = versions@.map_values(|s: String| s@);
    assert(texts(versions@) =~= all);
    assert(texts(r.removals@) =~= r.removals@.map_values(|s: String| s@));
    assert(all.drop_last() =~= texts(versions@).take(n));
    let f = |v: Seq<char>| crate::order::text_lt(v, point);
    lemma_older_in_order(texts(versions@), point, n, f);
}

proof fn lemma_older_in_order(
    versions: Seq<Seq<char>>,
    point: Seq<char>,
    n: int,
    older: spec_fn(Seq<char>) -> bool,
)
    requires
        0 <= n <= versions.len(),
        forall|v: Seq<char>| #[trigger] older(v) == crate::order::text_lt(v, point),
    ensures
        older_versions(versions, point, n) == versions.take(n).filter(older),
    decreases n,
{
    reveal(Seq::filter);
    if n > 0 {
        lemma_older_in_order(versions, point, n - 1, older);
        assert(versions.take(n).drop_last() =~= versions.take(n - 1));
        assert(older(versions[n - 1]) == crate::order::text_lt(versions[n - 1], point));
    } else {
        assert(older_versions(versions, point, n) =~= versions.take(n).filter(older));
    }
}

/// Versions are removed exactly if there is more than the latest, up to a point at or before one
/// of those before the latest, and never beyond a version that a task reads at.
pub proof fn drawn_truncation_spares_busy_versions(
    tester: &Tester,
    versions: &[String],
    r: Option<Truncation>,
)
    requires
        tester.wf(),
        call_ensures(Tester::draw_truncation, (tester, versions), r),
    ensures
        r is None <==> versions@.len() <= 1,
        r matches Some(truncation) ==> {
            let point = truncation.remove_point@;
            &&& tester@.contains_key(point) || exists|i: int|
                0 <= i < versions@.len() - 1 && point == (#[trigger] versions@[i])@
            &&& forall|busy: Seq<char>| #[trigger]
                tester@.contains_key(busy) ==> !crate::order::text_lt(busy, point)
            &&& truncation.removals@.map_values(|s: String| s@) == versions@.map_values(
                |s: String| s@,
            ).drop_last().filter(|v: Seq<char>| crate::order::text_lt(v, point))
        },
{
    if r is Some {
        let truncation = r->0;
        let n: int = versions@.len() - 1;
        let point = truncation.remove_point@;
        let split: int = choose|split: int|
            {
                &&& 0 <= split < versions@.len() - 1
                &&& is_remove_point(point, tester@, (#[trigger] versions@[split])@)
            };
        assert(is_remove_point(point, tester@, versions@[split]@));
        let all = versions@.map_values(|s: String| s@);
        assert(texts(versions@) =~= all);
        assert(texts(truncation.removals@) =~= truncation.removals@.map_values(|s: String| s@));
        assert(all.drop_last() =~= texts(versions@).take(n));
        let f = |v: Seq<char>| crate::order::text_lt(v, point);
        lemma_older_in_order(texts(versions@), point, n, f);
    }
}

/// The versions that are left are those that were not removed, in the same order.
pub proof fn versions_left_are_those_not_removed(
    version_list: &[String],
    removals: &Vec<String>,
    r: Vec<String>,
)
    requires
        call_ensures(retain_versions, (version_list, removals), r),
    ensures
        ({
            let removed = removals@.map_values(|s: String| s@);
            r@.map_values(|s: String| s@) == version_list@.map_values(|s: String| s@).filter(
                |v: Seq<char>| !removed.contains(v),
            )
        }),
{
    let n: int = version_list@.len() as int;
    let removed = removals@.map_values(|s: String| s@);
    let all = version_list@.map_values(|s: String| s@);
    assert(texts(removals@) =~= removed);
    assert(texts(version_list@) =~= all);
    assert(texts(r@) =~= r@.map_values(|s: String| s@));
    assert(all.take(n) =~= all);
    let f = |v: Seq<char>| !removed.contains(v);
    lemma_kept_in_order(all, removed, n, f);
}

proof fn lemma_kept_in_order(
    versions: Seq<Seq<char>>,
    removals: Seq<Seq<char>>,
    n: int,
    kept: spec_fn(Seq<char>) -> bool,
)
    requires
        0 <= n <= versions.len(),
        forall|v: Seq<char>| #[trigger] kept(v) == !removals.contains(v),
    ensures
        kept_versions(versions, removals, n) == versions.take(n).filter(kept),
    decreases n,
{
    reveal(Seq::filter);
    if n > 0 {
        lemma_kept_in_order(versions, removals, n - 1, kept);
        assert(versions.take(n).drop_last() =~= versions.take(n - 1));
        assert(kept(versions[n - 1]) == !removals.contains(versions[n - 1]));
    } else {
        assert(kept_versions(versions, removals, n) =~= versions.take(n).filter(kept));
    }
}

/// Of eleven draws six stand for reading, two for writing, and one each for a commit, for giving
/// the transaction up, and for a pause. Of the throws of a coin the first one is heads.
pub proof fn draws_stand_for_modes(draw: u64, r: TaskMode, throw: u64, heads: bool)
    requires
        draw < 11,
        call_ensures(task_mode, (draw,), r),
        call_ensures(is_heads, (throw,), heads),
    ensures
        r == TaskMode::Read <==> draw < 6,
        r == TaskMode::Write <==> draw == 6 || draw == 7,
        r == TaskMode::Commit <==> draw == 8,
        r == TaskMode::Abandon <==> draw == 9,
        r == TaskMode::Sleep <==> draw == 10,
        heads <==> throw == 0,
{
}

/// A content of which a part is replaced stays as long as it was; it has the new bytes where the
/// part lies, and its old ones everywhere else.
pub proof fn patch_replaces_only_its_part(
    last: &Vec<u8>,
    start: usize,
    patch: &Vec<u8>,
    r: Vec<u8>,
)
    requires
        start + patch@.len() <= last@.len(),
        call_ensures(patch_content, (last, start, patch), r),
    ensures
        r@.len() == last@.len(),
        forall|i: int|
            0 <= i < r@.len() ==> #[trigger] r@[i] == if start <= i < start + patch@.len() {
                patch@[i - start]
            } else {
                last@[i]
            },
{
}

/// The next content of a page is a fresh one, unless one was kept and a part was drawn: then it
/// is the one that was kept, with that part replaced.
pub proof fn next_content_is_fresh_or_patched(
    last: &Option<Vec<u8>>,
    patch: Option<(usize, Vec<u8>)>,
    fresh: Vec<u8>,
    r: Vec<u8>,
    patched: Vec<u8>,
)
    requires
        call_ensures(next_content, (last, patch, fresh), r),
        *last is Some && patch is Some ==> call_ensures(
            patch_content,
            (&(last->0), (patch->0).0, &(patch->0).1),
            patched,
        ),
    ensures
        *last is Some && patch is Some ==> r@ == patched@,
        *last is None || patch is None ==> r@ == fresh@,
{
}

/// The writes of a step are made one after the other, each to the page that was drawn for it.
/// `kept[i]` is what the task has kept of each page before write `i`: a write goes by that, and
/// its content is what is kept of its page from then on exactly if it is to be kept.
pub proof fn writes_are_made_in_turn(
    last_writes: &mut Vec<Option<Vec<u8>>>,
    draws: Vec<WriteDraw>,
    r: Vec<(u32, Vec<u8>)>,
)
    requires
        old(last_writes)@.len() <= u32::MAX,
        forall|i: int|
            0 <= i < draws@.len() ==> (#[trigger] draws@[i]).page < old(last_writes)@.len(),
        call_ensures(make_writes, (last_writes, draws), r),
    ensures
        r@.len() == draws@.len(),
        final(last_writes)@.len() == old(last_writes)@.len(),
        exists|kept: Seq<Seq<Option<Seq<u8>>>>|
            {
                let bytes = |content: Option<Vec<u8>>|
                    match content {
                        Some(content) => Some(content@),
                        None => None,
                    };
                &&& #[trigger] kept.len() == draws@.len() + 1
                &&& kept[0] == old(last_writes)@.map_values(bytes)
                &&& kept.last() == final(last_writes)@.map_values(bytes)
                &&& forall|i: int|
                    0 <= i < draws@.len() ==> {
                        let (page, content) = #[trigger] r@[i];
                        let had = kept[i][page as int];
                        &&& page == draws@[i].page
                        &&& content@ == match (had, draws@[i].patch) {
                            (Some(had), Some((start, patch))) => had.subrange(0, start as int)
                                + patch@ + had.subrange(
                                start + patch@.len(),
                                had.len() as int,
                            ),
                            _ => draws@[i].fresh@,
                        }
                        &&& kept[i + 1] == if draws@[i].keep {
                            kept[i].update(page as int, Some(content@))
                        } else {
                            kept[i]
                        }
                    }
            },
{
    let n: int = draws@.len() as int;
    let before = all_kept(old(last_writes)@);
    let bytes = |content: Option<Vec<u8>>|
        match content {
            Some(content) => Some(content@),
            None => None,
        };
    let kept = Seq::new((n + 1) as nat, |i: int| kept_after(before, draws@, i));
    lemma_drawn_writes(before, draws@, n);
    assert(write_bytes(r@).len() == n);
    assert(kept.len() == n + 1);
    assert(kept[0] =~= old(last_writes)@.map_values(bytes));
    assert(kept.last() =~= final(last_writes)@.map_values(bytes)) by {
        assert(all_kept(final(last_writes)@) =~= final(last_writes)@.map_values(bytes));
    }
    assert forall|i: int| 0 <= i < n implies {
        let (page, content) = #[trigger] r@[i];
        let had = kept[i][page as int];
        &&& page == draws@[i].page
        &&& content@ == match (had, draws@[i].patch) {
            (Some(had), Some((start, patch))) => had.subrange(0, start as int) + patch@
                + had.subrange(start + patch@.len(), had.len() as int),
            _ => draws@[i].fresh@,
        }
        &&& kept[i + 1] == if draws@[i].keep {
            kept[i].update(page as int, Some(content@))
        } else {
            kept[i]
        }
    } by {
        assert(write_bytes(r@)[i] == (r@[i].0, r@[i].1@));
        assert(drawn_writes(before, draws@, n)[i] == (
            draws@[i].page,
            content_after(
                kept_after(before, draws@, i)[draws@[i].page as int],
                draws@[i].patch,
                draws@[i].fresh@,
            ),
        ));
    }
}

proof fn lemma_drawn_writes(kept: Seq<Option<Seq<u8>>>, draws: Seq<WriteDraw>, n: int)
    requires
        0 <= n <= draws.len(),
    ensures
        drawn_writes(kept, draws, n).len() == n,
        forall|i: int|
            0 <= i < n ==> #[trigger] drawn_writes(kept, draws, n)[i] == (
                draws[i].page,
                content_after(
                    kept_after(kept, draws, i)[draws[i].page as int],
                    draws[i].patch,
                    draws[i].fresh@,
                ),
            ),
    decreases n,
{
    if n > 0 {
        lemma_drawn_writes(kept, draws, n - 1);
        let before = drawn_writes(kept, draws, n - 1);
        let after = drawn_writes(kept, draws, n);
        assert forall|i: int| 0 <= i < n implies #[trigger] after[i] == (
            draws[i].page,
            content_after(
                kept_after(kept, draws, i)[draws[i].page as int],
                draws[i].patch,
                draws[i].fresh@,
            ),
        ) by {
            if i < n - 1 {
                assert(after[i] == before[i]);
            }
        }
    }
}

/// Pages that are read are all noted, and no others, if the transaction keeps track of its reads;
/// otherwise nothing is. Nothing else about the transaction changes.
pub proof fn read_pages_are_noted(txn: &mut Transaction, reads: &[u32])
    requires
        call_ensures(mark_reads, (txn, reads), ()),
    ensures
        final(txn)@.read_set is Some <==> old(txn)@.read_set is Some,
        old(txn)@.read_set is Some ==> forall|page: u32| #[trigger]
            final(txn)@.read_set->0.contains(page) <==> old(txn)@.read_set->0.contains(page)
                || reads@.contains(page),
        final(txn)@ == (crate::transaction::TransactionView {
            read_set: final(txn)@.read_set,
            ..old(txn)@
        }),
{
    if old(txn)@.read_set is Some {
        assert forall|page: u32| #[trigger]
            final(txn)@.read_set->0.contains(page) <==> old(txn)@.read_set->0.contains(page)
            || reads@.contains(page) by {
            assert(reads@.to_set().contains(page) <==> reads@.contains(page));
        }
    }
}

/// A task reads all pages that were drawn, in order; only where tasks keep from reading their own
/// writes it leaves out those that it has written.
pub proof fn only_own_writes_are_left_out(
    tester: &Tester,
    txn: &Transaction,
    drawn: &[u32],
    r: Vec<u32>,
)
    requires
        call_ensures(Tester::select_reads, (tester, txn, drawn), r),
    ensures
        r@ == drawn@.filter(
            |page: u32| !(tester.settings().disable_ryw && txn@.pages.contains_key(page)),
        ),
{
    let n: int = drawn@.len() as int;
    let f = |page: u32| !(tester.settings().disable_ryw && txn@.pages.contains_key(page));
    assert(drawn@.take(n) =~= drawn@);
    lemma_readable_in_order(tester.settings(), txn@.pages, drawn@, n, f);
}

proof fn lemma_readable_in_order(
    config: TesterConfig,
    pages: Map<u32, Seq<u8>>,
    drawn: Seq<u32>,
    n: int,
    readable: spec_fn(u32) -> bool,
)
    requires
        0 <= n <= drawn.len(),
        forall|page: u32| #[trigger]
            readable(page) == !(config.disable_ryw && pages.contains_key(page)),
    ensures
        readable_pages(config, pages, drawn, n) == drawn.take(n).filter(readable),
    decreases n,
{
    reveal(Seq::filter);
    if n > 0 {
        lemma_readable_in_order(config, pages, drawn, n - 1, readable);
        assert(drawn.take(n).drop_last() =~= drawn.take(n - 1));
        assert(readable(drawn[n - 1]) == may_read(config, pages, drawn[n - 1]));
    } else {
        assert(readable_pages(config, pages, drawn, n) =~= drawn.take(n).filter(readable));
    }
}

/// A step of a task, given what was drawn. A task without steps left is finished, and nothing
/// changes; otherwise one step is used up. A step that reads reads the pages drawn, but for its
/// own writes where these are left out, and notes them as read; without such a page it does
/// nothing. One that writes makes a write for each one drawn. Any other touches neither the
/// transaction nor what was kept.
pub proof fn step_does_what_was_drawn(
    tester: &Tester,
    task: &mut TaskState,
    txn: &mut Transaction,
    draws: TaskDraws,
    r: TaskAction,
)
    requires
        draws.mode < 11,
        call_ensures(Tester::task_with, (tester, task, txn, draws), r),
    ensures
        ({
            let config = tester.settings();
            let reads = draws.pages@.filter(
                |page: u32| !(config.disable_ryw && old(txn)@.pages.contains_key(page)),
            );
            let active = old(task).iterations_left > 0;
            &&& old(task).iterations_left - final(task).iterations_left == if active {
                1int
            } else {
                0
            }
            &&& final(task).held == old(task).held
            &&& r is Finished <==> !active
            &&& r is NoPages <==> active && draws.mode < 8 && config.num_pages == 0
            &&& r is Skip <==> active && draws.mode < 6 && config.num_pages > 0 && reads.len() == 0
            &&& r is Read <==> active && draws.mode < 6 && config.num_pages > 0 && reads.len() > 0
            &&& r is Write <==> active && 6 <= draws.mode < 8 && config.num_pages > 0
            &&& r is Commit <==> active && draws.mode == 8
            &&& r is Abandon <==> active && draws.mode == 9
            &&& r is Sleep <==> active && draws.mode == 10
            &&& r matches TaskAction::Sleep(millis) ==> millis == draws.pause
            &&& r matches TaskAction::Read(pages) ==> {
                &&& pages@ == reads
                &&& final(txn)@.read_set is Some <==> old(txn)@.read_set is Some
                &&& old(txn)@.read_set is Some ==> forall|page: u32| #[trigger]
                    final(txn)@.read_set->0.contains(page)
                        <==> old(txn)@.read_set->0.contains(page) || reads.contains(page)
                &&& final(txn)@ == (crate::transaction::TransactionView {
                    read_set: final(txn)@.read_set,
                    ..old(txn)@
                })
            }
            &&& !(r is Read) ==> final(txn)@ == old(txn)@
            &&& !(r is Write) ==> {
                &&& final(task).last_writes@.len() == old(task).last_writes@.len()
                &&& forall|p: int|
                    0 <= p < old(task).last_writes@.len() ==> match (
                        old(task).last_writes@[p],
                        #[trigger] final(task).last_writes@[p],
                    ) {
                        (Some(a), Some(b)) => a@ == b@,
                        (None, None) => true,
                        _ => false,
                    }
            }
            &&& r matches TaskAction::Write(writes) ==> {
                &&& writes@.len() == draws.writes@.len()
                &&& forall|i: int|
                    0 <= i < writes@.len() ==> (#[trigger] writes@[i]).0 == draws.writes@[i].page
            }
        }),
{
    let config = tester.settings();
    let f = |page: u32| !(config.disable_ryw && old(txn)@.pages.contains_key(page));
    let n: int = draws.pages@.len() as int;
    assert(draws.pages@.take(n) =~= draws.pages@);
    lemma_readable_in_order(config, old(txn)@.pages, draws.pages@, n, f);
    let reads = draws.pages@.filter(f);
    if r is Read && old(txn)@.read_set is Some {
        assert forall|page: u32| #[trigger]
            final(txn)@.read_set->0.contains(page) <==> old(txn)@.read_set->0.contains(page)
            || reads.contains(page) by {
            assert(reads.to_set().contains(page) <==> reads.contains(page));
        }
    }
    if r is Write {
        let writes = r->Write_0;
        let kept = all_kept(old(task).last_writes@);
        lemma_drawn_writes(kept, draws.writes@, draws.writes@.len() as int);
        assert(write_bytes(writes@).len() == writes@.len());
        assert forall|i: int| 0 <= i < writes@.len() implies (#[trigger] writes@[i]).0
            == draws.writes@[i].page by {
            assert(write_bytes(writes@)[i] == (writes@[i].0, writes@[i].1@));
        }
    } else {
        let (a, b) = (all_kept(old(task).last_writes@), all_kept(final(task).last_writes@));
        assert(a.len() == old(task).last_writes@.len());
        assert(b.len() == final(task).last_writes@.len());
        assert forall|p: int| 0 <= p < old(task).last_writes@.len() implies match (
            old(task).last_writes@[p],
            #[trigger] final(task).last_writes@[p],
        ) {
            (Some(x), Some(y)) => x@ == y@,
            (None, None) => true,
            _ => false,
        } by {
            assert(a[p] == b[p]);
            assert(a[p] == kept_bytes(old(task).last_writes@[p]));
            assert(b[p] == kept_bytes(final(task).last_writes@[p]));
        }
    }
}

/// Where nothing was kept of a page, or no part of it was drawn, a task writes the fresh page; and
/// where a part was drawn of the one that was kept, the first write of a step has the new bytes in
/// that part and the old ones everywhere else. What the task keeps of a page that no write of the
/// step is to keep stays.
pub proof fn first_write_goes_by_what_was_kept(
    tester: &Tester,
    task: &mut TaskState,
    txn: &mut Transaction,
    draws: TaskDraws,
    r: TaskAction,
)
    requires
        old(task).wf(tester.settings().num_pages),
        forall|i: int|
            0 <= i < draws.writes@.len() ==> (#[trigger] draws.writes@[i]).wf(
                tester.settings().num_pages,
            ),
        call_ensures(Tester::task_with, (tester, task, txn, draws), r),
    ensures
        r matches TaskAction::Write(writes) ==> {
            &&& forall|i: int|
                0 <= i < writes@.len() && draws.writes@[i].patch is None ==> (
                #[trigger] writes@[i]).1@ == draws.writes@[i].fresh@
            &&& writes@.len() > 0 ==> {
                let draw = draws.writes@[0];
                let had = old(task).last_writes@[draw.page as int];
                &&& had is None || draw.patch is None ==> writes@[0].1@ == draw.fresh@
                &&& had is Some && draw.patch is Some ==> forall|k: int|
                    0 <= k < had->0@.len() ==> #[trigger] writes@[0].1@[k] == {
                        let (start, patch) = draw.patch->0;
                        if start <= k < start + patch@.len() {
                            patch@[k - start]
                        } else {
                            had->0@[k]
                        }
                    }
            }
            &&& final(task).last_writes@.len() == old(task).last_writes@.len()
            &&& forall|p: int|
                0 <= p < old(task).last_writes@.len() && (forall|i: int|
                    0 <= i < draws.writes@.len() ==> !((#[trigger] draws.writes@[i]).keep
                        && draws.writes@[i].page == p)) ==> match (
                    old(task).last_writes@[p],
                    #[trigger] final(task).last_writes@[p],
                ) {
                    (Some(a), Some(b)) => a@ == b@,
                    (None, None) => true,
                    _ => false,
                }
        },
{
    if r is Write {
        let writes = r->Write_0;
        let kept = all_kept(old(task).last_writes@);
        let n: int = draws.writes@.len() as int;
        lemma_drawn_writes(kept, draws.writes@, n);
        assert(write_bytes(writes@).len() == writes@.len());
        assert forall|i: int| 0 <= i < writes@.len() implies write_bytes(writes@)[i] == (
            (#[trigger] writes@[i]).0,
            writes@[i].1@,
        ) by {}
        assert forall|i: int|
            0 <= i < writes@.len() && draws.writes@[i].patch is None implies (
        #[trigger] writes@[i]).1@ == draws.writes@[i].fresh@ by {
            assert(write_bytes(writes@)[i] == (writes@[i].0, writes@[i].1@));
        }
        if n > 0 {
            let draw = draws.writes@[0];
            let had = old(task).last_writes@[draw.page as int];
            assert(draw.wf(tester.settings().num_pages));
            assert(write_bytes(writes@)[0] == (writes@[0].0, writes@[0].1@));
            assert(kept[draw.page as int] == kept_bytes(had));
        }
        lemma_unkept_pages_stay(kept, draws.writes@, n);
        let after = all_kept(final(task).last_writes@);
        assert(after.len() == final(task).last_writes@.len());
        assert forall|p: int|
            0 <= p < old(task).last_writes@.len() && (forall|i: int|
                0 <= i < draws.writes@.len() ==> !((#[trigger] draws.writes@[i]).keep
                    && draws.writes@[i].page == p)) implies match (
            old(task).last_writes@[p],
            #[trigger] final(task).last_writes@[p],
        ) {
            (Some(a), Some(b)) => a@ == b@,
            (None, None) => true,
            _ => false,
        } by {
            assert(kept[p] == kept_bytes(old(task).last_writes@[p]));
            assert(after[p] == kept_bytes(final(task).last_writes@[p]));
            assert(after[p] == kept[p]);
        }
    }
}

proof fn lemma_unkept_pages_stay(kept: Seq<Option<Seq<u8>>>, draws: Seq<WriteDraw>, n: int)
    requires
        0 <= n <= draws.len(),
        forall|i: int| 0 <= i < draws.len() ==> (#[trigger] draws[i]).page < kept.len(),
    ensures
        kept_after(kept, draws, n).len() == kept.len(),
        forall|p: int|
            0 <= p < kept.len() && (forall|i: int|
                0 <= i < n ==> !((#[trigger] draws[i]).keep && draws[i].page == p))
                ==> #[trigger] kept_after(kept, draws, n)[p] == kept[p],
    decreases n,
{
    if n > 0 {
        lemma_unkept_pages_stay(kept, draws, n - 1);
        let before = kept_after(kept, draws, n - 1);
        let after = kept_after(kept, draws, n);
        assert forall|p: int|
            0 <= p < kept.len() && (forall|i: int|
                0 <= i < n ==> !((#[trigger] draws[i]).keep && draws[i].page == p)) implies
            #[trigger] after[p] == kept[p] by {
            assert(!(draws[n - 1].keep && draws[n - 1].page == p));
            assert(before[p] == kept[p]);
        }
    }
}

/// A task that starts has all its steps left, has kept nothing of any page, and holds no version.
pub proof fn new_task_has_done_nothing(num_pages: u32, iterations: u64, r: TaskState)
    requires
        call_ensures(TaskState::new, (num_pages, iterations), r),
    ensures
        r.iterations_left == iterations,
        r.held is None,
        r.last_writes@.len() == num_pages,
        forall|i: int| 0 <= i < num_pages ==> #[trigger] r.last_writes@[i] is None,
{
}

/// Whatever is drawn for a step, a task reads and writes at most ten pages, all of which there
/// are, and waits for less than a tenth of a second; and what it does not do by itself it leaves
/// as it was.
pub proof fn random_step_stays_in_bounds(
    tester: &Tester,
    task: &mut TaskState,
    txn: &mut Transaction,
    r: TaskAction,
    draws: TaskDraws,
)
    requires
        old(task).wf(tester.settings().num_pages),
        call_ensures(Tester::task, (tester, task, txn), r),
        call_ensures(Tester::draw_task, (tester,), draws),
    ensures
        draws.mode < 11,
        old(task).iterations_left == 0 <==> r is Finished,
        old(task).iterations_left > 0 ==> final(task).iterations_left == old(task).iterations_left
            - 1,
        final(task).held == old(task).held,
        r matches TaskAction::Read(reads) ==> {
            &&& 1 <= reads@.len() <= 10
            &&& forall|i: int|
                0 <= i < reads@.len() ==> {
                    &&& (#[trigger] reads@[i]) < tester.settings().num_pages
                    &&& !(tester.settings().disable_ryw && old(txn)@.pages.contains_key(reads@[i]))
                    &&& old(txn)@.read_set is Some ==> final(txn)@.read_set is Some
                        && final(txn)@.read_set->0.contains(reads@[i])
                }
        },
        r matches TaskAction::Write(writes) ==> {
            &&& 1 <= writes@.len() <= 10
            &&& forall|i: int|
                0 <= i < writes@.len() ==> {
                    &&& (#[trigger] writes@[i]).0 < tester.settings().num_pages
                    &&& writes@[i].1@.len() == 2048
                }
        },
        r matches TaskAction::Sleep(millis) ==> 1 <= millis < 100,
        r is Skip ==> tester.settings().disable_ryw,
        r is NoPages ==> tester.settings().num_pages == 0,
        !(r is Read) ==> final(txn)@ == old(txn)@,
{
    let config = tester.settings();
    let drawn = choose|drawn: TaskDraws|
        {
            &&& may_be_drawn(drawn, config.num_pages)
            &&& #[trigger] task_step(
                config,
                *old(task),
                old(txn)@,
                drawn,
                *final(task),
                final(txn)@,
                r,
            )
        };
    task_actions_stay_in_bounds(
        config,
        *old(task),
        old(txn)@,
        drawn,
        *final(task),
        final(txn)@,
        r,
    );
    if r is Read {
        let reads = r->Read_0;
        assert forall|i: int| 0 <= i < reads@.len() implies {
            &&& (#[trigger] reads@[i]) < config.num_pages
            &&& !(config.disable_ryw && old(txn)@.pages.contains_key(reads@[i]))
            &&& old(txn)@.read_set is Some ==> final(txn)@.read_set is Some
                && final(txn)@.read_set->0.contains(reads@[i])
        } by {
            assert(may_read(config, old(txn)@.pages, reads@[i]));
            assert(reads@.to_set().contains(reads@[i]));
        }
    }
}

/// A task that begins a transaction at a version holds that version, which is then busy for one
/// task more. When the transaction ends, the task holds none, and the versions are busy as before.
pub proof fn task_holds_its_version_while_it_reads(
    begun: (&mut Tester, &mut TaskState),
    version: &str,
    ended: (&mut Tester, &mut TaskState),
    other: Seq<char>,
)
    requires
        old(begun.0).wf(),
        old(begun.0)@.contains_key(version@) ==> old(begun.0)@[version@] < u64::MAX,
        call_ensures(Tester::begin_transaction, (begun.0, begun.1, version), ()),
        *old(ended.0) == *final(begun.0),
        *old(ended.1) == *final(begun.1),
        call_ensures(Tester::end_transaction, (ended.0, ended.1), ()),
    ensures
        final(begun.1).held matches Some(held) && held@ == version@,
        final(begun.0)@.contains_key(version@),
        final(begun.0)@[version@] == if old(begun.0)@.contains_key(version@) {
            old(begun.0)@[version@] + 1
        } else {
            1
        },
        other != version@ ==> {
            &&& final(begun.0)@.contains_key(other) <==> old(begun.0)@.contains_key(other)
            &&& old(begun.0)@.contains_key(other) ==> final(begun.0)@[other] == old(begun.0)@[other]
        },
        final(begun.1).iterations_left == old(begun.1).iterations_left,
        final(begun.1).last_writes@ == old(begun.1).last_writes@,
        final(ended.1).held is None,
        final(ended.0)@ == old(begun.0)@,
        final(ended.1).iterations_left == old(begun.1).iterations_left,
        final(ended.1).last_writes@ == old(begun.1).last_writes@,
{
    busy_versions_have_holders(*old(begun.0));
    release_undoes_acquire(old(begun.0)@, version@);
}

/// A transaction ends exactly if the task goes on with another one: after a commit, and when it is
/// renewed. The version that the task held is then let go as by the end of the transaction, and
/// otherwise it is still held.
pub proof fn transaction_ends_only_for_another_one<E>(
    settled: (&mut Tester, &mut TaskState),
    next: &TaskFollowUp<E>,
    r: bool,
    ended: (&mut Tester, &mut TaskState),
)
    requires
        call_ensures(Tester::settle_transaction::<E>, (settled.0, settled.1, next), r),
        *old(ended.0) == *old(settled.0),
        *old(ended.1) == *old(settled.1),
        call_ensures(Tester::end_transaction, (ended.0, ended.1), ()),
    ensures
        r <==> *next is RecordCommit || *next is Renew,
        r ==> final(settled.0)@ == final(ended.0)@ && final(settled.1).held is None,
        !r ==> final(settled.0)@ == old(settled.0)@ && final(settled.1).held == old(settled.1).held,
        final(settled.1).iterations_left == old(settled.1).iterations_left,
        final(settled.1).last_writes@ == old(settled.1).last_writes@,
{
}

/// How a task goes on after a read: with the same transaction and the pages, if it succeeded; with
/// another transaction, if the failure may go away; and not at all otherwise.
pub proof fn failed_read_costs_the_transaction<T, E>(
    tester: &Tester,
    result: Result<T, E>,
    causes: &[ErrorCause],
    retryable: bool,
    r: (Option<T>, TaskFollowUp<E>),
)
    requires
        call_ensures(Tester::after_read::<T, E>, (tester, result, causes), r),
        call_ensures(is_retryable, (causes,), retryable),
    ensures
        r.1 is Continue <==> result is Ok,
        r.0 is Some <==> result is Ok,
        result matches Ok(pages) ==> r.0 == Some(pages),
        r.1 is Renew <==> result is Err && retryable,
        result is Err && !retryable ==> r.1 == TaskFollowUp::Fail(result->Err_0),
{
}

/// How a task goes on after a commit: with another transaction, which is recorded at the version
/// of the commit exactly if it went through; and not at all if it failed, unless it was refused for
/// a reference to a removed page and the test permits that.
pub proof fn commit_is_recorded_at_its_version<E>(
    tester: &Tester,
    result: Result<CommitOutput, CommitFailure<E>>,
    r: TaskFollowUp<CommitFailure<E>>,
)
    requires
        call_ensures(Tester::after_commit::<E>, (tester, result), r),
    ensures
        r is RecordCommit <==> (result matches Ok(output) && output is Committed),
        result matches Ok(CommitOutput::Committed(info)) ==> r->RecordCommit_0@ == info.version@,
        r is Renew <==> {
            ||| result matches Ok(output) && !(output is Committed)
            ||| tester.settings().permit_bad_page_reference && (result matches Err(e)
                && e matches CommitFailure::Refused(refusal) && refusal is BadPageReference)
        },
        r matches TaskFollowUp::Fail(e) ==> result == Err::<CommitOutput, CommitFailure<E>>(e),
        !(r is Continue),
{
}

/// A transaction starts from the version picked exactly if it is to start from an old one, and
/// from the latest otherwise. It keeps track of its reads only if that was drawn and is not
/// switched off.
pub proof fn base_is_the_version_picked(
    tester: &Tester,
    from_old: bool,
    track_reads: bool,
    picked: Option<String>,
    r: (Option<String>, bool),
    drawn: (Option<String>, bool),
)
    requires
        call_ensures(Tester::choose_base, (tester, from_old, track_reads, picked), r),
        call_ensures(Tester::create_transaction_random_base, (tester, picked), drawn),
    ensures
        from_old ==> r.0 == picked,
        !from_old ==> r.0 is None,
        r.1 <==> track_reads && !tester.settings().disable_read_set,
        drawn.0 is None || drawn.0 == picked,
        tester.settings().disable_read_set ==> !drawn.1,
{
}

/// Old versions are removed within a second, and what nobody needs within five, but never at once.
pub proof fn workers_pause(truncate: u64, sweep: u64)
    requires
        call_ensures(truncate_pause, (), truncate),
        call_ensures(sweep_pause, (), sweep),
    ensures
        1 <= truncate < 1000,
        1 <= sweep < 5000,
{
}

/// The writes of a step, and what the task keeps after it, are those that are made of what was
/// drawn and of what the task had kept.
pub proof fn step_makes_the_writes_drawn(
    tester: &Tester,
    task: &mut TaskState,
    txn: &mut Transaction,
    draws: TaskDraws,
    r: TaskAction,
    last_writes: &mut Vec<Option<Vec<u8>>>,
    made: Vec<(u32, Vec<u8>)>,
)
    requires
        call_ensures(Tester::task_with, (tester, task, txn, draws), r),
        old(last_writes)@ == old(task).last_writes@,
        call_ensures(make_writes, (last_writes, draws.writes), made),
    ensures
        r matches TaskAction::Write(writes) ==> {
            &&& writes@.len() == made@.len()
            &&& forall|i: int|
                0 <= i < writes@.len() ==> {
                    &&& (#[trigger] writes@[i]).0 == made@[i].0
                    &&& writes@[i].1@ == made@[i].1@
                }
            &&& final(task).last_writes@.len() == final(last_writes)@.len()
            &&& forall|p: int|
                0 <= p < final(last_writes)@.len() ==> match (
                    #[trigger] final(task).last_writes@[p],
                    final(last_writes)@[p],
                ) {
                    (Some(a), Some(b)) => a@ == b@,
                    (None, None) => true,
                    _ => false,
                }
        },
{
    if r is Write {
        let writes = r->Write_0;
        let (x, y) = (write_bytes(writes@), write_bytes(made@));
        assert(x == y);
        assert(x.len() == writes@.len() && y.len() == made@.len());
        assert forall|i: int| 0 <= i < writes@.len() implies {
            &&& (#[trigger] writes@[i]).0 == made@[i].0
            &&& writes@[i].1@ == made@[i].1@
        } by {
            assert(x[i] == y[i]);
        }
        let (a, b) = (all_kept(final(task).last_writes@), all_kept(final(last_writes)@));
        assert(a == b);
        assert(a.len() == final(task).last_writes@.len() && b.len() == final(last_writes)@.len());
        assert forall|p: int| 0 <= p < final(last_writes)@.len() implies match (
            #[trigger] final(task).last_writes@[p],
            final(last_writes)@[p],
        ) {
            (Some(s), Some(t)) => s@ == t@,
            (None, None) => true,
            _ => false,
        } by {
            assert(a[p] == kept_bytes(final(task).last_writes@[p]));
            assert(b[p] == kept_bytes(final(last_writes)@[p]));
        }
    }
}

} // verus!
