//! Which pages have recently caused commit conflicts, and how long to hold a commit back
//! on their account.

use std::collections::HashMap;
use std::time::Instant;

use vstd::prelude::*;

use crate::outside::{clock_start, nanos_since, random_below};

verus! {

broadcast use vstd::std_specs::hash::group_hash_axioms;

/// How long a conflict keeps a page hot, in nanoseconds.
pub const TEMPERATURE_TTL_NANOS: u128 = 5_000_000_000;

/// The tracker starts over when it holds more pages than this.
pub const MAX_TRACKED_PAGES: usize = 10_000;

/// The longest delay, in milliseconds.
pub const MAX_BACKOFF_MILLIS: u64 = 20;

/// The heat at which the delay stops growing.
pub const MAX_HEAT: u32 = 20;

/// The heat at which a page stops getting hotter.
pub const HEAT_LIMIT: u32 = 100;

/// Jitter is counted in parts of this: a delay is multiplied by `jitter / JITTER_ONE`.
pub const JITTER_ONE: u64 = 0x20_0000_0000_0000;

/// The least jitter, one half.
pub const JITTER_HALF: u64 = 0x10_0000_0000_0000;

/// Local, in-memory, best-effort tracker of which pages recently caused commit conflicts
/// for this client process.
///
/// It is never shared between clients and never stored, so it cannot become a point of
/// contention itself.
pub struct PageTemperatureTracker {
    /// For each page, its heat and when it last conflicted, in nanoseconds since `start`.
    inner: HashMap<u32, (u32, u128)>,
    start: Instant,
}

impl View for PageTemperatureTracker {
    type V = Map<u32, (u32, u128)>;

    closed spec fn view(&self) -> Map<u32, (u32, u128)> {
        self.inner@
    }
}

/// One conflict on `page` at `now` makes it one degree hotter, up to the limit.
pub open spec fn heat_page(
    m: Map<u32, (u32, u128)>,
    page: u32,
    now: u128,
) -> Map<u32, (u32, u128)> {
    let heat: int = if m.contains_key(page) {
        m[page].0 + 1
    } else {
        1
    };
    m.insert(
        page,
        (
            if heat < HEAT_LIMIT {
                heat as u32
            } else {
                HEAT_LIMIT
            },
            now,
        ),
    )
}

/// A conflict on the first `n` of `pages` at `now`.
pub open spec fn heat_pages(
    m: Map<u32, (u32, u128)>,
    pages: Seq<u32>,
    now: u128,
    n: int,
) -> Map<u32, (u32, u128)>
    decreases n,
{
    if n <= 0 {
        m
    } else {
        heat_page(heat_pages(m, pages, now, n - 1), pages[n - 1], now)
    }
}

/// What a tracker holds after a conflict on `pages` at `now`: nothing, if it would hold too
/// many pages.
pub open spec fn after_conflict(
    m: Map<u32, (u32, u128)>,
    pages: Seq<u32>,
    now: u128,
) -> Map<u32, (u32, u128)> {
    let heated = heat_pages(m, pages, now, pages.len() as int);
    if heated.len() > MAX_TRACKED_PAGES {
        Map::empty()
    } else {
        heated
    }
}

/// How hot `page` is at `now`: not at all, if its last conflict is too long ago.
pub open spec fn heat_at(m: Map<u32, (u32, u128)>, page: u32, now: u128) -> u32 {
    if m.contains_key(page) && now - m[page].1 < TEMPERATURE_TTL_NANOS {
        m[page].0
    } else {
        0
    }
}

/// The heat of the hottest of the first `n` of `pages` at `now`.
pub open spec fn hottest(m: Map<u32, (u32, u128)>, pages: Seq<u32>, now: u128, n: int) -> u32
    decreases n,
{
    if n <= 0 {
        0
    } else {
        let before = hottest(m, pages, now, n - 1);
        let heat = heat_at(m, pages[n - 1], now);
        if heat > before {
            heat
        } else {
            before
        }
    }
}

/// The delay for pages as hot as `max_heat` before it is jittered, in milliseconds: the
/// longest delay, scaled by the heat.
pub open spec fn base_millis(max_heat: u32) -> int {
    let heat: int = if max_heat < MAX_HEAT {
        max_heat as int
    } else {
        MAX_HEAT as int
    };
    (MAX_BACKOFF_MILLIS * heat) / (MAX_HEAT as int)
}

/// The delay for pages as hot as `max_heat`, in milliseconds, rounded down.
pub open spec fn backoff_millis_spec(max_heat: u32, jitter: u64) -> int {
    (base_millis(max_heat) * jitter) / (JITTER_ONE as int)
}

impl Default for PageTemperatureTracker {
    fn default() -> (r: Self)
        ensures
            r@ == Map::<u32, (u32, u128)>::empty(),
    {
        PageTemperatureTracker { inner: HashMap::new(), start: clock_start() }
    }
}

impl PageTemperatureTracker {
    /// The moment from which the tracker counts time.
    pub closed spec fn started(&self) -> Instant {
        self.start
    }

    /// Records that a commit which touched `pages` ran into a conflict just now.
    pub fn record_conflict(&mut self, pages: &[u32])
        ensures
            exists|now: u128| final(self)@ == #[trigger] after_conflict(old(self)@, pages@, now),
            final(self).started() == old(self).started(),
    {
        let now: u128 = nanos_since(&self.start);
        self.record_conflict_at(pages, now);
    }

    /// Records that a commit which touched `pages` ran into a conflict at `now`.
    pub fn record_conflict_at(&mut self, pages: &[u32], now: u128)
        ensures
            final(self)@ == after_conflict(old(self)@, pages@, now),
            final(self).started() == old(self).started(),
    {
        let mut i: usize = 0;
        while i < pages.len()
            invariant
                i <= pages.len(),
                self@ == heat_pages(old(self)@, pages@, now, i as int),
                self.start == old(self).start,
            decreases pages.len() - i,
        {
            let page: u32 = pages[i];
            let heat: u32 = match self.inner.get(&page) {
                Some(entry) => entry.0,
                None => 0,
            };
            let hotter: u32 = if heat < HEAT_LIMIT {
                heat + 1
            } else {
                HEAT_LIMIT
            };
            self.inner.insert(page, (hotter, now));
            i = i + 1;
        }
        if self.inner.len() > MAX_TRACKED_PAGES {
            // This is a heuristic, not a source of truth: losing it is safe.
            self.inner.clear();
        }
    }

    /// Records that a commit which touched `pages` went through: they are hot no more.
    pub fn record_success(&mut self, pages: &[u32])
        ensures
            final(self)@ == old(self)@.remove_keys(pages@.to_set()),
            final(self).started() == old(self).started(),
    {
        let mut i: usize = 0;
        assert(self@ =~= old(self)@.remove_keys(pages@.take(0).to_set()));
        while i < pages.len()
            invariant
                i <= pages.len(),
                self@ == old(self)@.remove_keys(pages@.take(i as int).to_set()),
                self.start == old(self).start,
            decreases pages.len() - i,
        {
            self.inner.remove(&pages[i]);
            proof {
                let before = pages@.take(i as int);
                let after = pages@.take(i as int + 1);
                assert(after =~= before.push(pages@[i as int]));
                assert(after.to_set() =~= before.to_set().insert(pages@[i as int])) by {
                    assert forall|p: u32| after.contains(p) <==> before.contains(p) || p
                        == pages@[i as int] by {
                        if before.contains(p) {
                            let k: int = choose|k: int| 0 <= k < before.len() && before[k] == p;
                            assert(after[k] == p);
                        }
                        if p == pages@[i as int] {
                            assert(after[i as int] == p);
                        }
                        if after.contains(p) && p != pages@[i as int] {
                            let k: int = choose|k: int| 0 <= k < after.len() && after[k] == p;
                            assert(before[k] == p);
                        }
                    }
                }
                assert(self@ =~= old(self)@.remove_keys(after.to_set()));
            }
            i = i + 1;
        }
        assert(pages@.take(pages@.len() as int) =~= pages@);
    }

    /// A small, jittered delay, in milliseconds, before a commit that is about to touch
    /// `pages`, the longer the hotter they are. It makes it less likely that many
    /// committers collide on the same pages at the same instant.
    pub fn suggested_backoff(&self, pages: &[u32]) -> (r: u64)
        ensures
            exists|now: u128, jitter: u64|
                {
                    &&& JITTER_HALF <= jitter < JITTER_ONE
                    &&& r == #[trigger] backoff_millis_spec(
                        #[trigger] hottest(self@, pages@, now, pages@.len() as int),
                        jitter,
                    )
                },
    {
        let now: u128 = nanos_since(&self.start);
        let max_heat: u32 = self.max_heat_at(pages, now);
        let jitter: u64 = random_below(JITTER_HALF, JITTER_ONE);
        backoff_millis(max_heat, jitter)
    }

    /// The heat of the hottest of `pages` at `now`.
    pub fn max_heat_at(&self, pages: &[u32], now: u128) -> (r: u32)
        ensures
            r == hottest(self@, pages@, now, pages@.len() as int),
    {
        let mut max_heat: u32 = 0;
        let mut i: usize = 0;
        while i < pages.len()
            invariant
                i <= pages.len(),
                max_heat == hottest(self@, pages@, now, i as int),
            decreases pages.len() - i,
        {
            match self.inner.get(&pages[i]) {
                Some(entry) => {
                    let age: u128 = if now < entry.1 {
                        0
                    } else {
                        now - entry.1
                    };
                    if age < TEMPERATURE_TTL_NANOS && entry.0 > max_heat {
                        max_heat = entry.0;
                    }
                },
                None => {},
            }
            i = i + 1;
        }
        max_heat
    }
}

/// The delay for pages as hot as `max_heat`, in milliseconds: the longest delay, scaled by
/// the heat and by the jitter.
pub fn backoff_millis(max_heat: u32, jitter: u64) -> (r: u64)
    requires
        jitter <= JITTER_ONE,
    ensures
        r == backoff_millis_spec(max_heat, jitter),
{
    let heat: u64 = if max_heat < MAX_HEAT {
        max_heat as u64
    } else {
        MAX_HEAT as u64
    };
    let base: u64 = (MAX_BACKOFF_MILLIS * heat) / MAX_HEAT as u64;
    assert(base <= 20) by (nonlinear_arith)
        requires
            base == (MAX_BACKOFF_MILLIS * heat) / (MAX_HEAT as int),
            MAX_BACKOFF_MILLIS == 20,
            MAX_HEAT == 20,
            heat <= 20,
    ;
    assert(base * jitter <= 20 * 0x20_0000_0000_0000) by (nonlinear_arith)
        requires
            base <= 20,
            jitter <= 0x20_0000_0000_0000,
    ;
    (base * jitter) / JITTER_ONE
}

/// The hottest page is one of the pages, no page is hotter, and where no page is hot the
/// heat is zero.
pub proof fn hottest_is_the_maximum(
    m: Map<u32, (u32, u128)>,
    pages: Seq<u32>,
    now: u128,
    n: int,
)
    requires
        0 <= n <= pages.len(),
    ensures
        forall|i: int|
            0 <= i < n ==> heat_at(m, #[trigger] pages[i], now) <= hottest(m, pages, now, n),
        hottest(m, pages, now, n) == 0 || exists|i: int|
            0 <= i < n && heat_at(m, #[trigger] pages[i], now) == hottest(m, pages, now, n),
    decreases n,
{
    if n > 0 {
        hottest_is_the_maximum(m, pages, now, n - 1);
        if hottest(m, pages, now, n) != 0 {
            if heat_at(m, pages[n - 1], now) > hottest(m, pages, now, n - 1) {
                assert(heat_at(m, pages[n - 1], now) == hottest(m, pages, now, n));
            } else {
                let i: int = choose|i: int|
                    0 <= i < n - 1 && heat_at(m, #[trigger] pages[i], now) == hottest(
                        m,
                        pages,
                        now,
                        n - 1,
                    );
                assert(heat_at(m, pages[i], now) == hottest(m, pages, now, n));
            }
        }
    }
}

/// A delay is zero where nothing is hot, and otherwise at least half of its unjittered
/// length, rounded down, and strictly less than that length, which is at most the maximum.
pub proof fn backoff_is_bounded(max_heat: u32, jitter: u64)
    requires
        JITTER_HALF <= jitter < JITTER_ONE,
    ensures
        max_heat == 0 ==> backoff_millis_spec(max_heat, jitter) == 0,
        0 < max_heat ==> base_millis(max_heat) / 2 <= backoff_millis_spec(max_heat, jitter)
            < base_millis(max_heat) <= MAX_BACKOFF_MILLIS,
{
    let base: int = base_millis(max_heat);
    let p: int = base * jitter;
    if max_heat == 0 {
        assert(p == 0) by (nonlinear_arith)
            requires
                p == base * jitter,
                base == 0,
        ;
    } else {
        assert(p < base * 0x20_0000_0000_0000) by (nonlinear_arith)
            requires
                p == base * jitter,
                0 < base,
                jitter < 0x20_0000_0000_0000,
        ;
        assert(p >= base * 0x10_0000_0000_0000) by (nonlinear_arith)
            requires
                p == base * jitter,
                0 < base,
                jitter >= 0x10_0000_0000_0000,
        ;
    }
}

/// Once a commit on some pages has gone through, these pages hold no later commit back.
pub proof fn success_cools_pages(m: Map<u32, (u32, u128)>, pages: Seq<u32>, now: u128, n: int)
    requires
        0 <= n <= pages.len(),
    ensures
        hottest(m.remove_keys(pages.to_set()), pages, now, n) == 0,
    decreases n,
{
    if n > 0 {
        success_cools_pages(m, pages, now, n - 1);
        assert(pages.contains(pages[n - 1]));
    }
}

/// No page is tracked beyond the limit of heat, and none without heat, if none was before.
pub proof fn heat_stays_in_bounds(m: Map<u32, (u32, u128)>, pages: Seq<u32>, now: u128, n: int)
    requires
        0 <= n <= pages.len(),
        forall|p: u32| #[trigger] m.contains_key(p) ==> 1 <= m[p].0 <= HEAT_LIMIT,
    ensures
        forall|p: u32| #[trigger]
            heat_pages(m, pages, now, n).contains_key(p) ==> 1 <= heat_pages(
                m,
                pages,
                now,
                n,
            )[p].0 <= HEAT_LIMIT,
    decreases n,
{
    if n > 0 {
        heat_stays_in_bounds(m, pages, now, n - 1);
        let before = heat_pages(m, pages, now, n - 1);
        assert forall|p: u32| #[trigger] heat_pages(m, pages, now, n).contains_key(p) implies 1
            <= heat_pages(m, pages, now, n)[p].0 <= HEAT_LIMIT by {
            assert(before.contains_key(p) || p == pages[n - 1]);
        }
    }
}

/// A tracker never holds more than the maximum number of pages after a conflict.
pub proof fn tracked_pages_are_bounded(m: Map<u32, (u32, u128)>, pages: Seq<u32>, now: u128)
    ensures
        after_conflict(m, pages, now).len() <= MAX_TRACKED_PAGES,
{
}

/// A conflict makes each of its pages as many degrees hotter as it is named, up to a hundred, and
/// renews the time of its last conflict; it touches no other page. A tracker that would then hold
/// more than ten thousand pages holds none.
pub proof fn conflict_heats_its_pages(
    tracker: &mut PageTemperatureTracker,
    pages: &[u32],
    now: u128,
)
    requires
        call_ensures(PageTemperatureTracker::record_conflict_at, (tracker, pages, now), ()),
    ensures
        ({
            let (before, after) = (old(tracker)@, final(tracker)@);
            let all = before.dom().union(pages@.to_set());
            let degrees = |page: u32| pages@.filter(|p: u32| p == page).len();
            &&& all.len() > 10_000 ==> after.dom() == Set::<u32>::empty()
            &&& all.len() <= 10_000 ==> forall|page: u32|
                {
                    &&& #[trigger] after.contains_key(page) <==> before.contains_key(page)
                        || pages@.contains(page)
                    &&& !pages@.contains(page) && before.contains_key(page) ==> after[page]
                        == before[page]
                    &&& pages@.contains(page) ==> {
                        let had: int = if before.contains_key(page) {
                            before[page].0 as int
                        } else {
                            0
                        };
                        let hotter: int = had + degrees(page);
                        &&& after[page].1 == now
                        &&& after[page].0 == if hotter < 100 {
                            hotter
                        } else {
                            100
                        }
                    }
                }
        }),
        final(tracker).started() == old(tracker).started(),
{
    let n: int = pages@.len() as int;
    let before = old(tracker)@;
    lemma_heated_pages(before, pages@, now, n);
    assert(pages@.take(n) =~= pages@);
    let heated = heat_pages(before, pages@, now, n);
    assert(heated.dom() =~= before.dom().union(pages@.to_set()));
    if n > 0 {
        assert(pages@.contains(pages@[0]));
        assert(heated.contains_key(pages@[0]));
    }
}

proof fn lemma_heated_pages(m: Map<u32, (u32, u128)>, pages: Seq<u32>, now: u128, n: int)
    requires
        0 <= n <= pages.len(),
    ensures
        forall|page: u32|
            #![trigger heat_pages(m, pages, now, n).contains_key(page)]
            {
                let heated = heat_pages(m, pages, now, n);
                let named = pages.take(n);
                &&& heated.contains_key(page) <==> m.contains_key(page)
                    || named.contains(page)
                &&& !named.contains(page) && m.contains_key(page) ==> heated[page] == m[page]
                &&& named.contains(page) ==> {
                    let had: int = if m.contains_key(page) {
                        m[page].0 as int
                    } else {
                        0
                    };
                    let hotter: int = had + named.filter(|p: u32| p == page).len();
                    &&& heated[page].1 == now
                    &&& heated[page].0 == if hotter < 100 {
                        hotter
                    } else {
                        100
                    }
                }
            },
    decreases n,
{
    reveal(Seq::filter);
    if n > 0 {
        lemma_heated_pages(m, pages, now, n - 1);
        let named = pages.take(n);
        let fewer = pages.take(n - 1);
        let last = pages[n - 1];
        let was = heat_pages(m, pages, now, n - 1);
        let heated = heat_pages(m, pages, now, n);
        assert(named.drop_last() =~= fewer);
        assert forall|page: u32|
            {
                &&& #[trigger] heated.contains_key(page) <==> m.contains_key(page)
                    || named.contains(page)
                &&& !named.contains(page) && m.contains_key(page) ==> heated[page] == m[page]
                &&& named.contains(page) ==> {
                    let had: int = if m.contains_key(page) {
                        m[page].0 as int
                    } else {
                        0
                    };
                    let hotter: int = had + named.filter(|p: u32| p == page).len();
                    &&& heated[page].1 == now
                    &&& heated[page].0 == if hotter < 100 {
                        hotter
                    } else {
                        100
                    }
                }
            } by {
            assert(was.contains_key(page) <==> m.contains_key(page) || fewer.contains(page));
            assert(named.contains(page) <==> fewer.contains(page) || page == last) by {
                if fewer.contains(page) {
                    let k: int = choose|k: int| 0 <= k < fewer.len() && fewer[k] == page;
                    assert(named[k] == page);
                }
                if page == last {
                    assert(named[n - 1] == page);
                }
                if named.contains(page) && page != last {
                    let k: int = choose|k: int| 0 <= k < named.len() && named[k] == page;
                    assert(fewer[k] == page);
                }
            }
            let f = |p: u32| p == page;
            assert(named.last() == last);
            assert(named.filter(f).len() == fewer.filter(f).len() + if page == last {
                1int
            } else {
                0
            });
            if !fewer.contains(page) {
                lemma_none_named(fewer, page, f);
            }
            let had: int = if m.contains_key(page) {
                m[page].0 as int
            } else {
                0
            };
            if fewer.contains(page) {
                let hot: int = had + fewer.filter(f).len();
                assert(was[page].0 == if hot < 100 {
                    hot
                } else {
                    100
                });
            }
            if named.contains(page) {
                let hotter: int = had + named.filter(f).len();
                assert(heated[page].1 == now);
                assert(heated[page].0 == if hotter < 100 {
                    hotter
                } else {
                    100
                });
            }
            assert(!named.contains(page) && m.contains_key(page) ==> heated[page] == m[page]);
        }
    } else {
        assert(heat_pages(m, pages, now, n) == m);
        assert(pages.take(n) =~= Seq::<u32>::empty());
    }
}

proof fn lemma_none_named(pages: Seq<u32>, page: u32, names: spec_fn(u32) -> bool)
    requires
        !pages.contains(page),
        forall|p: u32| #[trigger] names(p) <==> p == page,
    ensures
        pages.filter(names).len() == 0,
    decreases pages.len(),
{
    reveal(Seq::filter);
    if pages.len() > 0 {
        assert(pages[pages.len() - 1] != page);
        assert(!pages.drop_last().contains(page)) by {
            if pages.drop_last().contains(page) {
                let k: int = choose|k: int|
                    0 <= k < pages.drop_last().len() && pages.drop_last()[k] == page;
                assert(pages[k] == page);
            }
        }
        lemma_none_named(pages.drop_last(), page, names);
    }
}

/// A success takes its pages out of the tracker, and touches no other.
pub proof fn success_forgets_its_pages(tracker: &mut PageTemperatureTracker, pages: &[u32])
    requires
        call_ensures(PageTemperatureTracker::record_success, (tracker, pages), ()),
    ensures
        forall|page: u32|
            {
                &&& #[trigger] final(tracker)@.contains_key(page) <==> old(tracker)@.contains_key(
                    page,
                ) && !pages@.contains(page)
                &&& final(tracker)@.contains_key(page)
                    ==> final(tracker)@[page] == old(tracker)@[page]
            },
        final(tracker).started() == old(tracker).started(),
{
    assert forall|page: u32|
        {
            &&& #[trigger] final(tracker)@.contains_key(page) <==> old(tracker)@.contains_key(page)
                && !pages@.contains(page)
            &&& final(tracker)@.contains_key(page) ==> final(tracker)@[page] == old(tracker)@[page]
        } by {
        assert(pages@.to_set().contains(page) <==> pages@.contains(page));
    }
}

/// The heat of some pages is that of the hottest of those that had a conflict in the last five
/// seconds, and none where there is no such page.
pub proof fn hottest_recent_page_counts(
    tracker: &PageTemperatureTracker,
    pages: &[u32],
    now: u128,
    r: u32,
)
    requires
        call_ensures(PageTemperatureTracker::max_heat_at, (tracker, pages, now), r),
    ensures
        forall|i: int|
            #![trigger pages@[i]]
            0 <= i < pages@.len() && tracker@.contains_key(pages@[i]) && now - tracker@[pages@[i]].1
                < 5_000_000_000 ==> tracker@[pages@[i]].0 <= r,
        r > 0 ==> exists|i: int|
            #![trigger pages@[i]]
            {
                &&& 0 <= i < pages@.len()
                &&& tracker@.contains_key(pages@[i])
                &&& now - tracker@[pages@[i]].1 < 5_000_000_000
                &&& tracker@[pages@[i]].0 == r
            },
{
    let n: int = pages@.len() as int;
    hottest_is_the_maximum(tracker@, pages@, now, n);
    assert forall|i: int|
        #![trigger pages@[i]]
        0 <= i < n && tracker@.contains_key(pages@[i]) && now - tracker@[pages@[i]].1
            < 5_000_000_000 implies tracker@[pages@[i]].0 <= r by {
        assert(heat_at(tracker@, pages@[i], now) <= r);
    }
    if r > 0 {
        let i: int = choose|i: int|
            0 <= i < n && heat_at(tracker@, #[trigger] pages@[i], now) == hottest(
                tracker@,
                pages@,
                now,
                n,
            );
        assert(heat_at(tracker@, pages@[i], now) == r);
    }
}

/// A delay is one millisecond for each degree, up to twenty, scaled by the jitter and rounded
/// down. So it never shrinks as pages get hotter.
pub proof fn delay_grows_with_heat(heats: (u32, u32), jitter: u64, r: (u64, u64))
    requires
        jitter <= 0x20_0000_0000_0000,
        heats.0 <= heats.1,
        call_ensures(backoff_millis, (heats.0, jitter), r.0),
        call_ensures(backoff_millis, (heats.1, jitter), r.1),
    ensures
        ({
            let degrees: int = if heats.0 < 20 {
                heats.0 as int
            } else {
                20
            };
            r.0 * 0x20_0000_0000_0000 <= degrees * jitter < (r.0 + 1) * 0x20_0000_0000_0000
        }),
        r.0 <= r.1,
        r.1 <= 20,
{
    let a: int = base_millis(heats.0);
    let b: int = base_millis(heats.1);
    assert(a * jitter <= b * jitter) by (nonlinear_arith)
        requires
            a <= b,
            0 <= jitter,
    ;
    assert(b * jitter <= 20 * 0x20_0000_0000_0000) by (nonlinear_arith)
        requires
            b <= 20,
            0 <= b,
            jitter <= 0x20_0000_0000_0000,
    ;
}

/// Whatever the clock and the dice say, a commit is never held back for twenty milliseconds, and
/// not at all for pages that no conflict is known of.
pub proof fn unknown_pages_are_not_held_back(
    tracker: &PageTemperatureTracker,
    pages: &[u32],
    r: u64,
)
    requires
        call_ensures(PageTemperatureTracker::suggested_backoff, (tracker, pages), r),
    ensures
        r < 20,
        (forall|i: int| 0 <= i < pages@.len() ==> !tracker@.contains_key(#[trigger] pages@[i]))
            ==> r == 0,
{
    let n: int = pages@.len() as int;
    let (now, jitter) = choose|now: u128, jitter: u64|
        {
            &&& JITTER_HALF <= jitter < JITTER_ONE
            &&& r == #[trigger] backoff_millis_spec(
                #[trigger] hottest(tracker@, pages@, now, n),
                jitter,
            )
        };
    let heat = hottest(tracker@, pages@, now, n);
    backoff_is_bounded(heat, jitter);
    hottest_is_the_maximum(tracker@, pages@, now, n);
    if heat > 0 && (forall|i: int|
        0 <= i < n ==> !tracker@.contains_key(#[trigger] pages@[i])) {
        let i: int = choose|i: int|
            0 <= i < n && heat_at(tracker@, #[trigger] pages@[i], now) == heat;
        assert(!tracker@.contains_key(pages@[i]));
    }
}

/// A conflict that is recorded as it happens is a conflict at some moment: it heats its pages, and
/// it touches no other.
pub proof fn recorded_conflict_touches_only_its_pages(
    tracker: &mut PageTemperatureTracker,
    pages: &[u32],
)
    requires
        call_ensures(PageTemperatureTracker::record_conflict, (tracker, pages), ()),
    ensures
        ({
            let (before, after) = (old(tracker)@, final(tracker)@);
            let all = before.dom().union(pages@.to_set());
            let degrees = |page: u32| pages@.filter(|p: u32| p == page).len();
            &&& all.len() > 10_000 ==> after.dom() == Set::<u32>::empty()
            &&& all.len() <= 10_000 ==> forall|page: u32|
                {
                    &&& #[trigger] after.contains_key(page) <==> before.contains_key(page)
                        || pages@.contains(page)
                    &&& !pages@.contains(page) && before.contains_key(page) ==> after[page]
                        == before[page]
                    &&& pages@.contains(page) ==> {
                        let had: int = if before.contains_key(page) {
                            before[page].0 as int
                        } else {
                            0
                        };
                        let hotter: int = had + degrees(page);
                        &&& after[page].0 == if hotter < 100 {
                            hotter
                        } else {
                            100
                        }
                        &&& after[page].1 == after[pages@[0]].1
                    }
                }
        }),
        final(tracker).started() == old(tracker).started(),
{
    let n: int = pages@.len() as int;
    let before = old(tracker)@;
    let now = choose|now: u128| final(tracker)@ == #[trigger] after_conflict(before, pages@, now);
    lemma_heated_pages(before, pages@, now, n);
    assert(pages@.take(n) =~= pages@);
    let heated = heat_pages(before, pages@, now, n);
    assert(heated.dom() =~= before.dom().union(pages@.to_set()));
    if n > 0 {
        assert(pages@.contains(pages@[0]));
        assert(heated.contains_key(pages@[0]));
    }
}

/// A new tracker knows of no conflict.
pub proof fn new_tracker_knows_no_conflict(r: PageTemperatureTracker)
    requires
        call_ensures(PageTemperatureTracker::default, (), r),
    ensures
        forall|page: u32| !#[trigger] r@.contains_key(page),
{
}

} // verus!
