//! The polling cycle.
//!
//! A cycle fixes its cutoff, visits the feeds in their order, reconciles
//! what each feed holds with the cache, and ends by evicting what has
//! fallen behind the cutoff. The driver decides; fetching, presenting and
//! sleeping is done by who runs it.

use crate::cache::{after, DedupCache};
use crate::item::{element_views, toast_of, Element, ElementView, Toast, ToastView};
use vstd::prelude::*;

verus! {

/// The width of the window in seconds: twelve hours.
pub const WINDOW_SECS: i64 = 43_200;

/// The cutoff of a cycle that starts at `now`. An entry is in the window
/// where its timestamp lies after the cutoff.
pub fn cutoff(now: i64) -> (c: i64)
    requires
        now - WINDOW_SECS >= i64::MIN,
    ensures
        c == now - WINDOW_SECS,
{
    now - WINDOW_SECS
}

/// What the cache holds once the items in the window have been offered in
/// turn. Items at or behind the cutoff are passed over.
pub open spec fn admitted(seen: Set<i64>, items: Seq<ElementView>, cutoff: i64) -> Set<i64>
    decreases items.len(),
{
    if items.len() == 0 {
        seen
    } else {
        let before = admitted(seen, items.drop_last(), cutoff);
        if items.last().timestamp() > cutoff {
            before.insert(items.last().timestamp())
        } else {
            before
        }
    }
}

/// The items that were new to the cache when they were offered, in their
/// order: those in the window whose timestamp was neither in the cache
/// before nor borne by an earlier item.
pub open spec fn fresh(seen: Set<i64>, items: Seq<ElementView>, cutoff: i64) -> Seq<ElementView>
    decreases items.len(),
{
    if items.len() == 0 {
        Seq::empty()
    } else {
        let before = fresh(seen, items.drop_last(), cutoff);
        let last = items.last();
        if last.timestamp() > cutoff && !admitted(seen, items.drop_last(), cutoff).contains(
            last.timestamp(),
        ) {
            before.push(last)
        } else {
            before
        }
    }
}

/// The notifications that the items give rise to: none in the first cycle,
/// and one for each fresh item from then on.
pub open spec fn announced(
    seen: Set<i64>,
    items: Seq<ElementView>,
    cutoff: i64,
    warm: bool,
    wait_secs: u64,
) -> Seq<ToastView> {
    if warm {
        fresh(seen, items, cutoff).map_values(|e: ElementView| toast_of(e, wait_secs))
    } else {
        Seq::empty()
    }
}

/// The views of a list of notifications.
pub open spec fn toast_views(toasts: Seq<Toast>) -> Seq<ToastView> {
    toasts.map_values(|t: Toast| t@)
}

/// The timestamps of a list of elements.
pub open spec fn timestamps(items: Seq<ElementView>) -> Seq<i64> {
    items.map_values(|e: ElementView| e.timestamp())
}

/// Where the driver stands within a cycle.
#[derive(Clone, Copy, Debug, PartialEq, Eq, Structural)]
pub enum Phase {
    /// Between two cycles.
    Idle,
    /// Waiting for feed number `feed`, in a cycle with the given cutoff.
    Fetching { feed: usize, cutoff: i64 },
}

/// What has happened outside.
#[derive(Clone, Debug)]
pub enum Event {
    /// It is time to start a cycle; `now` is the time in seconds since the
    /// epoch.
    Tick { now: i64 },
    /// The feed asked for was fetched and holds these elements.
    Fetched { items: Vec<Element> },
    /// The feed asked for could not be fetched.
    FetchFailed,
}

/// What to do next.
#[derive(Clone, Copy, Debug, PartialEq, Eq, Structural)]
pub enum Action {
    /// Fetch feed number `feed` and report the outcome.
    Fetch { feed: usize },
    /// Sleep for the interval between cycles, then report a tick.
    Sleep,
}

/// The mathematical content of an `Event`.
pub ghost enum EventView {
    Tick { now: i64 },
    Fetched { items: Seq<ElementView> },
    FetchFailed,
}

impl View for Event {
    type V = EventView;

    open spec fn view(&self) -> EventView {
        match self {
            Event::Tick { now } => EventView::Tick { now: *now },
            Event::Fetched { items } => EventView::Fetched { items: element_views(items@) },
            Event::FetchFailed => EventView::FetchFailed,
        }
    }
}

/// The state of a driver.
pub ghost struct DriverView {
    /// The number of feeds.
    pub feeds: usize,
    /// The timestamps in the cache.
    pub seen: Set<i64>,
    /// The number of cycles that have ended.
    pub cycle: u64,
    pub phase: Phase,
}

/// One move of a driver: the state it reaches, the notifications to
/// present, and what to do after them.
pub ghost struct Move {
    pub state: DriverView,
    pub toasts: Seq<ToastView>,
    pub action: Action,
}

impl DriverView {
    /// The first cycle only warms the cache up: nothing is announced in it.
    pub open spec fn warm(self) -> bool {
        self.cycle > 0
    }

    /// The state after the cycle has ended with the given cutoff: what has
    /// fallen behind the cutoff is evicted and the cycle is counted.
    pub open spec fn ended(self, cutoff: i64) -> DriverView {
        DriverView {
            feeds: self.feeds,
            seen: after(self.seen, cutoff),
            cycle: if self.cycle < u64::MAX {
                (self.cycle + 1) as u64
            } else {
                self.cycle
            },
            phase: Phase::Idle,
        }
    }

    /// The state and the action once the feeds before `feed` are done: the
    /// next feed is fetched or, after the last one, the cycle ends.
    pub open spec fn proceed(self, feed: int, cutoff: i64) -> (DriverView, Action) {
        if feed < self.feeds {
            (
                DriverView {
                    feeds: self.feeds,
                    seen: self.seen,
                    cycle: self.cycle,
                    phase: Phase::Fetching { feed: feed as usize, cutoff },
                },
                Action::Fetch { feed: feed as usize },
            )
        } else {
            (self.ended(cutoff), Action::Sleep)
        }
    }

    /// The state with the items of a feed reconciled with the cache.
    pub open spec fn reconciled(self, items: Seq<ElementView>, cutoff: i64) -> DriverView {
        DriverView {
            feeds: self.feeds,
            seen: admitted(self.seen, items, cutoff),
            cycle: self.cycle,
            phase: self.phase,
        }
    }

    /// The action that the state waits for the outcome of.
    pub open spec fn pending(self) -> Action {
        match self.phase {
            Phase::Idle => Action::Sleep,
            Phase::Fetching { feed, cutoff } => if feed < self.feeds {
                Action::Fetch { feed }
            } else {
                Action::Sleep
            },
        }
    }

    /// The move that an event brings about. A tick between cycles starts a
    /// cycle; the outcome of a fetch is reconciled, if there is one, and
    /// the driver proceeds to the next feed or ends the cycle. An event
    /// that the state does not wait for changes nothing.
    pub open spec fn next(self, event: EventView, wait_secs: u64) -> Move {
        match (self.phase, event) {
            (Phase::Idle, EventView::Tick { now }) => {
                let (state, action) = self.proceed(0, (now - WINDOW_SECS) as i64);
                Move { state, toasts: Seq::empty(), action }
            },
            (Phase::Fetching { feed, cutoff }, EventView::Fetched { items }) => {
                let (state, action) = self.reconciled(items, cutoff).proceed(feed + 1, cutoff);
                Move {
                    state,
                    toasts: announced(self.seen, items, cutoff, self.warm(), wait_secs),
                    action,
                }
            },
            (Phase::Fetching { feed, cutoff }, EventView::FetchFailed) => {
                let (state, action) = self.proceed(feed + 1, cutoff);
                Move { state, toasts: Seq::empty(), action }
            },
            _ => Move { state: self, toasts: Seq::empty(), action: self.pending() },
        }
    }
}

/// What reconciling stores: what was there before, and the timestamps of
/// the items in the window. An item at or behind the cutoff is not stored.
pub proof fn lemma_admitted(seen: Set<i64>, items: Seq<ElementView>, cutoff: i64)
    ensures
        forall|t: i64|
            admitted(seen, items, cutoff).contains(t) <==> seen.contains(t) || (t > cutoff
                && timestamps(items).contains(t)),
        forall|t: i64|
            t <= cutoff && admitted(seen, items, cutoff).contains(t) ==> seen.contains(t),
    decreases items.len(),
{
    if items.len() > 0 {
        let init = items.drop_last();
        let last = items.last().timestamp();
        lemma_admitted(seen, init, cutoff);
        assert forall|t: i64|
            admitted(seen, items, cutoff).contains(t) <==> seen.contains(t) || (t > cutoff
                && timestamps(items).contains(t)) by {
            let in_items = timestamps(items).contains(t);
            let in_init = timestamps(init).contains(t);
            assert(in_items <==> in_init || t == last) by {
                if in_items {
                    let k = choose|k: int|
                        0 <= k < timestamps(items).len() && timestamps(items)[k] == t;
                    if k < init.len() {
                        assert(timestamps(init)[k] == t);
                    } else {
                        assert(items[k] == items.last());
                    }
                }
                if in_init {
                    let k = choose|k: int|
                        0 <= k < timestamps(init).len() && timestamps(init)[k] == t;
                    assert(timestamps(items)[k] == t);
                }
                if t == last {
                    assert(timestamps(items)[items.len() - 1] == t);
                }
            }
            assert(admitted(seen, init, cutoff).contains(t) <==> seen.contains(t) || (t > cutoff
                && in_init));
        }
    } else {
        assert forall|t: i64| !timestamps(items).contains(t) by {}
    }
}

/// The fresh items are the items that reconciling newly stores, each
/// once: their timestamps are pairwise different, they are the timestamps
/// that the cache holds afterwards and did not hold before, and all of them
/// lie in the window.
pub proof fn lemma_fresh(seen: Set<i64>, items: Seq<ElementView>, cutoff: i64)
    ensures
        timestamps(fresh(seen, items, cutoff)).no_duplicates(),
        timestamps(fresh(seen, items, cutoff)).to_set() == admitted(
            seen,
            items,
            cutoff,
        ).difference(seen),
        forall|k: int|
            0 <= k < fresh(seen, items, cutoff).len() ==> (#[trigger] fresh(
                seen,
                items,
                cutoff,
            )[k]).timestamp() > cutoff,
    decreases items.len(),
{
    let now = timestamps(fresh(seen, items, cutoff));
    if items.len() == 0 {
        assert(now.to_set() =~= admitted(seen, items, cutoff).difference(seen));
    } else {
        let init = items.drop_last();
        let last = items.last().timestamp();
        let before = timestamps(fresh(seen, init, cutoff));
        lemma_fresh(seen, init, cutoff);
        lemma_admitted(seen, init, cutoff);
        if last > cutoff && !admitted(seen, init, cutoff).contains(last) {
            assert(now =~= before.push(last));
            assert(!before.contains(last)) by {
                if before.contains(last) {
                    assert(before.to_set().contains(last));
                }
            }
            assert forall|t: i64| now.to_set().contains(t) <==> admitted(
                seen,
                items,
                cutoff,
            ).difference(seen).contains(t) by {
                if now.contains(t) {
                    let k = choose|k: int| 0 <= k < now.len() && now[k] == t;
                    if k < before.len() {
                        assert(before[k] == t);
                        assert(before.to_set().contains(t));
                    }
                }
                if before.to_set().contains(t) {
                    let k = choose|k: int| 0 <= k < before.len() && before[k] == t;
                    assert(now[k] == t);
                }
                if t == last {
                    assert(now[now.len() - 1] == t);
                }
            }
            assert(now.to_set() =~= admitted(seen, items, cutoff).difference(seen));
        } else {
            assert(admitted(seen, items, cutoff) =~= admitted(seen, init, cutoff));
        }
    }
}

/// Nothing is announced in the first cycle, however many items are new.
/// From then on every fresh item is announced once, in order.
pub proof fn lemma_warm_up(seen: Set<i64>, items: Seq<ElementView>, cutoff: i64, wait_secs: u64)
    ensures
        announced(seen, items, cutoff, false, wait_secs).len() == 0,
        announced(seen, items, cutoff, true, wait_secs).len() == fresh(seen, items, cutoff).len(),
        forall|k: int|
            0 <= k < fresh(seen, items, cutoff).len() ==> #[trigger] announced(
                seen,
                items,
                cutoff,
                true,
                wait_secs,
            )[k] == toast_of(fresh(seen, items, cutoff)[k], wait_secs),
{
}

/// The driver asks for its own feeds only, and in their order: after feed
/// number `feed` it asks for the next one, if there is one, and for none
/// before the next cycle if there is not.
pub proof fn lemma_feeds_in_order(state: DriverView, event: EventView, wait_secs: u64)
    ensures
        state.next(event, wait_secs).action matches Action::Fetch { feed } ==> feed < state.feeds,
        state.phase matches Phase::Fetching { feed, cutoff } ==> (event is Fetched || event
            is FetchFailed) ==> state.next(event, wait_secs).action == (if feed + 1
            < state.feeds {
            Action::Fetch { feed: (feed + 1) as usize }
        } else {
            Action::Sleep
        }),
        state.phase is Idle && event is Tick ==> state.next(event, wait_secs).action == (if 0
            < state.feeds {
            Action::Fetch { feed: 0 }
        } else {
            Action::Sleep
        }),
{
}

/// While no cycle has ended, no event makes the driver announce anything.
pub proof fn lemma_first_cycle_silent(state: DriverView, event: EventView, wait_secs: u64)
    requires
        state.cycle == 0,
    ensures
        state.next(event, wait_secs).toasts.len() == 0,
        state.next(event, wait_secs).state.phase != Phase::Idle ==> state.next(
            event,
            wait_secs,
        ).state.cycle == 0,
{
}

/// An item at or behind the cutoff of its cycle is never stored and never
/// announced: a fetched feed stores and announces items in the window
/// only, and once the cycle has ended nothing at or behind the cutoff is
/// left.
pub proof fn lemma_window(
    state: DriverView,
    items: Seq<ElementView>,
    cutoff: i64,
    wait_secs: u64,
)
    ensures
        forall|t: i64|
            t <= cutoff && state.reconciled(items, cutoff).seen.contains(t) ==> state.seen.contains(
                t,
            ),
        forall|k: int|
            0 <= k < fresh(state.seen, items, cutoff).len() ==> (#[trigger] fresh(
                state.seen,
                items,
                cutoff,
            )[k]).timestamp() > cutoff,
        forall|t: i64| state.reconciled(items, cutoff).ended(cutoff).seen.contains(t) ==> t > cutoff,
{
    lemma_admitted(state.seen, items, cutoff);
    lemma_fresh(state.seen, items, cutoff);
}

/// The driver of the polling cycles: the cache, the count of cycles, and
/// the place within the current cycle.
pub struct CycleDriver {
    feeds: usize,
    cache: DedupCache,
    cycle: u64,
    phase: Phase,
}

impl View for CycleDriver {
    type V = DriverView;

    closed spec fn view(&self) -> DriverView {
        DriverView { feeds: self.feeds, seen: self.cache@, cycle: self.cycle, phase: self.phase }
    }
}

impl CycleDriver {
    /// A driver for the given number of feeds, before its first cycle.
    pub fn new(feeds: usize) -> (driver: CycleDriver)
        ensures
            driver@ == (DriverView {
                feeds,
                seen: Set::<i64>::empty(),
                cycle: 0,
                phase: Phase::Idle,
            }),
    {
        CycleDriver { feeds, cache: DedupCache::new(), cycle: 0, phase: Phase::Idle }
    }

    /// The number of cycles that have ended.
    pub fn cycle(&self) -> (n: u64)
        ensures
            n == self@.cycle,
    {
        self.cycle
    }

    /// The number of entries in the cache.
    pub fn cached(&self) -> (n: usize)
        ensures
            n == self@.seen.len(),
    {
        self.cache.len()
    }

    /// Where the driver stands.
    pub fn phase(&self) -> (phase: Phase)
        ensures
            phase == self@.phase,
    {
        self.phase
    }

    /// Reconciles the items of one feed with the cache: every item in the
    /// window is offered to the cache in order, and the items that were new
    /// are announced unless this is the first cycle.
    pub fn reconcile(&mut self, items: &Vec<Element>, cutoff: i64, wait_secs: u64) -> (toasts: Vec<
        Toast,
    >)
        ensures
            final(self)@ == old(self)@.reconciled(element_views(items@), cutoff),
            toast_views(toasts@) == announced(
                old(self)@.seen,
                element_views(items@),
                cutoff,
                old(self)@.warm(),
                wait_secs,
            ),
    {
        let ghost start = self@;
        let ghost all = element_views(items@);
        let warm = self.cycle > 0;
        let mut toasts: Vec<Toast> = Vec::new();
        let mut i: usize = 0;
        proof {
            assert(all.take(0) =~= Seq::<ElementView>::empty());
            assert(toast_views(toasts@) =~= announced(
                start.seen,
                all.take(0),
                cutoff,
                warm,
                wait_secs,
            ));
        }
        while i < items.len()
            invariant
                i <= items.len(),
                all == element_views(items@),
                warm == start.warm(),
                self@ == start.reconciled(all.take(i as int), cutoff),
                toast_views(toasts@) == announced(
                    start.seen,
                    all.take(i as int),
                    cutoff,
                    warm,
                    wait_secs,
                ),
            decreases items.len() - i,
        {
            let item = &items[i];
            let ghost shown = toast_views(toasts@);
            proof {
                assert(all.take(i + 1).drop_last() =~= all.take(i as int));
                assert(all.take(i + 1).last() == item@);
            }
            if item.timestamp() > cutoff {
                let inserted = self.cache.offer(item, warm);
                if inserted && warm {
                    let toast = item.show_toast(wait_secs);
                    toasts.push(toast);
                    proof {
                        assert(toast_views(toasts@) =~= shown.push(toast_of(item@, wait_secs)));
                        assert(fresh(start.seen, all.take(i + 1), cutoff) == fresh(
                            start.seen,
                            all.take(i as int),
                            cutoff,
                        ).push(item@));
                        assert(announced(start.seen, all.take(i + 1), cutoff, warm, wait_secs)
                            =~= shown.push(toast_of(item@, wait_secs)));
                    }
                }
            }
            i = i + 1;
        }
        proof {
            assert(all.take(items.len() as int) =~= all);
        }
        toasts
    }

    /// Ends a cycle: evicts what has fallen behind the cutoff and counts
    /// the cycle.
    pub fn end_cycle(&mut self, cutoff: i64)
        ensures
            final(self)@ == old(self)@.ended(cutoff),
    {
        self.cache.evict(cutoff);
        if self.cycle < u64::MAX {
            self.cycle = self.cycle + 1;
        }
        self.phase = Phase::Idle;
    }

    /// Proceeds to feed number `feed`, or ends the cycle after the last
    /// feed.
    fn proceed(&mut self, feed: usize, cutoff: i64) -> (action: Action)
        ensures
            (final(self)@, action) == old(self)@.proceed(feed as int, cutoff),
    {
        if feed < self.feeds {
            self.phase = Phase::Fetching { feed, cutoff };
            Action::Fetch { feed }
        } else {
            self.end_cycle(cutoff);
            Action::Sleep
        }
    }

    /// Takes an event and decides what to present and what to do next.
    pub fn step(&mut self, event: Event, wait_secs: u64) -> (out: (Vec<Toast>, Action))
        requires
            event matches Event::Tick { now } ==> now - WINDOW_SECS >= i64::MIN,
        ensures
            (Move { state: final(self)@, toasts: toast_views(out.0@), action: out.1 }) == old(
                self,
            )@.next(event@, wait_secs),
            out.1 matches Action::Fetch { feed } ==> feed < old(self)@.feeds,
    {
        let mut toasts: Vec<Toast> = Vec::new();
        proof {
            assert(toast_views(toasts@) =~= Seq::<ToastView>::empty());
        }
        let phase = self.phase;
        let action = match (phase, event) {
            (Phase::Idle, Event::Tick { now }) => {
                let c = cutoff(now);
                self.proceed(0, c)
            },
            (Phase::Fetching { feed, cutoff }, Event::Fetched { items }) => {
                toasts = self.reconcile(&items, cutoff, wait_secs);
                if feed < usize::MAX {
                    self.proceed(feed + 1, cutoff)
                } else {
                    self.end_cycle(cutoff);
                    Action::Sleep
                }
            },
            (Phase::Fetching { feed, cutoff }, Event::FetchFailed) => {
                if feed < usize::MAX {
                    self.proceed(feed + 1, cutoff)
                } else {
                    self.end_cycle(cutoff);
                    Action::Sleep
                }
            },
            (Phase::Idle, _) => Action::Sleep,
            (Phase::Fetching { feed, cutoff }, _) => if feed < self.feeds {
                Action::Fetch { feed }
            } else {
                Action::Sleep
            },
        };
        (toasts, action)
    }
}

} // verus!
