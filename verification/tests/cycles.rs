use feedwatch::cache::DedupCache;
use feedwatch::cycle::{cutoff, Action, CycleDriver, Event, Phase, WINDOW_SECS};
use feedwatch::item::{Element, Record};

fn item(title: &str, pub_date: i64) -> Element {
    Element::Item(Record { title: title.to_string(), link: format!("http://{}", title), pub_date })
}

fn entry(title: &str, pub_date: i64) -> Element {
    Element::Entry(Record { title: title.to_string(), link: format!("http://{}", title), pub_date })
}

fn titles(toasts: &[feedwatch::item::Toast]) -> Vec<String> {
    toasts.iter().map(|t| t.title.clone()).collect()
}

#[test]
fn offering_twice_is_new_once() {
    let mut cache = DedupCache::new();
    assert!(cache.offer(&item("a", 10), true));
    assert!(!cache.offer(&item("a", 10), true));
    assert!(!cache.offer(&entry("other", 10), true));
    assert!(cache.offer(&item("b", 11), true));
    assert!(!cache.offer(&item("a", 10), false));
    assert_eq!(cache.len(), 2);
}

#[test]
fn offering_in_the_first_cycle_records_too() {
    let mut cache = DedupCache::new();
    assert!(cache.offer(&item("a", 10), false));
    assert!(!cache.offer(&item("a", 10), true));
    assert!(cache.contains(10));
    assert!(!cache.contains(11));
}

#[test]
fn eviction_removes_up_to_the_cutoff() {
    let mut cache = DedupCache::new();
    for t in [1, 5, 9, 10, 11, 20, -3, i64::MIN, i64::MAX] {
        cache.offer(&item("x", t), true);
    }
    cache.evict(10);
    for t in [1, 5, 9, 10, -3, i64::MIN] {
        assert!(!cache.contains(t));
    }
    for t in [11, 20, i64::MAX] {
        assert!(cache.contains(t));
    }
    assert_eq!(cache.len(), 3);
    assert!(cache.offer(&item("x", 10), true));
    cache.evict(i64::MAX);
    assert_eq!(cache.len(), 0);
    cache.evict(0);
    assert_eq!(cache.len(), 0);
}

#[test]
fn cutoff_is_twelve_hours_back() {
    assert_eq!(WINDOW_SECS, 60 * 60 * 12);
    assert_eq!(cutoff(1736780671), 1736780671 - 43200);
    assert_eq!(cutoff(0), -43200);
    assert_eq!(cutoff(i64::MIN + 43200), i64::MIN);
}

#[test]
fn first_cycle_announces_nothing() {
    let mut driver = CycleDriver::new(1);
    let items = vec![item("a", 100), item("b", 101), item("c", 102)];
    let toasts = driver.reconcile(&items, 0, 5);
    assert!(toasts.is_empty());
    assert_eq!(driver.cached(), 3);
    assert_eq!(driver.cycle(), 0);
}

#[test]
fn later_cycles_announce_each_new_entry_once() {
    let mut driver = CycleDriver::new(1);
    driver.reconcile(&vec![item("old", 100)], 0, 5);
    driver.end_cycle(0);
    assert_eq!(driver.cycle(), 1);
    let items = vec![item("old", 100), item("a", 101), entry("twin", 101), item("b", 102), item("a", 101)];
    let toasts = driver.reconcile(&items, 0, 7);
    assert_eq!(titles(&toasts), vec!["a", "b"]);
    assert_eq!(toasts[0].text, "http://a");
    assert_eq!(toasts[0].wait_secs, 7);
    assert_eq!(driver.cached(), 3);
    assert!(driver.reconcile(&items, 0, 7).is_empty());
}

#[test]
fn entries_behind_the_cutoff_are_passed_over() {
    let mut driver = CycleDriver::new(1);
    driver.end_cycle(0);
    let items = vec![item("behind", 49), item("at", 50), item("after", 51)];
    let toasts = driver.reconcile(&items, 50, 1);
    assert_eq!(titles(&toasts), vec!["after"]);
    assert_eq!(driver.cached(), 1);
    let again = driver.reconcile(&vec![item("at", 50)], 49, 1);
    assert_eq!(titles(&again), vec!["at"]);
}

#[test]
fn ending_a_cycle_evicts_and_counts() {
    let mut driver = CycleDriver::new(1);
    driver.reconcile(&vec![item("a", 10), item("b", 20), item("c", 30)], 0, 1);
    driver.end_cycle(20);
    assert_eq!(driver.cached(), 1);
    assert_eq!(driver.cycle(), 1);
    assert_eq!(driver.phase(), Phase::Idle);
    let toasts = driver.reconcile(&vec![item("b", 20), item("c", 30)], 5, 1);
    assert_eq!(titles(&toasts), vec!["b"]);
}

#[test]
fn a_run_of_two_cycles() {
    let day = 1_700_000_000;
    let mut driver = CycleDriver::new(2);
    assert_eq!(driver.phase(), Phase::Idle);

    let (toasts, action) = driver.step(Event::Tick { now: day }, 5);
    assert!(toasts.is_empty());
    assert_eq!(action, Action::Fetch { feed: 0 });
    assert_eq!(driver.phase(), Phase::Fetching { feed: 0, cutoff: day - WINDOW_SECS });

    let first = vec![item("a", day - 10), item("stale", day - WINDOW_SECS), item("b", day - 20)];
    let (toasts, action) = driver.step(Event::Fetched { items: first.clone() }, 5);
    assert!(toasts.is_empty());
    assert_eq!(action, Action::Fetch { feed: 1 });
    assert_eq!(driver.cached(), 2);

    let (toasts, action) = driver.step(Event::FetchFailed, 5);
    assert!(toasts.is_empty());
    assert_eq!(action, Action::Sleep);
    assert_eq!(driver.phase(), Phase::Idle);
    assert_eq!(driver.cycle(), 1);
    assert_eq!(driver.cached(), 2);

    let later = day + 600;
    let (_, action) = driver.step(Event::Tick { now: later }, 5);
    assert_eq!(action, Action::Fetch { feed: 0 });
    let mut second = first.clone();
    second.push(item("c", later - 1));
    let (toasts, action) = driver.step(Event::Fetched { items: second }, 5);
    assert_eq!(titles(&toasts), vec!["c"]);
    assert_eq!(action, Action::Fetch { feed: 1 });
    let (toasts, action) = driver.step(Event::Fetched { items: vec![entry("d", later), item("c2", later - 1)] }, 9);
    assert_eq!(titles(&toasts), vec!["d"]);
    assert_eq!(toasts[0].wait_secs, 9);
    assert_eq!(action, Action::Sleep);
    assert_eq!(driver.cycle(), 2);
    assert_eq!(driver.cached(), 4);

    let much_later = later + WINDOW_SECS;
    driver.step(Event::Tick { now: much_later }, 5);
    driver.step(Event::FetchFailed, 5);
    let (_, action) = driver.step(Event::FetchFailed, 5);
    assert_eq!(action, Action::Sleep);
    assert_eq!(driver.cached(), 0);
    assert_eq!(driver.cycle(), 3);
}

#[test]
fn events_out_of_turn_change_nothing() {
    let mut driver = CycleDriver::new(1);
    let (toasts, action) = driver.step(Event::FetchFailed, 5);
    assert!(toasts.is_empty());
    assert_eq!(action, Action::Sleep);
    let (_, action) = driver.step(Event::Fetched { items: vec![item("a", 5)] }, 5);
    assert_eq!(action, Action::Sleep);
    assert_eq!(driver.cached(), 0);
    assert_eq!(driver.cycle(), 0);
    driver.step(Event::Tick { now: 100 }, 5);
    let (_, action) = driver.step(Event::Tick { now: 900 }, 5);
    assert_eq!(action, Action::Fetch { feed: 0 });
    assert_eq!(driver.phase(), Phase::Fetching { feed: 0, cutoff: 100 - WINDOW_SECS });
}

#[test]
fn a_cycle_without_feeds_ends_at_once() {
    let mut driver = CycleDriver::new(0);
    let (toasts, action) = driver.step(Event::Tick { now: 0 }, 5);
    assert!(toasts.is_empty());
    assert_eq!(action, Action::Sleep);
    assert_eq!(driver.cycle(), 1);
    assert_eq!(driver.phase(), Phase::Idle);
}
