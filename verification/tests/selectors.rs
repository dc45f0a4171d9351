use ar_mintin::selector::CycleSelector;
use ar_mintin::selector::RandomSelector;
use ar_mintin::selector::Selector;
use ar_mintin::selector::ZeroSelector;
use ar_mintin::version;

#[test]
fn zero_selector_always_picks_zero() {
    let mut z = ZeroSelector;
    assert_eq!(z.pick(1), 0);
    assert_eq!(z.pick(1000), 0);
}

#[test]
fn cycle_selector_replays_its_list() {
    let mut c = CycleSelector::new(vec![3, 7, 12]);
    assert_eq!(c.pick(100), 3);
    assert_eq!(c.pick(100), 7);
    // out-of-range offsets are reduced by the remainder
    assert_eq!(c.pick(10), 2);
    // after the list is exhausted it starts over
    assert_eq!(c.pick(100), 3);
}

#[test]
fn cycle_selector_handles_edge_values() {
    let mut c = CycleSelector::new(vec![-5, 0]);
    // negative offsets fall back to zero
    assert_eq!(c.pick(4), 0);
    assert_eq!(c.pick(4), 0);
    let mut e = CycleSelector::new(Vec::new());
    assert_eq!(e.pick(9), 0);
}

#[test]
fn random_selector_stays_in_range() {
    let mut r = RandomSelector;
    // a bound of one leaves no choice
    for _ in 0..10 {
        assert_eq!(r.pick(1), 0);
    }
    for _ in 0..100 {
        let v = r.pick(7);
        assert!((0..7).contains(&v));
    }
}

#[test]
fn version_is_reported() {
    assert_eq!(version(), "0.1.0");
}
