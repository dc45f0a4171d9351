use ar_mintin::ent::ProgressEntry;
use ar_mintin::ent::ProgressTable;
use ar_mintin::ent::ProgressTableView;
use ar_mintin::ent::Score;
use ar_mintin::ent::ScoreArgs;
use ar_mintin::ent::TableEntry;
use ar_mintin::ent::UNIT;
use ar_mintin::selector::RandomSelector;
use ar_mintin::selector::ZeroSelector;

fn entry(lhs: &str, rhs: &str) -> TableEntry {
    TableEntry { lhs: String::from(lhs), rhs: String::from(rhs) }
}

fn args() -> ScoreArgs {
    ScoreArgs { degrade_factor_micro: 800_000, origin: Score(UNIT), target: Score(100) }
}

fn two_item_catalog() -> Vec<TableEntry> {
    vec![entry("a", "1"), entry("b", "2")]
}

#[test]
fn fresh_table_is_all_unseen() {
    let catalog = two_item_catalog();
    let t = ProgressTable::new(&catalog, args());
    assert_eq!(t.len(), 2);
    assert!(!t.is_empty());
    assert!(!t.is_partial());
    assert_eq!(t.get_unpassed_entries_count(), 2);
    assert_eq!(t.get_age(), 0);
    assert_eq!(t.unit_score(), Score(UNIT));
    for i in 0..2 {
        let e = t.entry_at(i);
        assert_eq!(e.distrust, Score(UNIT));
        assert!(!e.pass);
        assert_eq!(t.pool_value(false, i), UNIT);
        assert_eq!(t.pool_value(true, i), 0);
    }
    assert_eq!(t.pool_sum(false), 2 * UNIT);
    assert_eq!(t.pool_sum(true), 0);
}

#[test]
fn partial_table_starts_at_the_given_unit() {
    let catalog = two_item_catalog();
    let t = ProgressTable::new_partial(&catalog, 4, 7, args(), Score(8000));
    assert_eq!(t.len(), 2);
    assert!(t.is_partial());
    assert_eq!(t.get_age(), 7);
    assert_eq!(t.unit_score(), Score(8000));
    for i in 0..2 {
        assert_eq!(t.entry_at(i).distrust, Score(8000));
        assert!(!t.entry_at(i).pass);
        assert_eq!(t.pool_value(false, i), 8000);
    }
    assert_eq!(t.pool_sum(false), 16000);
    assert_eq!(t.pool_sum(true), 0);
}

#[test]
fn assess_compares_answer_text() {
    let e = entry("prompt", "answer");
    assert!(e.assess(String::from("answer")));
    assert!(!e.assess(String::from("other")));
    assert!(!e.assess(String::from("")));
}

#[test]
fn set_pass_halves_and_moves_pools() {
    let catalog = two_item_catalog();
    let mut t = ProgressTable::new(&catalog, args());
    t.set(0, true);
    let e = t.entry_at(0);
    assert_eq!(e.distrust, Score((UNIT + 1) / 2));
    assert_eq!(e.distrust, Score(5000));
    assert!(e.pass);
    // the entry moved from the failed-pool tree to the passed-pool tree
    assert_eq!(t.pool_value(true, 0), 5000);
    assert_eq!(t.pool_value(false, 0), 0);
    // with the new weight, not the old one
    assert_eq!(t.pool_sum(true), 5000);
    assert_eq!(t.pool_sum(false), UNIT);
    // only index 1 is left in the failed pool
    let mut z = ZeroSelector;
    let picked = t.select_random_entries(1, false, &mut z);
    assert_eq!(picked, vec![1]);
    assert_eq!(t.get_unpassed_entries_count(), 1);
}

#[test]
fn set_pass_converges_toward_zero() {
    let catalog = two_item_catalog();
    let mut t = ProgressTable::new(&catalog, args());
    let expected = [5000, 2500, 1250, 625, 313, 157, 79, 40, 20, 10, 5, 3, 2, 1, 1, 1];
    for d in expected {
        t.set(0, true);
        assert_eq!(t.entry_at(0).distrust, Score(d));
    }
}

#[test]
fn set_fail_blends_toward_unit() {
    let catalog = two_item_catalog();
    let mut t = ProgressTable::new(&catalog, args());
    // at full distrust a failure keeps it at the unit score
    t.set(0, false);
    assert_eq!(t.entry_at(0).distrust, Score(UNIT));
    assert!(!t.entry_at(0).pass);
    // halve first, then fail: floor(sqrt(5000 * 10000)) = 7071
    t.set(1, true);
    assert_eq!(t.entry_at(1).distrust, Score(5000));
    t.set(1, false);
    assert_eq!(t.entry_at(1).distrust, Score(7071));
    assert_eq!(t.pool_value(false, 1), 7071);
    assert_eq!(t.pool_value(true, 1), 0);
}

#[test]
fn set_fail_uses_the_current_unit_score() {
    let catalog = two_item_catalog();
    let mut t = ProgressTable::new(&catalog, args());
    t.set(0, true);
    assert_eq!(t.entry_at(0).distrust, Score(5000));
    // a decayed unit score pulls failures toward it
    t.refresh_unit(Score(8100));
    t.set(0, false);
    // floor(sqrt(5000 * 8100)) = floor(6363.9..) = 6363
    assert_eq!(t.entry_at(0).distrust, Score(6363));
}

#[test]
fn step_advances_age_only() {
    let catalog = two_item_catalog();
    let mut t = ProgressTable::new(&catalog, args());
    t.step();
    t.step();
    assert_eq!(t.get_age(), 2);
    assert_eq!(t.unit_score(), Score(UNIT));
    t.refresh_unit(Score(9000));
    assert_eq!(t.unit_score(), Score(9000));
    assert_eq!(t.get_age(), 2);
}

#[test]
fn selection_is_duplicate_free_and_restores_weights() {
    let catalog =
        vec![entry("a", "1"), entry("b", "2"), entry("c", "3"), entry("d", "4"), entry("e", "5")];
    let mut t = ProgressTable::new(&catalog, args());
    let before = t.pool_sum(false);
    let mut sel = RandomSelector;
    let picked = t.select_random_entries(3, false, &mut sel);
    assert_eq!(picked.len(), 3);
    for i in 0..picked.len() {
        assert!(picked[i] < 5);
        assert!(t.pool_value(false, picked[i]) > 0);
        for j in 0..i {
            assert_ne!(picked[i], picked[j]);
        }
    }
    // the batch left no lasting mark on either pool
    assert_eq!(t.pool_sum(false), before);
    assert_eq!(t.pool_sum(true), 0);
    for i in 0..5 {
        assert_eq!(t.pool_value(false, i), UNIT);
    }
}

#[test]
fn zero_selector_draws_the_lowest_indices_in_order() {
    let catalog =
        vec![entry("a", "1"), entry("b", "2"), entry("c", "3"), entry("d", "4"), entry("e", "5")];
    let mut t = ProgressTable::new(&catalog, args());
    // index 1 leaves the failed pool, so the zero selector walks the
    // remaining indices from the bottom up
    t.set(1, true);
    let mut z = ZeroSelector;
    let picked = t.select_random_entries(3, false, &mut z);
    assert_eq!(picked, vec![0, 2, 3]);
}

#[test]
fn selection_stops_when_the_pool_is_exhausted() {
    let catalog = two_item_catalog();
    let mut t = ProgressTable::new(&catalog, args());
    let mut sel = RandomSelector;
    let picked = t.select_random_entries(10, false, &mut sel);
    assert_eq!(picked.len(), 2);
    assert!(picked.contains(&0));
    assert!(picked.contains(&1));
    let none = t.select_random_entries(10, true, &mut sel);
    assert!(none.is_empty());
    assert_eq!(t.pool_sum(false), 2 * UNIT);
}

#[test]
fn selection_never_returns_a_zero_weight_entry() {
    let catalog = two_item_catalog();
    let mut t = ProgressTable::new(&catalog, args());
    t.set(0, true);
    let mut sel = RandomSelector;
    for _ in 0..20 {
        let picked = t.select_random_entries(1, false, &mut sel);
        assert_eq!(picked, vec![1]);
    }
}

#[test]
fn supply_appends_until_capacity() {
    let mut t = ProgressTable::new_empty(3, 0, args(), Score(UNIT));
    assert!(t.is_empty());
    assert!(t.is_partial());
    let chunk = vec![
        ProgressEntry { distrust: Score(4000), pass: true },
        ProgressEntry { distrust: Score(9000), pass: false },
    ];
    assert!(t.supply(&chunk).is_ok());
    assert_eq!(t.len(), 2);
    assert_eq!(t.get_unpassed_entries_count(), 1);
    assert_eq!(t.pool_value(true, 0), 4000);
    assert_eq!(t.pool_value(false, 1), 9000);
    // a second chunk of two exceeds the capacity of three
    assert!(t.supply(&chunk).is_err());
    assert_eq!(t.len(), 2);
    assert_eq!(t.pool_sum(true), 4000);
    assert_eq!(t.pool_sum(false), 9000);
    // one more still fits
    let one = vec![ProgressEntry { distrust: Score(1), pass: false }];
    assert!(t.supply(&one).is_ok());
    assert_eq!(t.len(), 3);
    assert!(!t.is_partial());
}

#[test]
fn scores_stay_in_range_under_any_outcomes() {
    let catalog = two_item_catalog();
    let mut t = ProgressTable::new(&catalog, args());
    let outcomes = [true, false, true, true, false, false, true, false, true, true];
    for (k, pass) in outcomes.iter().enumerate() {
        t.set(k % 2, *pass);
        for i in 0..2 {
            let d = t.entry_at(i).distrust;
            assert!(0 <= d.0 && d.0 <= UNIT);
        }
    }
}

#[test]
fn view_round_trip_preserves_progress() {
    let catalog = two_item_catalog();
    let mut t = ProgressTable::new(&catalog, args());
    t.set(0, true);
    t.set(1, false);
    t.step();
    let view = ProgressTableView::new(&t, &catalog);
    assert_eq!(view.age, 1);
    let back = ProgressTable::new_from_view(&catalog, &view, Score(UNIT));
    assert_eq!(back.len(), 2);
    for i in 0..2 {
        assert_eq!(back.entry_at(i).distrust, t.entry_at(i).distrust);
        assert_eq!(back.entry_at(i).pass, t.entry_at(i).pass);
    }
    assert_eq!(back.get_age(), 1);
}

#[test]
fn reconcile_matches_by_content_and_defaults_the_rest() {
    let catalog = two_item_catalog();
    let mut t = ProgressTable::new(&catalog, args());
    t.set(0, true);
    let view = ProgressTableView::new(&t, &catalog);
    // a reordered and extended catalog: matched items keep their entry,
    // the new one starts unseen at the given unit score
    let catalog2 = vec![entry("b", "2"), entry("c", "3"), entry("a", "1")];
    let back = ProgressTable::new_from_view(&catalog2, &view, Score(7777));
    assert_eq!(back.entry_at(0).distrust, Score(UNIT));
    assert!(!back.entry_at(0).pass);
    assert_eq!(back.entry_at(1).distrust, Score(7777));
    assert!(!back.entry_at(1).pass);
    assert_eq!(back.entry_at(2).distrust, Score(5000));
    assert!(back.entry_at(2).pass);
}

#[test]
fn reconcile_takes_the_last_duplicate() {
    let view = ProgressTableView {
        entries: vec![
            (ProgressEntry { distrust: Score(1111), pass: false }, entry("a", "1")),
            (ProgressEntry { distrust: Score(2222), pass: true }, entry("a", "1")),
        ],
        age: 0,
        score_args: args(),
    };
    let catalog = vec![entry("a", "1")];
    let back = ProgressTable::new_from_view(&catalog, &view, Score(UNIT));
    assert_eq!(back.entry_at(0).distrust, Score(2222));
    assert!(back.entry_at(0).pass);
}

#[test]
fn duplicate_entries_copy_content() {
    let e = entry("x", "y");
    let d = e.duplicate();
    assert_eq!(d, e);
    assert!(e.same_as(&d));
    assert!(!e.same_as(&entry("x", "z")));
}
