use ar_mintin::ent::ProgressTable;
use ar_mintin::ent::Score;
use ar_mintin::ent::ScoreArgs;
use ar_mintin::ent::TableEntry;
use ar_mintin::ent::UNIT;
use ar_mintin::selector::CycleSelector;
use ar_mintin::selector::ZeroSelector;
use ar_mintin::sim::SimArgs;
use ar_mintin::sim::SimFault;
use ar_mintin::sim::Simulation;
use ar_mintin::sim::TMessage;

fn entry(lhs: &str, rhs: &str) -> TableEntry {
    TableEntry { lhs: String::from(lhs), rhs: String::from(rhs) }
}

fn args() -> ScoreArgs {
    ScoreArgs { degrade_factor_micro: 800_000, origin: Score(UNIT), target: Score(100) }
}

fn catalog5() -> Vec<TableEntry> {
    vec![entry("a", "1"), entry("b", "2"), entry("c", "3"), entry("d", "4"), entry("e", "5")]
}

#[test]
fn unseen_catalog_starts_with_learning_display() {
    // all five items unseen: the assessment batch is empty, so no
    // announcement comes and learning shows the first item at once
    let catalog = catalog5();
    let pt = ProgressTable::new(&catalog, args());
    let mut sim = Simulation::new(pt, SimArgs { classic: false });
    let mut sel = ZeroSelector;
    let (m, change) = sim.next(&catalog, None, &mut sel).ok().unwrap();
    assert!(change.is_none());
    assert!(matches!(m, TMessage::Display(0)));
}

#[test]
fn deterministic_first_message_sequence() {
    // with the zero selector the whole opening sequence is fixed:
    // show item 0, recall it, show item 1, recall it (the passed pool
    // gains item 0, so the rehearsal draw quizzes it too), and so on
    let catalog = catalog5();
    let pt = ProgressTable::new(&catalog, args());
    let mut sim = Simulation::new(pt, SimArgs { classic: false });
    let mut sel = ZeroSelector;

    let (m1, _) = sim.next(&catalog, None, &mut sel).ok().unwrap();
    assert!(matches!(m1, TMessage::Display(0)));

    let (m2, _) = sim.next(&catalog, None, &mut sel).ok().unwrap();
    assert!(matches!(m2, TMessage::Assess(0)));

    // a correct answer passes item 0 and moves on to item 1
    let (m3, c3) = sim.next(&catalog, Some(String::from("1")), &mut sel).ok().unwrap();
    let c3 = c3.unwrap();
    assert_eq!(c3.idx, 0);
    assert!(c3.pass);
    assert_eq!(c3.distrust, 5000);
    assert!(matches!(m3, TMessage::Display(1)));

    // item 1's recall queue now holds the rehearsal draw (item 0,
    // the only passed entry) above item 1 itself
    let (m4, _) = sim.next(&catalog, None, &mut sel).ok().unwrap();
    assert!(matches!(m4, TMessage::Assess(0)));

    let (m5, c5) = sim.next(&catalog, Some(String::from("1")), &mut sel).ok().unwrap();
    assert!(c5.unwrap().pass);
    assert!(matches!(m5, TMessage::Assess(1)));
}

#[test]
fn wrong_answer_shows_the_item_again() {
    let catalog = catalog5();
    let pt = ProgressTable::new(&catalog, args());
    let mut sim = Simulation::new(pt, SimArgs { classic: false });
    let mut sel = ZeroSelector;

    let (m1, _) = sim.next(&catalog, None, &mut sel).ok().unwrap();
    assert!(matches!(m1, TMessage::Display(0)));
    let (m2, _) = sim.next(&catalog, None, &mut sel).ok().unwrap();
    assert!(matches!(m2, TMessage::Assess(0)));

    let (m3, c3) = sim.next(&catalog, Some(String::from("wrong")), &mut sel).ok().unwrap();
    let c3 = c3.unwrap();
    assert!(!c3.pass);
    assert_eq!(c3.distrust, UNIT);
    assert!(matches!(m3, TMessage::Display(0)));
}

#[test]
fn classic_mode_skips_the_recall_of_the_shown_item() {
    // classic mode: after showing item 0 nothing is queued (no passed
    // entries exist for a rehearsal draw), so learning moves straight
    // to showing item 1
    let catalog = catalog5();
    let pt = ProgressTable::new(&catalog, args());
    let mut sim = Simulation::new(pt, SimArgs { classic: true });
    let mut sel = ZeroSelector;

    let (m1, _) = sim.next(&catalog, None, &mut sel).ok().unwrap();
    assert!(matches!(m1, TMessage::Display(0)));
    let (m2, _) = sim.next(&catalog, None, &mut sel).ok().unwrap();
    assert!(matches!(m2, TMessage::Display(1)));
}

#[test]
fn assessment_announces_when_passed_entries_exist() {
    let catalog = vec![entry("a", "1"), entry("b", "2")];
    let mut pt = ProgressTable::new(&catalog, args());
    pt.set(0, true);
    pt.set(1, true);
    let mut sim = Simulation::new(pt, SimArgs { classic: false });
    let mut sel = CycleSelector::new(vec![0, 0, 0, 0]);
    let (m1, _) = sim.next(&catalog, None, &mut sel).ok().unwrap();
    assert!(matches!(m1, TMessage::NotifyAssessment));
    let (m2, _) = sim.next(&catalog, None, &mut sel).ok().unwrap();
    assert!(matches!(m2, TMessage::Assess(_)));
}

#[test]
fn protocol_violations_are_rejected_and_harmless() {
    let catalog = catalog5();
    let pt = ProgressTable::new(&catalog, args());
    let mut sim = Simulation::new(pt, SimArgs { classic: false });
    let mut sel = ZeroSelector;

    // an answer before any Assess is a violation
    let r = sim.next(&catalog, Some(String::from("1")), &mut sel);
    assert!(matches!(r, Err(SimFault::BadMessage)));

    // the session is untouched and can be used correctly afterwards
    let (m1, _) = sim.next(&catalog, None, &mut sel).ok().unwrap();
    assert!(matches!(m1, TMessage::Display(0)));

    let (m2, _) = sim.next(&catalog, None, &mut sel).ok().unwrap();
    assert!(matches!(m2, TMessage::Assess(0)));

    // omitting the answer after an Assess is a violation too
    let r = sim.next(&catalog, None, &mut sel);
    assert!(matches!(r, Err(SimFault::BadMessage)));

    // and answering still works
    let (m3, _) = sim.next(&catalog, Some(String::from("1")), &mut sel).ok().unwrap();
    assert!(matches!(m3, TMessage::Display(1)));
}

#[test]
fn phases_alternate_between_learning_and_assessment() {
    let catalog = vec![entry("a", "1"), entry("b", "2")];
    let pt = ProgressTable::new(&catalog, args());
    let mut sim = Simulation::new(pt, SimArgs { classic: false });
    let mut sel = ZeroSelector;

    // learning works through both unseen items
    let (m1, _) = sim.next(&catalog, None, &mut sel).ok().unwrap();
    assert!(matches!(m1, TMessage::Display(0)));
    let (m2, _) = sim.next(&catalog, None, &mut sel).ok().unwrap();
    assert!(matches!(m2, TMessage::Assess(0)));
    let (m3, c3) = sim.next(&catalog, Some(String::from("1")), &mut sel).ok().unwrap();
    assert_eq!(c3.unwrap().distrust, 5000);
    assert!(matches!(m3, TMessage::Display(1)));
    let (m4, _) = sim.next(&catalog, None, &mut sel).ok().unwrap();
    assert!(matches!(m4, TMessage::Assess(0)));
    let (m5, c5) = sim.next(&catalog, Some(String::from("1")), &mut sel).ok().unwrap();
    assert_eq!(c5.unwrap().distrust, 2500);
    assert!(matches!(m5, TMessage::Assess(1)));

    // with the learning batch exhausted, an assessment phase begins
    // over the now-passed items
    let (m6, c6) = sim.next(&catalog, Some(String::from("2")), &mut sel).ok().unwrap();
    assert_eq!(c6.unwrap().distrust, 5000);
    assert!(matches!(m6, TMessage::NotifyAssessment));
    let (m7, _) = sim.next(&catalog, None, &mut sel).ok().unwrap();
    assert!(matches!(m7, TMessage::Assess(1)));
    let (m8, _) = sim.next(&catalog, Some(String::from("2")), &mut sel).ok().unwrap();
    assert!(matches!(m8, TMessage::Assess(0)));

    // and the cycle closes: the next phase announces itself again
    let (m9, _) = sim.next(&catalog, Some(String::from("1")), &mut sel).ok().unwrap();
    assert!(matches!(m9, TMessage::NotifyAssessment));
}

#[test]
fn empty_table_reports_depth_exhaustion() {
    let catalog: Vec<TableEntry> = Vec::new();
    let pt = ProgressTable::new(&catalog, args());
    let mut sim = Simulation::new(pt, SimArgs { classic: false });
    let mut sel = ZeroSelector;
    let r = sim.next(&catalog, None, &mut sel);
    assert!(matches!(r, Err(SimFault::DepthExceeded)));
}

#[test]
fn flush_state_forgets_the_pending_message() {
    let catalog = catalog5();
    let pt = ProgressTable::new(&catalog, args());
    let mut sim = Simulation::new(pt, SimArgs { classic: false });
    let mut sel = ZeroSelector;

    let (m1, _) = sim.next(&catalog, None, &mut sel).ok().unwrap();
    assert!(matches!(m1, TMessage::Display(0)));
    let (m2, _) = sim.next(&catalog, None, &mut sel).ok().unwrap();
    assert!(matches!(m2, TMessage::Assess(0)));

    // after a flush no answer is expected any more
    sim.flush_state();
    let r = sim.next(&catalog, Some(String::from("1")), &mut sel);
    assert!(matches!(r, Err(SimFault::BadMessage)));
    let (m3, _) = sim.next(&catalog, None, &mut sel).ok().unwrap();
    assert!(matches!(m3, TMessage::Display(0)));
}
