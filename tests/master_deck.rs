use deck_tracker::deck::{DeckDiff, MasterDeck};

fn texts(items: &[&str]) -> Vec<String> {
    items.iter().map(|s| s.to_string()).collect()
}

fn diff(floor: i32, obtained: &[&str], removed: &[&str], transformed: &[&str], upgraded: &[&str]) -> DeckDiff {
    DeckDiff {
        floor,
        obtained: texts(obtained),
        removed: texts(removed),
        transformed: texts(transformed),
        upgraded: texts(upgraded),
    }
}

fn sorted(v: &[String]) -> Vec<String> {
    let mut v = v.to_vec();
    v.sort();
    v
}

#[test]
fn new_deck_has_no_anomalies() {
    let deck = MasterDeck::new(texts(&["Strike", "Bash"]));
    assert_eq!(deck.cards, texts(&["Strike", "Bash"]));
    assert!(deck.unknown_obtained.is_empty());
    assert!(deck.unknown_removed.is_empty());
}

#[test]
fn obtain_appends() {
    let mut deck = MasterDeck::new(texts(&["Strike"]));
    deck.obtain("Bash".to_string());
    assert_eq!(deck.cards, texts(&["Strike", "Bash"]));
}

#[test]
fn remove_takes_first_copy() {
    let mut deck = MasterDeck::new(texts(&["A", "B", "A"]));
    deck.remove("A".to_string());
    assert_eq!(deck.cards, texts(&["B", "A"]));
    assert!(deck.unknown_obtained.is_empty());
}

#[test]
fn remove_missing_card_is_noted() {
    let mut deck = MasterDeck::new(texts(&["Strike", "Defend"]));
    deck.redo(&diff(3, &[], &["Ring"], &[], &[]));
    assert_eq!(deck.unknown_obtained, texts(&["Ring"]));
    assert_eq!(deck.cards, texts(&["Strike", "Defend"]));
    assert!(deck.unknown_removed.is_empty());
}

#[test]
fn upgrade_in_place() {
    let mut deck = MasterDeck::new(texts(&["Strike", "Defend", "Defend"]));
    deck.upgrade("Defend".to_string());
    assert_eq!(deck.cards, texts(&["Strike", "Defend+1", "Defend"]));
    deck.upgrade("Defend+1".to_string());
    assert_eq!(deck.cards, texts(&["Strike", "Defend+2", "Defend"]));
    assert!(deck.unknown_obtained.is_empty());
}

#[test]
fn upgrade_missing_card_obtains_upgraded() {
    let mut deck = MasterDeck::new(texts(&["Strike"]));
    deck.upgrade("Defend".to_string());
    assert_eq!(deck.cards, texts(&["Strike", "Defend+1"]));
    assert_eq!(deck.unknown_obtained, texts(&["Defend"]));
}

#[test]
fn downgrade_in_place_and_missing() {
    let mut deck = MasterDeck::new(texts(&["Bash+2", "Strike+1"]));
    deck.downgrade("Bash+2".to_string());
    deck.downgrade("Strike+1".to_string());
    assert_eq!(deck.cards, texts(&["Bash+1", "Strike"]));
    deck.downgrade("Defend+3".to_string());
    assert_eq!(deck.cards, texts(&["Bash+1", "Strike", "Defend+2"]));
    assert_eq!(deck.unknown_obtained, texts(&["Defend+3"]));
}

#[test]
fn redo_order_obtain_upgrade_remove_transform() {
    let mut deck = MasterDeck::new(texts(&["Strike", "Defend"]));
    deck.redo(&diff(1, &["Anger"], &["Anger+1"], &["Defend"], &["Anger"]));
    assert_eq!(deck.cards, texts(&["Strike"]));
    assert!(deck.unknown_obtained.is_empty());
}

#[test]
fn obtained_then_transformed_same_floor() {
    let mut deck = MasterDeck::new(texts(&["Strike"]));
    deck.redo(&diff(2, &["Clash"], &[], &["Clash"], &[]));
    assert_eq!(deck.cards, texts(&["Strike"]));
    assert!(deck.unknown_obtained.is_empty());
}

#[test]
fn undo_after_redo_restores_cards() {
    let start = texts(&["Strike", "Strike", "Defend", "Bash"]);
    let mut deck = MasterDeck::new(start.clone());
    let d = diff(4, &["Anger", "Potion"], &["Strike"], &["Defend"], &[]);
    deck.redo(&d);
    assert_eq!(deck.cards, texts(&["Strike", "Bash", "Anger", "Potion"]));
    deck.undo(&d);
    assert_eq!(sorted(&deck.cards), sorted(&start));
    assert!(deck.unknown_obtained.is_empty());
    assert!(deck.unknown_removed.is_empty());
}

#[test]
fn undo_of_upgrade_looks_for_the_listed_card() {
    let mut deck = MasterDeck::new(texts(&["Bash"]));
    let d = diff(5, &[], &[], &[], &["Bash"]);
    deck.redo(&d);
    assert_eq!(deck.cards, texts(&["Bash+1"]));
    deck.undo(&d);
    assert_eq!(deck.cards, texts(&["Bash+1", "Bash"]));
    assert_eq!(deck.unknown_obtained, texts(&["Bash"]));
}

#[test]
fn scenario_two_floors_then_reconcile() {
    let mut deck = MasterDeck::new(texts(&["Strike", "Strike", "Defend", "Bash"]));
    deck.redo(&diff(0, &["Potion"], &[], &[], &[]));
    deck.redo(&diff(1, &[], &[], &[], &["Strike"]));
    let last = texts(&["Strike+1", "Strike", "Defend", "Bash", "Potion"]);
    deck.merge_at_last(&last);
    assert_eq!(deck.cards, last);
    assert!(deck.unknown_obtained.is_empty());
    assert!(deck.unknown_removed.is_empty());
}

#[test]
fn reconcile_records_both_kinds_of_mismatch() {
    let mut deck = MasterDeck::new(texts(&["Strike", "Defend", "Bash", "Defend"]));
    deck.merge_at_last(&texts(&["Defend", "Anger", "Strike"]));
    assert_eq!(deck.unknown_obtained, texts(&["Anger"]));
    assert_eq!(deck.unknown_removed, texts(&["Bash", "Defend"]));
    assert_eq!(deck.cards, texts(&["Strike", "Defend", "Anger"]));
}

#[test]
fn reconcile_settled_deck_records_nothing() {
    let mut deck = MasterDeck::new(texts(&["Strike", "Defend", "Strike"]));
    deck.merge_at_last(&texts(&["Defend", "Strike", "Strike"]));
    assert_eq!(deck.cards, texts(&["Strike", "Defend", "Strike"]));
    assert!(deck.unknown_obtained.is_empty());
    assert!(deck.unknown_removed.is_empty());
    deck.merge_at_last(&texts(&["Defend", "Strike", "Strike"]));
    assert!(deck.unknown_obtained.is_empty());
    assert!(deck.unknown_removed.is_empty());
}

#[test]
fn reconcile_empty_snapshot_removes_everything() {
    let mut deck = MasterDeck::new(texts(&["Strike", "Bash"]));
    deck.merge_at_last(&vec![]);
    assert!(deck.cards.is_empty());
    assert_eq!(deck.unknown_removed, texts(&["Strike", "Bash"]));
    assert!(deck.unknown_obtained.is_empty());
}

#[test]
fn reconcile_ends_with_snapshot_multiset() {
    let mut deck = MasterDeck::new(texts(&["A", "B", "B", "C"]));
    let last = texts(&["C", "B", "D", "D"]);
    deck.merge_at_last(&last);
    assert_eq!(sorted(&deck.cards), sorted(&last));
    assert_eq!(deck.unknown_obtained, texts(&["D", "D"]));
    assert_eq!(deck.unknown_removed, texts(&["A", "B"]));
}
