use deck_tracker::deck::DeckDiff;
use deck_tracker::deck::MasterDeck;
use deck_tracker::events::{
    reset_current_floor, zip_floors, CampfireChoice, CardChoice, EventChoice, FloorItem, RunEvents,
};
use deck_tracker::resource::Resource;
use deck_tracker::run::{collect_diffs, reconstruct, replay_diffs};

fn texts(items: &[&str]) -> Vec<String> {
    items.iter().map(|s| s.to_string()).collect()
}

fn no_events() -> RunEvents {
    RunEvents {
        card_choices: vec![],
        items_purchased: vec![],
        items_purged: vec![],
        campfire_choices: vec![],
        event_choices: vec![],
    }
}

fn pick(floor: i32, picked: &str) -> CardChoice {
    CardChoice { floor, picked: picked.to_string() }
}

fn item(floor: i32, name: &str) -> FloorItem {
    FloorItem { floor, item: name.to_string() }
}

fn campfire(floor: i32, key: &str, data: Option<&str>) -> CampfireChoice {
    CampfireChoice { floor, key: key.to_string(), data: data.map(|s| s.to_string()) }
}

fn fields(d: &DeckDiff) -> (i32, Vec<String>, Vec<String>, Vec<String>, Vec<String>) {
    (d.floor, d.obtained.clone(), d.removed.clone(), d.transformed.clone(), d.upgraded.clone())
}

#[test]
fn empty_floor_gives_none() {
    assert!(reset_current_floor(&no_events(), 0).is_none());
}

#[test]
fn skip_pick_adds_nothing() {
    let mut ev = no_events();
    ev.card_choices.push(pick(2, "SKIP"));
    assert!(reset_current_floor(&ev, 2).is_none());
    ev.card_choices.push(pick(2, "Anger"));
    let d = reset_current_floor(&ev, 2).unwrap();
    assert_eq!(d.obtained, texts(&["Anger"]));
}

#[test]
fn sources_accumulate_in_fixed_order() {
    let mut ev = no_events();
    ev.card_choices.push(pick(3, "Anger"));
    ev.card_choices.push(pick(4, "Clash"));
    ev.items_purchased.push(item(3, "Potion"));
    ev.items_purchased.push(item(3, "Vajra"));
    ev.items_purged.push(item(3, "Strike_R"));
    ev.campfire_choices.push(campfire(3, "PURGE", Some("Defend_R")));
    ev.event_choices.push(EventChoice {
        floor: 3,
        cards_obtained: Some(texts(&["Parasite"])),
        cards_removed: Some(texts(&["Bash"])),
        cards_transformed: Some(texts(&["Strike_R", "Defend_R"])),
        cards_upgraded: Some(texts(&["Anger"])),
    });
    let d = reset_current_floor(&ev, 3).unwrap();
    assert_eq!(
        fields(&d),
        (
            3,
            texts(&["Anger", "Potion", "Vajra", "Parasite"]),
            texts(&["Strike_R", "Defend_R", "Bash"]),
            texts(&["Strike_R", "Defend_R"]),
            texts(&["Anger"]),
        )
    );
    let d4 = reset_current_floor(&ev, 4).unwrap();
    assert_eq!(fields(&d4), (4, texts(&["Clash"]), vec![], vec![], vec![]));
}

#[test]
fn smith_upgrades_listed_card() {
    let mut ev = no_events();
    ev.campfire_choices.push(campfire(6, "SMITH", Some("Defend")));
    let d = reset_current_floor(&ev, 6).unwrap();
    assert_eq!(d.upgraded, texts(&["Defend"]));

    let mut present = MasterDeck::new(texts(&["Strike", "Defend"]));
    present.redo(&d);
    assert_eq!(present.cards, texts(&["Strike", "Defend+1"]));
    assert!(present.unknown_obtained.is_empty());

    let mut absent = MasterDeck::new(texts(&["Strike"]));
    absent.redo(&d);
    assert_eq!(absent.cards, texts(&["Strike", "Defend+1"]));
    assert_eq!(absent.unknown_obtained, texts(&["Defend"]));
}

#[test]
fn other_campfire_actions_change_nothing() {
    let mut ev = no_events();
    ev.campfire_choices.push(campfire(1, "REST", None));
    ev.campfire_choices.push(campfire(2, "LIFT", Some("Strike")));
    ev.campfire_choices.push(campfire(3, "SMITH", None));
    assert!(reset_current_floor(&ev, 1).is_none());
    assert!(reset_current_floor(&ev, 2).is_none());
    assert!(reset_current_floor(&ev, 3).is_none());
}

#[test]
fn last_campfire_record_of_a_floor_counts() {
    let mut ev = no_events();
    ev.campfire_choices.push(campfire(5, "SMITH", Some("Bash")));
    ev.campfire_choices.push(campfire(5, "PURGE", Some("Strike")));
    let d = reset_current_floor(&ev, 5).unwrap();
    assert!(d.upgraded.is_empty());
    assert_eq!(d.removed, texts(&["Strike"]));
}

#[test]
fn event_with_absent_lists() {
    let mut ev = no_events();
    ev.event_choices.push(EventChoice {
        floor: 7,
        cards_obtained: None,
        cards_removed: None,
        cards_transformed: Some(texts(&["Strike"])),
        cards_upgraded: None,
    });
    let d = reset_current_floor(&ev, 7).unwrap();
    assert_eq!(fields(&d), (7, vec![], vec![], texts(&["Strike"]), vec![]));
}

#[test]
fn zip_floors_pairs_items() {
    let v = zip_floors(&texts(&["Potion", "Vajra"]), &vec![3, 8]).unwrap();
    assert_eq!(v.len(), 2);
    assert_eq!((v[0].floor, v[0].item.as_str()), (3, "Potion"));
    assert_eq!((v[1].floor, v[1].item.as_str()), (8, "Vajra"));
    assert!(zip_floors(&vec![], &vec![]).unwrap().is_empty());
}

#[test]
fn zip_floors_rejects_missing_floors() {
    assert!(zip_floors(&texts(&["Potion", "Vajra"]), &vec![3]).is_none());
}

#[test]
fn origin_deck_of_ironclad() {
    let deck = Resource::get_origin_deck("IRONCLAD".to_string());
    assert_eq!(
        deck,
        texts(&[
            "Strike_R", "Strike_R", "Strike_R", "Strike_R", "Strike_R", "Defend_R", "Defend_R",
            "Defend_R", "Defend_R", "Bash",
        ])
    );
}

#[test]
fn origin_deck_of_unknown_character_is_empty() {
    assert!(Resource::get_origin_deck("THE_SILENT".to_string()).is_empty());
    assert!(Resource::get_origin_deck("ironclad".to_string()).is_empty());
}

#[test]
fn collect_diffs_skips_quiet_floors() {
    let mut ev = no_events();
    ev.card_choices.push(pick(1, "Anger"));
    ev.card_choices.push(pick(3, "Clash"));
    ev.card_choices.push(pick(9, "Havoc"));
    let diffs = collect_diffs(&ev, 5);
    let floors: Vec<i32> = diffs.iter().map(|d| d.floor).collect();
    assert_eq!(floors, vec![1, 3]);
    assert!(collect_diffs(&ev, 0).is_empty());
    assert!(collect_diffs(&ev, -3).is_empty());
}

#[test]
fn replay_applies_in_order() {
    let mut ev = no_events();
    ev.card_choices.push(pick(0, "Anger"));
    ev.campfire_choices.push(campfire(1, "SMITH", Some("Anger")));
    let diffs = collect_diffs(&ev, 2);
    let mut deck = MasterDeck::new(texts(&["Bash"]));
    replay_diffs(&mut deck, &diffs);
    assert_eq!(deck.cards, texts(&["Bash", "Anger+1"]));
}

#[test]
fn reconstruct_whole_run() {
    let mut ev = no_events();
    ev.card_choices.push(pick(1, "Anger"));
    ev.card_choices.push(pick(2, "SKIP"));
    ev.items_purged.push(item(3, "Strike_R"));
    ev.campfire_choices.push(campfire(4, "SMITH", Some("Bash")));
    let last = texts(&[
        "Strike_R", "Strike_R", "Strike_R", "Strike_R", "Defend_R", "Defend_R", "Defend_R",
        "Defend_R", "Bash+1", "Anger", "Carnage",
    ]);
    let deck = reconstruct("IRONCLAD".to_string(), &ev, 5, &last);
    let mut got = deck.cards.clone();
    got.sort();
    let mut want = last.clone();
    want.sort();
    assert_eq!(got, want);
    assert_eq!(deck.unknown_obtained, texts(&["Carnage"]));
    assert!(deck.unknown_removed.is_empty());
}
