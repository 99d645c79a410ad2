use vstd::prelude::*;

use crate::deck::{diff_is_empty, redo_spec, reconcile_spec, Deck, DeckDiff, Diff, MasterDeck};
use crate::events::{floor_diff, reset_current_floor, RunEvents};
use crate::resource::{origin_deck, Resource};

verus! {

/// The change records of floors `0..n` that change something, in floor order.
pub open spec fn floor_diffs(ev: RunEvents, n: int) -> Seq<Diff>
    decreases n,
{
    if n <= 0 {
        Seq::empty()
    } else {
        let prev = floor_diffs(ev, n - 1);
        let d = floor_diff(ev, (n - 1) as i32);
        if diff_is_empty(d) {
            prev
        } else {
            prev.push(d)
        }
    }
}

/// Applies each diff forward, in order.
pub open spec fn replay(d: Deck, diffs: Seq<Diff>) -> Deck
    decreases diffs.len(),
{
    if diffs.len() == 0 {
        d
    } else {
        redo_spec(replay(d, diffs.drop_last()), diffs.last())
    }
}

/// The deck at the start of a run.
pub open spec fn starting(character: Seq<char>) -> Deck {
    Deck { cards: origin_deck(character), unknown_obtained: Seq::empty(), unknown_removed: Seq::empty() }
}

/// The change records of floors `0..floor_reached` that change something.
pub fn collect_diffs(events: &RunEvents, floor_reached: i32) -> (r: Vec<DeckDiff>)
    ensures
        r@.map_values(|d: DeckDiff| d@) == floor_diffs(*events, floor_reached as int),
{
    let mut r: Vec<DeckDiff> = Vec::new();
    let mut floor: i32 = 0;
    while floor < floor_reached
        invariant
            0 <= floor,
            floor_reached <= 0 ==> floor == 0,
            floor_reached > 0 ==> floor <= floor_reached,
            r@.map_values(|d: DeckDiff| d@) == floor_diffs(*events, floor as int),
        decreases floor_reached - floor,
    {
        let ghost before = r@;
        match reset_current_floor(events, floor) {
            Some(d) => {
                r.push(d);
                assert(r@.map_values(|d: DeckDiff| d@) =~= before.map_values(|d: DeckDiff| d@).push(
                    floor_diff(*events, floor),
                ));
            },
            None => {},
        }
        floor = floor + 1;
    }
    proof {
        if floor_reached <= 0 {
            assert(floor_diffs(*events, floor_reached as int) == Seq::<Diff>::empty());
        }
    }
    r
}

/// Applies each diff of `diffs` forward, in order.
pub fn replay_diffs(deck: &mut MasterDeck, diffs: &Vec<DeckDiff>)
    ensures
        final(deck)@ == replay(old(deck)@, diffs@.map_values(|d: DeckDiff| d@)),
{
    let ghost start = deck@;
    let ghost ds = diffs@.map_values(|d: DeckDiff| d@);
    let mut i: usize = 0;
    while i < diffs.len()
        invariant
            i <= diffs.len(),
            ds == diffs@.map_values(|d: DeckDiff| d@),
            deck@ == replay(start, ds.take(i as int)),
        decreases diffs.len() - i,
    {
        deck.redo(&diffs[i]);
        assert(ds.take(i + 1).drop_last() =~= ds.take(i as int));
        i = i + 1;
    }
    assert(ds.take(i as int) =~= ds);
}

/// Rebuilds a run's deck: the character's starting cards, each floor's diff applied in
/// floor order, then reconciled against the final deck `master_deck`.
pub fn reconstruct(
    character_chosen: String,
    events: &RunEvents,
    floor_reached: i32,
    master_deck: &Vec<String>,
) -> (r: MasterDeck)
    ensures
        r@ == reconcile_spec(
            replay(starting(character_chosen@), floor_diffs(*events, floor_reached as int)),
            master_deck.deep_view(),
        ),
        r@.cards.to_multiset() == master_deck.deep_view().to_multiset(),
{
    let diffs = collect_diffs(events, floor_reached);
    let mut deck = MasterDeck::new(Resource::get_origin_deck(character_chosen));
    replay_diffs(&mut deck, &diffs);
    deck.merge_at_last(master_deck);
    deck
}

} // verus!
