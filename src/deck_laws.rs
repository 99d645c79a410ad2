use vstd::multiset::*;
use vstd::prelude::*;
use vstd::seq_lib::*;

use crate::deck::{
    drop_all, match_all, reconcile_spec, redo_spec, remove_spec, steps, undo_spec, Deck,
    DeckOp, Diff,
};

verus! {

broadcast use {group_to_multiset_ensures, group_multiset_axioms};

/// Each card of `cs` is in the deck at the moment `op` is applied to it.
pub open spec fn all_found(d: Deck, op: DeckOp, cs: Seq<Seq<char>>) -> bool
    decreases cs.len(),
{
    cs.len() == 0 || (all_found(d, op, cs.drop_last()) && steps(
        d,
        op,
        cs.drop_last(),
    ).cards.contains(cs.last()))
}

/// Every upgrade and removal of the forward application of `diff` finds its card.
pub open spec fn redo_finds(d: Deck, diff: Diff) -> bool {
    let d1 = steps(d, DeckOp::Obtain, diff.obtained);
    let d2 = steps(d1, DeckOp::Upgrade, diff.upgraded);
    let d3 = steps(d2, DeckOp::Remove, diff.removed);
    &&& all_found(d1, DeckOp::Upgrade, diff.upgraded)
    &&& all_found(d2, DeckOp::Remove, diff.removed)
    &&& all_found(d3, DeckOp::Remove, diff.transformed)
}

/// Every downgrade and removal of the reverse application of `diff` finds its card.
pub open spec fn undo_finds(d: Deck, diff: Diff) -> bool {
    let d1 = steps(d, DeckOp::Obtain, diff.transformed);
    let d2 = steps(d1, DeckOp::Obtain, diff.removed);
    let d3 = steps(d2, DeckOp::Downgrade, diff.upgraded);
    &&& all_found(d2, DeckOp::Downgrade, diff.upgraded)
    &&& all_found(d3, DeckOp::Remove, diff.obtained)
}

proof fn lemma_obtain_steps(d: Deck, cs: Seq<Seq<char>>)
    ensures
        steps(d, DeckOp::Obtain, cs).cards.to_multiset() == d.cards.to_multiset().add(
            cs.to_multiset(),
        ),
        steps(d, DeckOp::Obtain, cs).unknown_obtained == d.unknown_obtained,
        steps(d, DeckOp::Obtain, cs).unknown_removed == d.unknown_removed,
    decreases cs.len(),
{
    if cs.len() == 0 {
        assert(d.cards.to_multiset().add(cs.to_multiset()) =~= d.cards.to_multiset());
    } else {
        let init = cs.drop_last();
        lemma_obtain_steps(d, init);
        assert(cs =~= init.push(cs.last()));
        let prev = steps(d, DeckOp::Obtain, init);
        assert(prev.cards.push(cs.last()).to_multiset() =~= d.cards.to_multiset().add(
            cs.to_multiset(),
        ));
    }
}

proof fn lemma_remove_steps(d: Deck, cs: Seq<Seq<char>>)
    requires
        all_found(d, DeckOp::Remove, cs),
    ensures
        steps(d, DeckOp::Remove, cs).cards.to_multiset().add(cs.to_multiset())
            == d.cards.to_multiset(),
        steps(d, DeckOp::Remove, cs).unknown_obtained == d.unknown_obtained,
        steps(d, DeckOp::Remove, cs).unknown_removed == d.unknown_removed,
    decreases cs.len(),
{
    if cs.len() == 0 {
        assert(d.cards.to_multiset().add(cs.to_multiset()) =~= d.cards.to_multiset());
    } else {
        let init = cs.drop_last();
        let c = cs.last();
        lemma_remove_steps(d, init);
        assert(cs =~= init.push(c));
        let prev = steps(d, DeckOp::Remove, init);
        prev.cards.index_of_first_ensures(c);
        let i = prev.cards.index_of_first(c).unwrap();
        assert(prev.cards.remove(i).to_multiset() == prev.cards.to_multiset().remove(c));
        assert(steps(d, DeckOp::Remove, cs) == remove_spec(prev, c));
        assert(prev.cards.remove(i).to_multiset().add(cs.to_multiset())
            =~= d.cards.to_multiset());
    }
}

/// When every step finds its card and the diff upgrades nothing, applying it forward
/// and then in reverse gives back the same cards (as a multiset: the cards put back go
/// to the end) and records no anomaly.
pub proof fn lemma_redo_undo_round_trip(d: Deck, diff: Diff)
    requires
        diff.upgraded.len() == 0,
        redo_finds(d, diff),
        undo_finds(redo_spec(d, diff), diff),
    ensures
        undo_spec(redo_spec(d, diff), diff).cards.to_multiset() == d.cards.to_multiset(),
        undo_spec(redo_spec(d, diff), diff).unknown_obtained == d.unknown_obtained,
        undo_spec(redo_spec(d, diff), diff).unknown_removed == d.unknown_removed,
{
    let d1 = steps(d, DeckOp::Obtain, diff.obtained);
    let d2 = steps(d1, DeckOp::Upgrade, diff.upgraded);
    let d3 = steps(d2, DeckOp::Remove, diff.removed);
    let d4 = steps(d3, DeckOp::Remove, diff.transformed);
    lemma_obtain_steps(d, diff.obtained);
    assert(d2 == d1);
    lemma_remove_steps(d2, diff.removed);
    lemma_remove_steps(d3, diff.transformed);
    let e1 = steps(d4, DeckOp::Obtain, diff.transformed);
    let e2 = steps(e1, DeckOp::Obtain, diff.removed);
    let e3 = steps(e2, DeckOp::Downgrade, diff.upgraded);
    let e4 = steps(e3, DeckOp::Remove, diff.obtained);
    lemma_obtain_steps(d4, diff.transformed);
    lemma_obtain_steps(e1, diff.removed);
    assert(e3 == e2);
    lemma_remove_steps(e3, diff.obtained);
    let o = diff.obtained.to_multiset();
    let r = diff.removed.to_multiset();
    let t = diff.transformed.to_multiset();
    assert forall|v: Seq<char>|
        e4.cards.to_multiset().count(v) == d.cards.to_multiset().count(v) by {
        assert(e4.cards.to_multiset().add(o).count(v) == e3.cards.to_multiset().count(v));
        assert(e2.cards.to_multiset().count(v) == e1.cards.to_multiset().add(r).count(v));
        assert(e1.cards.to_multiset().count(v) == d4.cards.to_multiset().add(t).count(v));
        assert(d4.cards.to_multiset().add(t).count(v) == d3.cards.to_multiset().count(v));
        assert(d3.cards.to_multiset().add(r).count(v) == d2.cards.to_multiset().count(v));
        assert(d1.cards.to_multiset().count(v) == d.cards.to_multiset().add(o).count(v));
    }
    assert(e4.cards.to_multiset() =~= d.cards.to_multiset());
}

proof fn lemma_match_all_present(d: Deck, cs: Seq<Seq<char>>)
    requires
        cs.to_multiset().subset_of(d.cards.to_multiset()),
    ensures
        match_all(d.cards, d, cs).1 == d,
        match_all(d.cards, d, cs).0.to_multiset().add(cs.to_multiset()) == d.cards.to_multiset(),
    decreases cs.len(),
{
    if cs.len() == 0 {
        assert(d.cards.to_multiset().add(cs.to_multiset()) =~= d.cards.to_multiset());
    } else {
        let init = cs.drop_last();
        let c = cs.last();
        assert(cs =~= init.push(c));
        assert(init.to_multiset().subset_of(d.cards.to_multiset())) by {
            assert forall|v: Seq<char>|
                init.to_multiset().count(v) <= d.cards.to_multiset().count(v) by {
                assert(init.to_multiset().count(v) <= cs.to_multiset().count(v));
            }
        }
        lemma_match_all_present(d, init);
        let w = match_all(d.cards, d, init).0;
        assert(init.push(c).to_multiset() == init.to_multiset().insert(c));
        assert(cs.to_multiset().count(c) <= d.cards.to_multiset().count(c));
        assert(w.to_multiset().add(init.to_multiset()).count(c) == d.cards.to_multiset().count(c));
        assert(w.to_multiset().count(c) > 0);
        assert(w.contains(c));
        w.index_of_first_ensures(c);
        let i = w.index_of_first(c).unwrap();
        assert(w.remove(i).to_multiset() == w.to_multiset().remove(c));
        assert(w.remove(i).to_multiset().add(cs.to_multiset()) =~= d.cards.to_multiset());
    }
}

/// Reconciling a deck whose cards already equal the final snapshot as a multiset
/// changes nothing: no card moves and no anomaly is recorded.
pub proof fn lemma_reconcile_settled(d: Deck, last: Seq<Seq<char>>)
    requires
        d.cards.to_multiset() == last.to_multiset(),
    ensures
        reconcile_spec(d, last) == d,
{
    lemma_match_all_present(d, last);
    let w = match_all(d.cards, d, last).0;
    assert forall|v: Seq<char>| w.to_multiset().count(v) == 0 by {
        assert(w.to_multiset().add(last.to_multiset()).count(v) == last.to_multiset().count(v));
    }
    assert(w.to_multiset() =~= Multiset::<Seq<char>>::empty());
    assert(w.to_multiset().len() == 0);
    assert(w.len() == 0);
}

proof fn lemma_match_all_net(d: Deck, cs: Seq<Seq<char>>)
    ensures
        match_all(d.cards, d, cs).1.cards.to_multiset() == match_all(
            d.cards,
            d,
            cs,
        ).0.to_multiset().add(cs.to_multiset()),
        match_all(d.cards, d, cs).0.to_multiset().subset_of(d.cards.to_multiset()),
    decreases cs.len(),
{
    if cs.len() == 0 {
        assert(d.cards.to_multiset().add(cs.to_multiset()) =~= d.cards.to_multiset());
    } else {
        let init = cs.drop_last();
        let c = cs.last();
        assert(cs =~= init.push(c));
        lemma_match_all_net(d, init);
        let (w, d1) = match_all(d.cards, d, init);
        assert(init.push(c).to_multiset() == init.to_multiset().insert(c));
        w.index_of_first_ensures(c);
        match w.index_of_first(c) {
            Some(i) => {
                assert(w.remove(i).to_multiset() == w.to_multiset().remove(c));
                assert(d1.cards.to_multiset() =~= w.remove(i).to_multiset().add(cs.to_multiset()));
            },
            None => {
                assert(d1.cards.push(c).to_multiset() == d1.cards.to_multiset().insert(c));
                assert(d1.cards.push(c).to_multiset() =~= w.to_multiset().add(cs.to_multiset()));
            },
        }
    }
}

proof fn lemma_drop_all_net(d: Deck, ws: Seq<Seq<char>>)
    requires
        ws.to_multiset().subset_of(d.cards.to_multiset()),
    ensures
        drop_all(d, ws).cards.to_multiset().add(ws.to_multiset()) == d.cards.to_multiset(),
    decreases ws.len(),
{
    if ws.len() == 0 {
        assert(d.cards.to_multiset().add(ws.to_multiset()) =~= d.cards.to_multiset());
    } else {
        let init = ws.drop_last();
        let c = ws.last();
        assert(ws =~= init.push(c));
        assert(init.push(c).to_multiset() == init.to_multiset().insert(c));
        assert(init.to_multiset().subset_of(d.cards.to_multiset())) by {
            assert forall|v: Seq<char>|
                init.to_multiset().count(v) <= d.cards.to_multiset().count(v) by {
                assert(init.to_multiset().count(v) <= ws.to_multiset().count(v));
            }
        }
        lemma_drop_all_net(d, init);
        let prev = drop_all(d, init);
        assert(ws.to_multiset().count(c) <= d.cards.to_multiset().count(c));
        assert(prev.cards.to_multiset().add(init.to_multiset()).count(c) == d.cards.to_multiset().count(c));
        assert(prev.cards.to_multiset().count(c) > 0);
        assert(prev.cards.contains(c));
        prev.cards.index_of_first_ensures(c);
        let i = prev.cards.index_of_first(c).unwrap();
        assert(prev.cards.remove(i).to_multiset() == prev.cards.to_multiset().remove(c));
        assert(prev.cards.remove(i).to_multiset().add(ws.to_multiset()) =~= d.cards.to_multiset());
    }
}

/// After reconciliation the deck holds the same cards as the final snapshot, as a
/// multiset.
pub proof fn lemma_reconcile_matches_snapshot(d: Deck, last: Seq<Seq<char>>)
    ensures
        reconcile_spec(d, last).cards.to_multiset() == last.to_multiset(),
{
    lemma_match_all_net(d, last);
    let (w, d1) = match_all(d.cards, d, last);
    assert(w.to_multiset().subset_of(d1.cards.to_multiset()));
    lemma_drop_all_net(d1, w);
    let r = drop_all(d1, w);
    assert forall|v: Seq<char>| r.cards.to_multiset().count(v) == last.to_multiset().count(v) by {
        assert(r.cards.to_multiset().add(w.to_multiset()).count(v) == d1.cards.to_multiset().count(v));
        assert(d1.cards.to_multiset().count(v) == w.to_multiset().add(last.to_multiset()).count(v));
    }
    assert(r.cards.to_multiset() =~= last.to_multiset());
}

} // verus!
