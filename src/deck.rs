use vstd::prelude::*;

use crate::card::{card_text, downgrade_card, downgraded, parse_text, upgrade_card, upgraded};
use crate::deck_laws::lemma_reconcile_matches_snapshot;

verus! {

/// The change record of one floor: what was obtained, removed, transformed and upgraded.
pub struct DeckDiff {
    pub floor: i32,
    pub obtained: Vec<String>,
    pub removed: Vec<String>,
    pub transformed: Vec<String>,
    pub upgraded: Vec<String>,
}

/// The mathematical value of a [`DeckDiff`].
pub struct Diff {
    pub floor: int,
    pub obtained: Seq<Seq<char>>,
    pub removed: Seq<Seq<char>>,
    pub transformed: Seq<Seq<char>>,
    pub upgraded: Seq<Seq<char>>,
}

impl View for DeckDiff {
    type V = Diff;

    open spec fn view(&self) -> Diff {
        Diff {
            floor: self.floor as int,
            obtained: self.obtained.deep_view(),
            removed: self.removed.deep_view(),
            transformed: self.transformed.deep_view(),
            upgraded: self.upgraded.deep_view(),
        }
    }
}

/// A diff that changes nothing.
pub open spec fn diff_is_empty(d: Diff) -> bool {
    &&& d.obtained.len() == 0
    &&& d.removed.len() == 0
    &&& d.transformed.len() == 0
    &&& d.upgraded.len() == 0
}

/// The reconstructed deck, with the anomalies met while building it.
pub struct MasterDeck {
    pub cards: Vec<String>,
    pub unknown_obtained: Vec<String>,
    pub unknown_removed: Vec<String>,
}

/// The mathematical value of a [`MasterDeck`].
pub struct Deck {
    pub cards: Seq<Seq<char>>,
    pub unknown_obtained: Seq<Seq<char>>,
    pub unknown_removed: Seq<Seq<char>>,
}

impl View for MasterDeck {
    type V = Deck;

    open spec fn view(&self) -> Deck {
        Deck {
            cards: self.cards.deep_view(),
            unknown_obtained: self.unknown_obtained.deep_view(),
            unknown_removed: self.unknown_removed.deep_view(),
        }
    }
}

/// One of the primitive deck operations, each taking one card.
pub enum DeckOp {
    Obtain,
    Remove,
    Upgrade,
    Downgrade,
}

pub open spec fn obtain_spec(d: Deck, c: Seq<char>) -> Deck {
    Deck { cards: d.cards.push(c), ..d }
}

/// Deletes the first copy of `c`; with none, notes `c` as obtained through an unlogged path.
pub open spec fn remove_spec(d: Deck, c: Seq<char>) -> Deck {
    match d.cards.index_of_first(c) {
        Some(i) => Deck { cards: d.cards.remove(i), ..d },
        None => Deck { unknown_obtained: d.unknown_obtained.push(c), ..d },
    }
}

/// Puts `new` in place of the first copy of `c`; with none, notes `c` as obtained
/// through an unlogged path and obtains `new`.
pub open spec fn replace_spec(d: Deck, c: Seq<char>, new: Seq<char>) -> Deck {
    match d.cards.index_of_first(c) {
        Some(i) => Deck { cards: d.cards.update(i, new), ..d },
        None => Deck {
            cards: d.cards.push(new),
            unknown_obtained: d.unknown_obtained.push(c),
            ..d
        },
    }
}

pub open spec fn upgrade_spec(d: Deck, c: Seq<char>) -> Deck {
    replace_spec(d, c, card_text(upgraded(parse_text(c))))
}

pub open spec fn downgrade_spec(d: Deck, c: Seq<char>) -> Deck {
    replace_spec(d, c, card_text(downgraded(parse_text(c))))
}

pub open spec fn step(d: Deck, op: DeckOp, c: Seq<char>) -> Deck {
    match op {
        DeckOp::Obtain => obtain_spec(d, c),
        DeckOp::Remove => remove_spec(d, c),
        DeckOp::Upgrade => upgrade_spec(d, c),
        DeckOp::Downgrade => downgrade_spec(d, c),
    }
}

/// Applies `op` to each card of `cs`, in order.
pub open spec fn steps(d: Deck, op: DeckOp, cs: Seq<Seq<char>>) -> Deck
    decreases cs.len(),
{
    if cs.len() == 0 {
        d
    } else {
        step(steps(d, op, cs.drop_last()), op, cs.last())
    }
}

/// Forward application of a diff: obtain, then upgrade, then remove, then remove the
/// transformed cards.
pub open spec fn redo_spec(d: Deck, diff: Diff) -> Deck {
    let d1 = steps(d, DeckOp::Obtain, diff.obtained);
    let d2 = steps(d1, DeckOp::Upgrade, diff.upgraded);
    let d3 = steps(d2, DeckOp::Remove, diff.removed);
    steps(d3, DeckOp::Remove, diff.transformed)
}

/// Reverse application of a diff, in the mirror order of [`redo_spec`].
pub open spec fn undo_spec(d: Deck, diff: Diff) -> Deck {
    let d1 = steps(d, DeckOp::Obtain, diff.transformed);
    let d2 = steps(d1, DeckOp::Obtain, diff.removed);
    let d3 = steps(d2, DeckOp::Downgrade, diff.upgraded);
    steps(d3, DeckOp::Remove, diff.obtained)
}

/// Matches one card of the final snapshot: it takes the first equal entry out of the
/// working copy `w`; with none, the card is noted as obtained unlogged and obtained.
pub open spec fn match_step(w: Seq<Seq<char>>, d: Deck, c: Seq<char>) -> (Seq<Seq<char>>, Deck) {
    match w.index_of_first(c) {
        Some(i) => (w.remove(i), d),
        None => (w, obtain_spec(Deck { unknown_obtained: d.unknown_obtained.push(c), ..d }, c)),
    }
}

/// Matches each card of `cs`, in order.
pub open spec fn match_all(w: Seq<Seq<char>>, d: Deck, cs: Seq<Seq<char>>) -> (
    Seq<Seq<char>>,
    Deck,
)
    decreases cs.len(),
{
    if cs.len() == 0 {
        (w, d)
    } else {
        let (w1, d1) = match_all(w, d, cs.drop_last());
        match_step(w1, d1, cs.last())
    }
}

/// Notes each card of `cs` as removed unlogged, and removes it, in order.
pub open spec fn drop_all(d: Deck, cs: Seq<Seq<char>>) -> Deck
    decreases cs.len(),
{
    if cs.len() == 0 {
        d
    } else {
        let d1 = drop_all(d, cs.drop_last());
        remove_spec(Deck { unknown_removed: d1.unknown_removed.push(cs.last()), ..d1 }, cs.last())
    }
}

/// Reconciliation against the final snapshot `last`: its cards are matched against a
/// copy of the deck, then what the copy still holds is dropped.
pub open spec fn reconcile_spec(d: Deck, last: Seq<Seq<char>>) -> Deck {
    let (w, d1) = match_all(d.cards, d, last);
    drop_all(d1, w)
}

/// Locates the first card equal to `c`.
fn position(cards: &Vec<String>, c: &String) -> (r: Option<usize>)
    ensures
        match r {
            Some(i) => i < cards.len() && cards.deep_view().index_of_first(c@) == Some(i as int),
            None => cards.deep_view().index_of_first(c@) is None,
        },
{
    let ghost v = cards.deep_view();
    let mut i: usize = 0;
    while i < cards.len()
        invariant
            i <= cards.len(),
            v == cards.deep_view(),
            forall|j: int| 0 <= j < i ==> v[j] != c@,
        decreases cards.len() - i,
    {
        if cards[i] == *c {
            proof {
                assert(v[i as int] == c@);
                v.index_of_first_ensures(c@);
                assert(v.contains(c@));
                let k = v.index_of_first(c@).unwrap();
                if k > i {
                    assert(v[i as int] != c@);
                }
            }
            return Some(i);
        }
        i = i + 1;
    }
    proof {
        v.index_of_first_ensures(c@);
    }
    None
}

/// Copies a list of card texts.
fn copy_texts(cards: &Vec<String>) -> (r: Vec<String>)
    ensures
        r.deep_view() == cards.deep_view(),
{
    let mut r: Vec<String> = Vec::new();
    let mut i: usize = 0;
    while i < cards.len()
        invariant
            i <= cards.len(),
            r.deep_view() =~= cards.deep_view().take(i as int),
        decreases cards.len() - i,
    {
        let c = cards[i].clone();
        let ghost before = r.deep_view();
        r.push(c);
        assert(r.deep_view() =~= before.push(c@));
        assert(cards.deep_view().take(i + 1) =~= cards.deep_view().take(i as int).push(c@));
        i = i + 1;
    }
    assert(cards.deep_view().take(i as int) =~= cards.deep_view());
    r
}

impl MasterDeck {
    /// A deck holding `cards`, with no anomaly recorded.
    pub fn new(cards: Vec<String>) -> (r: MasterDeck)
        ensures
            r@ == (Deck {
                cards: cards.deep_view(),
                unknown_obtained: Seq::empty(),
                unknown_removed: Seq::empty(),
            }),
    {
        let r = MasterDeck { cards, unknown_obtained: Vec::new(), unknown_removed: Vec::new() };
        assert(r.unknown_obtained.deep_view() =~= Seq::empty());
        assert(r.unknown_removed.deep_view() =~= Seq::empty());
        r
    }

    /// Appends `card` to the deck.
    pub fn obtain(&mut self, card: String)
        ensures
            final(self)@ == obtain_spec(old(self)@, card@),
    {
        self.cards.push(card);
        assert(self.cards.deep_view() =~= old(self).cards.deep_view().push(card@));
    }

    fn note_unknown_obtained(&mut self, card: String)
        ensures
            final(self)@ == (Deck {
                unknown_obtained: old(self)@.unknown_obtained.push(card@),
                ..old(self)@
            }),
    {
        self.unknown_obtained.push(card);
        assert(self.unknown_obtained.deep_view() =~= old(self).unknown_obtained.deep_view().push(
            card@,
        ));
    }

    fn note_unknown_removed(&mut self, card: String)
        ensures
            final(self)@ == (Deck {
                unknown_removed: old(self)@.unknown_removed.push(card@),
                ..old(self)@
            }),
    {
        self.unknown_removed.push(card);
        assert(self.unknown_removed.deep_view() =~= old(self).unknown_removed.deep_view().push(
            card@,
        ));
    }

    /// Deletes the first copy of `card`; with none, records `card` as obtained through
    /// an unlogged path.
    pub fn remove(&mut self, card: String)
        ensures
            final(self)@ == remove_spec(old(self)@, card@),
    {
        match position(&self.cards, &card) {
            Some(index) => {
                self.cards.remove(index);
                assert(self.cards.deep_view() =~= old(self).cards.deep_view().remove(
                    index as int,
                ));
            },
            None => {
                self.note_unknown_obtained(card);
            },
        }
    }

    fn replace(&mut self, card: String, new: String)
        ensures
            final(self)@ == replace_spec(old(self)@, card@, new@),
    {
        match position(&self.cards, &card) {
            Some(index) => {
                self.cards.set(index, new);
                assert(self.cards.deep_view() =~= old(self).cards.deep_view().update(
                    index as int,
                    new@,
                ));
            },
            None => {
                self.note_unknown_obtained(card);
                self.obtain(new);
            },
        }
    }

    /// Raises the first copy of `card` by one level; with none, records `card` as
    /// obtained through an unlogged path and obtains the raised card.
    pub fn upgrade(&mut self, card: String)
        ensures
            final(self)@ == upgrade_spec(old(self)@, card@),
    {
        let upgraded = upgrade_card(card.clone());
        self.replace(card, upgraded);
    }

    /// Lowers the first copy of `card` by one level; with none, records `card` as
    /// obtained through an unlogged path and obtains the lowered card.
    pub fn downgrade(&mut self, card: String)
        ensures
            final(self)@ == downgrade_spec(old(self)@, card@),
    {
        let downgraded = downgrade_card(card.clone());
        self.replace(card, downgraded);
    }

    fn apply(&mut self, op: &DeckOp, card: String)
        ensures
            final(self)@ == step(old(self)@, *op, card@),
    {
        match op {
            DeckOp::Obtain => self.obtain(card),
            DeckOp::Remove => self.remove(card),
            DeckOp::Upgrade => self.upgrade(card),
            DeckOp::Downgrade => self.downgrade(card),
        }
    }

    fn apply_each(&mut self, op: &DeckOp, cards: &Vec<String>)
        ensures
            final(self)@ == steps(old(self)@, *op, cards.deep_view()),
    {
        let ghost start = self@;
        let ghost cs = cards.deep_view();
        let mut i: usize = 0;
        while i < cards.len()
            invariant
                i <= cards.len(),
                cs == cards.deep_view(),
                self@ == steps(start, *op, cs.take(i as int)),
            decreases cards.len() - i,
        {
            let c = cards[i].clone();
            self.apply(op, c);
            assert(cs.take(i + 1).drop_last() =~= cs.take(i as int));
            i = i + 1;
        }
        assert(cs.take(i as int) =~= cs);
    }

    /// Reconciles the deck with the final snapshot `last_cards`: a snapshot card that
    /// the deck lacks is recorded as obtained unlogged and obtained; a deck card that
    /// the snapshot lacks is recorded as removed unlogged and removed.
    pub fn merge_at_last(&mut self, last_cards: &Vec<String>)
        ensures
            final(self)@ == reconcile_spec(old(self)@, last_cards.deep_view()),
            final(self)@.cards.to_multiset() == last_cards.deep_view().to_multiset(),
    {
        proof {
            lemma_reconcile_matches_snapshot(self@, last_cards.deep_view());
        }
        let ghost start = self@;
        let ghost last = last_cards.deep_view();
        let mut current = copy_texts(&self.cards);
        let mut i: usize = 0;
        while i < last_cards.len()
            invariant
                i <= last_cards.len(),
                last == last_cards.deep_view(),
                (current.deep_view(), self@) == match_all(start.cards, start, last.take(i as int)),
            decreases last_cards.len() - i,
        {
            let lc = &last_cards[i];
            let ghost w0 = current.deep_view();
            let ghost d0 = self@;
            match position(&current, lc) {
                Some(index) => {
                    current.remove(index);
                    assert(current.deep_view() =~= w0.remove(index as int));
                },
                None => {
                    self.note_unknown_obtained(lc.clone());
                    self.obtain(lc.clone());
                },
            }
            assert(last.take(i + 1).drop_last() =~= last.take(i as int));
            i = i + 1;
        }
        assert(last.take(i as int) =~= last);
        let ghost mid = self@;
        let ghost rest = current.deep_view();
        let mut k: usize = 0;
        while k < current.len()
            invariant
                k <= current.len(),
                rest == current.deep_view(),
                self@ == drop_all(mid, rest.take(k as int)),
            decreases current.len() - k,
        {
            let c = &current[k];
            self.note_unknown_removed(c.clone());
            self.remove(c.clone());
            assert(rest.take(k + 1).drop_last() =~= rest.take(k as int));
            k = k + 1;
        }
        assert(rest.take(k as int) =~= rest);
    }

    /// Applies a floor's diff: obtains, then upgrades, then removals, then the
    /// transformed cards as removals.
    pub fn redo(&mut self, diff: &DeckDiff)
        ensures
            final(self)@ == redo_spec(old(self)@, diff@),
    {
        self.apply_each(&DeckOp::Obtain, &diff.obtained);
        self.apply_each(&DeckOp::Upgrade, &diff.upgraded);
        self.apply_each(&DeckOp::Remove, &diff.removed);
        self.apply_each(&DeckOp::Remove, &diff.transformed);
    }

    /// Takes back a floor's diff: obtains the transformed and the removed cards,
    /// lowers the upgraded ones, and removes the obtained ones.
    pub fn undo(&mut self, diff: &DeckDiff)
        ensures
            final(self)@ == undo_spec(old(self)@, diff@),
    {
        self.apply_each(&DeckOp::Obtain, &diff.transformed);
        self.apply_each(&DeckOp::Obtain, &diff.removed);
        self.apply_each(&DeckOp::Downgrade, &diff.upgraded);
        self.apply_each(&DeckOp::Remove, &diff.obtained);
    }
}

} // verus!
