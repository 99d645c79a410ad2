use vstd::prelude::*;
use vstd::string::*;

use crate::deck::{diff_is_empty, Diff, DeckDiff};

verus! {

/// A card offered after a fight on `floor`, and the one picked (or the skip marker).
pub struct CardChoice {
    pub floor: i32,
    pub picked: String,
}

/// An item bought or purged on `floor`.
pub struct FloorItem {
    pub floor: i32,
    pub item: String,
}

/// A rest-site action on `floor`: `key` names the action, `data` the card it acts on.
pub struct CampfireChoice {
    pub floor: i32,
    pub key: String,
    pub data: Option<String>,
}

/// The outcome of a narrative event on `floor`.
pub struct EventChoice {
    pub floor: i32,
    pub cards_obtained: Option<Vec<String>>,
    pub cards_removed: Option<Vec<String>>,
    pub cards_transformed: Option<Vec<String>>,
    pub cards_upgraded: Option<Vec<String>>,
}

/// The event records of one run, each tagged with its floor.
pub struct RunEvents {
    pub card_choices: Vec<CardChoice>,
    pub items_purchased: Vec<FloorItem>,
    pub items_purged: Vec<FloorItem>,
    pub campfire_choices: Vec<CampfireChoice>,
    pub event_choices: Vec<EventChoice>,
}

/// The pick that declines a card reward.
pub open spec fn skip_text() -> Seq<char> {
    seq!['S', 'K', 'I', 'P']
}

/// The rest-site action that upgrades a card.
pub open spec fn smith_text() -> Seq<char> {
    seq!['S', 'M', 'I', 'T', 'H']
}

/// The rest-site action that removes a card.
pub open spec fn purge_text() -> Seq<char> {
    seq!['P', 'U', 'R', 'G', 'E']
}

/// The cards picked on `floor`, skips left out, in record order.
pub open spec fn picks_on(cs: Seq<CardChoice>, floor: i32) -> Seq<Seq<char>>
    decreases cs.len(),
{
    if cs.len() == 0 {
        Seq::empty()
    } else {
        let rest = picks_on(cs.drop_last(), floor);
        let c = cs.last();
        if c.floor == floor && c.picked@ != skip_text() {
            rest.push(c.picked@)
        } else {
            rest
        }
    }
}

/// The items recorded on `floor`, in record order.
pub open spec fn items_on(items: Seq<FloorItem>, floor: i32) -> Seq<Seq<char>>
    decreases items.len(),
{
    if items.len() == 0 {
        Seq::empty()
    } else {
        let rest = items_on(items.drop_last(), floor);
        if items.last().floor == floor {
            rest.push(items.last().item@)
        } else {
            rest
        }
    }
}

/// The last rest-site record of `floor`, if any.
pub open spec fn campfire_on(cs: Seq<CampfireChoice>, floor: i32) -> Option<CampfireChoice>
    decreases cs.len(),
{
    if cs.len() == 0 {
        None
    } else if cs.last().floor == floor {
        Some(cs.last())
    } else {
        campfire_on(cs.drop_last(), floor)
    }
}

/// The last event record of `floor`, if any.
pub open spec fn event_on(es: Seq<EventChoice>, floor: i32) -> Option<EventChoice>
    decreases es.len(),
{
    if es.len() == 0 {
        None
    } else if es.last().floor == floor {
        Some(es.last())
    } else {
        event_on(es.drop_last(), floor)
    }
}

/// The card a rest-site record acts on when its action is `key`.
pub open spec fn campfire_cards(c: Option<CampfireChoice>, key: Seq<char>) -> Seq<Seq<char>> {
    match c {
        Some(cf) => match cf.data {
            Some(card) => if cf.key@ == key {
                seq![card@]
            } else {
                Seq::empty()
            },
            None => Seq::empty(),
        },
        None => Seq::empty(),
    }
}

pub open spec fn opt_texts(o: Option<Vec<String>>) -> Seq<Seq<char>> {
    match o {
        Some(v) => v.deep_view(),
        None => Seq::empty(),
    }
}

pub open spec fn event_obtained(e: Option<EventChoice>) -> Seq<Seq<char>> {
    match e {
        Some(ev) => opt_texts(ev.cards_obtained),
        None => Seq::empty(),
    }
}

pub open spec fn event_removed(e: Option<EventChoice>) -> Seq<Seq<char>> {
    match e {
        Some(ev) => opt_texts(ev.cards_removed),
        None => Seq::empty(),
    }
}

pub open spec fn event_transformed(e: Option<EventChoice>) -> Seq<Seq<char>> {
    match e {
        Some(ev) => opt_texts(ev.cards_transformed),
        None => Seq::empty(),
    }
}

pub open spec fn event_upgraded(e: Option<EventChoice>) -> Seq<Seq<char>> {
    match e {
        Some(ev) => opt_texts(ev.cards_upgraded),
        None => Seq::empty(),
    }
}

/// The change record of `floor`: picks, then purchases, then purges, then the rest-site
/// action, then the event outcome, each appended to the field it feeds.
pub open spec fn floor_diff(ev: RunEvents, floor: i32) -> Diff {
    let camp = campfire_on(ev.campfire_choices@, floor);
    let event = event_on(ev.event_choices@, floor);
    Diff {
        floor: floor as int,
        obtained: picks_on(ev.card_choices@, floor) + items_on(ev.items_purchased@, floor)
            + event_obtained(event),
        removed: items_on(ev.items_purged@, floor) + campfire_cards(camp, purge_text())
            + event_removed(event),
        transformed: event_transformed(event),
        upgraded: campfire_cards(camp, smith_text()) + event_upgraded(event),
    }
}

/// Appends copies of `src` to `out`.
fn append_texts(out: &mut Vec<String>, src: &Vec<String>)
    ensures
        final(out).deep_view() == old(out).deep_view() + src.deep_view(),
{
    let ghost start = out.deep_view();
    let mut i: usize = 0;
    while i < src.len()
        invariant
            i <= src.len(),
            out.deep_view() =~= start + src.deep_view().take(i as int),
        decreases src.len() - i,
    {
        let c = src[i].clone();
        let ghost before = out.deep_view();
        out.push(c);
        assert(out.deep_view() =~= before.push(c@));
        assert(src.deep_view().take(i + 1) =~= src.deep_view().take(i as int).push(c@));
        i = i + 1;
    }
    assert(src.deep_view().take(i as int) =~= src.deep_view());
}

fn append_opt_texts(out: &mut Vec<String>, src: &Option<Vec<String>>)
    ensures
        final(out).deep_view() == old(out).deep_view() + opt_texts(*src),
{
    match src {
        Some(v) => append_texts(out, v),
        None => {
            assert(out.deep_view() =~= out.deep_view() + Seq::<Seq<char>>::empty());
        },
    }
}

fn push_text(out: &mut Vec<String>, c: String)
    ensures
        final(out).deep_view() == old(out).deep_view().push(c@),
{
    out.push(c);
    assert(out.deep_view() =~= old(out).deep_view().push(c@));
}

/// Collects the change record of `floor` from the run's events; `None` when the floor
/// changes nothing.
pub fn reset_current_floor(events: &RunEvents, floor: i32) -> (r: Option<DeckDiff>)
    ensures
        match r {
            Some(d) => d@ == floor_diff(*events, floor) && !diff_is_empty(d@),
            None => diff_is_empty(floor_diff(*events, floor)),
        },
{
    let skip = String::from_str("SKIP");
    let smith = String::from_str("SMITH");
    let purge = String::from_str("PURGE");
    proof {
        reveal_strlit("SKIP");
        reveal_strlit("SMITH");
        reveal_strlit("PURGE");
        assert(skip@ =~= skip_text());
        assert(smith@ =~= smith_text());
        assert(purge@ =~= purge_text());
    }
    let mut obtained: Vec<String> = Vec::new();
    let mut removed: Vec<String> = Vec::new();
    let mut transformed: Vec<String> = Vec::new();
    let mut upgraded: Vec<String> = Vec::new();
    assert(obtained.deep_view() =~= Seq::empty());
    assert(removed.deep_view() =~= Seq::empty());
    assert(transformed.deep_view() =~= Seq::empty());
    assert(upgraded.deep_view() =~= Seq::empty());

    let ghost ccs = events.card_choices@;
    let mut i: usize = 0;
    while i < events.card_choices.len()
        invariant
            i <= ccs.len(),
            ccs == events.card_choices@,
            skip@ == skip_text(),
            obtained.deep_view() == picks_on(ccs.take(i as int), floor),
        decreases ccs.len() - i,
    {
        let cc = &events.card_choices[i];
        assert(ccs.take(i + 1).drop_last() =~= ccs.take(i as int));
        if cc.floor == floor && !(cc.picked == skip) {
            push_text(&mut obtained, cc.picked.clone());
        }
        i = i + 1;
    }
    assert(ccs.take(i as int) =~= ccs);

    let ghost bought = events.items_purchased@;
    let ghost obtained_picks = obtained.deep_view();
    let mut i: usize = 0;
    while i < events.items_purchased.len()
        invariant
            i <= bought.len(),
            bought == events.items_purchased@,
            obtained.deep_view() == obtained_picks + items_on(bought.take(i as int), floor),
        decreases bought.len() - i,
    {
        let it = &events.items_purchased[i];
        assert(bought.take(i + 1).drop_last() =~= bought.take(i as int));
        if it.floor == floor {
            push_text(&mut obtained, it.item.clone());
        }
        i = i + 1;
    }
    assert(bought.take(i as int) =~= bought);

    let ghost purged = events.items_purged@;
    let mut i: usize = 0;
    while i < events.items_purged.len()
        invariant
            i <= purged.len(),
            purged == events.items_purged@,
            removed.deep_view() == items_on(purged.take(i as int), floor),
        decreases purged.len() - i,
    {
        let it = &events.items_purged[i];
        assert(purged.take(i + 1).drop_last() =~= purged.take(i as int));
        if it.floor == floor {
            push_text(&mut removed, it.item.clone());
        }
        i = i + 1;
    }
    assert(purged.take(i as int) =~= purged);

    let ghost cfs = events.campfire_choices@;
    let mut camp: Option<usize> = None;
    let mut i: usize = 0;
    while i < events.campfire_choices.len()
        invariant
            i <= cfs.len(),
            cfs == events.campfire_choices@,
            match camp {
                Some(j) => j < cfs.len() && campfire_on(cfs.take(i as int), floor) == Some(
                    cfs[j as int],
                ),
                None => campfire_on(cfs.take(i as int), floor) is None,
            },
        decreases cfs.len() - i,
    {
        assert(cfs.take(i + 1).drop_last() =~= cfs.take(i as int));
        if events.campfire_choices[i].floor == floor {
            camp = Some(i);
        }
        i = i + 1;
    }
    assert(cfs.take(i as int) =~= cfs);
    let ghost camp_spec = campfire_on(cfs, floor);
    let ghost removed_before = removed.deep_view();
    let ghost upgraded_before = upgraded.deep_view();
    match camp {
        Some(j) => {
            let cf = &events.campfire_choices[j];
            match &cf.data {
                Some(card) => {
                    if cf.key == smith {
                        push_text(&mut upgraded, card.clone());
                    } else if cf.key == purge {
                        push_text(&mut removed, card.clone());
                    }
                },
                None => {},
            }
        },
        None => {},
    }
    assert(removed.deep_view() =~= removed_before + campfire_cards(camp_spec, purge_text()));
    assert(upgraded.deep_view() =~= upgraded_before + campfire_cards(camp_spec, smith_text()));

    let ghost evs = events.event_choices@;
    let mut event: Option<usize> = None;
    let mut i: usize = 0;
    while i < events.event_choices.len()
        invariant
            i <= evs.len(),
            evs == events.event_choices@,
            match event {
                Some(j) => j < evs.len() && event_on(evs.take(i as int), floor) == Some(
                    evs[j as int],
                ),
                None => event_on(evs.take(i as int), floor) is None,
            },
        decreases evs.len() - i,
    {
        assert(evs.take(i + 1).drop_last() =~= evs.take(i as int));
        if events.event_choices[i].floor == floor {
            event = Some(i);
        }
        i = i + 1;
    }
    assert(evs.take(i as int) =~= evs);
    let ghost event_spec = event_on(evs, floor);
    let ghost o0 = obtained.deep_view();
    let ghost r0 = removed.deep_view();
    let ghost t0 = transformed.deep_view();
    let ghost u0 = upgraded.deep_view();
    match event {
        Some(j) => {
            let ec = &events.event_choices[j];
            append_opt_texts(&mut obtained, &ec.cards_obtained);
            append_opt_texts(&mut removed, &ec.cards_removed);
            append_opt_texts(&mut transformed, &ec.cards_transformed);
            append_opt_texts(&mut upgraded, &ec.cards_upgraded);
        },
        None => {},
    }
    assert(obtained.deep_view() =~= o0 + event_obtained(event_spec));
    assert(removed.deep_view() =~= r0 + event_removed(event_spec));
    assert(transformed.deep_view() =~= t0 + event_transformed(event_spec));
    assert(upgraded.deep_view() =~= u0 + event_upgraded(event_spec));

    if obtained.len() > 0 || removed.len() > 0 || transformed.len() > 0 || upgraded.len() > 0 {
        Some(DeckDiff { floor, obtained, removed, transformed, upgraded })
    } else {
        None
    }
}

/// Pairs each item with the floor at the same position; `None` when there are fewer
/// floors than items.
pub fn zip_floors(items: &Vec<String>, floors: &Vec<i32>) -> (r: Option<Vec<FloorItem>>)
    ensures
        r is Some <==> items.len() <= floors.len(),
        r matches Some(v) ==> v.len() == items.len() && forall|i: int|
            0 <= i < items.len() ==> (#[trigger] v[i]).floor == floors[i] && v[i].item@
                == items[i]@,
{
    if floors.len() < items.len() {
        return None;
    }
    let mut v: Vec<FloorItem> = Vec::new();
    let mut i: usize = 0;
    while i < items.len()
        invariant
            i <= items.len() <= floors.len(),
            v.len() == i,
            forall|j: int| 0 <= j < i ==> (#[trigger] v[j]).floor == floors[j] && v[j].item@ == items[j]@,
        decreases items.len() - i,
    {
        v.push(FloorItem { floor: floors[i], item: items[i].clone() });
        i = i + 1;
    }
    Some(v)
}

} // verus!
