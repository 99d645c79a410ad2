use vstd::prelude::*;
use vstd::string::*;

verus! {

/// Fixed game data.
pub struct Resource {}

/// The Ironclad's starting cards.
pub open spec fn ironclad_deck() -> Seq<Seq<char>> {
    let strike = seq!['S', 't', 'r', 'i', 'k', 'e', '_', 'R'];
    let defend = seq!['D', 'e', 'f', 'e', 'n', 'd', '_', 'R'];
    let bash = seq!['B', 'a', 's', 'h'];
    seq![strike, strike, strike, strike, strike, defend, defend, defend, defend, bash]
}

/// The character whose starting cards are known.
pub open spec fn ironclad_text() -> Seq<char> {
    seq!['I', 'R', 'O', 'N', 'C', 'L', 'A', 'D']
}

/// The starting cards of a character: the Ironclad's, or none for any other.
pub open spec fn origin_deck(character: Seq<char>) -> Seq<Seq<char>> {
    if character == ironclad_text() {
        ironclad_deck()
    } else {
        Seq::empty()
    }
}

impl Resource {
    /// The starting cards of `character_chosen`; empty for a character that is not known.
    pub fn get_origin_deck(character_chosen: String) -> (r: Vec<String>)
        ensures
            r.deep_view() == origin_deck(character_chosen@),
    {
        let ironclad = String::from_str("IRONCLAD");
        proof {
            reveal_strlit("IRONCLAD");
            reveal_strlit("Bash");
            assert(ironclad@ =~= ironclad_text());
        }
        let mut r: Vec<String> = Vec::new();
        if character_chosen == ironclad {
            let mut i: usize = 0;
            while i < 5
                invariant
                    i <= 5,
                    r.deep_view() =~= ironclad_deck().take(i as int),
                decreases 5 - i,
            {
                let s = String::from_str("Strike_R");
                proof {
                    reveal_strlit("Strike_R");
                }
                assert(s@ =~= seq!['S', 't', 'r', 'i', 'k', 'e', '_', 'R']);
                let ghost before = r.deep_view();
                r.push(s);
                assert(r.deep_view() =~= before.push(s@));
                i = i + 1;
            }
            while i < 9
                invariant
                    5 <= i <= 9,
                    r.deep_view() =~= ironclad_deck().take(i as int),
                decreases 9 - i,
            {
                let s = String::from_str("Defend_R");
                proof {
                    reveal_strlit("Defend_R");
                }
                assert(s@ =~= seq!['D', 'e', 'f', 'e', 'n', 'd', '_', 'R']);
                let ghost before = r.deep_view();
                r.push(s);
                assert(r.deep_view() =~= before.push(s@));
                i = i + 1;
            }
            let s = String::from_str("Bash");
            assert(s@ =~= seq!['B', 'a', 's', 'h']);
            let ghost before = r.deep_view();
            r.push(s);
            assert(r.deep_view() =~= before.push(s@));
            assert(ironclad_deck().take(10) =~= ironclad_deck());
        } else {
            assert(r.deep_view() =~= Seq::<Seq<char>>::empty());
        }
        r
    }
}

} // verus!
