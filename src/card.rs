use vstd::prelude::*;
use vstd::string::*;

verus! {

/// A card identifier: a base name and an upgrade level (0 for the base card).
pub struct CardId {
    pub name: String,
    pub level: u32,
}

/// The mathematical value of a card identifier.
pub struct Card {
    pub name: Seq<char>,
    pub level: nat,
}

impl View for CardId {
    type V = Card;

    open spec fn view(&self) -> Card {
        Card { name: self.name@, level: self.level as nat }
    }
}

pub open spec fn is_digit(c: char) -> bool {
    '0' <= c && c <= '9'
}

pub open spec fn digit_value(c: char) -> nat {
    (c as int - '0' as int) as nat
}

/// The value of a run of decimal digits, most significant first.
pub open spec fn digits_value(s: Seq<char>) -> nat
    decreases s.len(),
{
    if s.len() == 0 {
        0
    } else {
        digits_value(s.drop_last()) * 10 + digit_value(s.last())
    }
}

pub open spec fn all_digits(s: Seq<char>) -> bool {
    forall|i: int| 0 <= i < s.len() ==> is_digit(#[trigger] s[i])
}

/// Text that reads as a level: one or more decimal digits whose value fits in a `u32`.
pub open spec fn is_level_text(s: Seq<char>) -> bool {
    &&& s.len() > 0
    &&& all_digits(s)
    &&& digits_value(s) <= u32::MAX
}

/// The position of the last `+` in `s`, or -1 when there is none.
pub open spec fn last_plus(s: Seq<char>) -> int
    decreases s.len(),
{
    if s.len() == 0 {
        -1
    } else if s.last() == '+' {
        s.len() - 1
    } else {
        last_plus(s.drop_last())
    }
}

/// Whatever follows the last `+` of `s` reads as a level.
pub open spec fn has_level_suffix(s: Seq<char>) -> bool {
    last_plus(s) >= 0 && is_level_text(s.subrange(last_plus(s) + 1, s.len() as int))
}

/// Splits a textual card identifier on its last `+`: a numeric suffix is the level,
/// otherwise the whole text is the name at level 0.
pub open spec fn parse_text(s: Seq<char>) -> Card {
    if has_level_suffix(s) {
        Card {
            name: s.subrange(0, last_plus(s)),
            level: digits_value(s.subrange(last_plus(s) + 1, s.len() as int)),
        }
    } else {
        Card { name: s, level: 0 }
    }
}

pub open spec fn digit_char(d: nat) -> char {
    if d == 0 {
        '0'
    } else if d == 1 {
        '1'
    } else if d == 2 {
        '2'
    } else if d == 3 {
        '3'
    } else if d == 4 {
        '4'
    } else if d == 5 {
        '5'
    } else if d == 6 {
        '6'
    } else if d == 7 {
        '7'
    } else if d == 8 {
        '8'
    } else {
        '9'
    }
}

/// The decimal notation of `n`, without leading zeros.
pub open spec fn decimal(n: nat) -> Seq<char>
    decreases n,
{
    if n < 10 {
        seq![digit_char(n)]
    } else {
        decimal(n / 10).push(digit_char(n % 10))
    }
}

/// Canonical text of a card: `name` at level 0, `name+level` above it.
pub open spec fn card_text(c: Card) -> Seq<char> {
    if c.level == 0 {
        c.name
    } else {
        c.name + seq!['+'] + decimal(c.level)
    }
}

/// The same card one level higher.
pub open spec fn upgraded(c: Card) -> Card {
    Card { name: c.name, level: c.level + 1 }
}

/// The same card one level lower; levels 0 and 1 both come down to the bare name.
pub open spec fn downgraded(c: Card) -> Card {
    Card { name: c.name, level: if c.level > 1 { (c.level - 1) as nat } else { 0 } }
}

proof fn lemma_last_plus_found(s: Seq<char>, p: int)
    requires
        0 <= p < s.len(),
        s[p] == '+',
        forall|j: int| p < j < s.len() ==> s[j] != '+',
    ensures
        last_plus(s) == p,
    decreases s.len(),
{
    if s.last() != '+' {
        lemma_last_plus_found(s.drop_last(), p);
    }
}

proof fn lemma_last_plus_none(s: Seq<char>)
    requires
        forall|j: int| 0 <= j < s.len() ==> s[j] != '+',
    ensures
        last_plus(s) == -1,
    decreases s.len(),
{
    if s.len() > 0 {
        lemma_last_plus_none(s.drop_last());
    }
}

proof fn lemma_digits_prefix_bound(s: Seq<char>, k: int)
    requires
        0 <= k <= s.len(),
        all_digits(s),
    ensures
        digits_value(s.subrange(0, k)) <= digits_value(s),
    decreases s.len(),
{
    if k < s.len() {
        assert(s.drop_last() =~= s.subrange(0, s.len() - 1));
        assert(s.drop_last().subrange(0, k) =~= s.subrange(0, k));
        lemma_digits_prefix_bound(s.drop_last(), k);
    } else {
        assert(s.subrange(0, k) =~= s);
    }
}

/// Reads a textual card identifier into its name and level.
pub fn get_card_upgraded(card: &String) -> (r: CardId)
    ensures
        r@ == parse_text(card@),
{
    let s = card.as_str();
    let n = s.unicode_len();
    let mut i: usize = n;
    while i > 0
        invariant
            i <= n,
            n == s@.len(),
            s@ == card@,
            forall|j: int| i <= j < n ==> s@[j] != '+',
        ensures
            i == 0 || s@[i - 1] == '+',
        decreases i,
    {
        if s.get_char(i - 1) == '+' {
            break;
        }
        i = i - 1;
    }
    if i == 0 {
        proof {
            lemma_last_plus_none(card@);
        }
        return CardId { name: card.clone(), level: 0 };
    }
    let p: usize = i - 1;
    proof {
        lemma_last_plus_found(card@, p as int);
    }
    let ghost suffix = card@.subrange(p + 1, n as int);
    let mut k: usize = p + 1;
    let mut value: u64 = 0;
    let mut ok: bool = k < n;
    while k < n
        invariant_except_break
            k < n ==> ok,
        invariant
            p < k <= n,
            n == s@.len(),
            s@ == card@,
            suffix == card@.subrange(p + 1, n as int),
            value <= u32::MAX,
            ok ==> value == digits_value(card@.subrange(p + 1, k as int)),
            ok ==> all_digits(card@.subrange(p + 1, k as int)),
            !ok ==> !is_level_text(suffix),
            ok ==> suffix.len() > 0,
        ensures
            ok ==> k == n,
        decreases n - k,
    {
        let c = s.get_char(k);
        if c < '0' || c > '9' {
            ok = false;
            assert(suffix[k - p - 1] == c);
            break;
        }
        let ghost before = card@.subrange(p + 1, k as int);
        let ghost after = card@.subrange(p + 1, k + 1);
        assert(after.drop_last() =~= before);
        assert(after.last() == c);
        assert(all_digits(after)) by {
            assert forall|j: int| 0 <= j < after.len() implies is_digit(#[trigger] after[j]) by {
                if j < before.len() {
                    assert(after[j] == before[j]);
                }
            }
        }
        let d = (c as u32 - '0' as u32) as u64;
        assert(d == digit_value(c));
        value = value * 10 + d;
        if value > u32::MAX as u64 {
            ok = false;
            proof {
                if all_digits(suffix) {
                    lemma_digits_prefix_bound(suffix, k + 1 - p - 1);
                    assert(suffix.subrange(0, k + 1 - p - 1) =~= after);
                }
            }
            value = 0;
            break;
        }
        k = k + 1;
    }
    if ok {
        assert(card@.subrange(p + 1, k as int) =~= suffix);
        let name = String::from_str(s.substring_char(0, p));
        CardId { name, level: value as u32 }
    } else {
        CardId { name: card.clone(), level: 0 }
    }
}

proof fn lemma_digit_char(d: nat)
    requires
        d < 10,
    ensures
        is_digit(digit_char(d)),
        digit_value(digit_char(d)) == d,
{
}

proof fn lemma_decimal(n: nat)
    ensures
        decimal(n).len() > 0,
        all_digits(decimal(n)),
        digits_value(decimal(n)) == n,
    decreases n,
{
    lemma_digit_char(n % 10);
    if n < 10 {
        assert(decimal(n).drop_last() =~= Seq::<char>::empty());
        assert(digits_value(Seq::<char>::empty()) == 0);
    } else {
        lemma_decimal(n / 10);
        let s = decimal(n);
        assert(s.drop_last() =~= decimal(n / 10));
        assert(all_digits(s)) by {
            assert forall|j: int| 0 <= j < s.len() implies is_digit(#[trigger] s[j]) by {
                if j < s.len() - 1 {
                    assert(s[j] == decimal(n / 10)[j]);
                }
            }
        }
        assert(s.last() == digit_char(n % 10));
        assert(digits_value(s) == digits_value(decimal(n / 10)) * 10 + digit_value(s.last()));
        assert(n == (n / 10) * 10 + n % 10) by (nonlinear_arith);
    }
}

/// A card above level 0 reads back from its canonical text unchanged.
proof fn lemma_parse_leveled(c: Card)
    requires
        0 < c.level <= u32::MAX,
    ensures
        parse_text(card_text(c)) == c,
{
    let d = decimal(c.level);
    lemma_decimal(c.level);
    let t = c.name + seq!['+'] + d;
    let p = c.name.len() as int;
    assert(t[p] == '+');
    assert forall|j: int| p < j < t.len() implies t[j] != '+' by {
        assert(t[j] == d[j - p - 1]);
        assert(is_digit(d[j - p - 1]));
    }
    lemma_last_plus_found(t, p);
    assert(t.subrange(p + 1, t.len() as int) =~= d);
    assert(t.subrange(0, p) =~= c.name);
}

/// A card at level 0 whose name carries no numeric `+` suffix is written as its bare
/// name, and reads back from it unchanged.
pub proof fn lemma_base_card_round_trip(c: Card)
    requires
        c.level == 0,
        !has_level_suffix(c.name),
    ensures
        card_text(c) == c.name,
        parse_text(card_text(c)) == c,
{
}

/// Raising a card by one level and writing it out reads back as the same name one level up.
pub proof fn lemma_upgrade_round_trip(c: Card)
    requires
        c.level < u32::MAX,
    ensures
        parse_text(card_text(upgraded(c))) == (Card { name: c.name, level: c.level + 1 }),
{
    lemma_parse_leveled(upgraded(c));
}

/// Lowering a card at level 0 or 1 gives the bare name at level 0; lowering a card at
/// level 2 or more takes one level off and keeps it written with its level.
pub proof fn lemma_downgrade_levels(c: Card)
    requires
        c.level <= u32::MAX,
    ensures
        c.level <= 1 ==> downgraded(c) == (Card { name: c.name, level: 0 }) && card_text(
            downgraded(c),
        ) == c.name,
        c.level >= 2 ==> downgraded(c) == (Card { name: c.name, level: (c.level - 1) as nat })
            && parse_text(card_text(downgraded(c))) == downgraded(c),
{
    if c.level >= 2 {
        lemma_parse_leveled(downgraded(c));
    }
}

fn digit_str(d: u64) -> (r: &'static str)
    requires
        d < 10,
    ensures
        r@ == seq![digit_char(d as nat)],
{
    proof {
        reveal_strlit("0");
        reveal_strlit("1");
        reveal_strlit("2");
        reveal_strlit("3");
        reveal_strlit("4");
        reveal_strlit("5");
        reveal_strlit("6");
        reveal_strlit("7");
        reveal_strlit("8");
        reveal_strlit("9");
    }
    if d == 0 {
        "0"
    } else if d == 1 {
        "1"
    } else if d == 2 {
        "2"
    } else if d == 3 {
        "3"
    } else if d == 4 {
        "4"
    } else if d == 5 {
        "5"
    } else if d == 6 {
        "6"
    } else if d == 7 {
        "7"
    } else if d == 8 {
        "8"
    } else {
        "9"
    }
}

/// Writes `n` in decimal.
pub fn decimal_string(n: u64) -> (r: String)
    ensures
        r@ == decimal(n as nat),
    decreases n,
{
    if n < 10 {
        String::from_str(digit_str(n))
    } else {
        let mut r = decimal_string(n / 10);
        r.append(digit_str(n % 10));
        r
    }
}

/// Writes a name and a level in canonical form.
pub fn compose_card(name: &String, level: u64) -> (r: String)
    ensures
        r@ == card_text(Card { name: name@, level: level as nat }),
{
    if level == 0 {
        name.clone()
    } else {
        let mut r = name.clone();
        let plus = "+";
        proof {
            reveal_strlit("+");
        }
        r.append(plus);
        let digits = decimal_string(level);
        r.append(digits.as_str());
        r
    }
}

/// Writes a card identifier in canonical form.
pub fn format_card(c: &CardId) -> (r: String)
    ensures
        r@ == card_text(c@),
{
    compose_card(&c.name, c.level as u64)
}

/// The text of `card` one level higher.
pub fn upgrade_card(card: String) -> (r: String)
    ensures
        r@ == card_text(upgraded(parse_text(card@))),
{
    let c = get_card_upgraded(&card);
    compose_card(&c.name, c.level as u64 + 1)
}

/// The text of `card` one level lower, or its bare name from level 0 or 1.
pub fn downgrade_card(card: String) -> (r: String)
    ensures
        r@ == card_text(downgraded(parse_text(card@))),
{
    let c = get_card_upgraded(&card);
    if c.level > 1 {
        compose_card(&c.name, c.level as u64 - 1)
    } else {
        c.name
    }
}

} // verus!
