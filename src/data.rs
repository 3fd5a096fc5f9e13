//! Card records as the record source supplies them, the release catalog,
//! and the parsing of price strings.
use vstd::prelude::*;
use crate::parser::{all_digits, digit_value, digits_value, find_char, is_digit, lemma_digits_grow, scan_to};
use crate::text::{chars_of, decimal, decimal_of, lower_of, to_lower};

verus! {

/// A calendar date.
#[derive(Debug, PartialEq, Eq, Clone, Copy, Default, Structural)]
pub struct ReleaseDate {
    pub year: i32,
    pub month: u8,
    pub day: u8,
}

/// The document holding all card records.
#[derive(Debug, PartialEq, Eq, Clone)]
pub struct CardInfo {
    pub data: Vec<Card>,
}

/// A card record as the record source supplies it.
#[derive(Debug, PartialEq, Eq, Clone, Default)]
pub struct Card {
    pub id: usize,
    /// Structured type tokens; absent for spells and traps.
    pub typeline: Option<Vec<String>>,
    /// A descriptive phrase such as "Normal Spell".
    pub type_fallback: String,
    pub name: String,
    pub text: String,
    /// -1 stands for a stat printed as "?".
    pub atk: Option<i32>,
    pub def: Option<i32>,
    pub attribute: Option<String>,
    /// Level or rank.
    pub level: Option<i32>,
    pub link_rating: Option<i32>,
    pub link_arrows: Option<Vec<String>>,
    pub card_sets: Vec<CardSet>,
    pub banlist_info: Option<BanlistInfo>,
    pub card_prices: Vec<CardPrice>,
    pub misc_info: Vec<MiscInfo>,
}

#[derive(Debug, PartialEq, Eq, Clone, Copy, Default, Structural)]
pub struct BanlistInfo {
    pub ban_tcg: BanlistStatus,
}

#[derive(Debug, PartialEq, Eq, Clone, Default)]
pub struct MiscInfo {
    pub beta_name: Option<String>,
    pub treated_as: Option<String>,
    pub tcg_date: Option<ReleaseDate>,
    pub genesys_points: i32,
}

#[derive(Debug, PartialEq, Eq, Clone, Copy, Default, Structural)]
pub enum BanlistStatus {
    Forbidden,
    Limited,
    SemiLimited,
    #[default]
    Unlimited,
}

/// Copies of a card allowed in a deck under a restriction status.
pub open spec fn allowed_copies(s: BanlistStatus) -> int {
    match s {
        BanlistStatus::Forbidden => 0,
        BanlistStatus::Limited => 1,
        BanlistStatus::SemiLimited => 2,
        BanlistStatus::Unlimited => 3,
    }
}

impl BanlistStatus {
    /// Copies of a card allowed in a deck under this status.
    pub fn copies(self) -> (r: i32)
        ensures
            r == allowed_copies(self),
    {
        match self {
            BanlistStatus::Forbidden => 0,
            BanlistStatus::Limited => 1,
            BanlistStatus::SemiLimited => 2,
            BanlistStatus::Unlimited => 3,
        }
    }
}

/// One printing of a card.
#[derive(Debug, PartialEq, Eq, Clone, Default)]
pub struct CardSet {
    pub set_name: String,
    pub set_code: String,
    pub set_rarity: String,
}

/// An entry of the release catalog: a product and when it came out.
#[derive(Debug, PartialEq, Eq, Clone)]
pub struct ReleaseSet {
    pub set_name: String,
    pub tcg_date: Option<ReleaseDate>,
}

/// Prices of a card in the tracked currencies, as decimal strings.
#[derive(Debug, PartialEq, Eq, Clone, Default)]
pub struct CardPrice {
    pub cardmarket_price: String,
    pub tcgplayer_price: String,
}

/// The 32-bit integer in an optional one.
pub open spec fn opt_int(o: Option<i32>) -> Option<int> {
    match o {
        Some(n) => Some(n as int),
        None => None,
    }
}

/// The smaller of two optional values; an absent one does not count.
pub open spec fn min_opt(a: Option<int>, b: Option<int>) -> Option<int> {
    match (a, b) {
        (Some(x), Some(y)) => Some(if y < x { y } else { x }),
        (None, y) => y,
        (x, None) => x,
    }
}

/// The smallest of the present values, if any is present.
pub open spec fn least(ys: Seq<Option<int>>) -> Option<int>
    decreases ys.len(),
{
    if ys.len() == 0 {
        None
    } else {
        min_opt(least(ys.drop_last()), ys.last())
    }
}

/// The release catalog, keyed by lowercased product name.
pub struct ReleaseCatalog {
    names: Vec<String>,
    years: Vec<Option<i32>>,
}

/// The year of the first catalog entry named `key`, if it has a date.
pub open spec fn year_in(entries: Seq<(Seq<char>, Option<int>)>, key: Seq<char>) -> Option<int>
    decreases entries.len(),
{
    if entries.len() == 0 {
        None
    } else if entries[0].0 == key {
        entries[0].1
    } else {
        year_in(entries.drop_first(), key)
    }
}

/// A catalog entry as a lowercased name and a release year.
pub open spec fn entry_of(s: ReleaseSet) -> (Seq<char>, Option<int>) {
    (
        lower_of(s.set_name@),
        match s.tcg_date {
            Some(d) => Some(d.year as int),
            None => None,
        },
    )
}

impl ReleaseCatalog {
    pub closed spec fn entries(&self) -> Seq<(Seq<char>, Option<int>)> {
        Seq::new(self.names@.len(), |i: int| (self.names@[i]@, opt_int(self.years@[i])))
    }

    pub closed spec fn wf(&self) -> bool {
        self.names@.len() == self.years@.len()
    }

    /// Indexes the catalog by lowercased product name.
    pub fn new(sets: &Vec<ReleaseSet>) -> (r: ReleaseCatalog)
        ensures
            r.wf(),
            r.entries() == sets@.map_values(|s: ReleaseSet| entry_of(s)),
    {
        let mut names: Vec<String> = Vec::new();
        let mut years: Vec<Option<i32>> = Vec::new();
        let mut i: usize = 0;
        while i < sets.len()
            invariant
                i <= sets@.len(),
                names@.len() == i,
                years@.len() == i,
                forall|k: int| 0 <= k < i ==> (#[trigger] names@[k])@ == entry_of(sets@[k]).0,
                forall|k: int| 0 <= k < i ==> opt_int(#[trigger] years@[k]) == entry_of(sets@[k]).1,
            decreases sets@.len() - i,
        {
            let s = &sets[i];
            names.push(to_lower(s.set_name.as_str()));
            years.push(
                match s.tcg_date {
                    Some(d) => Some(d.year),
                    None => None,
                },
            );
            proof {
                assert(names@[i as int]@ == entry_of(sets@[i as int]).0);
                assert(opt_int(years@[i as int]) == entry_of(sets@[i as int]).1);
            }
            i = i + 1;
        }
        let r = ReleaseCatalog { names, years };
        assert(r.entries() =~= sets@.map_values(|s: ReleaseSet| entry_of(s)));
        r
    }

    /// The release year of the product named `key` (already lowercased).
    pub fn year_of(&self, key: &String) -> (r: Option<i32>)
        requires
            self.wf(),
        ensures
            opt_int(r) == year_in(self.entries(), key@),
    {
        let mut i: usize = 0;
        assert(self.entries().skip(0) =~= self.entries());
        while i < self.names.len()
            invariant
                self.wf(),
                i <= self.names@.len(),
                year_in(self.entries(), key@) == year_in(self.entries().skip(i as int), key@),
            decreases self.names@.len() - i,
        {
            proof {
                assert(self.entries().skip(i as int).drop_first() =~= self.entries().skip(i + 1));
            }
            if self.names[i] == *key {
                return self.years[i];
            }
            i = i + 1;
        }
        None
    }
}

/// The two decimals after the point that a price string gives, as cents.
pub open spec fn cents_part(frac: Seq<char>) -> int {
    if frac.len() == 0 {
        0
    } else if frac.len() == 1 {
        digit_value(frac[0]) * 10
    } else {
        digit_value(frac[0]) * 10 + digit_value(frac[1])
    }
}

/// A price string `digits[.digits]` in whole cents (further decimals are
/// dropped), if it is one and fits in 32 bits.
pub open spec fn cents_of(s: Seq<char>) -> Option<int> {
    let dot = find_char(s, 0, '.');
    let whole = s.take(dot);
    let frac = if dot < s.len() { s.skip(dot + 1) } else { Seq::empty() };
    let c = digits_value(whole) * 100 + cents_part(frac);
    if whole.len() > 0 && all_digits(whole) && all_digits(frac) && c <= i32::MAX {
        Some(c)
    } else {
        None
    }
}

fn digit_of(c: char) -> (d: i64)
    requires
        is_digit(c),
    ensures
        d == digit_value(c),
        0 <= d <= 9,
{
    (c as u32 - '0' as u32) as i64
}

proof fn lemma_find_bound(s: Seq<char>, i: int, c: char)
    requires
        0 <= i <= s.len(),
    ensures
        i <= find_char(s, i, c) <= s.len(),
        find_char(s, i, c) < s.len() ==> s[find_char(s, i, c)] == c,
    decreases s.len() - i,
{
    if i < s.len() && s[i] != c {
        lemma_find_bound(s, i + 1, c);
    }
}

/// Reads a price string as whole cents.
pub fn parse_cents(s: &str) -> (r: Option<i32>)
    ensures
        opt_int(r) == cents_of(s@),
{
    let v = chars_of(s);
    let dot = scan_to(&v, 0, '.');
    proof {
        lemma_find_bound(v@, 0, '.');
    }
    let ghost whole = v@.take(dot as int);
    let ghost frac = if dot < v@.len() { v@.skip(dot + 1) } else { Seq::<char>::empty() };
    assert(v@ == s@);
    if dot == 0 {
        assert(whole.len() == 0);
        return None;
    }
    let mut acc: i64 = 0;
    let mut j: usize = 0;
    while j < dot
        invariant
            dot <= v@.len(),
            j <= dot,
            whole == v@.take(dot as int),
            v@ == s@,
            dot == find_char(s@, 0, '.'),
            frac == (if dot < v@.len() { v@.skip(dot + 1) } else { Seq::<char>::empty() }),
            forall|k: int| 0 <= k < j ==> is_digit(#[trigger] whole[k]),
            acc == digits_value(whole.take(j as int)),
            0 <= acc <= 2147483647,
        decreases dot - j,
    {
        let c = v[j];
        if !('0' <= c && c <= '9') {
            assert(!is_digit(whole[j as int]));
            assert(!all_digits(whole));
            return None;
        }
        proof {
            assert(whole.take(j + 1).drop_last() =~= whole.take(j as int));
        }
        let next = acc * 10 + digit_of(c);
        if next > 2147483647 {
            proof {
                if all_digits(whole) {
                    lemma_digits_grow(whole, j + 1);
                    assert(digits_value(whole) * 100 + cents_part(frac) > i32::MAX) by (nonlinear_arith)
                        requires
                            digits_value(whole) > 2147483647,
                            cents_part(frac) >= 0 || !all_digits(frac),
                    {}
                }
            }
            return None;
        }
        acc = next;
        j = j + 1;
    }
    proof {
        assert(whole.take(dot as int) =~= whole);
    }
    let mut cents: i64 = 0;
    if dot < v.len() {
        let mut k: usize = dot + 1;
        while k < v.len()
            invariant
                dot < v@.len(),
                dot + 1 <= k <= v@.len(),
                frac == v@.skip(dot + 1),
                whole == v@.take(dot as int),
                all_digits(whole),
                v@ == s@,
                dot == find_char(s@, 0, '.'),
                forall|m: int| 0 <= m < k - dot - 1 ==> is_digit(#[trigger] frac[m]),
            decreases v@.len() - k,
        {
            if !('0' <= v[k] && v[k] <= '9') {
                assert(!is_digit(frac[k - dot - 1]));
                assert(!all_digits(frac));
                return None;
            }
            k = k + 1;
        }
        if dot + 1 < v.len() {
            assert(is_digit(frac[0]));
            cents = digit_of(v[dot + 1]) * 10;
            if dot + 2 < v.len() {
                assert(is_digit(frac[1]));
                cents = cents + digit_of(v[dot + 2]);
            }
        }
    }
    assert(cents == cents_part(frac));
    let total = acc * 100 + cents;
    if total > 2147483647 {
        None
    } else {
        Some(total as i32)
    }
}

/// How a stat is shown: "?" for the unknown marker, else its decimal.
pub open spec fn stat_text(n: int) -> Seq<char> {
    if n == -1 {
        seq!['?']
    } else {
        decimal_of(n)
    }
}

/// Shows a stat, with "?" for one printed as unknown.
pub fn stat_display(n: i32) -> (r: String)
    ensures
        r@ == stat_text(n as int),
{
    if n == -1 {
        proof {
            reveal_strlit("?");
        }
        "?".to_string()
    } else {
        decimal(n)
    }
}

} // verus!
