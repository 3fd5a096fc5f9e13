//! The per-record search projection, field lookup, predicate compilation and
//! the AND-scan over a corpus.
use vstd::prelude::*;
use crate::data::{
    allowed_copies, cents_of, least, min_opt, opt_int, parse_cents, year_in, BanlistStatus, Card,
    CardPrice, CardSet, ReleaseCatalog,
};
use crate::parser::{
    atoms_of, find_char, is_numeric, is_ordering, compares, scan_to, Atom, ClauseModel, Field,
    Operator, RawCardFilter, Value, ValueModel, clause_text, message,
};
use crate::pattern::{case_insensitive, regex_finds};
use crate::text::{chars_of, contains, lower_of, seq_contains, string_of, to_lower};
use vstd::slice::slice_subrange;

verus! {

/// A card as the query language sees it: lowercase text, resolved numbers,
/// and derived fields. Built once per record.
#[derive(Debug, PartialEq, Eq, Clone)]
pub struct SearchCard {
    pub id: usize,
    pub typeline: Vec<String>,
    pub names: Vec<String>,
    pub text: String,
    pub atk: Option<i32>,
    pub def: Option<i32>,
    pub attribute: Option<String>,
    /// Level or rank.
    pub level: Option<i32>,
    pub link_rating: Option<i32>,
    pub link_arrows: Option<Vec<String>>,
    pub sets: Vec<String>,
    pub original_year: Option<i32>,
    pub legal_copies: i32,
    pub genesys_points: i32,
    /// Cheapest known price, in cents.
    pub price: Option<i32>,
}

// ----- the projection -----

pub open spec fn strings(v: Seq<String>) -> Seq<Seq<char>> {
    v.map_values(|s: String| s@)
}

pub open spec fn lower_all(v: Seq<String>) -> Seq<Seq<char>> {
    v.map_values(|s: String| lower_of(s@))
}

/// The pieces of `s` between occurrences of `c` (empty pieces kept).
pub open spec fn split_on(s: Seq<char>, c: char) -> Seq<Seq<char>>
    decreases s.len(),
{
    if s.len() == 0 {
        seq![Seq::empty()]
    } else {
        let p = split_on(s.drop_last(), c);
        if s.last() == c {
            p.push(Seq::empty())
        } else {
            p.update(p.len() - 1, p.last().push(s.last()))
        }
    }
}

/// The items of `s` without repeats, each at its first occurrence.
pub open spec fn dedup(s: Seq<Seq<char>>) -> Seq<Seq<char>>
    decreases s.len(),
{
    if s.len() == 0 {
        s
    } else {
        let d = dedup(s.drop_last());
        if d.contains(s.last()) {
            d
        } else {
            d.push(s.last())
        }
    }
}

/// The type tokens of a card: its structured list, or else the words of
/// its descriptive phrase; lowercased either way.
pub open spec fn typeline_of(card: Card) -> Seq<Seq<char>> {
    match card.typeline {
        Some(t) => lower_all(t@),
        None => split_on(lower_of(card.type_fallback@), ' '),
    }
}

pub open spec fn opt_name(o: Option<String>) -> Seq<Seq<char>> {
    match o {
        Some(s) => seq![s@],
        None => Seq::empty(),
    }
}

/// The names a card is searched by: its name, the name it is treated as,
/// and its earlier name; lowercased.
pub open spec fn name_variants(card: Card) -> Seq<Seq<char>> {
    let extra = if card.misc_info@.len() > 0 {
        opt_name(card.misc_info@[0].treated_as) + opt_name(card.misc_info@[0].beta_name)
    } else {
        Seq::empty()
    };
    (seq![card.name@] + extra).map_values(|n: Seq<char>| lower_of(n))
}

/// The part of a printing code before its first `-`.
pub open spec fn code_prefix(s: Seq<char>) -> Seq<char> {
    s.take(find_char(s, 0, '-'))
}

pub open spec fn set_codes_of(card: Card) -> Seq<Seq<char>> {
    card.card_sets@.map_values(|c: CardSet| lower_of(code_prefix(c.set_code@)))
}

/// The catalog's release year of each printing of the card.
pub open spec fn release_years(card: Card, entries: Seq<(Seq<char>, Option<int>)>) -> Seq<Option<int>> {
    card.card_sets@.map_values(|c: CardSet| year_in(entries, lower_of(c.set_name@)))
}

/// Every tracked price of every price entry, in cents where it parses.
pub open spec fn price_options(ps: Seq<CardPrice>) -> Seq<Option<int>>
    decreases ps.len(),
{
    if ps.len() == 0 {
        Seq::empty()
    } else {
        price_options(ps.drop_last()).push(cents_of(ps.last().cardmarket_price@)).push(
            cents_of(ps.last().tcgplayer_price@),
        )
    }
}

pub open spec fn legal_of(card: Card) -> int {
    match card.banlist_info {
        Some(b) => allowed_copies(b.ban_tcg),
        None => allowed_copies(BanlistStatus::Unlimited),
    }
}

pub open spec fn genesys_of(card: Card) -> int {
    if card.misc_info@.len() > 0 {
        card.misc_info@[0].genesys_points as int
    } else {
        0
    }
}

pub open spec fn opt_lower(o: Option<String>) -> Option<Seq<char>> {
    match o {
        Some(s) => Some(lower_of(s@)),
        None => None,
    }
}

pub open spec fn opt_text(o: Option<String>) -> Option<Seq<char>> {
    match o {
        Some(s) => Some(s@),
        None => None,
    }
}

pub open spec fn opt_strings(o: Option<Vec<String>>) -> Option<Seq<Seq<char>>> {
    match o {
        Some(v) => Some(strings(v@)),
        None => None,
    }
}

pub open spec fn opt_lower_all(o: Option<Vec<String>>) -> Option<Seq<Seq<char>>> {
    match o {
        Some(v) => Some(lower_all(v@)),
        None => None,
    }
}

fn lower_vec(v: &Vec<String>) -> (r: Vec<String>)
    ensures
        strings(r@) == lower_all(v@),
{
    let mut out: Vec<String> = Vec::new();
    let mut i: usize = 0;
    while i < v.len()
        invariant
            i <= v@.len(),
            out@.len() == i,
            forall|k: int| 0 <= k < i ==> (#[trigger] out@[k])@ == lower_of(v@[k]@),
        decreases v@.len() - i,
    {
        out.push(to_lower(v[i].as_str()));
        i = i + 1;
    }
    assert(strings(out@) =~= lower_all(v@));
    out
}

fn split_spaces(s: &String) -> (r: Vec<String>)
    ensures
        strings(r@) == split_on(s@, ' '),
{
    let v = chars_of(s.as_str());
    let mut pieces: Vec<String> = Vec::new();
    let mut start: usize = 0;
    let mut j: usize = 0;
    assert(v@.take(0) =~= Seq::<char>::empty());
    assert(strings(pieces@).push(v@.subrange(0, 0)) =~= split_on(v@.take(0), ' '));
    while j < v.len()
        invariant
            start <= j <= v@.len(),
            v@ == s@,
            split_on(v@.take(j as int), ' ') == strings(pieces@).push(v@.subrange(start as int, j as int)),
        decreases v@.len() - j,
    {
        proof {
            assert(v@.take(j + 1).drop_last() =~= v@.take(j as int));
        }
        if v[j] == ' ' {
            let ghost before = pieces@;
            pieces.push(string_of(slice_subrange(v.as_slice(), start, j)));
            proof {
                assert(v@.subrange(j + 1, j + 1) =~= Seq::<char>::empty());
                assert(strings(pieces@).push(v@.subrange(j + 1, j + 1)) =~= strings(before).push(
                    v@.subrange(start as int, j as int),
                ).push(Seq::empty()));
            }
            start = j + 1;
        } else {
            proof {
                assert(v@.subrange(start as int, j + 1) =~= v@.subrange(start as int, j as int).push(
                    v@[j as int],
                ));
                assert(strings(pieces@).push(v@.subrange(start as int, j + 1)) =~= strings(
                    pieces@,
                ).push(v@.subrange(start as int, j as int)).update(
                    pieces@.len() as int,
                    v@.subrange(start as int, j as int).push(v@[j as int]),
                ));
            }
        }
        j = j + 1;
    }
    let ghost before = pieces@;
    pieces.push(string_of(slice_subrange(v.as_slice(), start, j)));
    proof {
        assert(v@.take(j as int) =~= v@);
        assert(strings(pieces@) =~= strings(before).push(v@.subrange(start as int, j as int)));
    }
    pieces
}

fn dedup_vec(v: Vec<String>) -> (r: Vec<String>)
    ensures
        strings(r@) == dedup(strings(v@)),
{
    let mut out: Vec<String> = Vec::new();
    let mut i: usize = 0;
    assert(strings(v@).take(0) =~= Seq::<Seq<char>>::empty());
    while i < v.len()
        invariant
            i <= v@.len(),
            strings(out@) == dedup(strings(v@).take(i as int)),
        decreases v@.len() - i,
    {
        let ghost d = strings(out@);
        proof {
            assert(strings(v@).take(i + 1).drop_last() =~= strings(v@).take(i as int));
            assert(strings(v@).take(i + 1).last() == v@[i as int]@);
        }
        let mut seen = false;
        let mut k: usize = 0;
        while k < out.len()
            invariant
                k <= out@.len(),
                i < v@.len(),
                d == strings(out@),
                seen == (exists|m: int| 0 <= m < k && d[m] == v@[i as int]@),
            decreases out@.len() - k,
        {
            let same = out[k] == v[i];
            proof {
                assert(d[k as int] == out@[k as int]@);
                if same {
                    assert(d[k as int] == v@[i as int]@);
                }
            }
            if same {
                seen = true;
            }
            k = k + 1;
        }
        if !seen {
            out.push(v[i].clone());
            proof {
                assert(!d.contains(v@[i as int]@));
                assert(strings(out@) =~= d.push(v@[i as int]@));
            }
        } else {
            proof {
                let m = choose|m: int| 0 <= m < k && d[m] == v@[i as int]@;
                assert(d.contains(v@[i as int]@));
            }
        }
        i = i + 1;
    }
    proof {
        assert(strings(v@).take(v@.len() as int) =~= strings(v@));
    }
    out
}

fn code_prefix_of(code: &String) -> (r: String)
    ensures
        r@ == lower_of(code_prefix(code@)),
{
    let v = chars_of(code.as_str());
    let e = scan_to(&v, 0, '-');
    let head = string_of(slice_subrange(v.as_slice(), 0, e));
    to_lower(head.as_str())
}

impl SearchCard {
    /// Builds the search projection of a card record. Release years are
    /// looked up in `catalog` by printing name; printings it does not know
    /// are left out.
    pub fn new(card: &Card, catalog: &ReleaseCatalog) -> (r: SearchCard)
        requires
            catalog.wf(),
        ensures
            r.id == card.id,
            strings(r.typeline@) == typeline_of(*card),
            strings(r.names@) == dedup(name_variants(*card)),
            r.text@ == lower_of(card.text@),
            r.atk == card.atk,
            r.def == card.def,
            opt_text(r.attribute) == opt_lower(card.attribute),
            r.level == card.level,
            r.link_rating == card.link_rating,
            opt_strings(r.link_arrows) == opt_lower_all(card.link_arrows),
            strings(r.sets@) == set_codes_of(*card),
            opt_int(r.original_year) == least(release_years(*card, catalog.entries())),
            r.legal_copies == legal_of(*card),
            r.genesys_points == genesys_of(*card),
            opt_int(r.price) == least(price_options(card.card_prices@)),
    {
        let typeline = match &card.typeline {
            Some(t) => lower_vec(t),
            None => split_spaces(&to_lower(card.type_fallback.as_str())),
        };
        let names = SearchCard::names_of(card);
        let attribute = match &card.attribute {
            Some(a) => Some(to_lower(a.as_str())),
            None => None,
        };
        let link_arrows = match &card.link_arrows {
            Some(a) => Some(lower_vec(a)),
            None => None,
        };
        let mut sets: Vec<String> = Vec::new();
        let mut year: Option<i32> = None;
        let mut i: usize = 0;
        while i < card.card_sets.len()
            invariant
                catalog.wf(),
                i <= card.card_sets@.len(),
                sets@.len() == i,
                forall|k: int|
                    0 <= k < i ==> (#[trigger] sets@[k])@ == lower_of(
                        code_prefix(card.card_sets@[k].set_code@),
                    ),
                opt_int(year) == least(release_years(*card, catalog.entries()).take(i as int)),
            decreases card.card_sets@.len() - i,
        {
            let printing = &card.card_sets[i];
            sets.push(code_prefix_of(&printing.set_code));
            let y = catalog.year_of(&to_lower(printing.set_name.as_str()));
            proof {
                let ys = release_years(*card, catalog.entries());
                assert(ys.take(i + 1).drop_last() =~= ys.take(i as int));
            }
            year = min_of(year, y);
            i = i + 1;
        }
        proof {
            assert(strings(sets@) =~= set_codes_of(*card));
            assert(release_years(*card, catalog.entries()).take(i as int) =~= release_years(
                *card,
                catalog.entries(),
            ));
        }
        SearchCard {
            id: card.id,
            typeline,
            names,
            text: to_lower(card.text.as_str()),
            atk: card.atk,
            def: card.def,
            attribute,
            level: card.level,
            link_rating: card.link_rating,
            link_arrows,
            sets,
            original_year: year,
            legal_copies: match card.banlist_info {
                Some(b) => b.ban_tcg.copies(),
                None => BanlistStatus::Unlimited.copies(),
            },
            genesys_points: if card.misc_info.len() > 0 {
                card.misc_info[0].genesys_points
            } else {
                0
            },
            price: SearchCard::cheapest(&card.card_prices),
        }
    }

    fn names_of(card: &Card) -> (r: Vec<String>)
        ensures
            strings(r@) == dedup(name_variants(*card)),
    {
        let mut all: Vec<String> = Vec::new();
        all.push(to_lower(card.name.as_str()));
        if card.misc_info.len() > 0 {
            let m = &card.misc_info[0];
            match &m.treated_as {
                Some(n) => all.push(to_lower(n.as_str())),
                None => {},
            }
            match &m.beta_name {
                Some(n) => all.push(to_lower(n.as_str())),
                None => {},
            }
        }
        assert(strings(all@) =~= name_variants(*card));
        dedup_vec(all)
    }

    fn cheapest(prices: &Vec<CardPrice>) -> (r: Option<i32>)
        ensures
            opt_int(r) == least(price_options(prices@)),
    {
        let mut best: Option<i32> = None;
        let mut i: usize = 0;
        assert(prices@.take(0) =~= Seq::<CardPrice>::empty());
        while i < prices.len()
            invariant
                i <= prices@.len(),
                opt_int(best) == least(price_options(prices@.take(i as int))),
            decreases prices@.len() - i,
        {
            let p = &prices[i];
            proof {
                assert(prices@.take(i + 1).drop_last() =~= prices@.take(i as int));
                let s = price_options(prices@.take(i as int));
                let a = cents_of(p.cardmarket_price@);
                let b = cents_of(p.tcgplayer_price@);
                assert(s.push(a).drop_last() =~= s);
                assert(s.push(a).push(b).drop_last() =~= s.push(a));
                assert(prices@.take(i + 1).last() == *p);
                assert(price_options(prices@.take(i + 1)) == s.push(a).push(b));
                assert(least(s.push(a)) == min_opt(least(s), a));
                assert(least(s.push(a).push(b)) == min_opt(least(s.push(a)), b));
            }
            best = min_of(best, parse_cents(p.cardmarket_price.as_str()));
            best = min_of(best, parse_cents(p.tcgplayer_price.as_str()));
            i = i + 1;
        }
        proof {
            assert(prices@.take(i as int) =~= prices@);
        }
        best
    }
}

fn min_of(a: Option<i32>, b: Option<i32>) -> (r: Option<i32>)
    ensures
        opt_int(r) == min_opt(opt_int(a), opt_int(b)),
{
    match (a, b) {
        (Some(x), Some(y)) => Some(if y < x { y } else { x }),
        (None, y) => y,
        (x, None) => x,
    }
}

// ----- field values and their meaning -----

/// A field's value on one card, as a mathematical value.
pub enum FieldModel {
    /// The field does not apply to the card.
    Absent,
    Number(int),
    /// Text that a query string may occur in.
    Text(Seq<char>),
    /// Elements of which one must equal a query string exactly.
    Exact(Seq<Atom>),
    /// Texts of which one must contain a query string.
    Partial(Seq<Seq<char>>),
    /// A value that no query matches.
    Other,
}

impl Value {
    /// The value in the position of a card's field.
    pub open spec fn as_field(&self) -> FieldModel {
        match self {
            Value::Absent => FieldModel::Absent,
            Value::Numerical(n) => FieldModel::Number(*n as int),
            Value::String(s) => FieldModel::Text(s@),
            Value::Multiple(vs) => FieldModel::Exact(atoms_of(vs@)),
            Value::MultiplePartial(ss) => FieldModel::Partial(strings(ss@)),
            Value::Regex(_) => FieldModel::Other,
        }
    }
}

pub open spec fn number_or_absent(o: Option<i32>) -> FieldModel {
    match o {
        Some(n) => FieldModel::Number(n as int),
        None => FieldModel::Absent,
    }
}

pub open spec fn texts(ts: Seq<Seq<char>>) -> Seq<Atom> {
    ts.map_values(|t: Seq<char>| Atom::Text(t))
}

/// The value of a field on a card. Numeric stats that do not apply to the
/// card's kind are absent; a missing attribute reads as empty text; the card
/// type and the type fields both read the type tokens.
pub open spec fn field_model(card: SearchCard, f: Field) -> FieldModel {
    match f {
        Field::Atk => number_or_absent(card.atk),
        Field::Def => number_or_absent(card.def),
        Field::Legal => FieldModel::Number(card.legal_copies as int),
        Field::Level => number_or_absent(card.level),
        Field::Genesys => FieldModel::Number(card.genesys_points as int),
        Field::LinkRating => number_or_absent(card.link_rating),
        Field::Price => number_or_absent(card.price),
        Field::Year => number_or_absent(card.original_year),
        Field::SetCode => FieldModel::Exact(texts(strings(card.sets@))),
        Field::Type | Field::Class => FieldModel::Exact(texts(strings(card.typeline@))),
        Field::Attribute => FieldModel::Text(
            match card.attribute {
                Some(a) => a@,
                None => Seq::empty(),
            },
        ),
        Field::Name => FieldModel::Partial(strings(card.names@)),
        Field::Text => FieldModel::Text(card.text@),
    }
}

/// The marker that a query writes for a stat printed as "?".
pub open spec fn unknown_marker() -> Seq<char> {
    seq!['?']
}

/// The number a card record holds for a stat printed as "?".
pub const UNKNOWN_STAT: i32 = -1;

/// `b` under `=`, its negation under `!=`; no ordering applies.
pub open spec fn equal_or_not(op: Operator, b: bool) -> bool {
    match op {
        Operator::Equal => b,
        Operator::NotEqual => !b,
        _ => false,
    }
}

/// Whether a field value passes `op` against one query alternative.
pub open spec fn atom_holds(op: Operator, fv: FieldModel, a: Atom) -> bool {
    match (fv, a) {
        (FieldModel::Number(x), Atom::Number(n)) => compares(op, x, n),
        (FieldModel::Number(x), Atom::Text(t)) => !is_ordering(op) && t == unknown_marker()
            && compares(op, x, UNKNOWN_STAT as int),
        (FieldModel::Text(f), Atom::Text(t)) => equal_or_not(op, seq_contains(f, t)),
        (FieldModel::Text(f), Atom::Regex(p)) => equal_or_not(op, regex_finds(case_insensitive(p), f)),
        (FieldModel::Exact(es), Atom::Text(t)) => equal_or_not(op, es.contains(Atom::Text(t))),
        (FieldModel::Partial(ns), Atom::Text(t)) => equal_or_not(
            op,
            exists|i: int| 0 <= i < ns.len() && seq_contains(#[trigger] ns[i], t),
        ),
        _ => false,
    }
}

/// Whether a card satisfies a clause: its one alternative, or any of several.
pub open spec fn clause_holds(m: ClauseModel, card: SearchCard) -> bool {
    let fv = field_model(card, m.field);
    match m.value {
        ValueModel::One(a) => atom_holds(m.op, fv, a),
        ValueModel::AnyOf(atoms) => exists|i: int|
            0 <= i < atoms.len() && atom_holds(m.op, fv, #[trigger] atoms[i]),
    }
}

fn string_values(v: &Vec<String>) -> (r: Vec<Value>)
    ensures
        atoms_of(r@) == texts(strings(v@)),
{
    let mut out: Vec<Value> = Vec::new();
    let mut i: usize = 0;
    while i < v.len()
        invariant
            i <= v@.len(),
            out@.len() == i,
            forall|k: int| 0 <= k < i ==> (#[trigger] out@[k]).atom() == Atom::Text(v@[k]@),
        decreases v@.len() - i,
    {
        out.push(Value::String(v[i].clone()));
        i = i + 1;
    }
    assert(atoms_of(out@) =~= texts(strings(v@)));
    out
}

fn number_value(o: Option<i32>) -> (r: Value)
    ensures
        r.as_field() == number_or_absent(o),
{
    match o {
        Some(n) => Value::Numerical(n),
        None => Value::Absent,
    }
}

/// The value of `field` on `card`.
pub fn get_field_value(card: &SearchCard, field: Field) -> (r: Value)
    ensures
        r.as_field() == field_model(*card, field),
{
    match field {
        Field::Atk => number_value(card.atk),
        Field::Def => number_value(card.def),
        Field::Legal => Value::Numerical(card.legal_copies),
        Field::Level => number_value(card.level),
        Field::Genesys => Value::Numerical(card.genesys_points),
        Field::LinkRating => number_value(card.link_rating),
        Field::Price => number_value(card.price),
        Field::Year => number_value(card.original_year),
        Field::SetCode => Value::Multiple(string_values(&card.sets)),
        Field::Type | Field::Class => Value::Multiple(string_values(&card.typeline)),
        Field::Attribute => Value::String(
            match &card.attribute {
                Some(a) => a.clone(),
                None => String::new(),
            },
        ),
        Field::Name => {
            let names = card.names.clone();
            proof {
                assert(strings(names@) =~= strings(card.names@));
            }
            Value::MultiplePartial(names)
        },
        Field::Text => Value::String(card.text.clone()),
    }
}

fn is_unknown_marker(s: &String) -> (r: bool)
    ensures
        r == (s@ == unknown_marker()),
{
    let t = s.as_str();
    if t.unicode_len() != 1 {
        return false;
    }
    let c = t.get_char(0);
    proof {
        if c == '?' {
            assert(t@ =~= unknown_marker());
        }
    }
    c == '?'
}

fn equal_or_not_exec(op: &Operator, b: bool) -> (r: bool)
    ensures
        r == equal_or_not(*op, b),
{
    match op {
        Operator::Equal => b,
        Operator::NotEqual => !b,
        _ => false,
    }
}

/// Whether a field value passes `op` against a query value. A query value
/// holding alternatives is not decided here (see `CardFilter`): it fails.
pub fn filter_value(op: &Operator, field_value: &Value, query_value: &Value) -> (r: bool)
    ensures
        r == match query_value.model() {
            ValueModel::One(a) => atom_holds(*op, field_value.as_field(), a),
            ValueModel::AnyOf(_) => false,
        },
{
    match (field_value, query_value) {
        (Value::Numerical(x), Value::Numerical(q)) => op.filter_number(Some(*x), *q),
        (Value::Numerical(x), Value::String(q)) => {
            if (*op == Operator::Equal || *op == Operator::NotEqual) && is_unknown_marker(q) {
                op.filter_number(Some(*x), UNKNOWN_STAT)
            } else {
                false
            }
        },
        (Value::String(f), Value::String(q)) => equal_or_not_exec(op, contains(f.as_str(), q.as_str())),
        (Value::String(f), Value::Regex(p)) => equal_or_not_exec(op, p.is_match(f.as_str())),
        (Value::Multiple(fs), Value::String(q)) => {
            let ghost es = atoms_of(fs@);
            let mut found = false;
            let mut i: usize = 0;
            while i < fs.len()
                invariant
                    i <= fs@.len(),
                    es == atoms_of(fs@),
                    found == (exists|k: int| 0 <= k < i && es[k] == Atom::Text(q@)),
                decreases fs@.len() - i,
            {
                let hit = match &fs[i] {
                    Value::String(e) => *e == *q,
                    _ => false,
                };
                proof {
                    assert(es[i as int] == fs@[i as int].atom());
                }
                if hit {
                    found = true;
                }
                i = i + 1;
            }
            proof {
                if found {
                    let k = choose|k: int| 0 <= k < i && es[k] == Atom::Text(q@);
                    assert(es.contains(Atom::Text(q@)));
                }
            }
            equal_or_not_exec(op, found)
        },
        (Value::MultiplePartial(ns), Value::String(q)) => {
            let ghost ts = strings(ns@);
            let mut found = false;
            let mut i: usize = 0;
            while i < ns.len()
                invariant
                    i <= ns@.len(),
                    ts == strings(ns@),
                    found == (exists|k: int| 0 <= k < i && seq_contains(#[trigger] ts[k], q@)),
                decreases ns@.len() - i,
            {
                let hit = contains(ns[i].as_str(), q.as_str());
                proof {
                    assert(ts[i as int] == ns@[i as int]@);
                }
                if hit {
                    found = true;
                }
                i = i + 1;
            }
            equal_or_not_exec(op, found)
        },
        _ => false,
    }
}

/// A compiled clause: the field to read, the operator, and the
/// alternatives of which any may match.
#[derive(Debug)]
pub struct CardFilter {
    pub field: Field,
    pub op: Operator,
    pub alternatives: Vec<Value>,
}

impl CardFilter {
    /// Whether the filter lets `card` through.
    pub open spec fn accepts(&self, card: SearchCard) -> bool {
        exists|i: int|
            0 <= i < self.alternatives@.len() && atom_holds(
                self.op,
                field_model(card, self.field),
                #[trigger] self.alternatives@[i].atom(),
            )
    }

    /// Tests the filter on a card.
    pub fn matches(&self, card: &SearchCard) -> (r: bool)
        ensures
            r == self.accepts(*card),
    {
        let fv = get_field_value(card, self.field);
        let mut i: usize = 0;
        while i < self.alternatives.len()
            invariant
                i <= self.alternatives@.len(),
                fv.as_field() == field_model(*card, self.field),
                forall|k: int|
                    0 <= k < i ==> !atom_holds(
                        self.op,
                        field_model(*card, self.field),
                        #[trigger] self.alternatives@[k].atom(),
                    ),
            decreases self.alternatives@.len() - i,
        {
            let alt = &self.alternatives[i];
            if filter_value(&self.op, &fv, alt) {
                return true;
            }
            proof {
                match alt.model() {
                    ValueModel::One(a) => {},
                    ValueModel::AnyOf(_) => {
                        assert(alt.atom() == Atom::Inert);
                    },
                }
            }
            i = i + 1;
        }
        false
    }
}

/// Whether a field reads as one text (so that a regular expression applies).
pub open spec fn is_plain_text(f: Field) -> bool {
    f == Field::Attribute || f == Field::Text
}

/// Whether `op` against the alternative `a` is defined on `field`: numbers
/// (or the "?" marker) on numeric fields, under any operator; text on other
/// fields, and regular expressions on plain-text fields, under `=` and `!=`.
pub open spec fn atom_defined(field: Field, op: Operator, a: Atom) -> bool {
    match a {
        Atom::Number(_) => is_numeric(field),
        Atom::Text(t) => if is_numeric(field) {
            t == unknown_marker()
        } else {
            !is_ordering(op)
        },
        Atom::Regex(_) => is_plain_text(field) && !is_ordering(op),
        Atom::Inert => false,
    }
}

/// Whether a clause can be compiled: each of its alternatives is defined.
pub open spec fn supported(m: ClauseModel) -> bool {
    match m.value {
        ValueModel::One(a) => atom_defined(m.field, m.op, a),
        ValueModel::AnyOf(atoms) => forall|i: int|
            0 <= i < atoms.len() ==> atom_defined(m.field, m.op, #[trigger] atoms[i]),
    }
}

/// The error for a clause that cannot be compiled; it restates the clause.
pub open spec fn clause_error(m: ClauseModel) -> Seq<char> {
    "Cannot compile clause: "@ + clause_text(m)
}

fn atom_is_defined(field: Field, op: Operator, v: &Value) -> (r: bool)
    ensures
        r == atom_defined(field, op, v.atom()),
{
    let ordering = !(op == Operator::Equal || op == Operator::NotEqual);
    match v {
        Value::Numerical(_) => field.numeric(),
        Value::String(t) => if field.numeric() {
            is_unknown_marker(t)
        } else {
            !ordering
        },
        Value::Regex(_) => (field == Field::Attribute || field == Field::Text) && !ordering,
        _ => false,
    }
}

fn clause_is_supported(raw: &RawCardFilter) -> (r: bool)
    ensures
        r == supported(raw.model()),
{
    match &raw.2 {
        Value::Multiple(vs) => {
            let mut i: usize = 0;
            while i < vs.len()
                invariant
                    i <= vs@.len(),
                    raw.model().value == ValueModel::AnyOf(atoms_of(vs@)),
                    forall|k: int| 0 <= k < i ==> atom_defined(raw.0, raw.1, #[trigger] vs@[k].atom()),
                decreases vs@.len() - i,
            {
                if !atom_is_defined(raw.0, raw.1, &vs[i]) {
                    assert(atoms_of(vs@)[i as int] == vs@[i as int].atom());
                    assert(raw.model().value == ValueModel::AnyOf(atoms_of(vs@)));
                    let ghost atoms = atoms_of(vs@);
                    assert(0 <= i < atoms.len());
                    assert(!atom_defined(raw.0, raw.1, atoms[i as int]));
                    assert(!supported(raw.model())) by {
                        let m = raw.model();
                        if supported(m) {
                            match m.value {
                                ValueModel::AnyOf(a) => {
                                    assert(a == atoms);
                                    assert(atom_defined(m.field, m.op, a[i as int]));
                                },
                                ValueModel::One(_) => {},
                            }
                        }
                    }
                    return false;
                }
                i = i + 1;
            }
            assert forall|k: int| 0 <= k < vs@.len() implies atom_defined(
                raw.0,
                raw.1,
                #[trigger] atoms_of(vs@)[k],
            ) by {
                assert(atoms_of(vs@)[k] == vs@[k].atom());
            }
            true
        },
        other => atom_is_defined(raw.0, raw.1, other),
    }
}

/// Compiles a clause into a filter. A clause whose field, operator and
/// value shape are not defined together is rejected with an error that
/// restates it.
pub fn build_filter(raw: RawCardFilter) -> (r: Result<CardFilter, String>)
    ensures
        r is Err <==> !supported(raw.model()),
        r matches Err(e) ==> e@ == clause_error(raw.model()),
        r matches Ok(f) ==> f.field == raw.0 && f.op == raw.1 && forall|card: SearchCard|
            f.accepts(card) == clause_holds(raw.model(), card),
{
    if !clause_is_supported(&raw) {
        let d = raw.describe();
        return Err(message("Cannot compile clause: ", d.as_str()));
    }
    let ghost m = raw.model();
    let RawCardFilter(field, op, value) = raw;
    let alternatives = match value {
        Value::Multiple(vs) => vs,
        other => {
            let mut one: Vec<Value> = Vec::new();
            one.push(other);
            one
        },
    };
    let f = CardFilter { field, op, alternatives };
    proof {
        assert forall|card: SearchCard| f.accepts(card) == clause_holds(m, card) by {
            match m.value {
                ValueModel::One(a) => {
                    assert(f.alternatives@[0].atom() == a);
                },
                ValueModel::AnyOf(atoms) => {
                    assert(atoms == atoms_of(f.alternatives@));
                    if f.accepts(card) {
                        let i = choose|i: int|
                            0 <= i < f.alternatives@.len() && atom_holds(
                                op,
                                field_model(card, field),
                                #[trigger] f.alternatives@[i].atom(),
                            );
                        assert(atoms[i] == f.alternatives@[i].atom());
                    }
                    if clause_holds(m, card) {
                        let i = choose|i: int|
                            0 <= i < atoms.len() && atom_holds(op, field_model(card, field), #[trigger] atoms[i]);
                        assert(atoms[i] == f.alternatives@[i].atom());
                    }
                },
            }
        }
    }
    Ok(f)
}

// ----- evaluation -----

/// Whether every filter accepts the card.
pub open spec fn all_accept(filters: Seq<CardFilter>, card: SearchCard) -> bool {
    forall|i: int| 0 <= i < filters.len() ==> (#[trigger] filters[i]).accepts(card)
}

/// The ids of the cards that every filter accepts, in corpus order.
pub open spec fn matching(filters: Seq<CardFilter>, cards: Seq<SearchCard>) -> Seq<usize> {
    cards.filter(|c: SearchCard| all_accept(filters, c)).map_values(|c: SearchCard| c.id)
}

proof fn lemma_filter_push_card(s: Seq<SearchCard>, x: SearchCard, p: spec_fn(SearchCard) -> bool)
    ensures
        s.push(x).filter(p) == (if p(x) { s.filter(p).push(x) } else { s.filter(p) }),
{
    reveal(Seq::filter);
    assert(s.push(x).drop_last() =~= s);
}

/// Tests all filters on a card, cheapest first, stopping at the first
/// failure.
pub fn accepts_all(filters: &Vec<CardFilter>, card: &SearchCard) -> (r: bool)
    ensures
        r == all_accept(filters@, *card),
{
    let mut i: usize = 0;
    while i < filters.len()
        invariant
            i <= filters@.len(),
            forall|k: int| 0 <= k < i ==> (#[trigger] filters@[k]).accepts(*card),
        decreases filters@.len() - i,
    {
        if !filters[i].matches(card) {
            return false;
        }
        i = i + 1;
    }
    true
}

/// The ids of the cards that pass every filter, in corpus order.
pub fn matching_ids(filters: &Vec<CardFilter>, cards: &Vec<SearchCard>) -> (r: Vec<usize>)
    ensures
        r@ == matching(filters@, cards@),
{
    let ghost p = |c: SearchCard| all_accept(filters@, c);
    let mut out: Vec<usize> = Vec::new();
    let mut i: usize = 0;
    assert(cards@.take(0) =~= Seq::<SearchCard>::empty());
    assert(out@ =~= cards@.take(0).filter(p).map_values(|c: SearchCard| c.id));
    while i < cards.len()
        invariant
            i <= cards@.len(),
            p == (|c: SearchCard| all_accept(filters@, c)),
            out@ == cards@.take(i as int).filter(p).map_values(|c: SearchCard| c.id),
        decreases cards@.len() - i,
    {
        let card = &cards[i];
        proof {
            assert(cards@.take(i + 1) =~= cards@.take(i as int).push(*card));
            lemma_filter_push_card(cards@.take(i as int), *card, p);
        }
        if accepts_all(filters, card) {
            out.push(card.id);
            proof {
                assert(out@ =~= cards@.take(i + 1).filter(p).map_values(|c: SearchCard| c.id));
            }
        }
        i = i + 1;
    }
    proof {
        assert(cards@.take(i as int) =~= cards@);
    }
    out
}

// ----- laws -----

/// A field that does not apply to a card never matches, whatever the
/// operator (`!=` included) and whatever the query value.
pub proof fn lemma_absent_field_never_matches(card: SearchCard, m: ClauseModel)
    requires
        field_model(card, m.field) is Absent,
    ensures
        !clause_holds(m, card),
{
}

/// A clause with alternatives accepts exactly the cards that one of the
/// single-alternative clauses accepts.
pub proof fn lemma_alternatives_are_union(card: SearchCard, field: Field, op: Operator, atoms: Seq<Atom>)
    ensures
        clause_holds(ClauseModel { field, op, value: ValueModel::AnyOf(atoms) }, card) <==> exists|i: int|
            0 <= i < atoms.len() && clause_holds(
                ClauseModel { field, op, value: ValueModel::One(#[trigger] atoms[i]) },
                card,
            ),
{
    let any = ClauseModel { field, op, value: ValueModel::AnyOf(atoms) };
    let fm = field_model(card, field);
    assert forall|i: int| 0 <= i < atoms.len() implies clause_holds(
        ClauseModel { field, op, value: ValueModel::One(#[trigger] atoms[i]) },
        card,
    ) == atom_holds(op, fm, atoms[i]) by {}
    if clause_holds(any, card) {
        assert(exists|i: int| 0 <= i < atoms.len() && atom_holds(op, fm, #[trigger] atoms[i]));
    }
    if exists|i: int| 0 <= i < atoms.len() && atom_holds(op, fm, #[trigger] atoms[i]) {
        let i = choose|i: int| 0 <= i < atoms.len() && atom_holds(op, fm, #[trigger] atoms[i]);
        assert(atom_holds(any.op, field_model(card, any.field), atoms[i]));
    }
}

} // verus!
