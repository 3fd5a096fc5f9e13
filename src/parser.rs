//! The query grammar: fields, operators, values and clauses, the spec model
//! of what a query string means, and the verified parser that produces it.
use vstd::prelude::*;
use crate::pattern::{case_insensitive, regex_compiles, Pattern};
use crate::text::{seq_contains, chars_of, decimal, decimal_of, joined, lower_of, to_lower, string_of, slice_is};
use crate::filter::{atom_holds, field_model, FieldModel, strings, all_accept, build_filter, clause_holds, clause_error, matching, supported, CardFilter, SearchCard};
use vstd::slice::{slice_subrange, slice_to_vec};
use vstd::string::*;

verus! {

/// A searchable attribute of a card. Fields are evaluated cheapest first,
/// in the order given by `rank`.
#[derive(Debug, PartialEq, Eq, Clone, Copy, Structural)]
pub enum Field {
    Atk,
    Def,
    Legal,
    Level,
    Genesys,
    LinkRating,
    Price,
    Year,
    SetCode,
    Type,
    Attribute,
    Class,
    Name,
    Text,
}

/// Number of fields.
pub const FIELD_COUNT: usize = 14;

/// The position of a field in evaluation order (cheap numeric fields first,
/// free text last).
pub open spec fn rank(f: Field) -> nat {
    match f {
        Field::Atk => 0,
        Field::Def => 1,
        Field::Legal => 2,
        Field::Level => 3,
        Field::Genesys => 4,
        Field::LinkRating => 5,
        Field::Price => 6,
        Field::Year => 7,
        Field::SetCode => 8,
        Field::Type => 9,
        Field::Attribute => 10,
        Field::Class => 11,
        Field::Name => 12,
        Field::Text => 13,
    }
}

/// Whether the field holds a number, so that ordering comparisons apply.
pub open spec fn is_numeric(f: Field) -> bool {
    rank(f) < 8
}

impl Field {
    /// The position of the field in evaluation order.
    pub fn cost_rank(self) -> (r: usize)
        ensures
            r == rank(self),
    {
        match self {
            Field::Atk => 0,
            Field::Def => 1,
            Field::Legal => 2,
            Field::Level => 3,
            Field::Genesys => 4,
            Field::LinkRating => 5,
            Field::Price => 6,
            Field::Year => 7,
            Field::SetCode => 8,
            Field::Type => 9,
            Field::Attribute => 10,
            Field::Class => 11,
            Field::Name => 12,
            Field::Text => 13,
        }
    }

    /// Whether ordering comparisons apply to the field.
    pub fn numeric(self) -> (r: bool)
        ensures
            r == is_numeric(self),
    {
        self.cost_rank() < 8
    }
}

/// The field that a (lowercase) name or alias denotes.
pub open spec fn field_named(w: Seq<char>) -> Option<Field> {
    if w == "atk"@ {
        Some(Field::Atk)
    } else if w == "def"@ {
        Some(Field::Def)
    } else if w == "level"@ || w == "l"@ {
        Some(Field::Level)
    } else if w == "type"@ || w == "t"@ {
        Some(Field::Type)
    } else if w == "attribute"@ || w == "attr"@ || w == "a"@ {
        Some(Field::Attribute)
    } else if w == "c"@ || w == "class"@ {
        Some(Field::Class)
    } else if w == "o"@ || w == "eff"@ || w == "text"@ || w == "effect"@ || w == "e"@ {
        Some(Field::Text)
    } else if w == "lr"@ || w == "linkrating"@ {
        Some(Field::LinkRating)
    } else if w == "name"@ {
        Some(Field::Name)
    } else if w == "set"@ || w == "s"@ {
        Some(Field::SetCode)
    } else if w == "year"@ || w == "y"@ {
        Some(Field::Year)
    } else if w == "legal"@ || w == "copies"@ {
        Some(Field::Legal)
    } else if w == "genesys"@ || w == "points"@ {
        Some(Field::Genesys)
    } else if w == "price"@ || w == "p"@ {
        Some(Field::Price)
    } else {
        None
    }
}

/// Looks up the field named by `v[lo..hi]`, which must be lowercase.
fn field_by_name(v: &Vec<char>, lo: usize, hi: usize) -> (r: Option<Field>)
    requires
        lo <= hi <= v@.len(),
    ensures
        r == field_named(v@.subrange(lo as int, hi as int)),
{
    if slice_is(v, lo, hi, "atk") {
        Some(Field::Atk)
    } else if slice_is(v, lo, hi, "def") {
        Some(Field::Def)
    } else if slice_is(v, lo, hi, "level") || slice_is(v, lo, hi, "l") {
        Some(Field::Level)
    } else if slice_is(v, lo, hi, "type") || slice_is(v, lo, hi, "t") {
        Some(Field::Type)
    } else if slice_is(v, lo, hi, "attribute") || slice_is(v, lo, hi, "attr") || slice_is(
        v,
        lo,
        hi,
        "a",
    ) {
        Some(Field::Attribute)
    } else if slice_is(v, lo, hi, "c") || slice_is(v, lo, hi, "class") {
        Some(Field::Class)
    } else if slice_is(v, lo, hi, "o") || slice_is(v, lo, hi, "eff") || slice_is(v, lo, hi, "text")
        || slice_is(v, lo, hi, "effect") || slice_is(v, lo, hi, "e") {
        Some(Field::Text)
    } else if slice_is(v, lo, hi, "lr") || slice_is(v, lo, hi, "linkrating") {
        Some(Field::LinkRating)
    } else if slice_is(v, lo, hi, "name") {
        Some(Field::Name)
    } else if slice_is(v, lo, hi, "set") || slice_is(v, lo, hi, "s") {
        Some(Field::SetCode)
    } else if slice_is(v, lo, hi, "year") || slice_is(v, lo, hi, "y") {
        Some(Field::Year)
    } else if slice_is(v, lo, hi, "legal") || slice_is(v, lo, hi, "copies") {
        Some(Field::Legal)
    } else if slice_is(v, lo, hi, "genesys") || slice_is(v, lo, hi, "points") {
        Some(Field::Genesys)
    } else if slice_is(v, lo, hi, "price") || slice_is(v, lo, hi, "p") {
        Some(Field::Price)
    } else {
        None
    }
}

/// A comparison between a card's field and a query value.
#[derive(Debug, PartialEq, Eq, Clone, Copy, Structural)]
pub enum Operator {
    Equal,
    NotEqual,
    Less,
    LessEqual,
    Greater,
    GreaterEqual,
}

/// What the operator says of two numbers.
pub open spec fn compares(op: Operator, a: int, b: int) -> bool {
    match op {
        Operator::Equal => a == b,
        Operator::NotEqual => a != b,
        Operator::Less => a < b,
        Operator::LessEqual => a <= b,
        Operator::Greater => a > b,
        Operator::GreaterEqual => a >= b,
    }
}

/// Whether the operator orders rather than tests for (in)equality.
pub open spec fn is_ordering(op: Operator) -> bool {
    !(op is Equal || op is NotEqual)
}

impl Operator {
    /// Compares a field's number with a query number; a field without a
    /// number never matches, whatever the operator.
    pub fn filter_number(&self, a: Option<i32>, b: i32) -> (r: bool)
        ensures
            r == (a matches Some(x) && compares(*self, x as int, b as int)),
    {
        match a {
            Some(a) => match self {
                Operator::Equal => a == b,
                Operator::Less => a < b,
                Operator::LessEqual => a <= b,
                Operator::Greater => a > b,
                Operator::GreaterEqual => a >= b,
                Operator::NotEqual => a != b,
            },
            None => false,
        }
    }
}

/// The operator that a token of one or two operator characters denotes.
pub open spec fn op_named(t: Seq<char>) -> Option<Operator> {
    if t.len() == 1 {
        if t[0] == '=' || t[0] == ':' {
            Some(Operator::Equal)
        } else if t[0] == '>' {
            Some(Operator::Greater)
        } else if t[0] == '<' {
            Some(Operator::Less)
        } else {
            None
        }
    } else if t.len() == 2 {
        if t[0] == '=' && t[1] == '=' {
            Some(Operator::Equal)
        } else if (t[0] == '>' && t[1] == '=') || (t[0] == '=' && t[1] == '>') {
            Some(Operator::GreaterEqual)
        } else if (t[0] == '<' && t[1] == '=') || (t[0] == '=' && t[1] == '<') {
            Some(Operator::LessEqual)
        } else if t[0] == '!' && t[1] == '=' {
            Some(Operator::NotEqual)
        } else {
            None
        }
    } else {
        None
    }
}

fn op_by_token(v: &Vec<char>, lo: usize, hi: usize) -> (r: Option<Operator>)
    requires
        lo <= hi <= v@.len(),
        hi - lo <= 2,
    ensures
        r == op_named(v@.subrange(lo as int, hi as int)),
{
    let ghost t = v@.subrange(lo as int, hi as int);
    if hi - lo == 1 {
        let c = v[lo];
        if c == '=' || c == ':' {
            Some(Operator::Equal)
        } else if c == '>' {
            Some(Operator::Greater)
        } else if c == '<' {
            Some(Operator::Less)
        } else {
            None
        }
    } else if hi - lo == 2 {
        let c = v[lo];
        let d = v[lo + 1];
        if c == '=' && d == '=' {
            Some(Operator::Equal)
        } else if (c == '>' && d == '=') || (c == '=' && d == '>') {
            Some(Operator::GreaterEqual)
        } else if (c == '<' && d == '=') || (c == '=' && d == '<') {
            Some(Operator::LessEqual)
        } else if c == '!' && d == '=' {
            Some(Operator::NotEqual)
        } else {
            None
        }
    } else {
        None
    }
}

// ----- character classes and scanning -----

pub open spec fn is_space(c: char) -> bool {
    c == ' ' || c == '\t' || c == '\n' || c == '\r'
}

pub open spec fn is_op_char(c: char) -> bool {
    c == '=' || c == '<' || c == '>' || c == ':' || c == '!'
}

pub open spec fn is_letter(c: char) -> bool {
    ('a' <= c && c <= 'z') || ('A' <= c && c <= 'Z')
}

pub open spec fn ascii_lower(c: char) -> char {
    if 'A' <= c && c <= 'Z' {
        ((c as u32) + 32) as char
    } else {
        c
    }
}

pub open spec fn has_op_char(t: Seq<char>) -> bool {
    exists|i: int| 0 <= i < t.len() && is_op_char(#[trigger] t[i])
}

pub open spec fn has_char(t: Seq<char>, c: char) -> bool {
    exists|i: int| 0 <= i < t.len() && #[trigger] t[i] == c
}

/// First position at or after `i` that is not whitespace.
pub open spec fn skip_spaces(s: Seq<char>, i: int) -> int
    decreases s.len() - i,
{
    if 0 <= i < s.len() && is_space(s[i]) {
        skip_spaces(s, i + 1)
    } else {
        i
    }
}

/// First position at or after `i` that is whitespace, or the end.
pub open spec fn word_end(s: Seq<char>, i: int) -> int
    decreases s.len() - i,
{
    if 0 <= i < s.len() && !is_space(s[i]) {
        word_end(s, i + 1)
    } else {
        i
    }
}

/// First position at or after `i` that is not an ASCII letter.
pub open spec fn letters_end(s: Seq<char>, i: int) -> int
    decreases s.len() - i,
{
    if 0 <= i < s.len() && is_letter(s[i]) {
        letters_end(s, i + 1)
    } else {
        i
    }
}

/// First position at or after `i` that holds `c`, or the end.
pub open spec fn find_char(s: Seq<char>, i: int, c: char) -> int
    decreases s.len() - i,
{
    if 0 <= i < s.len() && s[i] != c {
        find_char(s, i + 1, c)
    } else {
        i
    }
}

/// The end of the operator token at `i`: at most two operator characters.
pub open spec fn ops_end(s: Seq<char>, i: int) -> int {
    if 0 <= i < s.len() && is_op_char(s[i]) {
        if i + 1 < s.len() && is_op_char(s[i + 1]) {
            i + 2
        } else {
            i + 1
        }
    } else {
        i
    }
}

fn scan_spaces(v: &Vec<char>, i: usize) -> (r: usize)
    requires
        i <= v@.len(),
    ensures
        r == skip_spaces(v@, i as int),
        i <= r <= v@.len(),
{
    let mut j = i;
    while j < v.len() && (v[j] == ' ' || v[j] == '\t' || v[j] == '\n' || v[j] == '\r')
        invariant
            i <= j <= v@.len(),
            skip_spaces(v@, j as int) == skip_spaces(v@, i as int),
        decreases v@.len() - j,
    {
        j = j + 1;
    }
    j
}

fn scan_word(v: &Vec<char>, i: usize) -> (r: usize)
    requires
        i <= v@.len(),
    ensures
        r == word_end(v@, i as int),
        i <= r <= v@.len(),
{
    let mut j = i;
    while j < v.len() && !(v[j] == ' ' || v[j] == '\t' || v[j] == '\n' || v[j] == '\r')
        invariant
            i <= j <= v@.len(),
            word_end(v@, j as int) == word_end(v@, i as int),
        decreases v@.len() - j,
    {
        j = j + 1;
    }
    j
}

fn scan_letters(v: &Vec<char>, i: usize) -> (r: usize)
    requires
        i <= v@.len(),
    ensures
        r == letters_end(v@, i as int),
        i <= r <= v@.len(),
{
    let mut j = i;
    while j < v.len() && (('a' <= v[j] && v[j] <= 'z') || ('A' <= v[j] && v[j] <= 'Z'))
        invariant
            i <= j <= v@.len(),
            letters_end(v@, j as int) == letters_end(v@, i as int),
        decreases v@.len() - j,
    {
        j = j + 1;
    }
    j
}

pub(crate) fn scan_to(v: &Vec<char>, i: usize, c: char) -> (r: usize)
    requires
        i <= v@.len(),
    ensures
        r == find_char(v@, i as int, c),
        i <= r <= v@.len(),
{
    let mut j = i;
    while j < v.len() && v[j] != c
        invariant
            i <= j <= v@.len(),
            find_char(v@, j as int, c) == find_char(v@, i as int, c),
        decreases v@.len() - j,
    {
        j = j + 1;
    }
    j
}

fn op_char(c: char) -> (r: bool)
    ensures
        r == is_op_char(c),
{
    c == '=' || c == '<' || c == '>' || c == ':' || c == '!'
}

fn scan_ops(v: &Vec<char>, i: usize) -> (r: usize)
    requires
        i <= v@.len(),
    ensures
        r == ops_end(v@, i as int),
        i <= r <= v@.len(),
        r - i <= 2,
{
    if i < v.len() && op_char(v[i]) {
        if i + 1 < v.len() && op_char(v[i + 1]) {
            i + 2
        } else {
            i + 1
        }
    } else {
        i
    }
}

fn any_op_char(v: &Vec<char>, lo: usize, hi: usize) -> (r: bool)
    requires
        lo <= hi <= v@.len(),
    ensures
        r == has_op_char(v@.subrange(lo as int, hi as int)),
{
    let ghost t = v@.subrange(lo as int, hi as int);
    let mut j = lo;
    while j < hi
        invariant
            lo <= j <= hi <= v@.len(),
            t == v@.subrange(lo as int, hi as int),
            forall|k: int| 0 <= k < j - lo ==> !is_op_char(#[trigger] t[k]),
        decreases hi - j,
    {
        if op_char(v[j]) {
            assert(is_op_char(t[j - lo]));
            return true;
        }
        j = j + 1;
    }
    false
}

fn any_char(v: &Vec<char>, lo: usize, hi: usize, c: char) -> (r: bool)
    requires
        lo <= hi <= v@.len(),
    ensures
        r == has_char(v@.subrange(lo as int, hi as int), c),
{
    let ghost t = v@.subrange(lo as int, hi as int);
    let mut j = lo;
    while j < hi
        invariant
            lo <= j <= hi <= v@.len(),
            t == v@.subrange(lo as int, hi as int),
            forall|k: int| 0 <= k < j - lo ==> #[trigger] t[k] != c,
        decreases hi - j,
    {
        if v[j] == c {
            assert(t[j - lo] == c);
            return true;
        }
        j = j + 1;
    }
    false
}

/// `v[lo..hi]` with ASCII capitals turned into small letters.
fn lower_letters(v: &Vec<char>, lo: usize, hi: usize) -> (r: Vec<char>)
    requires
        lo <= hi <= v@.len(),
    ensures
        r@ == v@.subrange(lo as int, hi as int).map_values(|c: char| ascii_lower(c)),
{
    let mut out: Vec<char> = Vec::new();
    let mut j = lo;
    while j < hi
        invariant
            lo <= j <= hi <= v@.len(),
            out@ == v@.subrange(lo as int, j as int).map_values(|c: char| ascii_lower(c)),
        decreases hi - j,
    {
        let c = v[j];
        let l = if 'A' <= c && c <= 'Z' { ((c as u8) + 32) as char } else { c };
        proof {
            assert(v@.subrange(lo as int, j + 1) =~= v@.subrange(lo as int, j as int).push(c));
        }
        out.push(l);
        proof {
            assert(out@ =~= v@.subrange(lo as int, j + 1).map_values(|c: char| ascii_lower(c)));
        }
        j = j + 1;
    }
    out
}

// ----- values -----

/// A value in a query clause, or the value of a card's field.
#[derive(Debug, PartialEq, Eq)]
pub enum Value {
    /// Lowercase text.
    String(String),
    Numerical(i32),
    /// A case-insensitive regular expression.
    Regex(Pattern),
    /// Alternatives (in a query) or exact-match elements (on a card).
    Multiple(Vec<Value>),
    /// Texts that a query string may occur in.
    MultiplePartial(Vec<String>),
    /// The field does not apply to the card.
    Absent,
}

/// One query alternative, as a mathematical value.
pub enum Atom {
    Text(Seq<char>),
    Number(int),
    Regex(Seq<char>),
    /// A value that never matches as a query alternative.
    Inert,
}

/// A query value: one alternative, or several of which any may match.
pub enum ValueModel {
    One(Atom),
    AnyOf(Seq<Atom>),
}

/// A clause as a mathematical value.
pub struct ClauseModel {
    pub field: Field,
    pub op: Operator,
    pub value: ValueModel,
}

/// Each value as a single query alternative.
pub open spec fn atoms_of(vs: Seq<Value>) -> Seq<Atom> {
    vs.map_values(|x: Value| x.atom())
}

impl Value {
    /// The value as a single query alternative.
    pub open spec fn atom(&self) -> Atom {
        match self {
            Value::String(s) => Atom::Text(s@),
            Value::Numerical(n) => Atom::Number(*n as int),
            Value::Regex(p) => Atom::Regex(p.source()),
            _ => Atom::Inert,
        }
    }

    /// The value as a query value.
    pub open spec fn model(&self) -> ValueModel {
        match self {
            Value::Multiple(vs) => ValueModel::AnyOf(atoms_of(vs@)),
            _ => ValueModel::One(self.atom()),
        }
    }

    /// A copy that means the same as a query value.
    pub fn duplicate(&self) -> (r: Value)
        ensures
            r.model() == self.model(),
    {
        match self {
            Value::Multiple(vs) => {
                let mut out: Vec<Value> = Vec::new();
                let mut i: usize = 0;
                while i < vs.len()
                    invariant
                        i <= vs@.len(),
                        out@.len() == i,
                        forall|k: int| 0 <= k < i ==> (#[trigger] out@[k]).atom() == vs@[k].atom(),
                    decreases vs@.len() - i,
                {
                    let x = vs[i].duplicate_atom();
                    out.push(x);
                    i = i + 1;
                }
                proof {
                    assert(atoms_of(out@) =~= atoms_of(vs@));
                }
                Value::Multiple(out)
            },
            _ => self.duplicate_atom(),
        }
    }

    /// A copy that means the same as a single query alternative.
    fn duplicate_atom(&self) -> (r: Value)
        ensures
            r.atom() == self.atom(),
            r !is Multiple,
            self !is Multiple ==> r.model() == self.model(),
    {
        match self {
            Value::String(s) => Value::String(s.clone()),
            Value::Numerical(n) => Value::Numerical(*n),
            Value::Regex(p) => Value::Regex(p.duplicate()),
            _ => Value::Absent,
        }
    }
}

/// One clause of a query: a field, an operator and a value.
#[derive(Debug, PartialEq, Eq)]
pub struct RawCardFilter(pub Field, pub Operator, pub Value);

impl RawCardFilter {
    pub open spec fn model(&self) -> ClauseModel {
        ClauseModel { field: self.0, op: self.1, value: self.2.model() }
    }

    /// A copy with the same meaning.
    pub fn duplicate(&self) -> (r: RawCardFilter)
        ensures
            r.model() == self.model(),
    {
        RawCardFilter(self.0, self.1, self.2.duplicate())
    }
}

// ----- numbers -----

pub open spec fn is_digit(c: char) -> bool {
    '0' <= c && c <= '9'
}

pub open spec fn digit_value(c: char) -> int {
    (c as u32) as int - ('0' as u32) as int
}

pub open spec fn all_digits(d: Seq<char>) -> bool {
    forall|i: int| 0 <= i < d.len() ==> is_digit(#[trigger] d[i])
}

/// The number written by a run of decimal digits.
pub open spec fn digits_value(d: Seq<char>) -> int
    decreases d.len(),
{
    if d.len() == 0 {
        0
    } else {
        digits_value(d.drop_last()) * 10 + digit_value(d.last())
    }
}

/// The 32-bit integer that `t` writes (an optional sign, then digits), if any.
pub open spec fn int_of(t: Seq<char>) -> Option<int> {
    let signed = t.len() > 0 && (t[0] == '-' || t[0] == '+');
    let d = if signed { t.drop_first() } else { t };
    let v = if signed && t[0] == '-' { -digits_value(d) } else { digits_value(d) };
    if d.len() > 0 && all_digits(d) && i32::MIN <= v <= i32::MAX {
        Some(v)
    } else {
        None
    }
}

pub(crate) proof fn lemma_digits_grow(d: Seq<char>, j: int)
    requires
        all_digits(d),
        0 <= j <= d.len(),
    ensures
        0 <= digits_value(d.take(j)) <= digits_value(d),
    decreases d.len(),
{
    if d.len() > 0 {
        if j == d.len() {
            assert(d.take(j) =~= d);
            lemma_digits_grow(d.drop_last(), 0);
        } else {
            lemma_digits_grow(d.drop_last(), j);
            assert(d.drop_last().take(j) =~= d.take(j));
        }
    } else {
        assert(d.take(j) =~= d);
    }
}

/// Reads `v[lo..hi]` as a 32-bit integer.
fn parse_int(v: &Vec<char>, lo: usize, hi: usize) -> (r: Option<i32>)
    requires
        lo <= hi <= v@.len(),
    ensures
        r is Some <==> int_of(v@.subrange(lo as int, hi as int)) is Some,
        r matches Some(n) ==> int_of(v@.subrange(lo as int, hi as int)) == Some(n as int),
{
    let ghost t = v@.subrange(lo as int, hi as int);
    let signed = lo < hi && (v[lo] == '-' || v[lo] == '+');
    let neg = signed && v[lo] == '-';
    let start = if signed { lo + 1 } else { lo };
    let ghost d = v@.subrange(start as int, hi as int);
    assert(lo < hi ==> t[0] == v@[lo as int]);
    assert(d =~= (if signed { t.drop_first() } else { t }));
    if start == hi {
        return None;
    }
    let mut acc: i64 = 0;
    let mut j = start;
    while j < hi
        invariant
            lo <= start <= j <= hi <= v@.len(),
            d == v@.subrange(start as int, hi as int),
            t == v@.subrange(lo as int, hi as int),
            d == (if signed { t.drop_first() } else { t }),
            signed == (t.len() > 0 && (t[0] == '-' || t[0] == '+')),
            neg == (signed && t[0] == '-'),
            forall|k: int| 0 <= k < j - start ==> is_digit(#[trigger] d[k]),
            acc == digits_value(d.take(j - start)),
            0 <= acc <= 2147483648,
        decreases hi - j,
    {
        let c = v[j];
        if !('0' <= c && c <= '9') {
            assert(!is_digit(d[j - start]));
            assert(!all_digits(d));
            assert(int_of(t) is None);
            return None;
        }
        let dv = (c as u32 - '0' as u32) as i64;
        proof {
            assert(d.take(j - start + 1).drop_last() =~= d.take(j - start));
        }
        let next = acc * 10 + dv;
        if next > 2147483648 {
            proof {
                if all_digits(d) {
                    lemma_digits_grow(d, j - start + 1);
                    assert(digits_value(d) > 2147483648);
                }
                assert(int_of(t) is None);
            }
            return None;
        }
        acc = next;
        j = j + 1;
    }
    proof {
        assert(d.take(d.len() as int) =~= d);
    }
    if neg {
        Some((-acc) as i32)
    } else if acc > 2147483647 {
        None
    } else {
        Some(acc as i32)
    }
}

// ----- resolving value text -----

/// A single token: an integer, or else lowercase text without operator
/// characters.
pub open spec fn resolve_atom(t: Seq<char>) -> Option<Atom> {
    match int_of(t) {
        Some(n) => Some(Atom::Number(n)),
        None => if has_op_char(t) {
            None
        } else {
            Some(Atom::Text(lower_of(t)))
        },
    }
}

/// The alternatives of the `|`-separated pieces of `t` from position `i` on;
/// empty pieces are dropped.
pub open spec fn pipe_atoms(t: Seq<char>, i: int) -> Option<Seq<Atom>>
    decreases t.len() - i,
{
    let e = find_char(t, i, '|');
    let here: Option<Seq<Atom>> = if e <= i {
        Some(Seq::empty())
    } else {
        match resolve_atom(t.subrange(i, e)) {
            Some(a) => Some(seq![a]),
            None => None,
        }
    };
    if i < 0 || e >= t.len() || e < i {
        here
    } else {
        match (here, pipe_atoms(t, e + 1)) {
            (Some(x), Some(y)) => Some(x + y),
            _ => None,
        }
    }
}

/// A bare token: alternatives when it holds `|` (a single survivor stands
/// alone), else one resolved token.
pub open spec fn resolve_bare(t: Seq<char>) -> Option<ValueModel> {
    if has_char(t, '|') {
        match pipe_atoms(t, 0) {
            Some(a) => if a.len() == 0 {
                None
            } else if a.len() == 1 {
                Some(ValueModel::One(a[0]))
            } else {
                Some(ValueModel::AnyOf(a))
            },
            None => None,
        }
    } else {
        match resolve_atom(t) {
            Some(a) => Some(ValueModel::One(a)),
            None => None,
        }
    }
}

/// The value that starts at position `i`, and the position after it:
/// a double-quoted span (its content taken verbatim, lowercased), a
/// `/`-delimited regular expression, or a bare token up to the next
/// whitespace.
pub open spec fn parse_value(s: Seq<char>, i: int) -> Option<(ValueModel, int)> {
    if 0 <= i < s.len() && s[i] == '"' {
        let close = find_char(s, i + 1, '"');
        if close < s.len() && close > i + 1 {
            Some((ValueModel::One(Atom::Text(lower_of(s.subrange(i + 1, close)))), close + 1))
        } else {
            None
        }
    } else if 0 <= i < s.len() && s[i] == '/' {
        let close = find_char(s, i + 1, '/');
        if close < s.len() && close > i + 1 && regex_compiles(case_insensitive(s.subrange(i + 1, close))) {
            Some((ValueModel::One(Atom::Regex(s.subrange(i + 1, close))), close + 1))
        } else {
            None
        }
    } else {
        let e = word_end(s, i);
        if e > i {
            match resolve_bare(s.subrange(i, e)) {
                Some(m) => Some((m, e)),
                None => None,
            }
        } else {
            None
        }
    }
}

fn text_value(v: &Vec<char>, lo: usize, hi: usize) -> (r: String)
    requires
        lo <= hi <= v@.len(),
    ensures
        r@ == lower_of(v@.subrange(lo as int, hi as int)),
{
    let raw = string_of(slice_subrange(v.as_slice(), lo, hi));
    to_lower(raw.as_str())
}

fn atom_value(v: &Vec<char>, lo: usize, hi: usize) -> (r: Option<Value>)
    requires
        lo <= hi <= v@.len(),
    ensures
        match resolve_atom(v@.subrange(lo as int, hi as int)) {
            None => r is None,
            Some(a) => r matches Some(x) && x.atom() == a && x !is Multiple,
        },
{
    match parse_int(v, lo, hi) {
        Some(n) => Some(Value::Numerical(n)),
        None => {
            if any_op_char(v, lo, hi) {
                None
            } else {
                Some(Value::String(text_value(v, lo, hi)))
            }
        },
    }
}

fn pipe_values(t: &Vec<char>) -> (r: Option<Vec<Value>>)
    ensures
        match pipe_atoms(t@, 0) {
            None => r is None,
            Some(a) => r matches Some(vs) && atoms_of(vs@) == a
                && forall|k: int| 0 <= k < vs@.len() ==> (#[trigger] vs@[k]) !is Multiple,
        },
{
    let mut acc: Vec<Value> = Vec::new();
    let mut i: usize = 0;
    assert(atoms_of(acc@) + Seq::<Atom>::empty() =~= Seq::<Atom>::empty());
    loop
        invariant
            i <= t@.len(),
            forall|k: int| 0 <= k < acc@.len() ==> (#[trigger] acc@[k]) !is Multiple,
            pipe_atoms(t@, 0) == (match pipe_atoms(t@, i as int) {
                Some(y) => Some(atoms_of(acc@) + y),
                None => None,
            }),
        decreases t@.len() - i,
    {
        let e = scan_to(t, i, '|');
        let ghost before = acc@;
        if e > i {
            match atom_value(t, i, e) {
                Some(x) => {
                    acc.push(x);
                },
                None => {
                    return None;
                },
            }
        }
        proof {
            assert(atoms_of(acc@) =~= atoms_of(before) + (if e <= i {
                Seq::<Atom>::empty()
            } else {
                seq![resolve_atom(t@.subrange(i as int, e as int))->0]
            }));
        }
        if e >= t.len() {
            proof {
                assert(pipe_atoms(t@, i as int) is Some);
                assert(atoms_of(acc@) =~= pipe_atoms(t@, 0)->0);
            }
            return Some(acc);
        }
        proof {
            let here: Seq<Atom> = if e <= i {
                Seq::empty()
            } else {
                seq![resolve_atom(t@.subrange(i as int, e as int))->0]
            };
            match pipe_atoms(t@, e + 1) {
                Some(y) => {
                    assert(atoms_of(before) + (here + y) =~= atoms_of(acc@) + y);
                },
                None => {},
            }
        }
        i = e + 1;
    }
}

fn bare_value(v: &Vec<char>, lo: usize, hi: usize) -> (r: Option<Value>)
    requires
        lo <= hi <= v@.len(),
    ensures
        match resolve_bare(v@.subrange(lo as int, hi as int)) {
            None => r is None,
            Some(m) => r matches Some(x) && x.model() == m,
        },
{
    if any_char(v, lo, hi, '|') {
        let t = slice_to_vec(slice_subrange(v.as_slice(), lo, hi));
        match pipe_values(&t) {
            None => None,
            Some(mut vs) => {
                if vs.len() == 0 {
                    None
                } else if vs.len() == 1 {
                    let x = vs.pop().unwrap();
                    assert(x.atom() == atoms_of(vs@.push(x))[0]);
                    Some(x)
                } else {
                    Some(Value::Multiple(vs))
                }
            },
        }
    } else {
        atom_value(v, lo, hi)
    }
}

fn value_at(v: &Vec<char>, i: usize) -> (r: Option<(Value, usize)>)
    requires
        i <= v@.len(),
    ensures
        match parse_value(v@, i as int) {
            None => r is None,
            Some((m, e)) => r matches Some((x, k)) && x.model() == m && k == e,
        },
{
    if i < v.len() && v[i] == '"' {
        let close = scan_to(v, i + 1, '"');
        if close < v.len() && close > i + 1 {
            Some((Value::String(text_value(v, i + 1, close)), close + 1))
        } else {
            None
        }
    } else if i < v.len() && v[i] == '/' {
        let close = scan_to(v, i + 1, '/');
        if close < v.len() && close > i + 1 {
            let src = string_of(slice_subrange(v.as_slice(), i + 1, close));
            match Pattern::compile(src.as_str()) {
                Some(p) => Some((Value::Regex(p), close + 1)),
                None => None,
            }
        } else {
            None
        }
    } else {
        let e = scan_word(v, i);
        if e > i {
            match bare_value(v, i, e) {
                Some(x) => Some((x, e)),
                None => None,
            }
        } else {
            None
        }
    }
}

// ----- clauses -----

/// The structured form `field operator value` at position `j`.
pub open spec fn structured_clause(s: Seq<char>, j: int) -> Option<(ClauseModel, int)> {
    let le = letters_end(s, j);
    let oe = ops_end(s, le);
    match (field_named(s.subrange(j, le).map_values(|c: char| ascii_lower(c))), op_named(s.subrange(le, oe))) {
        (Some(f), Some(op)) => match parse_value(s, oe) {
            Some((v, e)) => Some((ClauseModel { field: f, op: op, value: v }, e)),
            None => None,
        },
        _ => None,
    }
}

/// A bare word at position `j`, read as a name search; a word holding an
/// operator character is a malformed clause instead.
pub open spec fn fallback_clause(s: Seq<char>, j: int) -> Option<(ClauseModel, int)> {
    let e = word_end(s, j);
    if e > j && !has_op_char(s.subrange(j, e)) {
        Some((
            ClauseModel {
                field: Field::Name,
                op: Operator::Equal,
                value: ValueModel::One(Atom::Text(lower_of(s.subrange(j, e)))),
            },
            e,
        ))
    } else {
        None
    }
}

/// The clause that starts at `i` (after any whitespace), and the position
/// after it.
pub open spec fn parse_clause(s: Seq<char>, i: int) -> Option<(ClauseModel, int)> {
    let j = skip_spaces(s, i);
    match structured_clause(s, j) {
        Some(r) => Some(r),
        None => fallback_clause(s, j),
    }
}

/// Up to `n` clauses from position `i` on, stopping at the first position
/// where no clause can be read; and that position.
pub open spec fn parse_clauses(s: Seq<char>, i: int, n: nat) -> (Seq<ClauseModel>, int)
    decreases n,
{
    if n == 0 {
        (Seq::empty(), i)
    } else {
        match parse_clause(s, i) {
            None => (Seq::empty(), i),
            Some((c, e)) => {
                let (rest, k) = parse_clauses(s, e, (n - 1) as nat);
                (seq![c] + rest, k)
            },
        }
    }
}

/// The most clauses a query may hold.
pub const MAX_CLAUSES: usize = 32;

/// The clauses of a whole query, in the order written: at least one, at
/// most `MAX_CLAUSES`, and nothing may be left over.
pub open spec fn parse_query(s: Seq<char>) -> Option<Seq<ClauseModel>> {
    let (cs, k) = parse_clauses(s, 0, MAX_CLAUSES as nat);
    if cs.len() >= 1 && k == s.len() {
        Some(cs)
    } else {
        None
    }
}

fn structured_at(v: &Vec<char>, j: usize) -> (r: Option<(RawCardFilter, usize)>)
    requires
        j <= v@.len(),
    ensures
        match structured_clause(v@, j as int) {
            None => r is None,
            Some((m, e)) => r matches Some((c, k)) && c.model() == m && k == e,
        },
{
    let le = scan_letters(v, j);
    let oe = scan_ops(v, le);
    let word = lower_letters(v, j, le);
    match (field_by_name(&word, 0, word.len()), op_by_token(v, le, oe)) {
        (Some(f), Some(op)) => {
            proof {
                assert(word@.subrange(0, word@.len() as int) =~= word@);
            }
            match value_at(v, oe) {
                Some((x, e)) => Some((RawCardFilter(f, op, x), e)),
                None => None,
            }
        },
        _ => {
            proof {
                assert(word@.subrange(0, word@.len() as int) =~= word@);
            }
            None
        },
    }
}

fn fallback_at(v: &Vec<char>, j: usize) -> (r: Option<(RawCardFilter, usize)>)
    requires
        j <= v@.len(),
    ensures
        match fallback_clause(v@, j as int) {
            None => r is None,
            Some((m, e)) => r matches Some((c, k)) && c.model() == m && k == e,
        },
{
    let e = scan_word(v, j);
    if e > j && !any_op_char(v, j, e) {
        let name = text_value(v, j, e);
        Some((RawCardFilter(Field::Name, Operator::Equal, Value::String(name)), e))
    } else {
        None
    }
}

fn clause_at(v: &Vec<char>, i: usize) -> (r: Option<(RawCardFilter, usize)>)
    requires
        i <= v@.len(),
    ensures
        match parse_clause(v@, i as int) {
            None => r is None,
            Some((m, e)) => r matches Some((c, k)) && c.model() == m && k == e && i < k <= v@.len(),
        },
{
    let j = scan_spaces(v, i);
    match structured_at(v, j) {
        Some((c, e)) => {
            proof {
                lemma_clause_advances(v@, j as int);
            }
            Some((c, e))
        },
        None => {
            proof {
                lemma_clause_advances(v@, j as int);
            }
            fallback_at(v, j)
        },
    }
}

proof fn lemma_scan_bounds(s: Seq<char>, i: int)
    requires
        0 <= i <= s.len(),
    ensures
        i <= word_end(s, i) <= s.len(),
        i <= letters_end(s, i) <= s.len(),
        forall|c: char| i <= #[trigger] find_char(s, i, c) <= s.len(),
    decreases s.len() - i,
{
    if i < s.len() {
        lemma_scan_bounds(s, i + 1);
        assert forall|c: char| i <= #[trigger] find_char(s, i, c) <= s.len() by {
            if s[i] != c {
                assert(i + 1 <= find_char(s, i + 1, c) <= s.len());
            }
        }
    }
}

/// A clause read at `j` ends after `j`, within the input.
proof fn lemma_clause_advances(s: Seq<char>, j: int)
    requires
        0 <= j <= s.len(),
    ensures
        structured_clause(s, j) matches Some((_, e)) ==> j < e <= s.len(),
        fallback_clause(s, j) matches Some((_, e)) ==> j < e <= s.len(),
{
    lemma_scan_bounds(s, j);
    let le = letters_end(s, j);
    lemma_scan_bounds(s, le);
    let oe = ops_end(s, le);
    if 0 <= oe <= s.len() {
        lemma_scan_bounds(s, oe);
        if oe + 1 <= s.len() {
            lemma_scan_bounds(s, oe + 1);
        }
    }
}

/// Reads up to `MAX_CLAUSES` clauses from the start of `v`; returns them
/// and the position where reading stopped.
fn clauses_of(v: &Vec<char>) -> (r: (Vec<RawCardFilter>, usize))
    ensures
        models(r.0@) == parse_clauses(v@, 0, MAX_CLAUSES as nat).0,
        r.1 == parse_clauses(v@, 0, MAX_CLAUSES as nat).1,
        r.1 <= v@.len(),
{
    let mut out: Vec<RawCardFilter> = Vec::new();
    let mut pos: usize = 0;
    let mut count: usize = 0;
    let ghost whole = parse_clauses(v@, 0, MAX_CLAUSES as nat);
    assert(out@.map_values(|c: RawCardFilter| c.model()) + parse_clauses(v@, 0, MAX_CLAUSES as nat).0
        =~= whole.0);
    while count < MAX_CLAUSES
        invariant
            count <= MAX_CLAUSES,
            pos <= v@.len(),
            whole == parse_clauses(v@, 0, MAX_CLAUSES as nat),
            out@.map_values(|c: RawCardFilter| c.model()) + parse_clauses(
                v@,
                pos as int,
                (MAX_CLAUSES - count) as nat,
            ).0 == whole.0,
            parse_clauses(v@, pos as int, (MAX_CLAUSES - count) as nat).1 == whole.1,
        decreases MAX_CLAUSES - count,
    {
        match clause_at(v, pos) {
            Some((c, e)) => {
                let ghost before = out@;
                out.push(c);
                proof {
                    let rest = parse_clauses(v@, e as int, (MAX_CLAUSES - count - 1) as nat);
                    assert(out@.map_values(|c: RawCardFilter| c.model()) =~= before.map_values(
                        |c: RawCardFilter| c.model(),
                    ).push(c.model()));
                    assert(before.map_values(|c: RawCardFilter| c.model()) + (seq![c.model()]
                        + rest.0) =~= out@.map_values(|c: RawCardFilter| c.model()) + rest.0);
                }
                pos = e;
                count = count + 1;
            },
            None => {
                proof {
                    assert(out@.map_values(|c: RawCardFilter| c.model()) + Seq::<ClauseModel>::empty()
                        =~= out@.map_values(|c: RawCardFilter| c.model()));
                }
                return (out, pos);
            },
        }
    }
    proof {
        assert(out@.map_values(|c: RawCardFilter| c.model()) + Seq::<ClauseModel>::empty()
            =~= out@.map_values(|c: RawCardFilter| c.model()));
    }
    (out, pos)
}

// ----- planning: cost order and coalescing -----

/// The meaning of each clause of a list.
pub open spec fn models(v: Seq<RawCardFilter>) -> Seq<ClauseModel> {
    v.map_values(|c: RawCardFilter| c.model())
}

/// The clauses whose field has rank `k`, in the order given.
pub open spec fn of_rank(cs: Seq<ClauseModel>, k: nat) -> Seq<ClauseModel> {
    cs.filter(|c: ClauseModel| rank(c.field) == k)
}

/// The clauses of ranks below `k`, grouped by rank, each group in its
/// given order.
pub open spec fn ranks_below(cs: Seq<ClauseModel>, k: nat) -> Seq<ClauseModel>
    decreases k,
{
    if k == 0 {
        Seq::empty()
    } else {
        ranks_below(cs, (k - 1) as nat) + of_rank(cs, (k - 1) as nat)
    }
}

/// The clauses stably sorted by the rank of their field.
pub open spec fn by_rank(cs: Seq<ClauseModel>) -> Seq<ClauseModel> {
    ranks_below(cs, FIELD_COUNT as nat)
}

/// A bare name search: `name = "text"` with a single text value.
pub open spec fn is_name_word(c: ClauseModel) -> bool {
    &&& c.field == Field::Name
    &&& c.op == Operator::Equal
    &&& c.value matches ValueModel::One(Atom::Text(_))
}

/// The text of a bare name search.
pub open spec fn word_of(c: ClauseModel) -> Seq<char> {
    match c.value {
        ValueModel::One(Atom::Text(t)) => t,
        _ => Seq::empty(),
    }
}

/// One name search for two adjacent words, joined by a space.
pub open spec fn merge_words(a: ClauseModel, b: ClauseModel) -> ClauseModel {
    ClauseModel {
        field: Field::Name,
        op: Operator::Equal,
        value: ValueModel::One(Atom::Text(word_of(a) + seq![' '] + word_of(b))),
    }
}

/// The clauses with each run of adjacent bare name searches merged into one.
pub open spec fn coalesce(cs: Seq<ClauseModel>) -> Seq<ClauseModel>
    decreases cs.len(),
{
    if cs.len() == 0 {
        Seq::empty()
    } else {
        let p = coalesce(cs.drop_last());
        let x = cs.last();
        if p.len() > 0 && is_name_word(p.last()) && is_name_word(x) {
            p.update(p.len() - 1, merge_words(p.last(), x))
        } else {
            p.push(x)
        }
    }
}

/// The clause list that a query is evaluated as: cheapest fields first, and
/// adjacent name words merged.
pub open spec fn plan(cs: Seq<ClauseModel>) -> Seq<ClauseModel> {
    coalesce(by_rank(cs))
}

proof fn lemma_filter_twice(
    s: Seq<ClauseModel>,
    p: spec_fn(ClauseModel) -> bool,
    q: spec_fn(ClauseModel) -> bool,
    r: spec_fn(ClauseModel) -> bool,
)
    requires
        forall|x: ClauseModel| #[trigger] r(x) == (p(x) && q(x)),
    ensures
        s.filter(p).filter(q) == s.filter(r),
    decreases s.len(),
{
    reveal(Seq::filter);
    if s.len() > 0 {
        lemma_filter_twice(s.drop_last(), p, q, r);
        let a = s.drop_last().filter(p);
        assert(a.push(s.last()).drop_last() =~= a);
    }
}

proof fn lemma_filter_all(s: Seq<ClauseModel>, p: spec_fn(ClauseModel) -> bool)
    requires
        forall|x: ClauseModel| #[trigger] p(x),
    ensures
        s.filter(p) == s,
    decreases s.len(),
{
    reveal(Seq::filter);
    if s.len() > 0 {
        lemma_filter_all(s.drop_last(), p);
        assert(s.drop_last().push(s.last()) =~= s);
    }
}

proof fn lemma_filter_push(s: Seq<ClauseModel>, x: ClauseModel, p: spec_fn(ClauseModel) -> bool)
    ensures
        s.push(x).filter(p) == (if p(x) { s.filter(p).push(x) } else { s.filter(p) }),
{
    reveal(Seq::filter);
    assert(s.push(x).drop_last() =~= s);
}

fn rank_order(v: Vec<RawCardFilter>) -> (r: Vec<RawCardFilter>)
    ensures
        models(r@) == by_rank(models(v@)),
{
    let ghost m = models(v@);
    let mut out: Vec<RawCardFilter> = Vec::new();
    let mut rest = v;
    let mut k: usize = 0;
    proof {
        lemma_filter_all(m, |c: ClauseModel| rank(c.field) >= 0);
    }
    while k < FIELD_COUNT
        invariant
            k <= FIELD_COUNT,
            models(out@) == ranks_below(m, k as nat),
            models(rest@) == m.filter(|c: ClauseModel| rank(c.field) >= k),
        decreases FIELD_COUNT - k,
    {
        let ghost p = rest@;
        assert(p.len() == rest.len());
        let mut keep: Vec<RawCardFilter> = Vec::new();
        let mut j: usize = 0;
        let ghost base = out@;
        let ghost hit = |c: ClauseModel| rank(c.field) == k;
        let ghost miss = |c: ClauseModel| rank(c.field) != k;
        proof {
            assert(models(p.take(0)) =~= Seq::<ClauseModel>::empty());
            assert(models(out@) =~= models(base) + models(p.take(0)).filter(hit));
        }
        while rest.len() > 0
            invariant
                j + rest@.len() == p.len(),
                p.len() <= usize::MAX,
                rest@ == p.subrange(j as int, p.len() as int),
                models(out@) == models(base) + models(p.take(j as int)).filter(hit),
                models(keep@) == models(p.take(j as int)).filter(miss),
                hit == (|c: ClauseModel| rank(c.field) == k),
                miss == (|c: ClauseModel| rank(c.field) != k),
            decreases rest@.len(),
        {
            let x = rest.remove(0);
            proof {
                assert(x == p[j as int]);
                assert(models(p.take(j + 1)) =~= models(p.take(j as int)).push(x.model()));
                lemma_filter_push(models(p.take(j as int)), x.model(), hit);
                lemma_filter_push(models(p.take(j as int)), x.model(), miss);
            }
            if x.0.cost_rank() == k {
                let ghost before = out@;
                out.push(x);
                proof {
                    assert(models(out@) =~= models(before).push(x.model()));
                }
            } else {
                let ghost before = keep@;
                keep.push(x);
                proof {
                    assert(models(keep@) =~= models(before).push(x.model()));
                }
            }
            proof {
                assert(rest@ =~= p.subrange(j + 1, p.len() as int));
            }
            j = j + 1;
        }
        proof {
            assert(p.take(j as int) =~= p);
            let ge = |c: ClauseModel| rank(c.field) >= k;
            lemma_filter_twice(m, ge, hit, |c: ClauseModel| rank(c.field) == k);
            lemma_filter_twice(m, ge, miss, |c: ClauseModel| rank(c.field) >= k + 1);
            assert(models(out@) =~= ranks_below(m, (k + 1) as nat));
        }
        rest = keep;
        k = k + 1;
    }
    out
}

fn name_word(c: &RawCardFilter) -> (r: bool)
    ensures
        r == is_name_word(c.model()),
{
    match c {
        RawCardFilter(Field::Name, Operator::Equal, Value::String(_)) => true,
        _ => false,
    }
}

fn merge_adjacent(v: Vec<RawCardFilter>) -> (r: Vec<RawCardFilter>)
    ensures
        models(r@) == coalesce(models(v@)),
{
    let ghost p = v@;
    let mut rest = v;
    let mut out: Vec<RawCardFilter> = Vec::new();
    let mut j: usize = 0;
    assert(p.len() == rest.len());
    proof {
        assert(models(p.take(0)) =~= Seq::<ClauseModel>::empty());
    }
    while rest.len() > 0
        invariant
            j + rest@.len() == p.len(),
            p.len() <= usize::MAX,
            rest@ == p.subrange(j as int, p.len() as int),
            models(out@) == coalesce(models(p.take(j as int))),
        decreases rest@.len(),
    {
        let x = rest.remove(0);
        proof {
            assert(x == p[j as int]);
            assert(models(p.take(j + 1)) =~= models(p.take(j as int)).push(x.model()));
            assert(models(p.take(j + 1)).drop_last() =~= models(p.take(j as int)));
        }
        let ghost before = out@;
        if out.len() > 0 && name_word(&out[out.len() - 1]) && name_word(&x) {
            let last = out.pop().unwrap();
            proof {
                assert(before.last() == last);
                assert(models(before).last() == last.model());
                assert(models(out@) =~= models(before).drop_last());
            }
            assert(last.2 is String && x.2 is String);
            match (last, x) {
                (RawCardFilter(_, _, Value::String(a)), RawCardFilter(_, _, Value::String(b))) => {
                    let mut joined = a;
                    joined.append(" ");
                    joined.append(b.as_str());
                    proof {
                        reveal_strlit(" ");
                        assert(joined@ == a@ + seq![' '] + b@);
                    }
                    out.push(RawCardFilter(Field::Name, Operator::Equal, Value::String(joined)));
                },
                _ => {},
            }
            proof {
                assert(models(out@) =~= models(before).update(
                    models(before).len() - 1,
                    merge_words(models(before).last(), x.model()),
                ));
            }
        } else {
            out.push(x);
            proof {
                assert(models(out@) =~= models(before).push(x.model()));
            }
        }
        proof {
            assert(rest@ =~= p.subrange(j + 1, p.len() as int));
        }
        j = j + 1;
    }
    proof {
        assert(p.take(j as int) =~= p);
    }
    out
}

/// Orders clauses cheapest field first (stably) and merges adjacent bare
/// name searches.
pub fn plan_clauses(v: Vec<RawCardFilter>) -> (r: Vec<RawCardFilter>)
    ensures
        models(r@) == plan(models(v@)),
{
    merge_adjacent(rank_order(v))
}

// ----- whole queries -----

/// Every clause can be compiled.
pub open spec fn all_supported(cs: Seq<ClauseModel>) -> bool {
    forall|i: int| 0 <= i < cs.len() ==> supported(#[trigger] cs[i])
}

/// `raw` and `filters` are what the query `s` compiles to: its clauses in
/// evaluation order, and one filter per clause accepting exactly the cards
/// that satisfy the clause.
pub open spec fn compiled_from(s: Seq<char>, raw: Seq<RawCardFilter>, filters: Seq<CardFilter>) -> bool {
    &&& parse_query(s) matches Some(cs)
    &&& models(raw) == plan(cs)
    &&& filters.len() == raw.len()
    &&& forall|i: int, card: SearchCard|
        0 <= i < filters.len() ==> #[trigger] filters[i].accepts(card) == clause_holds(
            plan(cs)[i],
            card,
        )
}

/// `prefix` followed by `detail`.
pub(crate) fn message(prefix: &str, detail: &str) -> (r: String)
    ensures
        r@ == prefix@ + detail@,
{
    let mut m = String::from_str(prefix);
    m.append(detail);
    m
}

/// The position of the first clause, at or after `i`, that cannot be
/// compiled (or the end).
pub open spec fn first_unsupported(cs: Seq<ClauseModel>, i: int) -> int
    decreases cs.len() - i,
{
    if i < 0 || i >= cs.len() || !supported(cs[i]) {
        i
    } else {
        first_unsupported(cs, i + 1)
    }
}

/// The error a query that does not compile gives: no clause could be read;
/// or text was left over, which the message names; or the first clause (in
/// evaluation order) that cannot be compiled, restated.
pub open spec fn query_error(s: Seq<char>) -> Seq<char> {
    let (cs, k) = parse_clauses(s, 0, MAX_CLAUSES as nat);
    if cs.len() == 0 {
        "Could not read a clause in: "@ + s
    } else if k < s.len() {
        "Input was not fully parsed. Left over: "@ + s.skip(k)
    } else {
        clause_error(plan(cs)[first_unsupported(plan(cs), 0)])
    }
}

/// Parses a query and compiles its clauses. On success returns the clauses
/// in evaluation order (cheapest field first, adjacent name words merged),
/// for display, and one filter per clause.
pub fn parse_filters(input: &str) -> (r: Result<(Vec<RawCardFilter>, Vec<CardFilter>), String>)
    ensures
        r is Ok <==> (parse_query(input@) matches Some(cs) && all_supported(plan(cs))),
        r matches Ok((raw, filters)) ==> compiled_from(input@, raw@, filters@),
        r matches Err(e) ==> e@ == query_error(input@),
{
    let v = chars_of(input);
    let (clauses, stop) = clauses_of(&v);
    if clauses.len() == 0 {
        return Err(message("Could not read a clause in: ", input));
    }
    if stop < v.len() {
        let rest = string_of(slice_subrange(v.as_slice(), stop, v.len()));
        proof {
            assert(rest@ =~= input@.skip(stop as int));
        }
        return Err(message("Input was not fully parsed. Left over: ", rest.as_str()));
    }
    let ghost cs = models(clauses@);
    assert(parse_query(input@) == Some(cs));
    let planned = plan_clauses(clauses);
    let ghost ps = plan(cs);
    let mut filters: Vec<CardFilter> = Vec::new();
    let mut i: usize = 0;
    while i < planned.len()
        invariant
            i <= planned@.len(),
            parse_query(input@) == Some(cs),
            ps == plan(cs),
            models(planned@) == ps,
            filters@.len() == i,
            forall|k: int| 0 <= k < i ==> supported(#[trigger] ps[k]),
            first_unsupported(ps, 0) == first_unsupported(ps, i as int),
            parse_clauses(input@, 0, MAX_CLAUSES as nat).0 == cs,
            parse_clauses(input@, 0, MAX_CLAUSES as nat).1 == v@.len(),
            v@ == input@,
            forall|k: int, card: SearchCard|
                0 <= k < i ==> #[trigger] filters@[k].accepts(card) == clause_holds(ps[k], card),
        decreases planned@.len() - i,
    {
        let c = planned[i].duplicate();
        proof {
            assert(ps[i as int] == planned@[i as int].model());
        }
        match build_filter(c) {
            Ok(f) => {
                filters.push(f);
            },
            Err(e) => {
                proof {
                    assert(!supported(ps[i as int]));
                    assert(!all_supported(ps));
                    assert(first_unsupported(ps, i as int) == i);
                }
                return Err(e);
            },
        }
        i = i + 1;
    }
    Ok((planned, filters))
}

/// Reads one clause from the start of `input` (after any whitespace);
/// returns the rest of the input and the clause.
pub fn parse_raw_filter(input: &str) -> (r: Result<(String, RawCardFilter), String>)
    ensures
        match parse_clause(input@, 0) {
            None => r is Err,
            Some((m, e)) => r matches Ok((rest, c)) && c.model() == m && rest@ == input@.skip(e),
        },
{
    let v = chars_of(input);
    match clause_at(&v, 0) {
        Some((c, e)) => {
            let rest = string_of(slice_subrange(v.as_slice(), e, v.len()));
            proof {
                assert(rest@ =~= input@.skip(e as int));
            }
            Ok((rest, c))
        },
        None => Err(message("Could not read a clause in: ", input)),
    }
}

/// Reads up to `MAX_CLAUSES` clauses from the start of `input`, in the
/// order written; returns what was left unread and the clauses. Fails when
/// not even one clause can be read.
pub fn parse_raw_filters(input: &str) -> (r: Result<(String, Vec<RawCardFilter>), String>)
    ensures
        ({
            let (cs, k) = parse_clauses(input@, 0, MAX_CLAUSES as nat);
            if cs.len() == 0 {
                r is Err
            } else {
                r matches Ok((rest, v)) && models(v@) == cs && rest@ == input@.skip(k)
            }
        }),
{
    let v = chars_of(input);
    let (clauses, stop) = clauses_of(&v);
    if clauses.len() == 0 {
        return Err(message("Could not read a clause in: ", input));
    }
    let rest = string_of(slice_subrange(v.as_slice(), stop, v.len()));
    proof {
        assert(rest@ =~= input@.skip(stop as int));
    }
    Ok((rest, clauses))
}

// ----- laws -----

/// After coalescing, no two adjacent clauses are both bare name words: each
/// run of them has become one name search for the words joined by spaces.
pub proof fn lemma_coalesced_words_not_adjacent(cs: Seq<ClauseModel>)
    ensures
        forall|i: int|
            0 <= i < coalesce(cs).len() - 1 ==> !(is_name_word(#[trigger] coalesce(cs)[i])
                && is_name_word(coalesce(cs)[i + 1])),
    decreases cs.len(),
{
    if cs.len() > 0 {
        lemma_coalesced_words_not_adjacent(cs.drop_last());
        let p = coalesce(cs.drop_last());
        let r = coalesce(cs);
        assert forall|i: int| 0 <= i < r.len() - 1 implies !(is_name_word(#[trigger] r[i])
            && is_name_word(r[i + 1])) by {
            if i < p.len() - 1 {
                assert(r[i] == p[i]);
                assert(r[i + 1] == p[i + 1] || i + 1 == p.len() - 1);
            }
        }
    }
}

/// Two adjacent bare name words become one name search for both words,
/// separated by a space.
pub proof fn lemma_adjacent_words_merge(cs: Seq<ClauseModel>, a: ClauseModel, b: ClauseModel)
    requires
        is_name_word(a),
        is_name_word(b),
        coalesce(cs).len() > 0 ==> !is_name_word(coalesce(cs).last()),
    ensures
        coalesce(cs.push(a).push(b)) == coalesce(cs).push(merge_words(a, b)),
        is_name_word(merge_words(a, b)),
{
    assert(cs.push(a).push(b).drop_last() =~= cs.push(a));
    assert(cs.push(a).drop_last() =~= cs);
    let p = coalesce(cs);
    assert(coalesce(cs.push(a)) == p.push(a));
    assert(p.push(a).update(p.len() as int, merge_words(a, b)) =~= p.push(merge_words(a, b)));
}

/// A name search for `t`.
pub open spec fn name_search(t: Seq<char>) -> ClauseModel {
    ClauseModel { field: Field::Name, op: Operator::Equal, value: ValueModel::One(Atom::Text(t)) }
}

/// The words of a run of bare name searches.
pub open spec fn words_of(cs: Seq<ClauseModel>) -> Seq<Seq<char>> {
    cs.map_values(|c: ClauseModel| word_of(c))
}

/// A run of bare name words coalesces into one name search for the words
/// joined by single spaces.
pub proof fn lemma_words_coalesce(cs: Seq<ClauseModel>)
    requires
        cs.len() > 0,
        forall|i: int| 0 <= i < cs.len() ==> is_name_word(#[trigger] cs[i]),
    ensures
        coalesce(cs) == seq![name_search(joined(words_of(cs), seq![' ']))],
    decreases cs.len(),
{
    let x = cs.last();
    assert(x == name_search(word_of(x)));
    if cs.len() == 1 {
        assert(cs.drop_last() =~= Seq::<ClauseModel>::empty());
        assert(words_of(cs) =~= seq![word_of(x)]);
        assert(coalesce(cs.drop_last()) == Seq::<ClauseModel>::empty());
        assert(coalesce(cs) =~= seq![x]);
    } else {
        lemma_words_coalesce(cs.drop_last());
        assert(words_of(cs).drop_last() =~= words_of(cs.drop_last()));
        assert(words_of(cs).last() == word_of(x));
        let p = coalesce(cs.drop_last());
        assert(p.update(0, merge_words(p.last(), x)) =~= seq![
            name_search(joined(words_of(cs), seq![' '])),
        ]);
    }
}

/// Clauses that all read one field keep their order when sorted by rank.
proof fn lemma_one_field_keeps_order(cs: Seq<ClauseModel>, f: Field, k: nat)
    requires
        forall|i: int| 0 <= i < cs.len() ==> (#[trigger] cs[i]).field == f,
        k <= FIELD_COUNT,
    ensures
        ranks_below(cs, k) == (if k <= rank(f) { Seq::<ClauseModel>::empty() } else { cs }),
    decreases k,
{
    if k > 0 {
        let j = (k - 1) as nat;
        lemma_one_field_keeps_order(cs, f, j);
        lemma_of_rank_single(cs, f, j);
        if j == rank(f) {
            assert(Seq::<ClauseModel>::empty() + cs =~= cs);
        } else {
            assert(ranks_below(cs, j) + Seq::<ClauseModel>::empty() =~= ranks_below(cs, j));
        }
    }
}

proof fn lemma_of_rank_single(cs: Seq<ClauseModel>, f: Field, j: nat)
    requires
        forall|i: int| 0 <= i < cs.len() ==> (#[trigger] cs[i]).field == f,
    ensures
        of_rank(cs, j) == (if j == rank(f) { cs } else { Seq::<ClauseModel>::empty() }),
    decreases cs.len(),
{
    reveal(Seq::filter);
    if cs.len() > 0 {
        let d = cs.drop_last();
        assert forall|i: int| 0 <= i < d.len() implies (#[trigger] d[i]).field == f by {
            assert(d[i] == cs[i]);
        }
        lemma_of_rank_single(d, f, j);
        assert(cs.last().field == f);
        assert(d.push(cs.last()) =~= cs);
    }
}

/// Bare name words plan to one name search for the joined words.
proof fn lemma_words_plan(cs: Seq<ClauseModel>, card: SearchCard)
    requires
        cs.len() >= 1,
        forall|i: int| 0 <= i < cs.len() ==> is_name_word(#[trigger] cs[i]),
    ensures
        ({
            let phrase = joined(words_of(cs), seq![' ']);
            &&& plan(cs) == seq![name_search(phrase)]
            &&& clause_holds(plan(cs)[0], card) <==> exists|i: int|
                0 <= i < card.names@.len() && seq_contains(#[trigger] strings(card.names@)[i], phrase)
        }),
{
    assert forall|i: int| 0 <= i < cs.len() implies (#[trigger] cs[i]).field == Field::Name by {
        assert(is_name_word(cs[i]));
    }
    lemma_one_field_keeps_order(cs, Field::Name, FIELD_COUNT as nat);
    assert(by_rank(cs) == cs);
    lemma_words_coalesce(cs);
    let phrase = joined(words_of(cs), seq![' ']);
    assert(plan(cs)[0] == name_search(phrase));
    let ns = strings(card.names@);
    assert(field_model(card, Field::Name) == FieldModel::Partial(ns));
    assert(ns.len() == card.names@.len());
    assert(plan(cs) == seq![name_search(phrase)]);
    let m = name_search(phrase);
    if clause_holds(m, card) {
        assert(exists|i: int| 0 <= i < ns.len() && seq_contains(#[trigger] ns[i], phrase));
    }
    if exists|i: int| 0 <= i < ns.len() && seq_contains(#[trigger] ns[i], phrase) {
        let i = choose|i: int| 0 <= i < ns.len() && seq_contains(#[trigger] ns[i], phrase);
        assert(seq_contains(ns[i], phrase));
        let fm = field_model(card, Field::Name);
        match fm {
            FieldModel::Partial(ns2) => {
                assert(ns2 == ns);
                assert(seq_contains(ns2[i], phrase));
                assert(exists|j: int| 0 <= j < ns2.len() && seq_contains(#[trigger] ns2[j], phrase));
            },
            _ => {},
        }
        assert(atom_holds(m.op, fm, Atom::Text(phrase)));
    }
}

/// A query made only of bare words is evaluated as one name search for the
/// words joined by spaces: a card passes exactly when one of its names
/// contains that whole phrase, not when each word occurs on its own.
pub proof fn lemma_bare_words_are_one_name_search(s: Seq<char>, card: SearchCard)
    requires
        parse_query(s) matches Some(cs) && forall|i: int|
            0 <= i < cs.len() ==> is_name_word(#[trigger] cs[i]),
    ensures
        ({
            let cs = parse_query(s)->0;
            let phrase = joined(words_of(cs), seq![' ']);
            &&& plan(cs) == seq![name_search(phrase)]
            &&& clause_holds(plan(cs)[0], card) <==> exists|i: int|
                0 <= i < card.names@.len() && seq_contains(#[trigger] strings(card.names@)[i], phrase)
        }),
{
    let cs = parse_query(s)->0;
    assert(cs.len() >= 1);
    lemma_words_plan(cs, card);
}

/// A `/`-delimited value is one regular expression, whatever it holds
/// (`|` included): it is never split into alternatives.
pub proof fn lemma_regex_value_is_single(s: Seq<char>, i: int)
    requires
        0 <= i < s.len(),
        s[i] == '/',
    ensures
        parse_value(s, i) matches Some((v, _)) ==> v == ValueModel::One(
            Atom::Regex(s.subrange(i + 1, find_char(s, i + 1, '/'))),
        ),
{
}

/// Parsing and compiling a query is deterministic: two compilations of the
/// same text have the same clauses and select the same cards from any
/// corpus.
pub proof fn lemma_compile_deterministic(
    s: Seq<char>,
    raw1: Seq<RawCardFilter>,
    filters1: Seq<CardFilter>,
    raw2: Seq<RawCardFilter>,
    filters2: Seq<CardFilter>,
    cards: Seq<SearchCard>,
)
    requires
        compiled_from(s, raw1, filters1),
        compiled_from(s, raw2, filters2),
    ensures
        models(raw1) == models(raw2),
        forall|card: SearchCard| all_accept(filters1, card) == all_accept(filters2, card),
        matching(filters1, cards) == matching(filters2, cards),
{
    let cs = parse_query(s)->0;
    assert(models(raw1).len() == raw1.len());
    assert(models(raw2).len() == raw2.len());
    assert(filters1.len() == filters2.len());
    assert forall|card: SearchCard| all_accept(filters1, card) == all_accept(filters2, card) by {
        assert forall|i: int| 0 <= i < filters1.len() implies #[trigger] filters1[i].accepts(card)
            == filters2[i].accepts(card) by {
            assert(filters1[i].accepts(card) == clause_holds(plan(cs)[i], card));
            assert(filters2[i].accepts(card) == clause_holds(plan(cs)[i], card));
        }
        if all_accept(filters1, card) {
            assert forall|i: int| 0 <= i < filters2.len() implies #[trigger] filters2[i].accepts(card) by {
                assert(filters1[i].accepts(card));
            }
        }
        if all_accept(filters2, card) {
            assert forall|i: int| 0 <= i < filters1.len() implies #[trigger] filters1[i].accepts(card) by {
                assert(filters2[i].accepts(card));
            }
        }
    }
    let p1 = |c: SearchCard| all_accept(filters1, c);
    let p2 = |c: SearchCard| all_accept(filters2, c);
    assert(p1 =~= p2);
}

// ----- display -----

/// How a field is named in a restated query.
pub open spec fn field_label(f: Field) -> Seq<char> {
    match f {
        Field::Text => "text"@,
        Field::Name => "name"@,
        Field::Class => "card type"@,
        Field::Attribute => "attribute"@,
        Field::Type => "type"@,
        Field::Level => "level/rank"@,
        Field::Atk => "ATK"@,
        Field::Def => "DEF"@,
        Field::LinkRating => "link rating"@,
        Field::SetCode => "set"@,
        Field::Year => "year"@,
        Field::Legal => "allowed copies"@,
        Field::Genesys => "genesys points"@,
        Field::Price => "price"@,
    }
}

/// How an operator reads in a restated query.
pub open spec fn op_label(op: Operator) -> Seq<char> {
    match op {
        Operator::Equal => "is"@,
        Operator::NotEqual => "is not"@,
        Operator::Less => "<"@,
        Operator::LessEqual => "<="@,
        Operator::Greater => ">"@,
        Operator::GreaterEqual => ">="@,
    }
}

/// One alternative as written back: text with spaces in quotes, numbers in
/// decimal, regular expressions between slashes.
pub open spec fn atom_text(a: Atom) -> Seq<char> {
    match a {
        Atom::Text(t) => if has_char(t, ' ') {
            seq!['"'] + t + seq!['"']
        } else {
            t
        },
        Atom::Number(n) => decimal_of(n),
        Atom::Regex(p) => seq!['/'] + p + seq!['/'],
        Atom::Inert => Seq::empty(),
    }
}

pub open spec fn value_text(m: ValueModel) -> Seq<char> {
    match m {
        ValueModel::One(a) => atom_text(a),
        ValueModel::AnyOf(atoms) => joined(atoms.map_values(|a: Atom| atom_text(a)), " or "@),
    }
}

pub open spec fn clause_text(c: ClauseModel) -> Seq<char> {
    field_label(c.field) + seq![' '] + op_label(c.op) + seq![' '] + value_text(c.value)
}

/// A query as one sentence: its clauses joined by "and".
pub open spec fn query_text(cs: Seq<ClauseModel>) -> Seq<char> {
    joined(cs.map_values(|c: ClauseModel| clause_text(c)), " and "@)
}

impl Field {
    /// How the field is named in a restated query.
    pub fn label(self) -> (r: &'static str)
        ensures
            r@ == field_label(self),
    {
        match self {
            Field::Text => "text",
            Field::Name => "name",
            Field::Class => "card type",
            Field::Attribute => "attribute",
            Field::Type => "type",
            Field::Level => "level/rank",
            Field::Atk => "ATK",
            Field::Def => "DEF",
            Field::LinkRating => "link rating",
            Field::SetCode => "set",
            Field::Year => "year",
            Field::Legal => "allowed copies",
            Field::Genesys => "genesys points",
            Field::Price => "price",
        }
    }
}

impl Operator {
    /// How the operator reads in a restated query.
    pub fn label(self) -> (r: &'static str)
        ensures
            r@ == op_label(self),
    {
        match self {
            Operator::Equal => "is",
            Operator::NotEqual => "is not",
            Operator::Less => "<",
            Operator::LessEqual => "<=",
            Operator::Greater => ">",
            Operator::GreaterEqual => ">=",
        }
    }
}

/// `items` joined by `sep`.
fn join(items: &Vec<String>, sep: &str) -> (r: String)
    ensures
        r@ == joined(items@.map_values(|s: String| s@), sep@),
{
    let ghost all = items@.map_values(|s: String| s@);
    let mut out = String::new();
    if items.len() == 0 {
        return out;
    }
    out.append(items[0].as_str());
    let mut i: usize = 1;
    assert(all.take(1) =~= seq![all[0]]);
    while i < items.len()
        invariant
            1 <= i <= items@.len(),
            all == items@.map_values(|s: String| s@),
            out@ == joined(all.take(i as int), sep@),
        decreases items@.len() - i,
    {
        proof {
            assert(all.take(i + 1).drop_last() =~= all.take(i as int));
        }
        out.append(sep);
        out.append(items[i].as_str());
        i = i + 1;
    }
    assert(all.take(i as int) =~= all);
    out
}

fn has_space(s: &String) -> (r: bool)
    ensures
        r == has_char(s@, ' '),
{
    let v = chars_of(s.as_str());
    proof {
        assert(v@.subrange(0, v@.len() as int) =~= v@);
    }
    any_char(&v, 0, v.len(), ' ')
}

fn atom_describe(v: &Value) -> (r: String)
    ensures
        r@ == atom_text(v.atom()),
{
    proof {
        reveal_strlit("\"");
        reveal_strlit("/");
    }
    match v {
        Value::String(t) => {
            let quoted = has_space(t);
            if quoted {
                let mut out = String::new();
                out.append("\"");
                out.append(t.as_str());
                out.append("\"");
                out
            } else {
                t.clone()
            }
        },
        Value::Numerical(n) => decimal(*n),
        Value::Regex(p) => {
            let mut out = String::new();
            out.append("/");
            out.append(p.as_str());
            out.append("/");
            out
        },
        _ => String::new(),
    }
}

impl Value {
    /// The value as written back in a restated query; alternatives are
    /// joined by "or".
    pub fn describe(&self) -> (r: String)
        ensures
            r@ == value_text(self.model()),
    {
        match self {
            Value::Multiple(vs) => {
                let mut parts: Vec<String> = Vec::new();
                let mut i: usize = 0;
                while i < vs.len()
                    invariant
                        i <= vs@.len(),
                        parts@.len() == i,
                        forall|k: int| 0 <= k < i ==> (#[trigger] parts@[k])@ == atom_text(vs@[k].atom()),
                    decreases vs@.len() - i,
                {
                    parts.push(atom_describe(&vs[i]));
                    i = i + 1;
                }
                assert(parts@.map_values(|s: String| s@) =~= atoms_of(vs@).map_values(
                    |a: Atom| atom_text(a),
                ));
                join(&parts, " or ")
            },
            _ => atom_describe(self),
        }
    }
}

impl RawCardFilter {
    /// The clause as a phrase, such as `ATK >= 100`.
    pub fn describe(&self) -> (r: String)
        ensures
            r@ == clause_text(self.model()),
    {
        proof {
            reveal_strlit(" ");
        }
        let mut out = String::new();
        out.append(self.0.label());
        out.append(" ");
        out.append(self.1.label());
        out.append(" ");
        let v = self.2.describe();
        out.append(v.as_str());
        out
    }
}

/// A clause list as one sentence, such as
/// `ATK >= 100 and name is "dark magician"`.
pub fn readable_query(filters: &Vec<RawCardFilter>) -> (r: String)
    ensures
        r@ == query_text(models(filters@)),
{
    let mut parts: Vec<String> = Vec::new();
    let mut i: usize = 0;
    while i < filters.len()
        invariant
            i <= filters@.len(),
            parts@.len() == i,
            forall|k: int| 0 <= k < i ==> (#[trigger] parts@[k])@ == clause_text(filters@[k].model()),
        decreases filters@.len() - i,
    {
        parts.push(filters[i].describe());
        i = i + 1;
    }
    assert(parts@.map_values(|s: String| s@) =~= models(filters@).map_values(
        |c: ClauseModel| clause_text(c),
    ));
    join(&parts, " and ")
}

} // verus!
