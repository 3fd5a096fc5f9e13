//! Case-insensitive regular expressions used by `/.../` query values.
use vstd::prelude::*;
use vstd::string::*;

verus! {

#[verifier::external_type_specification]
#[verifier::external_body]
pub struct ExRegex(regex::Regex);

/// Whether `regex::Regex::new` accepts `pattern`.
pub uninterp spec fn regex_compiles(pattern: Seq<char>) -> bool;

/// Whether the regex `pattern` matches somewhere in `haystack`.
pub uninterp spec fn regex_finds(pattern: Seq<char>, haystack: Seq<char>) -> bool;

/// The pattern `source` with the flag that makes it ignore case.
pub open spec fn case_insensitive(source: Seq<char>) -> Seq<char> {
    seq!['(', '?', 'i', ')'] + source
}

/// Relies on `regex::Regex::new`: it returns `Ok` exactly for the patterns
/// it accepts, and the result depends on the pattern alone.
#[verifier::external_body]
fn new_regex(pattern: &str) -> (r: Option<regex::Regex>)
    ensures
        r is Some <==> regex_compiles(pattern@),
{
    regex::Regex::new(pattern).ok()
}

/// A compiled, case-insensitive regular expression together with the text it
/// was written as. `compiled` is always the regex of
/// `case_insensitive(source)`: both fields are only ever set together, by
/// `compile` and `duplicate`.
#[derive(Debug)]
pub struct Pattern {
    source: String,
    compiled: regex::Regex,
}

impl Pattern {
    /// The text the pattern was written as (without delimiters or flag).
    pub closed spec fn source(&self) -> Seq<char> {
        self.source@
    }

    /// Compiles `source` so that it matches regardless of case.
    pub(crate) fn compile(source: &str) -> (r: Option<Pattern>)
        ensures
            r is Some <==> regex_compiles(case_insensitive(source@)),
            r matches Some(p) ==> p.source() == source@,
    {
        let mut flagged = String::from_str("(?i)");
        flagged.append(source);
        proof {
            reveal_strlit("(?i)");
            assert(flagged@ =~= case_insensitive(source@));
        }
        match new_regex(flagged.as_str()) {
            Some(compiled) => Some(Pattern { source: String::from_str(source), compiled }),
            None => None,
        }
    }

    /// Relies on `regex::Regex::is_match`: true iff the regex matches
    /// somewhere in the haystack.
    #[verifier::external_body]
    pub(crate) fn is_match(&self, haystack: &str) -> (r: bool)
        ensures
            r == regex_finds(case_insensitive(self.source()), haystack@),
    {
        self.compiled.is_match(haystack)
    }

    /// Another handle on the same compiled pattern.
    pub fn duplicate(&self) -> (r: Pattern)
        ensures
            r.source() == self.source(),
    {
        Pattern { source: self.source.clone(), compiled: self.compiled.clone() }
    }

    /// The text the pattern was written as.
    pub fn as_str(&self) -> (r: &str)
        ensures
            r@ == self.source(),
    {
        self.source.as_str()
    }
}

/// Relies on `regex::Regex::clone`, which gives a handle on the same
/// compiled program (nothing further is claimed of it).
pub assume_specification[ <regex::Regex as Clone>::clone ](r: &regex::Regex) -> regex::Regex;

impl PartialEq for Pattern {
    fn eq(&self, other: &Pattern) -> (r: bool) {
        self.source == other.source
    }
}

impl vstd::std_specs::cmp::PartialEqSpecImpl for Pattern {
    open spec fn obeys_eq_spec() -> bool {
        true
    }

    open spec fn eq_spec(&self, other: &Pattern) -> bool {
        self.source() == other.source()
    }
}

impl Eq for Pattern {
}

} // verus!
