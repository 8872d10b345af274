use vstd::prelude::*;

use regex::Regex;

verus! {

#[verifier::external_type_specification]
#[verifier::external_body]
pub struct ExRegex(Regex);

/// Whether `p` is a valid regular expression.
pub uninterp spec fn regex_compiles(p: Seq<char>) -> bool;

/// The capture groups of the leftmost match of pattern `p` in `t` (group 0 being the
/// whole match, a group that took no part being none), or none where it does not match.
pub uninterp spec fn captures_in(p: Seq<char>, t: Seq<char>) -> Option<Seq<Option<Seq<char>>>>;

/// The string `x` holds the group `g`, and is none where `g` took no part.
pub open spec fn same_group(x: Option<String>, g: Option<Seq<char>>) -> bool {
    match g {
        None => x is None,
        Some(t) => x matches Some(s) && s@ == t,
    }
}

/// A regular expression together with the text it was compiled from.
pub struct CompiledPattern {
    source: String,
    re: Regex,
}

impl CompiledPattern {
    /// The text the expression was compiled from.
    pub closed spec fn source(&self) -> Seq<char> {
        self.source@
    }
}

/// Relies on `Regex::new`: it succeeds exactly on valid expressions.
#[verifier::external_body]
pub(crate) fn compile_pattern(p: &str) -> (r: Option<CompiledPattern>)
    ensures
        r is Some <==> regex_compiles(p@),
        r matches Some(cp) ==> cp.source() == p@,
{
    match Regex::new(p) {
        Ok(re) => Some(CompiledPattern { source: p.to_string(), re }),
        Err(_) => None,
    }
}

/// Relies on `Regex::captures`: the groups of the leftmost match, each as a string where
/// it took part in the match.
#[verifier::external_body]
pub(crate) fn pattern_captures(cp: &CompiledPattern, t: &str) -> (r: Option<Vec<Option<String>>>)
    ensures
        match captures_in(cp.source(), t@) {
            None => r is None,
            Some(gs) => r matches Some(v) && v@.len() == gs.len() && forall|k: int| 0 <= k < gs.len() ==> same_group(#[trigger] v@[k], gs[k]),
        },
{
    cp.re.captures(t).map(|caps| caps.iter().map(|m| m.map(|m| m.as_str().to_string())).collect())
}

} // verus!
