//! Named regular expressions, and what the analyzers share.
use regex::Regex;
use vstd::prelude::*;

verus! {

#[verifier::external_type_specification]
#[verifier::external_body]
pub struct ExRegex(Regex);

/// Whether `source` is accepted by the regular-expression compiler.
pub uninterp spec fn regex_valid(source: Seq<char>) -> bool;

/// Whether the expression compiled from `source` matches somewhere in `line`.
pub uninterp spec fn regex_is_match(source: Seq<char>, line: Seq<char>) -> bool;

/// The texts of the successive non-overlapping leftmost-first matches of the
/// expression compiled from `source` in `line`.
pub uninterp spec fn regex_find_all(source: Seq<char>, line: Seq<char>) -> Seq<Seq<char>>;

/// A display name paired with a compiled regular expression.
#[derive(Debug)]
pub struct Pattern {
    name: String,
    regex: Regex,
    source: String,
}

impl Pattern {
    /// The display name.
    pub closed spec fn spec_name(&self) -> Seq<char> {
        self.name@
    }

    /// The text the expression was compiled from.
    pub closed spec fn source(&self) -> Seq<char> {
        self.source@
    }

    /// Compiles `source` under the display name `name`; on failure the error is
    /// the offending text.
    pub fn new(name: String, source: String) -> (r: Result<Pattern, String>)
        ensures
            r is Ok <==> regex_valid(source@),
            r is Ok ==> r->Ok_0.spec_name() == name@ && r->Ok_0.source() == source@,
            r is Err ==> r->Err_0@ == source@,
    {
        let src = source.clone();
        match compile(name, source) {
            Some(p) => Ok(p),
            None => Err(src),
        }
    }

    /// The display name.
    pub fn name(&self) -> (r: &str)
        ensures
            r@ == self.spec_name(),
    {
        self.name.as_str()
    }

    /// The text the expression was compiled from.
    pub fn as_str(&self) -> (r: &str)
        ensures
            r@ == self.source(),
    {
        self.source.as_str()
    }
}

/// Relies on `regex::Regex::new`: it succeeds exactly on the texts the regex
/// grammar accepts; the compiled expression is kept beside its text.
#[verifier::external_body]
fn compile(name: String, source: String) -> (r: Option<Pattern>)
    ensures
        r is Some <==> regex_valid(source@),
        r is Some ==> r->0.spec_name() == name@ && r->0.source() == source@,
{
    match Regex::new(&source) {
        Ok(regex) => Some(Pattern { name, regex, source }),
        Err(_) => None,
    }
}

/// Relies on `regex::Regex::is_match`: whether the pattern's expression matches
/// anywhere in `line`.
#[verifier::external_body]
pub(crate) fn is_match(p: &Pattern, line: &str) -> (r: bool)
    ensures
        r == regex_is_match(p.source(), line@),
{
    p.regex.is_match(line)
}

/// Relies on `regex::Regex::find_iter` and `regex::Match::as_str`: the texts of the
/// successive non-overlapping matches in `line`.
#[verifier::external_body]
pub(crate) fn find_all(p: &Pattern, line: &str) -> (r: Vec<String>)
    ensures
        r@.map_values(|m: String| m@) == regex_find_all(p.source(), line@),
{
    p.regex.find_iter(line).map(|m| m.as_str().to_string()).collect()
}

/// An analysis strategy over a flattened forest of patterns.
pub trait Analyzer<T> {
    type Analysis;

    /// Takes one line of input into account.
    fn analyze(&mut self, line: String);

    /// The textual report of what was seen so far.
    fn format(&self) -> String;
}

} // verus!
