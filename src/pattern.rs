use vstd::prelude::*;
use vstd::string::StringExecFns;
use crate::error::Error;

verus! {

#[verifier::external_type_specification]
#[verifier::external_body]
pub struct ExRegex(regex::Regex);

/// Whether the regular expression `source` compiles.
pub uninterp spec fn regex_compiles(source: Seq<char>) -> bool;

/// The successive non-overlapping matches of the regular expression `source`
/// in `text`, from the left: for each, the whole matched text and the text of
/// the first capturing group, if that group took part in the match.
pub uninterp spec fn regex_captures(source: Seq<char>, text: Seq<char>) -> Seq<(Seq<char>, Option<Seq<char>>)>;

/// A compiled placeholder pattern, kept with the text it was compiled from.
/// Its first capturing group is the dotted path of a placeholder.
#[derive(Debug)]
pub struct Pattern {
    source: String,
    regex: regex::Regex,
}

impl Pattern {
    /// The text of every pattern compiles.
    #[verifier::type_invariant]
    spec fn inv(&self) -> bool {
        regex_compiles(self.source@)
    }
}

impl View for Pattern {
    type V = Seq<char>;

    /// The text the pattern was compiled from.
    closed spec fn view(&self) -> Seq<char> {
        self.source@
    }
}

pub open spec fn opt_view(o: Option<String>) -> Option<Seq<char>> {
    match o {
        Some(s) => Some(s@),
        None => None,
    }
}

pub open spec fn captures_view(c: Seq<(String, Option<String>)>) -> Seq<(Seq<char>, Option<Seq<char>>)> {
    c.map_values(|m: (String, Option<String>)| (m.0@, opt_view(m.1)))
}

/// Relies on regex::Regex::new: whether the text compiles depends on the text
/// alone; the compiled pattern is kept with its text.
#[verifier::external_body]
fn compile(source: &str) -> (r: Option<Pattern>)
    ensures
        r.is_some() == regex_compiles(source@),
        r.is_some() ==> r.unwrap()@ == source@,
{
    regex::Regex::new(source).ok().map(|regex| Pattern { source: source.to_string(), regex })
}

/// Relies on regex::Regex::captures_iter: the matches of the compiled text, in
/// order, each with its whole text (group 0, present in every match) and its
/// first group.
#[verifier::external_body]
fn captures(p: &Pattern, text: &str) -> (r: Vec<(String, Option<String>)>)
    ensures
        captures_view(r@) == regex_captures(p@, text@),
{
    p.regex.captures_iter(text).map(|c| (c[0].to_string(), c.get(1).map(|m| m.as_str().to_string()))).collect()
}

/// The default placeholder pattern: `${path}`, where the path is made of
/// letters, digits, `_` and `.`.
pub const DEFAULT_PATTERN: &'static str = "\\$\\{([a-zA-Z0-9_.]+)\\}";

impl Pattern {
    /// Compiles `source`; `None` where it is not a valid regular expression.
    pub fn new(source: &str) -> (r: Option<Pattern>)
        ensures
            r.is_some() == regex_compiles(source@),
            r.is_some() ==> r.unwrap()@ == source@,
    {
        compile(source)
    }

    /// The text the pattern was compiled from.
    pub fn as_str(&self) -> (r: &str)
        ensures
            r@ == self@,
            regex_compiles(r@),
    {
        proof { use_type_invariant(self); }
        self.source.as_str()
    }

    /// The matches of the pattern in `text`, in order, each as its whole text
    /// and the text of its first group.
    pub fn captures(&self, text: &str) -> (r: Vec<(String, Option<String>)>)
        ensures
            captures_view(r@) == regex_captures(self@, text@),
    {
        captures(self, text)
    }
}

/// Compiles the placeholder pattern `source`, failing with it where it is not
/// a valid regular expression.
pub fn deserialize_regex(source: &str) -> (r: Result<Pattern, Error>)
    ensures
        r is Ok == regex_compiles(source@),
        r is Ok ==> r->Ok_0@ == source@,
        r is Err ==> r->Err_0 is InvalidPattern && r->Err_0->InvalidPattern_0@ == source@,
{
    match Pattern::new(source) {
        Some(p) => Ok(p),
        None => Err(Error::InvalidPattern(String::from_str(source))),
    }
}

/// The text of the placeholder pattern `p`.
pub fn serialize_regex(p: &Pattern) -> (r: String)
    ensures
        r@ == p@,
        regex_compiles(r@),
{
    proof { use_type_invariant(p); }
    String::from_str(p.as_str())
}

/// The default placeholder pattern, compiled.
pub fn default_pattern() -> (r: Option<Pattern>)
    ensures
        r.is_some() == regex_compiles(DEFAULT_PATTERN@),
        r.is_some() ==> r.unwrap()@ == DEFAULT_PATTERN@,
{
    Pattern::new(DEFAULT_PATTERN)
}

} // verus!
