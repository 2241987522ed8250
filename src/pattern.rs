//! Regular expressions, compiled once and named by their source text.
use vstd::prelude::*;

verus! {

#[verifier::external_type_specification]
#[verifier::external_body]
pub struct ExRegex(regex::Regex);

#[verifier::external_type_specification]
#[verifier::external_body]
pub struct ExRegexError(regex::Error);

/// Whether `source` compiles to a regular expression.
pub uninterp spec fn regex_valid(source: Seq<char>) -> bool;

/// Whether the expression compiled from `source` matches somewhere in `hay`.
pub uninterp spec fn regex_found(source: Seq<char>, hay: Seq<char>) -> bool;

/// `hay` with every non-overlapping match of `source` replaced by `rep`
/// (`$name` and `$n` in `rep` stand for capture groups).
pub uninterp spec fn replace_all_of(source: Seq<char>, hay: Seq<char>, rep: Seq<char>) -> Seq<char>;

/// `hay` with the leftmost match of `source` replaced by `rep`.
pub uninterp spec fn replace_first_of(source: Seq<char>, hay: Seq<char>, rep: Seq<char>) -> Seq<char>;

/// `hay` with every match of `source` replaced; `hay` itself where nothing matches.
pub open spec fn replaced_all(source: Seq<char>, hay: Seq<char>, rep: Seq<char>) -> Seq<char> {
    if regex_found(source, hay) {
        replace_all_of(source, hay, rep)
    } else {
        hay
    }
}

/// `hay` with its first match of `source` replaced; `hay` itself where nothing matches.
pub open spec fn replaced_first(source: Seq<char>, hay: Seq<char>, rep: Seq<char>) -> Seq<char> {
    if regex_found(source, hay) {
        replace_first_of(source, hay, rep)
    } else {
        hay
    }
}

/// A compiled regular expression together with the text it was compiled from.
pub struct Pattern {
    source: String,
    regex: regex::Regex,
}

impl View for Pattern {
    type V = Seq<char>;

    closed spec fn view(&self) -> Seq<char> {
        self.source@
    }
}

/// Relies on `regex::Regex::new`: it succeeds exactly on the sources that
/// compile, and the pattern keeps the source it was compiled from.
#[verifier::external_body]
fn compile(source: &str) -> (r: Result<Pattern, regex::Error>)
    ensures
        r is Ok <==> regex_valid(source@),
        r matches Ok(p) ==> p@ == source@,
{
    regex::Regex::new(source).map(|regex| Pattern { source: source.to_string(), regex })
}

impl Pattern {
    /// Compiles `source`; `None` where it is not a valid regular expression.
    pub fn new(source: &str) -> (r: Option<Pattern>)
        ensures
            r is Some <==> regex_valid(source@),
            r matches Some(p) ==> p@ == source@,
    {
        match compile(source) {
            Ok(p) => Some(p),
            Err(_) => None,
        }
    }

    /// The text the pattern was compiled from.
    pub fn as_str(&self) -> (r: &str)
        ensures
            r@ == self@,
    {
        self.source.as_str()
    }

    /// Relies on `regex::Regex::is_match`: a match anywhere in `hay`.
    #[verifier::external_body]
    pub(crate) fn is_match(&self, hay: &str) -> (r: bool)
        ensures
            r == regex_found(self@, hay@),
    {
        self.regex.is_match(hay)
    }

    /// Relies on `regex::Regex::replace_all`, which hands back `hay` unchanged
    /// where nothing matches.
    #[verifier::external_body]
    pub(crate) fn replace_all(&self, hay: &str, rep: &str) -> (r: String)
        ensures
            regex_found(self@, hay@) ==> r@ == replace_all_of(self@, hay@, rep@),
            !regex_found(self@, hay@) ==> r@ == hay@,
    {
        self.regex.replace_all(hay, rep).into_owned()
    }

    /// Relies on `regex::Regex::replace`, which replaces the leftmost match only
    /// and hands back `hay` unchanged where nothing matches.
    #[verifier::external_body]
    pub(crate) fn replace_first(&self, hay: &str, rep: &str) -> (r: String)
        ensures
            regex_found(self@, hay@) ==> r@ == replace_first_of(self@, hay@, rep@),
            !regex_found(self@, hay@) ==> r@ == hay@,
    {
        self.regex.replace(hay, rep).into_owned()
    }
}

}
