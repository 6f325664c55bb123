//! Regular expressions, and what their groups match.
use vstd::prelude::*;

verus! {

/// `regex::Regex`, a compiled regular expression.
#[verifier::external_type_specification]
#[verifier::external_body]
pub struct ExRegex(regex::Regex);

/// A compiled regular expression together with the text that it was compiled
/// from. [`compile`] alone makes one, so the two always belong together.
pub struct Pattern {
    regex: regex::Regex,
    text: String,
}

impl View for Pattern {
    type V = Seq<char>;

    closed spec fn view(&self) -> Seq<char> {
        self.text@
    }
}

/// The texts of optional strings.
pub open spec fn opt_texts(v: Seq<Option<String>>) -> Seq<Option<Seq<char>>> {
    v.map_values(
        |o: Option<String>|
            match o {
                Some(s) => Some(s@),
                None => None,
            },
    )
}

/// The texts of an optional list of optional strings.
pub open spec fn opt_groups(o: Option<Vec<Option<String>>>) -> Option<Seq<Option<Seq<char>>>> {
    match o {
        Some(v) => Some(opt_texts(v@)),
        None => None,
    }
}

/// `regex::Regex::new`. What it compiles is the text that it is given. Whether a
/// large pattern compiles depends on the machine too, so nothing is claimed of
/// when it fails, nor of the message.
#[verifier::external_body]
pub(crate) fn compile(text: &str) -> (r: Result<Pattern, String>)
    ensures
        r matches Ok(p) ==> p@ == text@,
{
    regex::Regex::new(text).map(|regex| Pattern { regex, text: text.to_string() }).map_err(|e| e.to_string())
}

/// What the groups of a pattern match in a text: the whole match first, then
/// each group in the order of its opening parenthesis, nothing for a group that
/// takes no part. None if the pattern does not match.
pub uninterp spec fn match_groups(pattern: Seq<char>, haystack: Seq<char>) -> Option<Seq<Option<Seq<char>>>>;

/// `regex::Regex::captures`, with the groups taken by `Captures::iter`. What the
/// groups match is a function of the pattern and the text, named
/// [`match_groups`].
#[verifier::external_body]
pub(crate) fn captures(pattern: &Pattern, haystack: &str) -> (r: Option<Vec<Option<String>>>)
    ensures
        opt_groups(r) == match_groups(pattern@, haystack@),
{
    let caps = pattern.regex.captures(haystack);
    caps.map(|c| c.iter().map(|g| g.map(|m| m.as_str().to_string())).collect())
}

/// The names of the groups of a pattern, in the order of the groups, nothing for
/// a group without a name.
pub uninterp spec fn group_names(pattern: Seq<char>) -> Seq<Option<Seq<char>>>;

/// `regex::Regex::capture_names`. The names are a function of the pattern, named
/// [`group_names`].
#[verifier::external_body]
pub(crate) fn capture_names(pattern: &Pattern) -> (r: Vec<Option<String>>)
    ensures
        opt_texts(r@) == group_names(pattern@),
{
    pattern.regex.capture_names().map(|n| n.map(|s| s.to_string())).collect()
}

/// The texts of optional strings are those of the strings, each in its place.
pub proof fn law_groups_keep_their_texts(v: Vec<Option<String>>)
    ensures
        opt_texts(v@).len() == v.len(),
        forall|i: int|
            0 <= i < v.len() ==> match v@[i] {
                Some(s) => #[trigger] opt_texts(v@)[i] == Some(s@),
                None => opt_texts(v@)[i] is None,
            },
        opt_groups(Some(v)) == Some(opt_texts(v@)),
        opt_groups(None) is None,
{
}

} // verus!
