use vstd::prelude::*;

verus! {

#[verifier::external_type_specification]
#[verifier::external_body]
pub struct ExRegex(regex::Regex);

/// Whether `pattern` is a regular expression the `regex` crate accepts.
pub uninterp spec fn regex_compiles(pattern: Seq<char>) -> bool;

/// The successive non-overlapping matches of `pattern` in `text`.
pub uninterp spec fn regex_find_all(pattern: Seq<char>, text: Seq<char>) -> Seq<Seq<char>>;

/// The text captured by group `group` in the first match of `pattern` in
/// `text`, if there is a match and the group took part in it.
pub uninterp spec fn regex_capture(pattern: Seq<char>, text: Seq<char>, group: Seq<char>) -> Option<Seq<char>>;

/// For each successive match of `pattern` in `text`, the text captured by
/// group `group`, if the group took part in that match.
pub uninterp spec fn regex_group_all(pattern: Seq<char>, text: Seq<char>, group: Seq<char>) -> Seq<Option<Seq<char>>>;

/// The pieces of `text` between the successive matches of `pattern`.
pub uninterp spec fn regex_split(pattern: Seq<char>, text: Seq<char>) -> Seq<Seq<char>>;

/// `text` with every match of `pattern` replaced by `replacement`.
pub uninterp spec fn regex_replace_all(pattern: Seq<char>, text: Seq<char>, replacement: Seq<char>) -> Seq<char>;

/// A compiled regular expression together with the pattern it was built from.
pub struct Pattern {
    source: String,
    regex: regex::Regex,
}

impl View for Pattern {
    type V = Seq<char>;

    closed spec fn view(&self) -> Seq<char> {
        self.source@
    }
}

/// Trusted: calls `regex::Regex::new`; whether it succeeds is named
/// `regex_compiles` (the crate documents the syntax it accepts).
#[verifier::external_body]
fn compile_regex(pattern: &str) -> (re: Option<regex::Regex>)
    ensures
        re is Some <==> regex_compiles(pattern@),
{
    regex::Regex::new(pattern).ok()
}

/// Trusted: calls `regex::Regex::find_iter` on the regex that `p` was built
/// from and collects the matched texts; the result is named `regex_find_all`.
/// It relies on `p.regex` having been compiled from `p.source`, which
/// `Pattern::new`, the only constructor, ensures.
#[verifier::external_body]
fn regex_find_iter(p: &Pattern, text: &str) -> (found: Vec<String>)
    ensures
        found@.map_values(|s: String| s@) == regex_find_all(p@, text@),
{
    p.regex.find_iter(text).map(|m| m.as_str().to_owned()).collect()
}

/// Trusted: calls `regex::Regex::captures` and takes the named group; the
/// result is named `regex_capture`.  It relies on `p.regex` having been
/// compiled from `p.source`.
#[verifier::external_body]
fn regex_captures(p: &Pattern, text: &str, group: &str) -> (captured: Option<String>)
    ensures
        captured matches Some(c) ==> regex_capture(p@, text@, group@) == Some(c@),
        captured is None ==> regex_capture(p@, text@, group@) is None,
{
    p.regex.captures(text).and_then(|c| c.name(group).map(|m| m.as_str().to_owned()))
}

/// Trusted: calls `regex::Regex::captures_iter` and takes the named group of
/// each match; the result is named `regex_group_all`.  `captures_iter` visits
/// the same matches as `find_iter`, so there is one entry per match.  It
/// relies on `p.regex` having been compiled from `p.source`.
#[verifier::external_body]
fn regex_group_iter(p: &Pattern, text: &str, group: &str) -> (captured: Vec<Option<String>>)
    ensures
        captured@.map_values(|c: Option<String>| match c { Some(s) => Some(s@), None => None })
            == regex_group_all(p@, text@, group@),
        captured@.len() == regex_find_all(p@, text@).len(),
{
    p.regex.captures_iter(text).map(|c| c.name(group).map(|m| m.as_str().to_owned())).collect()
}

/// Trusted: calls `regex::Regex::split`; the result is named `regex_split`.
/// `split` yields the text before each match and then the rest after the
/// last one, so there is one more piece than there are matches.  It relies
/// on `p.regex` having been compiled from `p.source`.
#[verifier::external_body]
fn regex_split_text(p: &Pattern, text: &str) -> (pieces: Vec<String>)
    ensures
        pieces@.map_values(|s: String| s@) == regex_split(p@, text@),
        pieces@.len() == regex_find_all(p@, text@).len() + 1,
{
    p.regex.split(text).map(|s| s.to_owned()).collect()
}

/// Trusted: calls `regex::Regex::replace_all`; the result is named
/// `regex_replace_all`.  It relies on `p.regex` having been compiled from
/// `p.source`.
#[verifier::external_body]
fn regex_replace(p: &Pattern, text: &str, replacement: &str) -> (replaced: String)
    ensures
        replaced@ == regex_replace_all(p@, text@, replacement@),
{
    p.regex.replace_all(text, replacement).into_owned()
}

impl Pattern {
    /// Compiles `source`, or returns `None` when it is not a valid pattern.
    pub fn new(source: &str) -> (p: Option<Pattern>)
        ensures
            p is Some <==> regex_compiles(source@),
            p matches Some(q) ==> q@ == source@,
    {
        match compile_regex(source) {
            Some(regex) => Some(Pattern { source: source.to_owned(), regex }),
            None => None,
        }
    }

    /// The pattern this regex was compiled from.
    pub fn source(&self) -> (s: &str)
        ensures
            s@ == self@,
    {
        self.source.as_str()
    }

    /// All non-overlapping matches in `text`, in order.
    pub fn find_all(&self, text: &str) -> (found: Vec<String>)
        ensures
            found@.map_values(|s: String| s@) == regex_find_all(self@, text@),
    {
        regex_find_iter(self, text)
    }

    /// The text of capture group `group` in the first match in `text`.
    pub fn capture(&self, text: &str, group: &str) -> (captured: Option<String>)
        ensures
            captured matches Some(c) ==> regex_capture(self@, text@, group@) == Some(c@),
            captured is None ==> regex_capture(self@, text@, group@) is None,
    {
        regex_captures(self, text, group)
    }

    /// The text of capture group `group` in each successive match in `text`.
    pub fn capture_all(&self, text: &str, group: &str) -> (captured: Vec<Option<String>>)
        ensures
            captured@.map_values(|c: Option<String>| match c { Some(s) => Some(s@), None => None })
                == regex_group_all(self@, text@, group@),
            captured@.len() == regex_find_all(self@, text@).len(),
    {
        regex_group_iter(self, text, group)
    }

    /// The pieces of `text` between successive matches, one more than there
    /// are matches.
    pub fn split(&self, text: &str) -> (pieces: Vec<String>)
        ensures
            pieces@.map_values(|s: String| s@) == regex_split(self@, text@),
            pieces@.len() == regex_find_all(self@, text@).len() + 1,
    {
        regex_split_text(self, text)
    }

    /// `text` with every match replaced by `replacement`.
    pub fn replace_all(&self, text: &str, replacement: &str) -> (replaced: String)
        ensures
            replaced@ == regex_replace_all(self@, text@, replacement@),
    {
        regex_replace(self, text, replacement)
    }
}

} // verus!
