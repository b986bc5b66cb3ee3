//! Regular expressions of the `regex` crate: compiling a pattern, testing a
//! text against it and replacing its matches, and escaping a literal.
//!
//! What the crate computes for a pattern is named, not restated: each name
//! below stands for the crate's answer on the given pattern, case flag and
//! text, which depends on those values alone.
use vstd::prelude::*;
use crate::text::lit;

verus! {

/// `regex::Regex`, a compiled regular expression.
#[verifier::external_type_specification]
#[verifier::external_body]
pub struct ExRegex(regex::Regex);

/// What `RegexBuilder::new(pat).case_insensitive(ic).build()` gives:
/// `None` when the pattern compiles, else the text of its error.
pub uninterp spec fn regex_build_error(pat: Seq<char>, ic: bool) -> Option<Seq<char>>;

/// What `Regex::is_match` gives for `text` on the regex compiled from `pat`
/// with case flag `ic`.
pub uninterp spec fn regex_finds(pat: Seq<char>, ic: bool, text: Seq<char>) -> bool;

/// What `Regex::replace` gives: `text` with its first match of the regex
/// compiled from `pat` (case flag `ic`) replaced as `repl` says.
pub uninterp spec fn regex_replace_first(
    pat: Seq<char>,
    ic: bool,
    text: Seq<char>,
    repl: Seq<char>,
) -> Seq<char>;

/// What `Regex::replace_all` gives: `text` with every match of the regex
/// compiled from `pat` (case flag `ic`) replaced as `repl` says.
pub uninterp spec fn regex_replace_every(
    pat: Seq<char>,
    ic: bool,
    text: Seq<char>,
    repl: Seq<char>,
) -> Seq<char>;

/// Whether `regex::escape` puts a backslash before `c`: the meta
/// characters of the regex syntax.
pub open spec fn is_meta_char(c: char) -> bool {
    c == '\\' || c == '.' || c == '+' || c == '*' || c == '?' || c == '(' || c == ')' || c
        == '|' || c == '[' || c == ']' || c == '{' || c == '}' || c == '^' || c == '$' || c
        == '#' || c == '&' || c == '-' || c == '~'
}

/// `s` with a backslash before each meta character.
pub open spec fn regex_escaped(s: Seq<char>) -> Seq<char>
    decreases s.len(),
{
    if s.len() == 0 {
        seq![]
    } else {
        regex_escaped(s.drop_last()) + if is_meta_char(s.last()) {
            seq!['\\', s.last()]
        } else {
            seq![s.last()]
        }
    }
}

/// `regex::escape`: `s` with a backslash before each meta character, so
/// that a regex of it matches `s` literally.
#[verifier::external_body]
fn regex_escape(s: &str) -> (r: String)
    ensures
        r@ == regex_escaped(s@),
{
    regex::escape(s)
}

/// `RegexBuilder::new(pat).case_insensitive(ic).build()`, with the error
/// turned into its text. It promises what the crate gives for these values
/// (see [`regex_build_error`]), and nothing of the compiled regex beyond
/// that it was compiled from `pat` and `ic`.
#[verifier::external_body]
fn build_regex(pat: &str, ic: bool) -> (r: Result<regex::Regex, String>)
    ensures
        match regex_build_error(pat@, ic) {
            None => r is Ok,
            Some(e) => r matches Err(m) && m@ == e,
        },
{
    match regex::RegexBuilder::new(pat).case_insensitive(ic).build() {
        Ok(re) => Ok(re),
        Err(e) => Err(e.to_string()),
    }
}

/// A compiled regular expression together with the pattern and case flag
/// it was compiled from. Only [`Pattern::new`] makes one, so the regex is
/// always the compilation of the pattern it holds.
pub struct Pattern {
    re: regex::Regex,
    source: String,
    ic: bool,
}

impl View for Pattern {
    type V = (Seq<char>, bool);

    closed spec fn view(&self) -> (Seq<char>, bool) {
        (self.source@, self.ic)
    }
}

impl Pattern {
    /// Compiles `pat`, case-insensitively when `ic` is set; the error is the
    /// crate's text for it.
    pub fn new(pat: &str, ic: bool) -> (r: Result<Pattern, String>)
        ensures
            match regex_build_error(pat@, ic) {
                None => r matches Ok(p) && p@ == (pat@, ic),
                Some(e) => r matches Err(m) && m@ == e,
            },
    {
        match build_regex(pat, ic) {
            Ok(re) => Ok(Pattern { re, source: lit(pat), ic }),
            Err(e) => Err(e),
        }
    }

    /// A pattern that matches `s` literally: `s` escaped by the crate, then
    /// compiled.
    pub fn literal(s: &str, ic: bool) -> (r: Result<Pattern, String>)
        ensures
            match regex_build_error(regex_escaped(s@), ic) {
                None => r matches Ok(p) && p@ == (regex_escaped(s@), ic),
                Some(e) => r matches Err(m) && m@ == e,
            },
    {
        let esc = regex_escape(s);
        Pattern::new(esc.as_str(), ic)
    }
}

/// `Regex::is_match`: whether the pattern matches somewhere in `text`.
#[verifier::external_body]
pub(crate) fn regex_is_match(p: &Pattern, text: &str) -> (b: bool)
    ensures
        b == regex_finds(p@.0, p@.1, text@),
{
    p.re.is_match(text)
}

/// `Regex::replace`: `text` with the first match replaced as `repl` says.
#[verifier::external_body]
pub(crate) fn regex_replace(p: &Pattern, text: &str, repl: &str) -> (r: String)
    ensures
        r@ == regex_replace_first(p@.0, p@.1, text@, repl@),
{
    p.re.replace(text, repl).into_owned()
}

/// `Regex::replace_all`: `text` with every match replaced as `repl` says.
#[verifier::external_body]
pub(crate) fn regex_replace_all(p: &Pattern, text: &str, repl: &str) -> (r: String)
    ensures
        r@ == regex_replace_every(p@.0, p@.1, text@, repl@),
{
    p.re.replace_all(text, repl).into_owned()
}

} // verus!
