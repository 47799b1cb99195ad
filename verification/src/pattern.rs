//! Regular expressions, as far as the readers of input lines need them.

use vstd::prelude::*;

verus! {

/// A compiled regular expression of the `regex` crate. Nothing is known of
/// what is inside a value of it.
#[verifier::external_type_specification]
#[verifier::external_body]
pub struct ExRegex(regex::Regex);

/// The error with which the `regex` crate refuses a pattern.
#[verifier::external_type_specification]
#[verifier::external_body]
pub struct ExRegexError(regex::Error);

/// What `Regex::captures` finds: the capture groups of the first match of
/// `pattern` in `haystack`, or `None` where nothing matches. Group zero is
/// the whole match and group `n` the one that the `n`-th opening bracket of
/// the pattern starts; a group that took no part in the match is `None`.
pub uninterp spec fn regex_groups(pattern: Seq<char>, haystack: Seq<char>) -> Option<
    Seq<Option<Seq<char>>>,
>;

/// Whether `Regex::new` accepts a pattern on a machine whose words have
/// `word_bits` bits. It refuses what is no regular expression, and it
/// refuses a pattern whose compiled program takes more memory than it
/// allows; how much a program takes depends on the size of the machine's
/// words, and on nothing else but the pattern.
pub uninterp spec fn regex_accepts(pattern: Seq<char>, word_bits: nat) -> bool;

/// Whether a pattern is accepted on this machine.
pub open spec fn accepted(pattern: Seq<char>) -> bool {
    regex_accepts(pattern, usize::BITS as nat)
}

/// The text of each group.
pub open spec fn groups_view(groups: Option<Vec<Option<String>>>) -> Option<Seq<Option<Seq<char>>>> {
    match groups {
        Some(v) => Some(
            Seq::new(
                v@.len(),
                |i: int|
                    match v@[i] {
                        Some(s) => Some(s@),
                        None => None,
                    },
            ),
        ),
        None => None,
    }
}

/// A pattern was refused.
#[derive(Debug, PartialEq, Eq, Structural)]
pub struct BadPattern {}

/// A regular expression together with the text it was compiled from.
pub struct Pattern {
    source: String,
    compiled: regex::Regex,
}

impl Pattern {
    /// The text of the pattern.
    pub closed spec fn text(&self) -> Seq<char> {
        self.source@
    }

    /// Calls `Regex::new` on `source`. It accepts the pattern where the
    /// text of the pattern and the size of the machine's words say so, and
    /// the result then keeps the text beside the compiled expression.
    #[verifier::external_body]
    fn build(source: &str) -> (r: Result<Pattern, regex::Error>)
        ensures
            r is Ok == regex_accepts(source@, usize::BITS as nat),
            r matches Ok(p) ==> p.text() == source@,
    {
        let compiled = regex::Regex::new(source)?;
        Ok(Pattern { source: source.to_string(), compiled })
    }

    /// Calls `Regex::captures` on `haystack` and copies out the text of each
    /// group. The result is what the pattern's text and the haystack
    /// determine.
    #[verifier::external_body]
    fn find(&self, haystack: &str) -> (r: Option<Vec<Option<String>>>)
        ensures
            groups_view(r) == regex_groups(self.text(), haystack@),
    {
        let found = self.compiled.captures(haystack)?;
        Some(found.iter().map(|m| m.map(|m| m.as_str().to_string())).collect())
    }

    /// Compiles a pattern: gives the pattern where it is accepted, and the
    /// news that it is bad where it is not.
    pub fn new(source: &str) -> (r: Result<Pattern, BadPattern>)
        ensures
            r is Ok == accepted(source@),
            r matches Ok(p) ==> p.text() == source@,
    {
        match Pattern::build(source) {
            Ok(p) => Ok(p),
            Err(_) => Err(BadPattern {  }),
        }
    }

    /// The capture groups of the first match in `haystack`.
    pub fn captures(&self, haystack: &str) -> (r: Option<Vec<Option<String>>>)
        ensures
            groups_view(r) == regex_groups(self.text(), haystack@),
    {
        self.find(haystack)
    }
}

/// The text of group `n`, where the groups have one and it took part in the
/// match.
pub open spec fn group_text(groups: Seq<Option<Seq<char>>>, n: int) -> Option<Seq<char>> {
    if 0 <= n < groups.len() {
        groups[n]
    } else {
        None
    }
}

/// The text of group `n`.
pub fn group<'a>(groups: &'a Vec<Option<String>>, n: usize) -> (r: Option<&'a str>)
    ensures
        match group_text(groups_view(Some(*groups))->0, n as int) {
            Some(text) => r matches Some(s) && s@ == text,
            None => r is None,
        },
{
    if n < groups.len() {
        match &groups[n] {
            Some(s) => Some(s.as_str()),
            None => None,
        }
    } else {
        None
    }
}

} // verus!
