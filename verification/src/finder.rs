//! The pattern that finds class lists in a text.
use regex::bytes::Regex;
use regex::Error;
use vstd::prelude::*;

use crate::defaults::DEFAULT_PATTERN;

verus! {

/// `regex::bytes::Regex`, a compiled pattern. Verus sees nothing inside it.
#[verifier::external_type_specification]
#[verifier::external_body]
pub struct ExRegex(Regex);

/// `regex::Error`, the reason why a pattern could not be compiled.
#[verifier::external_type_specification]
#[verifier::external_body]
pub struct ExRegexError(Error);

/// What `Regex::as_str` returns: the text that a pattern was compiled from.
pub uninterp spec fn regex_pattern(regex: Regex) -> Seq<char>;

/// Whether `Regex::new` compiles a text.
pub uninterp spec fn pattern_compiles(pattern: Seq<char>) -> bool;

/// What `Regex::captures_len` returns for a text that `Regex::new` compiled:
/// the number of its groups, the implicit group of the whole match
/// included.
pub uninterp spec fn pattern_groups(pattern: Seq<char>) -> usize;

/// What `Regex::captures_iter` finds in a text for a pattern that
/// `Regex::new` compiled: one entry for each match, from left to right,
/// holding the start and the end of what the first group matched, or `None`
/// where that group took no part.
pub uninterp spec fn pattern_spans(pattern: Seq<char>, text: Seq<u8>) -> Seq<
    Option<(usize, usize)>,
>;

/// A pattern that `Regex::new` compiled. The field is private and only
/// `regex_new` fills it, so a pattern that was compiled in any other way,
/// with other settings, cannot stand here: what such a value matches depends
/// on its text alone.
#[derive(Debug)]
pub struct ClassPattern {
    regex: Regex,
}

/// `Regex::new`, its result put into a `ClassPattern`. The contract names
/// whether the text compiles, which depends on the text alone, and claims
/// that a compiled pattern keeps the text it was compiled from.
#[verifier::external_body]
fn regex_new(pattern: &str) -> (compiled: Result<ClassPattern, Error>)
    ensures
        compiled is Ok <==> pattern_compiles(pattern@),
        compiled matches Ok(made) ==> regex_pattern(made.regex) == pattern@,
{
    Regex::new(pattern).map(|regex| ClassPattern { regex })
}

/// `Regex::as_str`: the text that the pattern was compiled from.
#[verifier::external_body]
fn regex_as_str(compiled: &ClassPattern) -> (pattern: &str)
    ensures
        pattern@ == regex_pattern(compiled.regex),
{
    compiled.regex.as_str()
}

/// `Regex::captures_len`. The pattern was compiled by `Regex::new`, so the
/// number of its groups depends on its text alone.
#[verifier::external_body]
fn regex_captures_len(compiled: &ClassPattern) -> (groups: usize)
    ensures
        groups == pattern_groups(regex_pattern(compiled.regex)),
{
    compiled.regex.captures_len()
}

/// `Regex::is_match`: whether the pattern matches anywhere in the text,
/// which is to say whether `captures_iter` finds a match there.
#[verifier::external_body]
fn regex_is_match(compiled: &ClassPattern, text: &[u8]) -> (matched: bool)
    ensures
        matched == (pattern_spans(regex_pattern(compiled.regex), text@).len() > 0),
{
    compiled.regex.is_match(text)
}

/// `Regex::captures_iter`, with the first group of each match taken by
/// `Captures::get` and handed out as its start and end. The pattern was
/// compiled by `Regex::new`, so what is found depends on the text of the
/// pattern and the text searched alone.
#[verifier::external_body]
fn regex_class_spans(compiled: &ClassPattern, text: &[u8]) -> (spans: Vec<
    Option<(usize, usize)>,
>)
    ensures
        spans@ == pattern_spans(regex_pattern(compiled.regex), text@),
{
    compiled.regex.captures_iter(text).map(
        |found| found.get(1).map(|group| (group.start(), group.end())),
    ).collect()
}

/// Why a pattern cannot be used to find class lists.
#[derive(Debug, Clone, Copy, PartialEq, Eq, Structural)]
pub enum FinderError {
    /// The pattern did not compile.
    InvalidPattern,
    /// The pattern has no group for the class list: fewer than two groups,
    /// counting the implicit one.
    TooFewGroups,
}

impl ClassPattern {
    /// The text of the pattern.
    pub closed spec fn pattern(&self) -> Seq<char> {
        regex_pattern(self.regex)
    }

    /// Compiles a pattern. It fails exactly where the text does not
    /// compile.
    pub fn new(pattern: &str) -> (made: Result<ClassPattern, FinderError>)
        ensures
            made is Ok <==> pattern_compiles(pattern@),
            made matches Ok(compiled) ==> compiled.pattern() == pattern@,
            made matches Err(error) ==> error == FinderError::InvalidPattern,
    {
        match regex_new(pattern) {
            Ok(compiled) => Ok(compiled),
            Err(_) => Err(FinderError::InvalidPattern),
        }
    }

    /// The text of the pattern.
    pub fn as_str(&self) -> (pattern: &str)
        ensures
            pattern@ == self.pattern(),
    {
        regex_as_str(self)
    }

    /// The number of groups of the pattern, the implicit group of the whole
    /// match included.
    pub fn captures_len(&self) -> (groups: usize)
        ensures
            groups == pattern_groups(self.pattern()),
    {
        regex_captures_len(self)
    }

    /// Whether the pattern matches anywhere in the text.
    pub fn is_match(&self, text: &[u8]) -> (matched: bool)
        ensures
            matched == (pattern_spans(self.pattern(), text@).len() > 0),
    {
        regex_is_match(self, text)
    }

    /// For each match of the pattern in the text, from left to right, the
    /// start and the end of what its first group matched, or `None` where
    /// that group took no part.
    pub fn class_spans(&self, text: &[u8]) -> (spans: Vec<Option<(usize, usize)>>)
        ensures
            spans@ == pattern_spans(self.pattern(), text@),
    {
        regex_class_spans(self, text)
    }
}

/// Use either the default pattern or a custom one.
#[derive(Debug)]
pub enum FinderRegex {
    /// The pattern `DEFAULT_PATTERN`.
    DefaultRegex,
    /// A pattern of the caller's own, compiled.
    CustomRegex(ClassPattern),
}

impl FinderRegex {
    /// The text of the pattern.
    pub open spec fn pattern(self) -> Seq<char> {
        match self {
            FinderRegex::DefaultRegex => DEFAULT_PATTERN@,
            FinderRegex::CustomRegex(compiled) => compiled.pattern(),
        }
    }

    /// Decides on a custom pattern once it was compiled: it is refused where
    /// it did not compile, and where it has no group besides the implicit
    /// one.
    pub fn checked(compiled: Result<ClassPattern, FinderError>) -> (made: Result<
        FinderRegex,
        FinderError,
    >)
        ensures
            match made {
                Ok(finder) => compiled is Ok && finder == FinderRegex::CustomRegex(compiled->Ok_0)
                    && pattern_groups(compiled->Ok_0.pattern()) >= 2,
                Err(FinderError::InvalidPattern) => compiled == Err::<ClassPattern, FinderError>(
                    FinderError::InvalidPattern,
                ),
                Err(FinderError::TooFewGroups) => (compiled is Ok && pattern_groups(
                    compiled->Ok_0.pattern(),
                ) < 2) || compiled == Err::<ClassPattern, FinderError>(
                    FinderError::TooFewGroups,
                ),
            },
    {
        match compiled {
            Ok(compiled) => {
                if compiled.captures_len() < 2 {
                    Err(FinderError::TooFewGroups)
                } else {
                    Ok(FinderRegex::CustomRegex(compiled))
                }
            },
            Err(error) => Err(error),
        }
    }

    /// A custom pattern. It is made exactly where the text compiles and has
    /// a group for the class list; it is refused as invalid where the text
    /// does not compile, and as having too few groups where it compiles and
    /// has no group besides the implicit one.
    pub fn custom(pattern: &str) -> (made: Result<FinderRegex, FinderError>)
        ensures
            made is Ok <==> pattern_compiles(pattern@) && pattern_groups(pattern@) >= 2,
            made == Err::<FinderRegex, FinderError>(FinderError::InvalidPattern)
                <==> !pattern_compiles(pattern@),
            made == Err::<FinderRegex, FinderError>(FinderError::TooFewGroups)
                <==> pattern_compiles(pattern@) && pattern_groups(pattern@) < 2,
            made matches Ok(finder) ==> finder is CustomRegex && finder.pattern() == pattern@,
    {
        FinderRegex::checked(ClassPattern::new(pattern))
    }

    /// The compiled pattern; the default pattern is compiled here. It fails
    /// exactly where the default pattern is asked for and does not compile.
    pub fn into_pattern(self) -> (compiled: Result<ClassPattern, FinderError>)
        ensures
            compiled is Ok <==> (self is CustomRegex || pattern_compiles(DEFAULT_PATTERN@)),
            compiled matches Ok(made) ==> made.pattern() == self.pattern(),
            compiled matches Err(error) ==> error == FinderError::InvalidPattern,
    {
        match self {
            FinderRegex::DefaultRegex => ClassPattern::new(DEFAULT_PATTERN),
            FinderRegex::CustomRegex(compiled) => Ok(compiled),
        }
    }
}

} // verus!
