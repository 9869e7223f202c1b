//! The variant prefixes, and the searcher that recognises them at the start
//! of a class name.
use aho_corasick::AhoCorasick;
use aho_corasick::AhoCorasickBuilder;
use aho_corasick::Anchored;
use aho_corasick::BuildError;
use aho_corasick::Input;
use aho_corasick::MatchKind;
use aho_corasick::StartKind;
use vstd::prelude::*;
use vstd::string::*;

use crate::text::bytes_equal;
use crate::text::views_of;

verus! {

/// The variants that a class name may start with, in the order in which
/// their groups are written out.
pub const VARIANTS: [&'static str; 25] = [
    "sm",
    "md",
    "lg",
    "xl",
    "2xl",
    "3xl",
    "4xl",
    "5xl",
    "6xl",
    "dark",
    "first",
    "last",
    "odd",
    "even",
    "visited",
    "checked",
    "empty",
    "group-hover",
    "group-focus",
    "focus-within",
    "hover",
    "focus",
    "focus-visible",
    "active",
    "disabled",
];

/// The byte that stands between a variant and the class it modifies: `:`.
pub const VARIANT_DELIMITER: u8 = 58;

/// The names in `VARIANTS`, as byte strings.
pub open spec fn default_variants() -> Seq<Seq<u8>> {
    Seq::new(25, |i: int| VARIANTS[i].spec_bytes())
}

/// What the searcher looks for: each variant followed by the delimiter.
pub open spec fn variant_patterns(variants: Seq<Seq<u8>>) -> Seq<Seq<u8>> {
    Seq::new(variants.len(), |i: int| variants[i].push(VARIANT_DELIMITER))
}

/// No two entries of `items` are the same byte string.
pub open spec fn all_distinct(items: Seq<Seq<u8>>) -> bool {
    forall|i: int, j: int| 0 <= i < j < items.len() ==> items[i] != items[j]
}

/// The index of the longest pattern that `text` starts with, the earliest of
/// them where several are equally long; `None` where `text` starts with none.
pub open spec fn longest_prefix(patterns: Seq<Seq<u8>>, text: Seq<u8>) -> Option<int>
    decreases patterns.len(),
{
    if patterns.len() == 0 {
        None
    } else {
        let earlier = longest_prefix(patterns.drop_last(), text);
        let last = patterns.len() - 1;
        if patterns[last].is_prefix_of(text) && (earlier is None || patterns[earlier->0].len()
            < patterns[last].len()) {
            Some(last)
        } else {
            earlier
        }
    }
}

/// `found` is a longest pattern that `text` starts with, or `None` and `text`
/// starts with no pattern.
pub open spec fn is_longest_prefix(
    patterns: Seq<Seq<u8>>,
    text: Seq<u8>,
    found: Option<usize>,
) -> bool {
    match found {
        Some(i) => {
            &&& i < patterns.len()
            &&& patterns[i as int].is_prefix_of(text)
            &&& forall|j: int|
                0 <= j < patterns.len() && (#[trigger] patterns[j]).is_prefix_of(text)
                    ==> patterns[j].len() <= patterns[i as int].len()
        },
        None => forall|j: int|
            0 <= j < patterns.len() ==> !(#[trigger] patterns[j]).is_prefix_of(text),
    }
}

/// The variant under which `token` is grouped: the longest variant that,
/// followed by the delimiter, starts `token`.
pub open spec fn matched_variant(variants: Seq<Seq<u8>>, token: Seq<u8>) -> Option<int> {
    longest_prefix(variant_patterns(variants), token)
}

/// What `longest_prefix` returns is in range, starts `text`, and no pattern
/// that starts `text` is longer, nor equally long and earlier.
pub proof fn lemma_longest_prefix(patterns: Seq<Seq<u8>>, text: Seq<u8>)
    ensures
        match longest_prefix(patterns, text) {
            Some(i) => {
                &&& 0 <= i < patterns.len()
                &&& patterns[i].is_prefix_of(text)
                &&& forall|j: int|
                    0 <= j < patterns.len() && (#[trigger] patterns[j]).is_prefix_of(text)
                        ==> patterns[j].len() < patterns[i].len() || (patterns[j].len()
                        == patterns[i].len() && i <= j)
            },
            None => forall|j: int|
                0 <= j < patterns.len() ==> !(#[trigger] patterns[j]).is_prefix_of(text),
        },
    decreases patterns.len(),
{
    if patterns.len() > 0 {
        let shorter = patterns.drop_last();
        lemma_longest_prefix(shorter, text);
        assert(forall|j: int| 0 <= j < shorter.len() ==> shorter[j] == patterns[j]);
    }
}

/// Among distinct patterns, the longest one that starts `text` is unique, so
/// any answer that is a longest prefix is the one `longest_prefix` gives.
pub proof fn lemma_longest_prefix_unique(
    patterns: Seq<Seq<u8>>,
    text: Seq<u8>,
    found: Option<usize>,
)
    requires
        all_distinct(patterns),
        is_longest_prefix(patterns, text, found),
    ensures
        match found {
            Some(i) => longest_prefix(patterns, text) == Some(i as int),
            None => longest_prefix(patterns, text) is None,
        },
{
    lemma_longest_prefix(patterns, text);
    match found {
        Some(i) => {
            let k = longest_prefix(patterns, text)->0;
            assert(patterns[k].len() == patterns[i as int].len());
            assert(patterns[k] =~= patterns[i as int]);
        },
        None => {},
    }
}

/// Distinct variants give distinct patterns.
pub proof fn lemma_patterns_distinct(variants: Seq<Seq<u8>>)
    requires
        all_distinct(variants),
    ensures
        all_distinct(variant_patterns(variants)),
{
    let patterns = variant_patterns(variants);
    assert forall|i: int, j: int| 0 <= i < j < patterns.len() implies patterns[i]
        != patterns[j] by {
        if patterns[i] == patterns[j] {
            assert(variants[i] =~= patterns[i].drop_last());
            assert(variants[j] =~= patterns[j].drop_last());
        }
    }
}

/// What is enough to tell the default variants apart: the length of a name,
/// its first two bytes and its seventh.
pub open spec fn mark(name: Seq<u8>) -> (nat, u8, u8, u8) {
    (
        name.len(),
        name[0],
        name[1],
        if name.len() > 6 {
            name[6]
        } else {
            0u8
        },
    )
}

/// The mark of a name of ASCII characters, from its characters.
pub proof fn lemma_mark(s: &str)
    requires
        is_ascii(s),
        s@.len() >= 2,
    ensures
        mark(s.spec_bytes()) == (
            s@.len(),
            s@[0] as u8,
            s@[1] as u8,
            if s@.len() > 6 {
                s@[6] as u8
            } else {
                0u8
            },
        ),
{
    is_ascii_spec_bytes(s);
}

/// No name occurs twice among the default variants.
pub proof fn lemma_default_variants_distinct()
    ensures
        all_distinct(default_variants()),
{
    reveal_strlit("sm");
    reveal_strlit("md");
    reveal_strlit("lg");
    reveal_strlit("xl");
    reveal_strlit("2xl");
    reveal_strlit("3xl");
    reveal_strlit("4xl");
    reveal_strlit("5xl");
    reveal_strlit("6xl");
    reveal_strlit("dark");
    reveal_strlit("first");
    reveal_strlit("last");
    reveal_strlit("odd");
    reveal_strlit("even");
    reveal_strlit("visited");
    reveal_strlit("checked");
    reveal_strlit("empty");
    reveal_strlit("group-hover");
    reveal_strlit("group-focus");
    reveal_strlit("focus-within");
    reveal_strlit("hover");
    reveal_strlit("focus");
    reveal_strlit("focus-visible");
    reveal_strlit("active");
    reveal_strlit("disabled");
    let names = default_variants();
    assert forall|i: int| 0 <= i < 25 implies mark(#[trigger] names[i]) == (
        VARIANTS[i]@.len(),
        VARIANTS[i]@[0] as u8,
        VARIANTS[i]@[1] as u8,
        if VARIANTS[i]@.len() > 6 {
            VARIANTS[i]@[6] as u8
        } else {
            0u8
        },
    ) by {
        lemma_mark(VARIANTS[i]);
    }
    assert forall|i: int, j: int| 0 <= i < j < names.len() implies names[i] != names[j] by {
        assert(mark(names[i]) != mark(names[j]));
    }
}

/// `aho_corasick::AhoCorasick`, a searcher for a set of patterns. Verus sees
/// nothing inside it; `searcher_patterns` names the patterns it was built
/// from, in their order.
#[verifier::external_type_specification]
#[verifier::external_body]
pub struct ExAhoCorasick(AhoCorasick);

/// `aho_corasick::BuildError`, the reason why a searcher could not be built.
#[verifier::external_type_specification]
#[verifier::external_body]
pub struct ExBuildError(BuildError);

/// The patterns that a searcher was built from, in the order in which they
/// were given.
pub uninterp spec fn searcher_patterns(searcher: AhoCorasick) -> Seq<Seq<u8>>;

/// Whether a searcher was built to search at the start of its input only,
/// and to report the longest of the patterns that match there.
pub uninterp spec fn searcher_is_anchored(searcher: AhoCorasick) -> bool;

/// Whether `AhoCorasickBuilder::build`, set up as `searcher_build` sets it
/// up, builds a searcher from the patterns.
pub uninterp spec fn searcher_builds(patterns: Seq<Seq<u8>>) -> bool;

/// `AhoCorasickBuilder::build`, with the start kind set to anchored and the
/// match kind to leftmost-longest. The contract claims that a searcher that
/// was built holds the patterns given, in their order, under these two
/// settings. Whether the build succeeds depends on the patterns alone, and
/// is named.
#[verifier::external_body]
pub(crate) fn searcher_build(patterns: &Vec<Vec<u8>>) -> (built: Result<AhoCorasick, BuildError>)
    ensures
        built is Ok <==> searcher_builds(views_of(patterns@)),
        built matches Ok(searcher) ==> searcher_patterns(searcher) == views_of(patterns@)
            && searcher_is_anchored(searcher),
{
    AhoCorasickBuilder::new()
        .start_kind(StartKind::Anchored)
        .match_kind(MatchKind::LeftmostLongest)
        .build(patterns)
}

/// `AhoCorasick::find` on an anchored input. The contract claims what the
/// crate documents of an anchored, leftmost-longest search: the match starts
/// at the first byte, so the pattern reported starts `text`, and none of the
/// patterns that start `text` is longer; without a match no pattern starts
/// `text`. The searcher must have been built for anchored searches, else the
/// call panics.
#[verifier::external_body]
pub(crate) fn searcher_find(searcher: &AhoCorasick, text: &[u8]) -> (found: Option<usize>)
    requires
        searcher_is_anchored(*searcher),
    ensures
        is_longest_prefix(searcher_patterns(*searcher), text@, found),
{
    searcher.find(Input::new(text).anchored(Anchored::Yes)).map(|m| m.pattern().as_usize())
}

/// Whether a matcher can be made for the variants: none occurs twice, and
/// the searcher is built from their patterns.
pub open spec fn can_match(variants: Seq<Seq<u8>>) -> bool {
    all_distinct(variants) && searcher_builds(variant_patterns(variants))
}

/// Why a `VariantMatcher` could not be made.
#[derive(Debug, Clone, Copy, PartialEq, Eq, Structural)]
pub enum MatcherError {
    /// A variant occurs twice in the list.
    DuplicateVariant,
    /// The searcher could not be built from the patterns.
    SearcherNotBuilt,
}

/// A list of variants together with the searcher built from it.
#[derive(Debug)]
pub struct VariantMatcher {
    variants: Vec<Vec<u8>>,
    searcher: AhoCorasick,
}

/// Whether no byte string occurs twice in `items`.
pub fn check_distinct(items: &Vec<Vec<u8>>) -> (distinct: bool)
    ensures
        distinct == all_distinct(views_of(items@)),
{
    let mut j: usize = 0;
    while j < items.len()
        invariant
            j <= items.len(),
            forall|a: int, b: int|
                0 <= a < b < j ==> views_of(items@)[a] != views_of(items@)[b],
        decreases items.len() - j,
    {
        let mut i: usize = 0;
        while i < j
            invariant
                i <= j < items.len(),
                forall|a: int| 0 <= a < i ==> views_of(items@)[a] != views_of(items@)[j as int],
            decreases j - i,
        {
            if bytes_equal(items[i].as_slice(), items[j].as_slice()) {
                assert(views_of(items@)[i as int] == views_of(items@)[j as int]);
                return false;
            }
            assert(views_of(items@)[i as int] != views_of(items@)[j as int]);
            i += 1;
        }
        j += 1;
    }
    true
}

impl VariantMatcher {
    /// The variants, in their order.
    pub closed spec fn variants(&self) -> Seq<Seq<u8>> {
        views_of(self.variants@)
    }

    /// The variants are distinct, and the searcher was built from them.
    #[verifier::type_invariant]
    spec fn well_formed(&self) -> bool {
        &&& all_distinct(self.variants())
        &&& searcher_patterns(self.searcher) == variant_patterns(self.variants())
        &&& searcher_is_anchored(self.searcher)
    }

    /// Puts a list of variants and the outcome of building its searcher
    /// together: an error where a variant occurs twice or the build failed.
    pub(crate) fn from_built(
        variants: Vec<Vec<u8>>,
        built: Result<AhoCorasick, BuildError>,
    ) -> (made: Result<VariantMatcher, MatcherError>)
        requires
            built matches Ok(searcher) ==> searcher_patterns(searcher) == variant_patterns(
                views_of(variants@),
            ) && searcher_is_anchored(searcher),
        ensures
            match made {
                Ok(matcher) => built is Ok && all_distinct(views_of(variants@))
                    && matcher.variants() == views_of(variants@),
                Err(MatcherError::DuplicateVariant) => !all_distinct(views_of(variants@)),
                Err(MatcherError::SearcherNotBuilt) => all_distinct(views_of(variants@))
                    && built is Err,
            },
    {
        if !check_distinct(&variants) {
            return Err(MatcherError::DuplicateVariant);
        }
        match built {
            Ok(searcher) => Ok(VariantMatcher { variants, searcher }),
            Err(_) => Err(MatcherError::SearcherNotBuilt),
        }
    }

    /// A matcher for the given variants. It is made exactly where no variant
    /// occurs twice and the searcher is built from the patterns; it fails
    /// with `DuplicateVariant` exactly where a variant occurs twice, and with
    /// `SearcherNotBuilt` exactly where none does and the searcher is not
    /// built.
    pub fn new(variants: Vec<Vec<u8>>) -> (made: Result<VariantMatcher, MatcherError>)
        ensures
            made is Ok <==> can_match(views_of(variants@)),
            match made {
                Ok(matcher) => matcher.variants() == views_of(variants@),
                Err(MatcherError::DuplicateVariant) => !all_distinct(views_of(variants@)),
                Err(MatcherError::SearcherNotBuilt) => all_distinct(views_of(variants@))
                    && !searcher_builds(variant_patterns(views_of(variants@))),
            },
    {
        let patterns = with_delimiter(&variants);
        let built = searcher_build(&patterns);
        VariantMatcher::from_built(variants, built)
    }

    /// A matcher for the variants in `VARIANTS`. It is made exactly where
    /// the searcher is built from their patterns.
    pub fn with_default_variants() -> (made: Result<VariantMatcher, MatcherError>)
        ensures
            made is Ok <==> searcher_builds(variant_patterns(default_variants())),
            match made {
                Ok(matcher) => matcher.variants() == default_variants(),
                Err(error) => error == MatcherError::SearcherNotBuilt,
            },
    {
        proof {
            lemma_default_variants_distinct();
        }
        VariantMatcher::new(default_variant_list())
    }

    /// How many variants there are.
    pub fn len(&self) -> (n: usize)
        ensures
            n == self.variants().len(),
    {
        self.variants.len()
    }

    /// The variant at position `index`.
    pub fn variant(&self, index: usize) -> (name: &[u8])
        requires
            index < self.variants().len(),
        ensures
            name@ == self.variants()[index as int],
    {
        self.variants[index].as_slice()
    }

    /// The position of the variant under which `token` is grouped, if any:
    /// of the variants that, followed by `:`, start `token`, the longest.
    pub fn find(&self, token: &[u8]) -> (found: Option<usize>)
        ensures
            found.is_some() == matched_variant(self.variants(), token@).is_some(),
            found matches Some(i) ==> matched_variant(self.variants(), token@) == Some(i as int)
                && i < self.variants().len() && self.variants()[i as int].len() < token@.len(),
    {
        proof {
            use_type_invariant(self);
        }
        let found = searcher_find(&self.searcher, token);
        proof {
            lemma_patterns_distinct(self.variants());
            lemma_longest_prefix_unique(variant_patterns(self.variants()), token@, found);
        }
        found
    }
}

/// The variants, each followed by the delimiter.
pub fn with_delimiter(variants: &Vec<Vec<u8>>) -> (patterns: Vec<Vec<u8>>)
    ensures
        views_of(patterns@) == variant_patterns(views_of(variants@)),
{
    let mut patterns: Vec<Vec<u8>> = Vec::new();
    let mut i: usize = 0;
    while i < variants.len()
        invariant
            i <= variants.len(),
            patterns.len() == i,
            forall|k: int|
                0 <= k < i ==> (#[trigger] patterns[k])@ == variants[k]@.push(VARIANT_DELIMITER),
        decreases variants.len() - i,
    {
        let mut pattern = variants[i].clone();
        pattern.push(VARIANT_DELIMITER);
        patterns.push(pattern);
        i += 1;
    }
    assert(views_of(patterns@) =~= variant_patterns(views_of(variants@)));
    patterns
}

/// The names in `VARIANTS`, as owned byte strings.
pub fn default_variant_list() -> (variants: Vec<Vec<u8>>)
    ensures
        views_of(variants@) == default_variants(),
{
    let mut variants: Vec<Vec<u8>> = Vec::new();
    let mut i: usize = 0;
    while i < 25
        invariant
            i <= 25,
            variants.len() == i,
            forall|k: int| 0 <= k < i ==> (#[trigger] variants[k])@ == VARIANTS[k].spec_bytes(),
        decreases 25 - i,
    {
        let name: &'static str = VARIANTS[i];
        variants.push(name.as_bytes_vec());
        i += 1;
    }
    assert(views_of(variants@) =~= default_variants());
    variants
}

} // verus!
