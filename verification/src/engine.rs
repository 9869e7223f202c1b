//! The sorter itself: it classifies the classes of a list, puts the list in
//! order, and rewrites every class list that a text holds.
use ahash::AHashMap;
use itertools::Itertools;
use vstd::prelude::*;
use vstd::slice::slice_subrange;

use crate::arrange::ClassOrder;
use crate::arrange::Classification;
use crate::class_wrapping::rewrap_wrapped_classes;
use crate::class_wrapping::unwrap_wrapped_classes;
use crate::class_wrapping::ClassWrapping;
use crate::consts::all_distinct;
use crate::consts::can_match;
use crate::consts::default_variant_list;
use crate::consts::default_variants;
use crate::consts::lemma_default_variants_distinct;
use crate::consts::lemma_longest_prefix;
use crate::consts::matched_variant;
use crate::consts::searcher_builds;
use crate::consts::variant_patterns;
use crate::consts::MatcherError;
use crate::consts::VariantMatcher;
use crate::defaults::DEFAULT_PATTERN;
use crate::finder::pattern_spans;
use crate::finder::pattern_compiles;
use crate::finder::ClassPattern;
use crate::finder::FinderError;
use crate::finder::FinderRegex;
use crate::sorter::table_entries;
use crate::sorter::table_get;
use crate::sorter::Sorter;
use crate::text::first_occurrences;
use crate::text::lemma_first_occurrences;
use crate::text::lemma_first_occurrences_of_distinct;
use crate::text::push_bytes;
use crate::text::views_of;

verus! {

/// What decides how a class list is rewritten: the order, the way the list
/// is written, and whether a class may stay in it more than once.
pub ghost struct SortRules {
    pub order: ClassOrder,
    pub wrapping: ClassWrapping,
    pub allow_duplicates: bool,
}

impl SortRules {
    /// The classes of a list that are sorted: all of them, or each once.
    pub open spec fn kept(self, tokens: Seq<Seq<u8>>) -> Seq<Seq<u8>> {
        if self.allow_duplicates {
            tokens
        } else {
            first_occurrences(tokens)
        }
    }

    /// The text of a class list with its classes in order.
    pub open spec fn sorted_text(self, text: Seq<u8>) -> Seq<u8> {
        self.wrapping.rewrapped(self.order.sorted(self.kept(self.wrapping.unwrapped(text))))
    }

    /// The text from `from` on, with each class list that `spans` marks
    /// replaced by its sorted form. A span that starts before `from`, ends
    /// before it starts or ends behind the text is passed over, and so is an
    /// entry without a span. Everything outside the spans stays as it is.
    pub open spec fn rewritten(
        self,
        text: Seq<u8>,
        spans: Seq<Option<(usize, usize)>>,
        from: int,
    ) -> Seq<u8>
        decreases spans.len(),
    {
        if spans.len() == 0 {
            text.subrange(from, text.len() as int)
        } else {
            match spans[0] {
                Some((start, end)) => if from <= start && start <= end && end <= text.len() {
                    text.subrange(from, start as int) + self.sorted_text(
                        text.subrange(start as int, end as int),
                    ) + self.rewritten(text, spans.drop_first(), end as int)
                } else {
                    self.rewritten(text, spans.drop_first(), from)
                },
                None => self.rewritten(text, spans.drop_first(), from),
            }
        }
    }

    /// The classes that are sorted are classes of the list, and clean where
    /// those of the list are.
    pub proof fn lemma_kept_clean(self, tokens: Seq<Seq<u8>>)
        requires
            self.wrapping.all_clean(tokens),
        ensures
            self.wrapping.all_clean(self.kept(tokens)),
    {
        let kept = self.kept(tokens);
        lemma_first_occurrences(tokens);
        assert forall|i: int| 0 <= i < kept.len() implies self.wrapping.is_clean(
            #[trigger] kept[i],
        ) by {
            assert(kept.contains(kept[i]));
            assert(tokens.contains(kept[i]));
            let k = choose|k: int| 0 <= k < tokens.len() && tokens[k] == kept[i];
            assert(self.wrapping.is_clean(tokens[k]));
        }
    }

    /// Sorting a list of clean classes gives clean classes.
    pub proof fn lemma_sorted_clean(self, tokens: Seq<Seq<u8>>)
        requires
            self.wrapping.all_clean(tokens),
        ensures
            self.wrapping.all_clean(self.order.sorted(tokens)),
    {
        let sorted = self.order.sorted(tokens);
        assert forall|i: int| 0 <= i < sorted.len() implies self.wrapping.is_clean(
            #[trigger] sorted[i],
        ) by {
            assert(sorted.contains(sorted[i]));
            self.order.lemma_sorted_contains(tokens, sorted[i]);
            let k = choose|k: int| 0 <= k < tokens.len() && tokens[k] == sorted[i];
            assert(self.wrapping.is_clean(tokens[k]));
        }
    }

    /// Sorting a class list twice gives what sorting it once gives, in every
    /// mode of wrapping, whether duplicates are allowed or not.
    pub proof fn lemma_sort_twice(self, text: Seq<u8>)
        ensures
            self.sorted_text(self.sorted_text(text)) == self.sorted_text(text),
    {
        let tokens = self.wrapping.unwrapped(text);
        let kept = self.kept(tokens);
        let sorted = self.order.sorted(kept);
        self.wrapping.lemma_unwrapped_clean(text);
        self.lemma_kept_clean(tokens);
        self.lemma_sorted_clean(kept);
        self.wrapping.lemma_unwrap_rewrapped(sorted);
        if !self.allow_duplicates {
            lemma_first_occurrences(tokens);
            self.order.lemma_sorted_distinct(kept);
            lemma_first_occurrences_of_distinct(sorted);
        }
        self.order.lemma_sorted_idempotent(kept);
    }

    /// Where duplicates are not allowed, the sorted list holds each class of
    /// the text once; where they are allowed, it holds each class as often
    /// as the text does.
    pub proof fn lemma_sorted_multiplicity(self, text: Seq<u8>, class: Seq<u8>)
        ensures
            self.order.sorted(self.kept(self.wrapping.unwrapped(text))).to_multiset().count(class)
                == if self.allow_duplicates {
                self.wrapping.unwrapped(text).to_multiset().count(class)
            } else if self.wrapping.unwrapped(text).contains(class) {
                1
            } else {
                0
            },
    {
        let tokens = self.wrapping.unwrapped(text);
        let kept = self.kept(tokens);
        self.order.lemma_sorted_permutes(kept);
        if !self.allow_duplicates {
            lemma_first_occurrences(tokens);
            kept.lemma_multiset_has_no_duplicates();
            vstd::seq_lib::to_multiset_contains(kept, class);
        }
    }

    /// Where the sorted lists stand in the text that `rewritten` gives for
    /// `text` from `from` on, when that text starts at position `at` of a
    /// longer one: one span for each span of `spans` that was not passed
    /// over.
    pub open spec fn sorted_spans(
        self,
        text: Seq<u8>,
        spans: Seq<Option<(usize, usize)>>,
        from: int,
        at: int,
    ) -> Seq<Option<(usize, usize)>>
        decreases spans.len(),
    {
        if spans.len() == 0 {
            Seq::empty()
        } else {
            match spans[0] {
                Some((start, end)) => if from <= start && start <= end && end <= text.len() {
                    let first = at + (start - from);
                    let behind = first + self.sorted_text(
                        text.subrange(start as int, end as int),
                    ).len();
                    seq![Some((first as usize, behind as usize))] + self.sorted_spans(
                        text,
                        spans.drop_first(),
                        end as int,
                        behind,
                    )
                } else {
                    self.sorted_spans(text, spans.drop_first(), from, at)
                },
                None => self.sorted_spans(text, spans.drop_first(), from, at),
            }
        }
    }

    /// What `rewritten` gives from `from` on stays as it is when it is
    /// rewritten again at the places of its sorted lists, wherever in a
    /// longer text it stands.
    pub proof fn lemma_rewritten_again(
        self,
        text: Seq<u8>,
        spans: Seq<Option<(usize, usize)>>,
        from: int,
        front: Seq<u8>,
    )
        requires
            0 <= from <= text.len(),
            front.len() + self.rewritten(text, spans, from).len() <= usize::MAX,
        ensures
            self.rewritten(
                front + self.rewritten(text, spans, from),
                self.sorted_spans(text, spans, from, front.len() as int),
                front.len() as int,
            ) == self.rewritten(text, spans, from),
        decreases spans.len(),
    {
        let at = front.len() as int;
        let tail = self.rewritten(text, spans, from);
        let whole = front + tail;
        if spans.len() == 0 {
            assert(whole.subrange(at, whole.len() as int) =~= tail);
        } else {
            let rest = spans.drop_first();
            let passed = match spans[0] {
                Some((start, end)) => !(from <= start && start <= end && end <= text.len()),
                None => true,
            };
            if passed {
                self.lemma_rewritten_again(text, rest, from, front);
            } else {
                let span = spans[0]->0;
                let (start, end) = (span.0 as int, span.1 as int);
                let before = text.subrange(from, start);
                let sorted = self.sorted_text(text.subrange(start, end));
                let behind = self.rewritten(text, rest, end);
                let first = at + (start - from);
                let last = first + sorted.len();
                let moved = self.sorted_spans(text, rest, end, last);
                let again = self.sorted_spans(text, spans, from, at);
                assert(tail == before + sorted + behind);
                assert(whole =~= (front + before + sorted) + behind);
                self.lemma_rewritten_again(text, rest, end, front + before + sorted);
                self.lemma_sort_twice(text.subrange(start, end));
                assert(again[0] == Some((first as usize, last as usize)));
                assert(again.drop_first() =~= moved);
                assert(whole.subrange(at, first) =~= before);
                assert(whole.subrange(first, last) =~= sorted);
                assert((front + before + sorted).len() == last);
            }
        }
    }

    /// Rewriting a text, and then rewriting what came out at the places
    /// where its sorted lists stand, changes nothing. Whether a pattern finds
    /// the lists of the rewritten text at exactly these places is for the
    /// pattern to say.
    pub proof fn lemma_rewrite_twice(self, text: Seq<u8>, spans: Seq<Option<(usize, usize)>>)
        requires
            self.rewritten(text, spans, 0).len() <= usize::MAX,
        ensures
            self.rewritten(
                self.rewritten(text, spans, 0),
                self.sorted_spans(text, spans, 0, 0),
                0,
            ) == self.rewritten(text, spans, 0),
    {
        self.lemma_rewritten_again(text, spans, 0, Seq::empty());
        assert(Seq::<u8>::empty() + self.rewritten(text, spans, 0) =~= self.rewritten(
            text,
            spans,
            0,
        ));
    }

    /// A text in which no class list was found is rewritten to itself.
    pub proof fn lemma_no_span_no_change(self, text: Seq<u8>)
        ensures
            self.rewritten(text, Seq::empty(), 0) == text,
    {
        assert(text.subrange(0, text.len() as int) =~= text);
    }
}

/// Why a sorter could not be set up.
#[derive(Debug, Clone, Copy, PartialEq, Eq, Structural)]
pub enum SetupError {
    /// The pattern that finds class lists cannot be used.
    Finder(FinderError),
    /// The variants cannot be searched for.
    Matcher(MatcherError),
}

/// One of the parts that the sorted list is made of.
#[derive(Debug, Clone, Copy, PartialEq, Eq, Structural)]
pub enum Bucket {
    /// The classes that the order table ranks.
    Ranked,
    /// The classes of the variant at this position whose remainder is
    /// ranked.
    Group(usize),
    /// The classes that are not ranked and start with no variant.
    Custom,
    /// The classes of the variant at this position whose remainder is not
    /// ranked.
    Leftover(usize),
}

impl Bucket {
    /// The number of the bucket among those of `variants` variants.
    pub open spec fn number(self, variants: nat) -> nat {
        match self {
            Bucket::Ranked => 0,
            Bucket::Group(i) => 1 + i as nat,
            Bucket::Custom => 1 + variants,
            Bucket::Leftover(i) => 2 + variants + i as nat,
        }
    }

    /// The bucket names a variant only below `variants`.
    pub open spec fn in_range(self, variants: nat) -> bool {
        match self {
            Bucket::Group(i) => i < variants,
            Bucket::Leftover(i) => i < variants,
            _ => true,
        }
    }
}

/// The rank by which a class of this kind is ordered inside its bucket.
pub fn kind_rank(kind: Classification) -> (rank: usize)
    ensures
        rank == ClassOrder::rank_of(kind),
{
    match kind {
        Classification::Ranked(rank) => rank,
        Classification::Variant(_, Some(rank)) => rank,
        _ => 0,
    }
}

/// `itertools::Itertools::unique` over the classes of a list. The contract
/// claims what the crate documents: the classes come out in their order, and
/// of classes that are the same byte string only the first one.
#[verifier::external_body]
pub(crate) fn unique_classes<'a>(classes: Vec<&'a [u8]>) -> (kept: Vec<&'a [u8]>)
    ensures
        views_of(kept@) == first_occurrences(views_of(classes@)),
{
    classes.into_iter().unique().collect()
}

/// What a map from the position of a variant to classes holds: for each
/// position in it, the classes stored there, in their order.
pub uninterp spec fn group_entries(groups: AHashMap<usize, Vec<&[u8]>>) -> Map<
    usize,
    Seq<Seq<u8>>,
>;

/// The classes that `entries` has for a variant; none where it has no entry.
pub open spec fn group_of(entries: Map<usize, Seq<Seq<u8>>>, variant: usize) -> Seq<Seq<u8>> {
    if entries.contains_key(variant) {
        entries[variant]
    } else {
        Seq::empty()
    }
}

/// `group` is what taking the entry of `variant` out of `entries` hands
/// over: the classes stored there, or nothing where there is no entry.
pub open spec fn taken_out(
    entries: Map<usize, Seq<Seq<u8>>>,
    variant: usize,
    group: Option<Vec<&[u8]>>,
) -> bool {
    match group {
        Some(classes) => entries.contains_key(variant) && views_of(classes@) == entries[variant],
        None => !entries.contains_key(variant),
    }
}

/// `AHashMap::new`, for the map that groups classes by their variant: a map
/// without entries.
#[verifier::external_body]
pub(crate) fn groups_new<'a>() -> (groups: AHashMap<usize, Vec<&'a [u8]>>)
    ensures
        group_entries(groups) == (Map::<usize, Seq<Seq<u8>>>::empty()),
{
    AHashMap::new()
}

/// `AHashMap::remove`: the entry of `variant` leaves the map and is handed
/// over, and every other entry stays.
#[verifier::external_body]
pub(crate) fn groups_remove<'a>(
    groups: &mut AHashMap<usize, Vec<&'a [u8]>>,
    variant: usize,
) -> (group: Option<Vec<&'a [u8]>>)
    ensures
        group_entries(*final(groups)) == group_entries(*old(groups)).remove(variant),
        taken_out(group_entries(*old(groups)), variant, group),
{
    groups.remove(&variant)
}

/// `AHashMap::insert`: afterwards `variant` has the classes given, and every
/// other entry has what it had.
#[verifier::external_body]
pub(crate) fn groups_insert<'a>(
    groups: &mut AHashMap<usize, Vec<&'a [u8]>>,
    variant: usize,
    classes: Vec<&'a [u8]>,
)
    ensures
        group_entries(*final(groups)) == group_entries(*old(groups)).insert(
            variant,
            views_of(classes@),
        ),
{
    groups.insert(variant, classes);
}

/// Appends the classes of `more` to `list`.
pub fn push_classes<'a>(list: &mut Vec<&'a [u8]>, more: &Vec<&'a [u8]>)
    ensures
        final(list)@ == old(list)@ + more@,
{
    let mut i: usize = 0;
    while i < more.len()
        invariant
            i <= more.len(),
            list@ == old(list)@ + more@.take(i as int),
        decreases more.len() - i,
    {
        list.push(more[i]);
        assert(list@ =~= old(list)@ + more@.take(i + 1));
        i += 1;
    }
    assert(more@.take(more.len() as int) =~= more@);
}

/// The views of two lists put together are the views of each, put together.
pub proof fn lemma_views_add<T: View>(first: Seq<T>, second: Seq<T>)
    ensures
        views_of(first + second) == views_of(first) + views_of(second),
{
    assert(views_of(first + second) =~= views_of(first) + views_of(second));
}

/// Whether the pattern of a finder can be had compiled: a custom pattern is
/// compiled already, and the default pattern must compile.
pub open spec fn finder_compiles(regex: FinderRegex) -> bool {
    regex is CustomRegex || pattern_compiles(DEFAULT_PATTERN@)
}

/// The sorter: a pattern that finds class lists, an order table, the
/// variants, and how lists are written.
#[derive(Debug)]
pub struct RustyWind {
    regex: ClassPattern,
    table: AHashMap<Vec<u8>, usize>,
    matcher: VariantMatcher,
    allow_duplicates: bool,
    class_wrapping: ClassWrapping,
}

impl RustyWind {
    /// The text of the pattern that finds class lists.
    pub closed spec fn pattern(&self) -> Seq<char> {
        self.regex.pattern()
    }

    /// What decides how this sorter rewrites a class list.
    pub closed spec fn rules(&self) -> SortRules {
        SortRules {
            order: ClassOrder {
                table: table_entries(self.table),
                variants: self.matcher.variants(),
            },
            wrapping: self.class_wrapping,
            allow_duplicates: self.allow_duplicates,
        }
    }

    /// Puts a sorter together from its parts.
    pub fn assemble(
        regex: ClassPattern,
        table: AHashMap<Vec<u8>, usize>,
        matcher: VariantMatcher,
        allow_duplicates: bool,
        class_wrapping: ClassWrapping,
    ) -> (made: RustyWind)
        ensures
            made.pattern() == regex.pattern(),
            made.rules() == (SortRules {
                order: ClassOrder { table: table_entries(table), variants: matcher.variants() },
                wrapping: class_wrapping,
                allow_duplicates,
            }),
    {
        RustyWind { regex, table, matcher, allow_duplicates, class_wrapping }
    }

    /// Puts a sorter together from the outcome of compiling its pattern and
    /// of building the searcher for its variants: the first of the two that
    /// failed is the error, the pattern before the variants.
    pub fn from_parts(
        compiled: Result<ClassPattern, FinderError>,
        table: AHashMap<Vec<u8>, usize>,
        matcher: Result<VariantMatcher, MatcherError>,
        allow_duplicates: bool,
        class_wrapping: ClassWrapping,
    ) -> (made: Result<RustyWind, SetupError>)
        ensures
            match made {
                Ok(sorter) => compiled is Ok && matcher is Ok && sorter.pattern()
                    == compiled->Ok_0.pattern() && sorter.rules() == (SortRules {
                    order: ClassOrder {
                        table: table_entries(table),
                        variants: matcher->Ok_0.variants(),
                    },
                    wrapping: class_wrapping,
                    allow_duplicates,
                }),
                Err(SetupError::Finder(error)) => compiled == Err::<ClassPattern, FinderError>(
                    error,
                ),
                Err(SetupError::Matcher(error)) => compiled is Ok && matcher is Err
                    && matcher->Err_0 == error,
            },
    {
        match compiled {
            Err(error) => Err(SetupError::Finder(error)),
            Ok(regex) => match matcher {
                Err(error) => Err(SetupError::Matcher(error)),
                Ok(matcher) => Ok(
                    RustyWind::assemble(regex, table, matcher, allow_duplicates, class_wrapping),
                ),
            },
        }
    }

    /// A sorter for the given pattern and order, with variants of the
    /// caller's own. It is made exactly where the pattern can be had
    /// compiled and a matcher can be made for the variants. Otherwise the
    /// first of these fails it: the pattern that does not compile; then a
    /// variant that occurs twice; then the searcher that is not built.
    pub fn with_variants(
        regex: FinderRegex,
        sorter: Sorter,
        variants: Vec<Vec<u8>>,
        allow_duplicates: bool,
        class_wrapping: ClassWrapping,
    ) -> (made: Result<RustyWind, SetupError>)
        ensures
            made is Ok <==> finder_compiles(regex) && can_match(views_of(variants@)),
            match made {
                Ok(made) => made.pattern() == regex.pattern() && made.rules() == (
                SortRules {
                    order: ClassOrder { table: sorter.entries(), variants: views_of(variants@) },
                    wrapping: class_wrapping,
                    allow_duplicates,
                }),
                Err(SetupError::Finder(error)) => !finder_compiles(regex) && error
                    == FinderError::InvalidPattern,
                Err(SetupError::Matcher(MatcherError::DuplicateVariant)) => finder_compiles(regex)
                    && !all_distinct(views_of(variants@)),
                Err(SetupError::Matcher(MatcherError::SearcherNotBuilt)) => finder_compiles(regex)
                    && all_distinct(views_of(variants@)) && !searcher_builds(
                    variant_patterns(views_of(variants@)),
                ),
            },
    {
        let compiled = regex.into_pattern();
        let table = sorter.into_table();
        let matcher = VariantMatcher::new(variants);
        RustyWind::from_parts(compiled, table, matcher, allow_duplicates, class_wrapping)
    }

    /// A sorter for the given pattern and order, with the variants of
    /// `VARIANTS`. It is made exactly where the pattern can be had compiled
    /// and the searcher for the variants is built; of the two, the pattern
    /// fails it first.
    pub fn new(
        regex: FinderRegex,
        sorter: Sorter,
        allow_duplicates: bool,
        class_wrapping: ClassWrapping,
    ) -> (made: Result<RustyWind, SetupError>)
        ensures
            made is Ok <==> finder_compiles(regex) && searcher_builds(
                variant_patterns(default_variants()),
            ),
            match made {
                Ok(made) => made.pattern() == regex.pattern() && made.rules() == (
                SortRules {
                    order: ClassOrder { table: sorter.entries(), variants: default_variants() },
                    wrapping: class_wrapping,
                    allow_duplicates,
                }),
                Err(SetupError::Finder(error)) => !finder_compiles(regex) && error
                    == FinderError::InvalidPattern,
                Err(SetupError::Matcher(error)) => finder_compiles(regex) && error
                    == MatcherError::SearcherNotBuilt,
            },
    {
        proof {
            lemma_default_variants_distinct();
        }
        RustyWind::with_variants(
            regex,
            sorter,
            default_variant_list(),
            allow_duplicates,
            class_wrapping,
        )
    }

    /// The sorter with the default pattern and order, which removes
    /// duplicates and reads bare class lists. It is made exactly where the
    /// default pattern compiles and the searcher for the variants is built.
    pub fn with_defaults() -> (made: Result<RustyWind, SetupError>)
        ensures
            made is Ok <==> pattern_compiles(DEFAULT_PATTERN@) && searcher_builds(
                variant_patterns(default_variants()),
            ),
            match made {
                Ok(made) => made.pattern() == FinderRegex::DefaultRegex.pattern()
                    && made.rules() == (SortRules {
                    order: ClassOrder {
                        table: Sorter::DefaultSorter.entries(),
                        variants: default_variants(),
                    },
                    wrapping: ClassWrapping::NoWrapping,
                    allow_duplicates: false,
                }),
                Err(SetupError::Finder(error)) => !pattern_compiles(DEFAULT_PATTERN@) && error
                    == FinderError::InvalidPattern,
                Err(SetupError::Matcher(error)) => pattern_compiles(DEFAULT_PATTERN@) && error
                    == MatcherError::SearcherNotBuilt,
            },
    {
        RustyWind::new(
            FinderRegex::DefaultRegex,
            Sorter::DefaultSorter,
            false,
            ClassWrapping::NoWrapping,
        )
    }

    /// Whether a class may stay in a list more than once.
    pub fn allow_duplicates(&self) -> (allowed: bool)
        ensures
            allowed == self.rules().allow_duplicates,
    {
        self.allow_duplicates
    }

    /// How the classes of a list are written.
    pub fn class_wrapping(&self) -> (wrapping: ClassWrapping)
        ensures
            wrapping == self.rules().wrapping,
    {
        self.class_wrapping
    }

    /// Checks if the file contents have any classes.
    pub fn has_classes(&self, file_contents: &[u8]) -> (found: bool)
        ensures
            found == (pattern_spans(self.pattern(), file_contents@).len() > 0),
    {
        self.regex.is_match(file_contents)
    }

    /// How a class is classified.
    pub fn classify(&self, class: &[u8]) -> (kind: Classification)
        ensures
            kind == self.rules().order.classify(class@),
            kind matches Classification::Variant(i, _) ==> i < self.rules().order.variants.len(),
    {
        match table_get(&self.table, class) {
            Some(rank) => Classification::Ranked(rank),
            None => match self.matcher.find(class) {
                Some(i) => {
                    let name = self.matcher.variant(i);
                    assert(name@.len() < class@.len());
                    assert(name.len() < class.len());
                    let skip = name.len() + 1;
                    let rest = slice_subrange(class, skip, class.len());
                    proof {
                        assert(rest@ =~= class@.skip(skip as int));
                    }
                    Classification::Variant(i, table_get(&self.table, rest))
                },
                None => Classification::Custom,
            },
        }
    }

    /// How each class of a list is classified.
    fn classify_all(&self, classes: &Vec<&[u8]>) -> (kinds: Vec<Classification>)
        ensures
            self.classified(classes@, kinds@),
    {
        let mut kinds: Vec<Classification> = Vec::new();
        let mut i: usize = 0;
        while i < classes.len()
            invariant
                i <= classes.len(),
                kinds.len() == i,
                forall|k: int|
                    0 <= k < i ==> #[trigger] kinds@[k] == self.rules().order.classify(classes@[k]@),
                forall|k: int|
                    0 <= k < i ==> (#[trigger] kinds@[k] matches Classification::Variant(v, _)
                        ==> v < self.rules().order.variants.len()),
            decreases classes.len() - i,
        {
            kinds.push(self.classify(classes[i]));
            i += 1;
        }
        kinds
    }

    /// `kinds` holds the classification of each class of `classes`.
    pub closed spec fn classified(
        &self,
        classes: Seq<&[u8]>,
        kinds: Seq<Classification>,
    ) -> bool {
        &&& kinds.len() == classes.len()
        &&& forall|k: int|
            0 <= k < kinds.len() ==> #[trigger] kinds[k] == self.rules().order.classify(classes[k]@)
        &&& forall|k: int|
            0 <= k < kinds.len() ==> (#[trigger] kinds[k] matches Classification::Variant(v, _)
                ==> v < self.rules().order.variants.len())
    }

    /// Whether a class of the given kind falls in `bucket`.
    fn falls_in(&self, kind: Classification, bucket: Bucket) -> (falls: bool)
        requires
            bucket.in_range(self.rules().order.variants.len()),
            kind matches Classification::Variant(v, _) ==> v < self.rules().order.variants.len(),
        ensures
            falls == (self.rules().order.bucket_of(kind) == bucket.number(self.rules().order.variants.len())),
    {
        match (kind, bucket) {
            (Classification::Ranked(_), Bucket::Ranked) => true,
            (Classification::Variant(i, Some(_)), Bucket::Group(j)) => i == j,
            (Classification::Custom, Bucket::Custom) => true,
            (Classification::Variant(i, None), Bucket::Leftover(j)) => i == j,
            _ => false,
        }
    }

    /// The classes of one bucket, in ascending rank; classes of equal rank
    /// keep their order.
    fn ordered_bucket<'a>(
        &self,
        classes: &Vec<&'a [u8]>,
        kinds: &Vec<Classification>,
        bucket: Bucket,
    ) -> (part: Vec<&'a [u8]>)
        requires
            self.classified(classes@, kinds@),
            bucket.in_range(self.rules().order.variants.len()),
        ensures
            views_of(part@) == self.rules().order.by_rank(
                self.rules().order.pick(
                    views_of(classes@),
                    bucket.number(self.rules().order.variants.len()),
                ),
            ),
    {
        let ghost order = self.rules().order;
        let ghost tokens = views_of(classes@);
        let ghost b = bucket.number(order.variants.len());
        let mut part: Vec<&'a [u8]> = Vec::new();
        let mut ranks: Vec<usize> = Vec::new();
        let mut i: usize = 0;
        proof {
            assert(tokens.take(0) =~= Seq::<Seq<u8>>::empty());
            assert(views_of(part@) =~= Seq::<Seq<u8>>::empty());
        }
        while i < classes.len()
            invariant
                i <= classes.len(),
                order == self.rules().order,
                tokens == views_of(classes@),
                b == bucket.number(order.variants.len()),
                bucket.in_range(order.variants.len()),
                self.classified(classes@, kinds@),
                ranks.len() == part.len(),
                forall|k: int| 0 <= k < part.len() ==> #[trigger] ranks@[k] == order.rank(part@[k]@),
                views_of(part@) == order.by_rank(order.pick(tokens.take(i as int), b)),
            decreases classes.len() - i,
        {
            let class = classes[i];
            let kind = kinds[i];
            proof {
                assert(tokens.take(i + 1) =~= tokens.take(i as int).push(class@));
                order.lemma_pick_push(tokens.take(i as int), class@, b);
                assert(kind == order.classify(class@));
            }
            if self.falls_in(kind, bucket) {
                let rank = kind_rank(kind);
                let mut at: usize = part.len();
                while at > 0 && ranks[at - 1] > rank
                    invariant
                        at <= part.len(),
                        ranks.len() == part.len(),
                        forall|k: int| at <= k < ranks.len() ==> ranks@[k] > rank,
                    decreases at,
                {
                    at -= 1;
                }
                proof {
                    let sorted = views_of(part@);
                    let picked = order.pick(tokens.take(i as int), b);
                    assert(picked.push(class@).drop_last() =~= picked);
                    assert forall|k: int| at <= k < sorted.len() implies order.rank(
                        #[trigger] sorted[k],
                    ) > order.rank(class@) by {
                        assert(ranks@[k] == order.rank(part@[k]@));
                    }
                    if at > 0 {
                        assert(ranks@[at - 1] == order.rank(part@[at - 1]@));
                    }
                    order.lemma_insert_at(sorted, class@, at as int);
                    assert(views_of(part@.insert(at as int, class)) =~= sorted.insert(
                        at as int,
                        class@,
                    ));
                }
                part.insert(at, class);
                ranks.insert(at, rank);
            }
            i += 1;
        }
        proof {
            assert(tokens.take(classes.len() as int) =~= tokens);
        }
        part
    }

    /// The classes that are grouped under a variant, variant by variant: a
    /// class that is not ranked goes to the group of the variant it starts
    /// with, behind the classes that are there already.
    fn group_by_variant<'a>(&self, classes: &Vec<&'a [u8]>, kinds: &Vec<Classification>) -> (groups:
        AHashMap<usize, Vec<&'a [u8]>>)
        requires
            self.classified(classes@, kinds@),
        ensures
            forall|i: usize|
                i < self.rules().order.variants.len() ==> #[trigger] group_of(
                    group_entries(groups),
                    i,
                ) == self.rules().order.under(views_of(classes@), i as nat),
    {
        let ghost order = self.rules().order;
        let ghost tokens = views_of(classes@);
        let mut groups = groups_new();
        let mut k: usize = 0;
        proof {
            assert(tokens.take(0) =~= Seq::<Seq<u8>>::empty());
        }
        while k < classes.len()
            invariant
                k <= classes.len(),
                order == self.rules().order,
                tokens == views_of(classes@),
                self.classified(classes@, kinds@),
                forall|i: usize|
                    i < order.variants.len() ==> #[trigger] group_of(group_entries(groups), i)
                        == order.under(tokens.take(k as int), i as nat),
            decreases classes.len() - k,
        {
            let class = classes[k];
            let ghost before = group_entries(groups);
            proof {
                assert(tokens.take(k + 1) =~= tokens.take(k as int).push(class@));
                assert(kinds@[k as int] == order.classify(class@));
                assert forall|i: usize| i < order.variants.len() implies order.under(
                    tokens.take(k + 1),
                    i as nat,
                ) == if order.is_under(class@, i as nat) {
                    order.under(tokens.take(k as int), i as nat).push(class@)
                } else {
                    order.under(tokens.take(k as int), i as nat)
                } by {
                    order.lemma_under_push(tokens.take(k as int), class@, i as nat);
                }
            }
            match kinds[k] {
                Classification::Variant(variant, _) => {
                    let mut group = match groups_remove(&mut groups, variant) {
                        Some(group) => group,
                        None => Vec::new(),
                    };
                    proof {
                        assert(views_of(group@) =~= group_of(before, variant));
                        assert(views_of(group@.push(class)) =~= views_of(group@).push(class@));
                    }
                    group.push(class);
                    groups_insert(&mut groups, variant, group);
                    proof {
                        assert forall|i: usize| i < order.variants.len() implies #[trigger] group_of(
                            group_entries(groups),
                            i,
                        ) == order.under(tokens.take(k + 1), i as nat) by {
                            assert(group_of(before, i) == order.under(
                                tokens.take(k as int),
                                i as nat,
                            ));
                        }
                    }
                },
                _ => {
                    proof {
                        assert forall|i: usize| i < order.variants.len() implies #[trigger] group_of(
                            group_entries(groups),
                            i,
                        ) == order.under(tokens.take(k + 1), i as nat) by {
                            assert(group_of(before, i) == order.under(
                                tokens.take(k as int),
                                i as nat,
                            ));
                        }
                    }
                },
            }
            k += 1;
        }
        proof {
            assert(tokens.take(classes.len() as int) =~= tokens);
        }
        groups
    }

    /// The classes of one variant: those whose remainder is ranked come
    /// back in ascending rank of the remainder; the others are put behind
    /// the custom classes, in the order in which they stand in the group.
    fn sort_variant_classes<'a>(
        &self,
        classes: Vec<&'a [u8]>,
        custom_classes: Vec<&'a [u8]>,
        variant: usize,
    ) -> (parts: (Vec<&'a [u8]>, Vec<&'a [u8]>))
        requires
            variant < self.rules().order.variants.len(),
            forall|k: int|
                0 <= k < classes@.len() ==> self.rules().order.is_under(
                    (#[trigger] classes@[k])@,
                    variant as nat,
                ),
        ensures
            views_of(parts.0@) == self.rules().order.by_rank(
                self.rules().order.pick(views_of(classes@), 1 + variant as nat),
            ),
            views_of(parts.1@) == views_of(custom_classes@) + self.rules().order.by_rank(
                self.rules().order.pick(
                    views_of(classes@),
                    2 + self.rules().order.variants.len() + variant as nat,
                ),
            ),
    {
        let ghost order = self.rules().order;
        let count = self.matcher.len();
        let name = self.matcher.variant(variant);
        let mut kinds: Vec<Classification> = Vec::new();
        let mut k: usize = 0;
        while k < classes.len()
            invariant
                k <= classes.len(),
                order == self.rules().order,
                variant < order.variants.len(),
                order.variants.len() == count,
                name@ == order.variants[variant as int],
                forall|m: int|
                    0 <= m < classes@.len() ==> order.is_under(
                        (#[trigger] classes@[m])@,
                        variant as nat,
                    ),
                kinds.len() == k,
                forall|m: int|
                    0 <= m < k ==> #[trigger] kinds@[m] == order.classify(classes@[m]@),
                forall|m: int|
                    0 <= m < k ==> (#[trigger] kinds@[m] matches Classification::Variant(v, _)
                        ==> v < order.variants.len()),
            decreases classes.len() - k,
        {
            let class = classes[k];
            proof {
                assert(order.is_under(classes@[k as int]@, variant as nat));
                lemma_longest_prefix(variant_patterns(order.variants), class@);
                let found = matched_variant(order.variants, class@);
                assert(found is Some);
                assert(0 <= found->0 < order.variants.len());
                assert(found->0 == variant);
                assert(variant_patterns(order.variants)[variant as int].is_prefix_of(class@));
                assert(name@.len() < class@.len());
            }
            assert(name.len() < class.len());
            let class_after = name.len() + 1;
            let rest = slice_subrange(class, class_after, class.len());
            proof {
                assert(rest@ =~= class@.skip(class_after as int));
            }
            kinds.push(Classification::Variant(variant, table_get(&self.table, rest)));
            k += 1;
        }
        let sorted_classes = self.ordered_bucket(&classes, &kinds, Bucket::Group(variant));
        let unranked = self.ordered_bucket(&classes, &kinds, Bucket::Leftover(variant));
        let mut custom_classes = custom_classes;
        let ghost before = custom_classes@;
        push_classes(&mut custom_classes, &unranked);
        proof {
            lemma_views_add(before, unranked@);
        }
        (sorted_classes, custom_classes)
    }

    /// The classes in order: the ranked ones in ascending rank, then the
    /// groups of the variants in the order of the variants, then the classes
    /// without a rank.
    pub fn sort_classes_vec<'a>(&self, classes: Vec<&'a [u8]>) -> (sorted: Vec<&'a [u8]>)
        ensures
            views_of(sorted@) == self.rules().order.sorted(views_of(classes@)),
    {
        let ghost order = self.rules().order;
        let ghost tokens = views_of(classes@);
        let kinds = self.classify_all(&classes);
        let variants = self.matcher.len();
        let mut sorted = self.ordered_bucket(&classes, &kinds, Bucket::Ranked);
        let mut sorted_variant_classes: Vec<&'a [u8]> = Vec::new();
        let mut custom_classes = self.ordered_bucket(&classes, &kinds, Bucket::Custom);
        let mut groups = self.group_by_variant(&classes, &kinds);
        let ghost n = order.variants.len();
        proof {
            assert(views_of(sorted_variant_classes@) =~= order.arranged_from(tokens, 1, 1));
            assert(order.arranged_from(tokens, 1 + n, 1 + n) =~= Seq::<Seq<u8>>::empty());
            assert(views_of(custom_classes@) =~= order.arranged_from(tokens, 1 + n, 2 + n));
        }
        let mut variant: usize = 0;
        while variant < variants
            invariant
                variant <= variants,
                variants == n,
                n == order.variants.len(),
                order == self.rules().order,
                tokens == views_of(classes@),
                forall|i: usize|
                    variant <= i < n ==> #[trigger] group_of(group_entries(groups), i)
                        == order.under(tokens, i as nat),
                views_of(sorted_variant_classes@) == order.arranged_from(
                    tokens,
                    1,
                    1 + variant as nat,
                ),
                views_of(custom_classes@) == order.arranged_from(
                    tokens,
                    1 + n,
                    2 + n + variant as nat,
                ),
            decreases variants - variant,
        {
            let ghost found = sorted_variant_classes@;
            let ghost before = group_entries(groups);
            let group = match groups_remove(&mut groups, variant) {
                Some(group) => group,
                None => Vec::new(),
            };
            proof {
                assert(views_of(group@) =~= group_of(before, variant));
                assert(views_of(group@) == order.under(tokens, variant as nat));
                order.lemma_under_all(tokens, variant as nat);
                assert forall|k: int| 0 <= k < group@.len() implies order.is_under(
                    (#[trigger] group@[k])@,
                    variant as nat,
                ) by {
                    assert(group@[k]@ == order.under(tokens, variant as nat)[k]);
                }
                order.lemma_pick_under(tokens, variant as nat, 1 + variant as nat);
                order.lemma_pick_under(tokens, variant as nat, 2 + n + variant as nat);
                assert forall|i: usize| variant + 1 <= i < n implies #[trigger] group_of(
                    group_entries(groups),
                    i,
                ) == order.under(tokens, i as nat) by {
                    assert(group_of(before, i) == order.under(tokens, i as nat));
                }
            }
            let (sorted_classes, new_custom_classes) = self.sort_variant_classes(
                group,
                custom_classes,
                variant,
            );
            push_classes(&mut sorted_variant_classes, &sorted_classes);
            custom_classes = new_custom_classes;
            proof {
                lemma_views_add(found, sorted_classes@);
            }
            variant += 1;
        }
        let ghost ranked = sorted@;
        push_classes(&mut sorted, &sorted_variant_classes);
        let ghost front = sorted@;
        push_classes(&mut sorted, &custom_classes);
        proof {
            lemma_views_add(ranked, sorted_variant_classes@);
            lemma_views_add(front, custom_classes@);
            order.lemma_sorted_parts(tokens);
        }
        sorted
    }

    /// Given the text of a class list, returns the text of the sorted list.
    /// The space between the classes is not kept: the list is written anew.
    pub fn sort_classes(&self, class_string: &[u8]) -> (sorted: Vec<u8>)
        ensures
            sorted@ == self.rules().sorted_text(class_string@),
    {
        let extracted_classes = unwrap_wrapped_classes(self.class_wrapping, class_string);
        let kept = if self.allow_duplicates {
            extracted_classes
        } else {
            unique_classes(extracted_classes)
        };
        let sorted = self.sort_classes_vec(kept);
        rewrap_wrapped_classes(self.class_wrapping, &sorted)
    }

    /// The text with the class lists at `spans` sorted, and all else as it
    /// is.
    pub fn sort_spans(&self, file_contents: &[u8], spans: &Vec<Option<(usize, usize)>>) -> (sorted:
        Vec<u8>)
        ensures
            sorted@ == self.rules().rewritten(file_contents@, spans@, 0),
            spans@.len() == 0 ==> sorted@ == file_contents@,
    {
        let ghost rules = self.rules();
        let ghost text = file_contents@;
        let mut sorted: Vec<u8> = Vec::new();
        let mut from: usize = 0;
        let mut i: usize = 0;
        proof {
            assert(spans@.skip(0) =~= spans@);
            assert(sorted@ + rules.rewritten(text, spans@, 0) =~= rules.rewritten(text, spans@, 0));
        }
        while i < spans.len()
            invariant
                rules == self.rules(),
                text == file_contents@,
                i <= spans.len(),
                from <= file_contents.len(),
                sorted@ + rules.rewritten(text, spans@.skip(i as int), from as int)
                    == rules.rewritten(text, spans@, 0),
            decreases spans.len() - i,
        {
            let ghost rest = spans@.skip(i as int);
            proof {
                assert(rest[0] == spans@[i as int]);
                assert(rest.drop_first() =~= spans@.skip(i + 1));
            }
            match spans[i] {
                Some((start, end)) => {
                    if from <= start && start <= end && end <= file_contents.len() {
                        let ghost before = sorted@;
                        let classes = slice_subrange(file_contents, start, end);
                        let sorted_classes = self.sort_classes(classes);
                        push_bytes(&mut sorted, slice_subrange(file_contents, from, start));
                        push_bytes(&mut sorted, sorted_classes.as_slice());
                        proof {
                            let tail = rules.rewritten(text, spans@.skip(i + 1), end as int);
                            assert((before + text.subrange(from as int, start as int)
                                + sorted_classes@) + tail =~= before + (text.subrange(
                                from as int,
                                start as int,
                            ) + sorted_classes@ + tail));
                        }
                        from = end;
                    }
                },
                None => {},
            }
            i += 1;
        }
        proof {
            assert(spans@.skip(spans.len() as int) =~= Seq::<Option<(usize, usize)>>::empty());
            if spans@.len() == 0 {
                rules.lemma_no_span_no_change(text);
                assert(spans@ =~= Seq::<Option<(usize, usize)>>::empty());
            }
        }
        push_bytes(&mut sorted, slice_subrange(file_contents, from, file_contents.len()));
        sorted
    }

    /// Where the class lists of a text are: for each match of the pattern,
    /// the start and the end of its first group, or `None` where that group
    /// took no part in the match.
    pub fn find_class_lists(&self, file_contents: &[u8]) -> (spans: Vec<Option<(usize, usize)>>)
        ensures
            spans@ == pattern_spans(self.pattern(), file_contents@),
    {
        self.regex.class_spans(file_contents)
    }

    /// Sorts the classes in the file contents: every class list that the
    /// pattern finds is replaced by its sorted form, and all else stays as
    /// it is. A text without a class list comes back unchanged.
    pub fn sort_file_contents(&self, file_contents: &[u8]) -> (sorted: Vec<u8>)
        ensures
            sorted@ == self.rules().rewritten(
                file_contents@,
                pattern_spans(self.pattern(), file_contents@),
                0,
            ),
            pattern_spans(self.pattern(), file_contents@).len() == 0 ==> sorted@
                == file_contents@,
    {
        let spans = self.regex.class_spans(file_contents);
        self.sort_spans(file_contents, &spans)
    }
}

} // verus!
