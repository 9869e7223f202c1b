//! The order into which a list of classes is put, as mathematics: how a
//! class is classified, which bucket it falls in, and how the buckets follow
//! one another. The laws that the sort obeys are proved here.
use vstd::multiset::Multiset;
use vstd::prelude::*;

use crate::consts::matched_variant;

verus! {

/// What the order table and the variants say of one class.
#[derive(Debug, Clone, Copy, PartialEq, Eq, Structural)]
pub enum Classification {
    /// The class is in the order table, with this rank.
    Ranked(usize),
    /// The class is not in the table, and starts with the variant at this
    /// position; what follows the variant has the rank given, or none.
    Variant(usize, Option<usize>),
    /// The class is not in the table and starts with no variant.
    Custom,
}

/// The two things that decide the order: the rank of each known class, and
/// the variants in the order of their groups.
pub ghost struct ClassOrder {
    pub table: Map<Seq<u8>, usize>,
    pub variants: Seq<Seq<u8>>,
}

impl ClassOrder {
    /// The rank of `name`, if the table has it.
    pub open spec fn lookup(self, name: Seq<u8>) -> Option<usize> {
        if self.table.contains_key(name) {
            Some(self.table[name])
        } else {
            None
        }
    }

    /// How `token` is classified. A class that the table holds is ranked,
    /// whatever it starts with. Any other class that starts with a variant
    /// and the delimiter belongs to that variant, and is ranked within it by
    /// what follows the delimiter.
    pub open spec fn classify(self, token: Seq<u8>) -> Classification {
        if self.table.contains_key(token) {
            Classification::Ranked(self.table[token])
        } else {
            match matched_variant(self.variants, token) {
                Some(i) => Classification::Variant(
                    i as usize,
                    self.lookup(token.skip(self.variants[i].len() + 1 as int)),
                ),
                None => Classification::Custom,
            }
        }
    }

    /// How many buckets there are: one for the ranked classes, one for each
    /// variant, one for the custom classes, and one more for each variant,
    /// for those of its classes that have no rank.
    pub open spec fn buckets(self) -> nat {
        2 * self.variants.len() + 2
    }

    /// The bucket of a classification. Buckets are written out in the order
    /// of their numbers.
    pub open spec fn bucket_of(self, kind: Classification) -> nat {
        match kind {
            Classification::Ranked(_) => 0,
            Classification::Variant(i, Some(_)) => 1 + i as nat,
            Classification::Custom => 1 + self.variants.len(),
            Classification::Variant(i, None) => 2 + self.variants.len() + i as nat,
        }
    }

    /// The rank by which a class is ordered inside its bucket. Classes
    /// without a rank all count as 0, so they keep the order they came in.
    pub open spec fn rank_of(kind: Classification) -> nat {
        match kind {
            Classification::Ranked(rank) => rank as nat,
            Classification::Variant(_, Some(rank)) => rank as nat,
            _ => 0,
        }
    }

    /// The bucket of `token`.
    pub open spec fn bucket(self, token: Seq<u8>) -> nat {
        self.bucket_of(self.classify(token))
    }

    /// The rank of `token` inside its bucket.
    pub open spec fn rank(self, token: Seq<u8>) -> nat {
        Self::rank_of(self.classify(token))
    }

    /// The tokens of bucket `b`, in the order in which they stand in
    /// `tokens`.
    pub open spec fn pick(self, tokens: Seq<Seq<u8>>, b: nat) -> Seq<Seq<u8>>
        decreases tokens.len(),
    {
        if tokens.len() == 0 {
            Seq::empty()
        } else if self.bucket(tokens.last()) == b {
            self.pick(tokens.drop_last(), b).push(tokens.last())
        } else {
            self.pick(tokens.drop_last(), b)
        }
    }

    /// `sorted` with `token` put in behind every token whose rank is not
    /// greater than its own.
    pub open spec fn insert(self, sorted: Seq<Seq<u8>>, token: Seq<u8>) -> Seq<Seq<u8>>
        decreases sorted.len(),
    {
        if sorted.len() == 0 || self.rank(sorted.last()) <= self.rank(token) {
            sorted.push(token)
        } else {
            self.insert(sorted.drop_last(), token).push(sorted.last())
        }
    }

    /// `tokens` in ascending rank; tokens of equal rank keep their order.
    pub open spec fn by_rank(self, tokens: Seq<Seq<u8>>) -> Seq<Seq<u8>>
        decreases tokens.len(),
    {
        if tokens.len() == 0 {
            Seq::empty()
        } else {
            self.insert(self.by_rank(tokens.drop_last()), tokens.last())
        }
    }

    /// The first `upto` buckets of `tokens` one after the other, each in
    /// ascending rank.
    pub open spec fn arranged(self, tokens: Seq<Seq<u8>>, upto: nat) -> Seq<Seq<u8>>
        decreases upto,
    {
        if upto == 0 {
            Seq::empty()
        } else {
            self.arranged(tokens, (upto - 1) as nat) + self.by_rank(
                self.pick(tokens, (upto - 1) as nat),
            )
        }
    }

    /// The sorted list: the ranked classes in ascending rank; then, variant
    /// by variant in the order of the variants, the classes of that variant
    /// whose remainder has a rank, in ascending rank of the remainder; then
    /// the custom classes as they came; then, variant by variant, the classes
    /// whose remainder has no rank, as they came.
    pub open spec fn sorted(self, tokens: Seq<Seq<u8>>) -> Seq<Seq<u8>> {
        self.arranged(tokens, self.buckets())
    }

    /// The ranks of `tokens` never go down from one token to the next.
    pub open spec fn ascending(self, tokens: Seq<Seq<u8>>) -> bool {
        forall|i: int, j: int|
            0 <= i <= j < tokens.len() ==> self.rank(#[trigger] tokens[i]) <= self.rank(
                #[trigger] tokens[j],
            )
    }

    /// Every token of `tokens` is in bucket `b`.
    pub open spec fn all_in(self, tokens: Seq<Seq<u8>>, b: nat) -> bool {
        forall|i: int| 0 <= i < tokens.len() ==> self.bucket(#[trigger] tokens[i]) == b
    }

    /// Every bucket number that a token can have is below `buckets()`.
    pub proof fn lemma_bucket_in_range(self, token: Seq<u8>)
        ensures
            self.bucket(token) < self.buckets(),
    {
        crate::consts::lemma_longest_prefix(
            crate::consts::variant_patterns(self.variants),
            token,
        );
    }

    /// Picking from a list with one more token at its end.
    pub proof fn lemma_pick_push(self, tokens: Seq<Seq<u8>>, token: Seq<u8>, b: nat)
        ensures
            self.pick(tokens.push(token), b) == if self.bucket(token) == b {
                self.pick(tokens, b).push(token)
            } else {
                self.pick(tokens, b)
            },
    {
        assert(tokens.push(token).drop_last() =~= tokens);
    }

    /// Picking from two lists put together is picking from each.
    pub proof fn lemma_pick_add(self, first: Seq<Seq<u8>>, second: Seq<Seq<u8>>, b: nat)
        ensures
            self.pick(first + second, b) == self.pick(first, b) + self.pick(second, b),
        decreases second.len(),
    {
        if second.len() == 0 {
            assert(first + second =~= first);
            assert(self.pick(first, b) + self.pick(second, b) =~= self.pick(first, b));
        } else {
            let shorter = second.drop_last();
            self.lemma_pick_add(first, shorter, b);
            assert((first + second).drop_last() =~= first + shorter);
            assert((first + second).last() == second.last());
            if self.bucket(second.last()) == b {
                assert((self.pick(first, b) + self.pick(shorter, b)).push(second.last())
                    =~= self.pick(first, b) + self.pick(shorter, b).push(second.last()));
            }
        }
    }

    /// What is picked for bucket `b` is in bucket `b`, and was in the list.
    pub proof fn lemma_pick_all_in(self, tokens: Seq<Seq<u8>>, b: nat)
        ensures
            self.all_in(self.pick(tokens, b), b),
            forall|i: int|
                0 <= i < self.pick(tokens, b).len() ==> tokens.contains(
                    #[trigger] self.pick(tokens, b)[i],
                ),
        decreases tokens.len(),
    {
        if tokens.len() > 0 {
            let shorter = tokens.drop_last();
            self.lemma_pick_all_in(shorter, b);
            let picked = self.pick(tokens, b);
            assert forall|i: int| 0 <= i < picked.len() implies tokens.contains(
                #[trigger] picked[i],
            ) by {
                if i < self.pick(shorter, b).len() {
                    let k = choose|k: int| 0 <= k < shorter.len() && shorter[k] == picked[i];
                    assert(tokens[k] == picked[i]);
                } else {
                    assert(tokens[tokens.len() - 1] == picked[i]);
                }
            }
        }
    }

    /// A list that lies in one bucket is picked whole for that bucket, and
    /// not at all for any other.
    pub proof fn lemma_pick_of_one_bucket(self, tokens: Seq<Seq<u8>>, own: nat, b: nat)
        requires
            self.all_in(tokens, own),
        ensures
            self.pick(tokens, b) == if b == own {
                tokens
            } else {
                Seq::empty()
            },
        decreases tokens.len(),
    {
        if tokens.len() > 0 {
            let shorter = tokens.drop_last();
            assert(self.all_in(shorter, own)) by {
                assert forall|i: int| 0 <= i < shorter.len() implies self.bucket(
                    #[trigger] shorter[i],
                ) == own by {
                    assert(shorter[i] == tokens[i]);
                }
            }
            self.lemma_pick_of_one_bucket(shorter, own, b);
            assert(self.bucket(tokens[tokens.len() - 1]) == own);
            if b == own {
                assert(shorter.push(tokens.last()) =~= tokens);
            }
        }
    }

    /// Putting a token into a list changes neither what the list holds
    /// besides, nor how often.
    pub proof fn lemma_insert_multiset(self, sorted: Seq<Seq<u8>>, token: Seq<u8>)
        ensures
            self.insert(sorted, token).to_multiset() == sorted.to_multiset().insert(token),
            self.insert(sorted, token).len() == sorted.len() + 1,
        decreases sorted.len(),
    {
        broadcast use vstd::seq_lib::to_multiset_build;

        if sorted.len() == 0 || self.rank(sorted.last()) <= self.rank(token) {
        } else {
            let shorter = sorted.drop_last();
            self.lemma_insert_multiset(shorter, token);
            assert(shorter.push(sorted.last()) =~= sorted);
            assert(self.insert(sorted, token).to_multiset() =~= sorted.to_multiset().insert(
                token,
            ));
        }
    }

    /// Ordering by rank changes neither what a list holds, nor how often.
    pub proof fn lemma_by_rank_multiset(self, tokens: Seq<Seq<u8>>)
        ensures
            self.by_rank(tokens).to_multiset() == tokens.to_multiset(),
            self.by_rank(tokens).len() == tokens.len(),
        decreases tokens.len(),
    {
        broadcast use vstd::multiset::group_multiset_axioms;

        if tokens.len() == 0 {
            assert(tokens =~= Seq::empty());
        } else {
            let shorter = tokens.drop_last();
            self.lemma_by_rank_multiset(shorter);
            self.lemma_insert_multiset(self.by_rank(shorter), tokens.last());
            vstd::seq_lib::to_multiset_build(shorter, tokens.last());
            assert(shorter.push(tokens.last()) =~= tokens);
        }
    }

    /// A token is in the list ordered by rank exactly if it is in the list.
    pub proof fn lemma_by_rank_contains(self, tokens: Seq<Seq<u8>>, token: Seq<u8>)
        ensures
            self.by_rank(tokens).contains(token) == tokens.contains(token),
    {
        self.lemma_by_rank_multiset(tokens);
        vstd::seq_lib::to_multiset_contains(tokens, token);
        vstd::seq_lib::to_multiset_contains(self.by_rank(tokens), token);
    }

    /// Ordering by rank keeps a list in its bucket.
    pub proof fn lemma_by_rank_all_in(self, tokens: Seq<Seq<u8>>, b: nat)
        requires
            self.all_in(tokens, b),
        ensures
            self.all_in(self.by_rank(tokens), b),
    {
        let ordered = self.by_rank(tokens);
        assert forall|i: int| 0 <= i < ordered.len() implies self.bucket(#[trigger] ordered[i])
            == b by {
            self.lemma_by_rank_contains(tokens, ordered[i]);
            assert(ordered.contains(ordered[i]));
            let k = choose|k: int| 0 <= k < tokens.len() && tokens[k] == ordered[i];
            assert(self.bucket(tokens[k]) == b);
        }
    }

    /// Putting a token into an ascending list leaves it ascending.
    pub proof fn lemma_insert_ascending(self, sorted: Seq<Seq<u8>>, token: Seq<u8>)
        requires
            self.ascending(sorted),
        ensures
            self.ascending(self.insert(sorted, token)),
            forall|i: int|
                0 <= i < self.insert(sorted, token).len() ==> #[trigger] self.insert(
                    sorted,
                    token,
                )[i] == token || sorted.contains(self.insert(sorted, token)[i]),
        decreases sorted.len(),
    {
        let result = self.insert(sorted, token);
        if sorted.len() == 0 || self.rank(sorted.last()) <= self.rank(token) {
            assert forall|i: int, j: int| 0 <= i <= j < result.len() implies self.rank(
                #[trigger] result[i],
            ) <= self.rank(#[trigger] result[j]) by {
                if j < sorted.len() {
                    assert(result[i] == sorted[i] && result[j] == sorted[j]);
                } else if i < sorted.len() {
                    assert(result[i] == sorted[i]);
                    assert(self.rank(sorted[i]) <= self.rank(sorted[sorted.len() - 1]));
                }
            }
            assert forall|i: int| 0 <= i < result.len() implies #[trigger] result[i] == token
                || sorted.contains(result[i]) by {
                if i < sorted.len() {
                    assert(result[i] == sorted[i]);
                }
            }
        } else {
            let shorter = sorted.drop_last();
            let last = sorted.last();
            assert(self.ascending(shorter)) by {
                assert forall|i: int, j: int| 0 <= i <= j < shorter.len() implies self.rank(
                    #[trigger] shorter[i],
                ) <= self.rank(#[trigger] shorter[j]) by {
                    assert(shorter[i] == sorted[i] && shorter[j] == sorted[j]);
                }
            }
            self.lemma_insert_ascending(shorter, token);
            let inner = self.insert(shorter, token);
            assert forall|i: int| 0 <= i < result.len() implies #[trigger] result[i] == token
                || sorted.contains(result[i]) by {
                if i < inner.len() {
                    assert(result[i] == inner[i]);
                    if inner[i] != token {
                        let k = choose|k: int| 0 <= k < shorter.len() && shorter[k] == inner[i];
                        assert(sorted[k] == inner[i]);
                    }
                } else {
                    assert(result[i] == sorted[sorted.len() - 1]);
                }
            }
            assert forall|i: int, j: int| 0 <= i <= j < result.len() implies self.rank(
                #[trigger] result[i],
            ) <= self.rank(#[trigger] result[j]) by {
                if j < inner.len() {
                    assert(result[i] == inner[i] && result[j] == inner[j]);
                } else if i < inner.len() {
                    assert(result[i] == inner[i]);
                    assert(result[j] == last);
                    if inner[i] != token {
                        let k = choose|k: int| 0 <= k < shorter.len() && shorter[k] == inner[i];
                        assert(sorted[k] == inner[i]);
                        assert(self.rank(sorted[k]) <= self.rank(sorted[sorted.len() - 1]));
                    }
                }
            }
        }
    }

    /// A list ordered by rank is ascending.
    pub proof fn lemma_by_rank_ascending(self, tokens: Seq<Seq<u8>>)
        ensures
            self.ascending(self.by_rank(tokens)),
        decreases tokens.len(),
    {
        if tokens.len() > 0 {
            self.lemma_by_rank_ascending(tokens.drop_last());
            self.lemma_insert_ascending(self.by_rank(tokens.drop_last()), tokens.last());
        }
    }

    /// Ordering an ascending list by rank changes nothing.
    pub proof fn lemma_by_rank_of_ascending(self, tokens: Seq<Seq<u8>>)
        requires
            self.ascending(tokens),
        ensures
            self.by_rank(tokens) == tokens,
        decreases tokens.len(),
    {
        if tokens.len() > 0 {
            let shorter = tokens.drop_last();
            assert(self.ascending(shorter)) by {
                assert forall|i: int, j: int| 0 <= i <= j < shorter.len() implies self.rank(
                    #[trigger] shorter[i],
                ) <= self.rank(#[trigger] shorter[j]) by {
                    assert(shorter[i] == tokens[i] && shorter[j] == tokens[j]);
                }
            }
            self.lemma_by_rank_of_ascending(shorter);
            if shorter.len() > 0 {
                assert(self.rank(tokens[shorter.len() - 1]) <= self.rank(
                    tokens[tokens.len() - 1],
                ));
                assert(shorter.last() == tokens[shorter.len() - 1]);
            }
            assert(shorter.push(tokens.last()) =~= tokens);
        }
    }

    /// Of the first `upto` buckets written out, the part in bucket `b` is
    /// bucket `b` of the list in ascending rank, where `b` is among them, and
    /// nothing otherwise.
    pub proof fn lemma_pick_of_arranged(self, tokens: Seq<Seq<u8>>, upto: nat, b: nat)
        ensures
            self.pick(self.arranged(tokens, upto), b) == if b < upto {
                self.by_rank(self.pick(tokens, b))
            } else {
                Seq::empty()
            },
        decreases upto,
    {
        if upto > 0 {
            let before = (upto - 1) as nat;
            let head = self.arranged(tokens, before);
            let tail = self.by_rank(self.pick(tokens, before));
            self.lemma_pick_of_arranged(tokens, before, b);
            self.lemma_pick_add(head, tail, b);
            self.lemma_pick_all_in(tokens, before);
            self.lemma_by_rank_all_in(self.pick(tokens, before), before);
            self.lemma_pick_of_one_bucket(tail, before, b);
            if b < before {
                assert(self.by_rank(self.pick(tokens, b)) + Seq::<Seq<u8>>::empty()
                    =~= self.by_rank(self.pick(tokens, b)));
            } else if b == before {
                assert(Seq::<Seq<u8>>::empty() + tail =~= tail);
            } else {
                assert(Seq::<Seq<u8>>::empty() + Seq::<Seq<u8>>::empty() =~= Seq::<
                    Seq<u8>,
                >::empty());
            }
        }
    }

    /// Writing out the first `upto` buckets of a list that is already sorted
    /// gives what the same buckets of the list it was sorted from give.
    pub proof fn lemma_arranged_again(self, tokens: Seq<Seq<u8>>, upto: nat)
        requires
            upto <= self.buckets(),
        ensures
            self.arranged(self.sorted(tokens), upto) == self.arranged(tokens, upto),
        decreases upto,
    {
        if upto > 0 {
            let before = (upto - 1) as nat;
            self.lemma_arranged_again(tokens, before);
            self.lemma_pick_of_arranged(tokens, self.buckets(), before);
            self.lemma_by_rank_ascending(self.pick(tokens, before));
            self.lemma_by_rank_of_ascending(self.by_rank(self.pick(tokens, before)));
        }
    }

    /// Sorting a sorted list changes nothing.
    pub proof fn lemma_sorted_idempotent(self, tokens: Seq<Seq<u8>>)
        ensures
            self.sorted(self.sorted(tokens)) == self.sorted(tokens),
    {
        self.lemma_arranged_again(tokens, self.buckets());
    }

    /// The buckets below `upto` written out hold the tokens of those buckets,
    /// each as often as the list holds it.
    pub proof fn lemma_arranged_multiset(self, tokens: Seq<Seq<u8>>, upto: nat)
        ensures
            forall|token: Seq<u8>|
                #[trigger] self.arranged(tokens, upto).to_multiset().count(token) == if
                    self.bucket(token) < upto {
                    tokens.to_multiset().count(token)
                } else {
                    0
                },
        decreases upto,
    {
        broadcast use vstd::multiset::group_multiset_axioms;

        if upto == 0 {
            assert forall|token: Seq<u8>| #[trigger]
                self.arranged(tokens, upto).to_multiset().count(token) == 0 by {
                vstd::seq_lib::to_multiset_contains(self.arranged(tokens, upto), token);
            }
        } else {
            let before = (upto - 1) as nat;
            let head = self.arranged(tokens, before);
            let tail = self.by_rank(self.pick(tokens, before));
            self.lemma_arranged_multiset(tokens, before);
            self.lemma_by_rank_multiset(self.pick(tokens, before));
            self.lemma_pick_count(tokens, before);
            vstd::seq_lib::lemma_multiset_commutative(head, tail);
            assert forall|token: Seq<u8>| #[trigger]
                self.arranged(tokens, upto).to_multiset().count(token) == if self.bucket(token)
                    < upto {
                    tokens.to_multiset().count(token)
                } else {
                    0
                } by {
                assert(head.to_multiset().count(token) == if self.bucket(token) < before {
                    tokens.to_multiset().count(token)
                } else {
                    0
                });
                assert(self.pick(tokens, before).to_multiset().count(token) == if self.bucket(
                    token,
                ) == before {
                    tokens.to_multiset().count(token)
                } else {
                    0
                });
            }
        }
    }

    /// Bucket `b` of a list holds the tokens of bucket `b`, each as often as
    /// the list holds it.
    pub proof fn lemma_pick_count(self, tokens: Seq<Seq<u8>>, b: nat)
        ensures
            forall|token: Seq<u8>|
                #[trigger] self.pick(tokens, b).to_multiset().count(token) == if self.bucket(
                    token,
                ) == b {
                    tokens.to_multiset().count(token)
                } else {
                    0
                },
        decreases tokens.len(),
    {
        broadcast use vstd::multiset::group_multiset_axioms;

        if tokens.len() == 0 {
            assert forall|token: Seq<u8>| #[trigger]
                self.pick(tokens, b).to_multiset().count(token) == 0 by {
                vstd::seq_lib::to_multiset_contains(self.pick(tokens, b), token);
            }
            assert forall|token: Seq<u8>| #[trigger] tokens.to_multiset().count(token) == 0 by {
                vstd::seq_lib::to_multiset_contains(tokens, token);
            }
        } else {
            let shorter = tokens.drop_last();
            let last = tokens.last();
            self.lemma_pick_count(shorter, b);
            assert(shorter.push(last) =~= tokens);
            vstd::seq_lib::to_multiset_build(shorter, last);
            vstd::seq_lib::to_multiset_build(self.pick(shorter, b), last);
            assert forall|token: Seq<u8>| #[trigger]
                self.pick(tokens, b).to_multiset().count(token) == if self.bucket(token) == b {
                    tokens.to_multiset().count(token)
                } else {
                    0
                } by {
                assert(self.pick(shorter, b).to_multiset().count(token) == if self.bucket(token)
                    == b {
                    shorter.to_multiset().count(token)
                } else {
                    0
                });
            }
        }
    }

    /// The sorted list holds what the list holds, each token as often.
    pub proof fn lemma_sorted_permutes(self, tokens: Seq<Seq<u8>>)
        ensures
            self.sorted(tokens).to_multiset() == tokens.to_multiset(),
            self.sorted(tokens).len() == tokens.len(),
    {
        self.lemma_arranged_multiset(tokens, self.buckets());
        assert forall|token: Seq<u8>|
            self.sorted(tokens).to_multiset().count(token) == tokens.to_multiset().count(
                token,
            ) by {
            self.lemma_bucket_in_range(token);
            assert(self.arranged(tokens, self.buckets()).to_multiset().count(token)
                == tokens.to_multiset().count(token));
        }
        assert(self.sorted(tokens).to_multiset() =~= tokens.to_multiset());
        vstd::seq_lib::to_multiset_len(self.sorted(tokens));
        vstd::seq_lib::to_multiset_len(tokens);
    }
    /// The buckets from `from` up to, not including, `upto`, one after the
    /// other, each in ascending rank.
    pub open spec fn arranged_from(self, tokens: Seq<Seq<u8>>, from: nat, upto: nat) -> Seq<
        Seq<u8>,
    >
        decreases upto,
    {
        if upto <= from {
            Seq::empty()
        } else {
            self.arranged_from(tokens, from, (upto - 1) as nat) + self.by_rank(
                self.pick(tokens, (upto - 1) as nat),
            )
        }
    }

    /// The ranked classes of the list, in ascending rank.
    pub open spec fn ranked_part(self, tokens: Seq<Seq<u8>>) -> Seq<Seq<u8>> {
        self.by_rank(self.pick(tokens, 0))
    }

    /// The groups of the variants, in the order of the variants, each in
    /// ascending rank of what follows the variant.
    pub open spec fn variant_part(self, tokens: Seq<Seq<u8>>) -> Seq<Seq<u8>> {
        self.arranged_from(tokens, 1, 1 + self.variants.len())
    }

    /// The classes without a rank: those that start with no variant, then
    /// those of each variant in the order of the variants.
    pub open spec fn custom_part(self, tokens: Seq<Seq<u8>>) -> Seq<Seq<u8>> {
        self.arranged_from(tokens, 1 + self.variants.len(), self.buckets())
    }

    /// A run of buckets can be cut in two at any bucket in it.
    pub proof fn lemma_arranged_split(self, tokens: Seq<Seq<u8>>, from: nat, mid: nat, upto: nat)
        requires
            from <= mid <= upto,
        ensures
            self.arranged_from(tokens, from, upto) == self.arranged_from(tokens, from, mid)
                + self.arranged_from(tokens, mid, upto),
        decreases upto,
    {
        if upto == mid {
            assert(self.arranged_from(tokens, from, mid) + Seq::<Seq<u8>>::empty()
                =~= self.arranged_from(tokens, from, mid));
        } else {
            let before = (upto - 1) as nat;
            self.lemma_arranged_split(tokens, from, mid, before);
            let last = self.by_rank(self.pick(tokens, before));
            assert((self.arranged_from(tokens, from, mid) + self.arranged_from(
                tokens,
                mid,
                before,
            )) + last =~= self.arranged_from(tokens, from, mid) + (self.arranged_from(
                tokens,
                mid,
                before,
            ) + last));
        }
    }

    /// The run of buckets that starts at the first bucket is what `arranged`
    /// gives.
    pub proof fn lemma_arranged_from_start(self, tokens: Seq<Seq<u8>>, upto: nat)
        ensures
            self.arranged_from(tokens, 0, upto) == self.arranged(tokens, upto),
        decreases upto,
    {
        if upto > 0 {
            self.lemma_arranged_from_start(tokens, (upto - 1) as nat);
        }
    }

    /// The sorted list is made of three parts: the ranked classes, then the
    /// groups of the variants in the order of the variants, then the classes
    /// without a rank. So a class that starts with a variant and has a ranked
    /// remainder stands behind all ranked classes, among the classes of its
    /// variant, and before the group of every later variant.
    pub proof fn lemma_sorted_parts(self, tokens: Seq<Seq<u8>>)
        ensures
            self.sorted(tokens) == self.ranked_part(tokens) + self.variant_part(tokens)
                + self.custom_part(tokens),
    {
        let n = self.variants.len();
        self.lemma_arranged_from_start(tokens, self.buckets());
        self.lemma_arranged_split(tokens, 0, 1 + n, self.buckets());
        self.lemma_arranged_split(tokens, 0, 1, 1 + n);
        assert(self.arranged_from(tokens, 0, 0) =~= Seq::<Seq<u8>>::empty());
        assert(self.arranged_from(tokens, 0, 1) =~= self.ranked_part(tokens));
    }

    /// Putting a token in at position `at` is what `insert` does, where the
    /// tokens from `at` on have a greater rank and the one before has not.
    pub proof fn lemma_insert_at(self, sorted: Seq<Seq<u8>>, token: Seq<u8>, at: int)
        requires
            0 <= at <= sorted.len(),
            forall|k: int| at <= k < sorted.len() ==> self.rank(#[trigger] sorted[k]) > self.rank(
                token,
            ),
            at == 0 || self.rank(sorted[at - 1]) <= self.rank(token),
        ensures
            self.insert(sorted, token) == sorted.insert(at, token),
        decreases sorted.len(),
    {
        if at == sorted.len() {
            assert(sorted.insert(at, token) =~= sorted.push(token));
        } else {
            let shorter = sorted.drop_last();
            assert(self.rank(sorted[sorted.len() - 1]) > self.rank(token));
            assert forall|k: int| at <= k < shorter.len() implies self.rank(
                #[trigger] shorter[k],
            ) > self.rank(token) by {
                assert(shorter[k] == sorted[k]);
            }
            if at > 0 {
                assert(shorter[at - 1] == sorted[at - 1]);
            }
            self.lemma_insert_at(shorter, token, at);
            assert(shorter.insert(at, token).push(sorted.last()) =~= sorted.insert(at, token));
        }
    }

    /// Every token of the sorted list is a token of the list, and the other
    /// way round.
    pub proof fn lemma_sorted_contains(self, tokens: Seq<Seq<u8>>, token: Seq<u8>)
        ensures
            self.sorted(tokens).contains(token) == tokens.contains(token),
    {
        self.lemma_sorted_permutes(tokens);
        vstd::seq_lib::to_multiset_contains(tokens, token);
        vstd::seq_lib::to_multiset_contains(self.sorted(tokens), token);
    }

    /// Sorting a list that holds no class twice gives a list that holds no
    /// class twice.
    pub proof fn lemma_sorted_distinct(self, tokens: Seq<Seq<u8>>)
        requires
            tokens.no_duplicates(),
        ensures
            self.sorted(tokens).no_duplicates(),
    {
        self.lemma_sorted_permutes(tokens);
        tokens.lemma_multiset_has_no_duplicates();
        self.sorted(tokens).lemma_multiset_has_no_duplicates_conv();
    }
    /// Whether `token` is grouped under the variant at position `i`: it is
    /// not ranked, and starts with that variant.
    pub open spec fn is_under(self, token: Seq<u8>, i: nat) -> bool {
        self.classify(token) matches Classification::Variant(v, _) && v == i
    }

    /// The tokens grouped under the variant at position `i`, in the order in
    /// which they stand in `tokens`.
    pub open spec fn under(self, tokens: Seq<Seq<u8>>, i: nat) -> Seq<Seq<u8>>
        decreases tokens.len(),
    {
        if tokens.len() == 0 {
            Seq::empty()
        } else if self.is_under(tokens.last(), i) {
            self.under(tokens.drop_last(), i).push(tokens.last())
        } else {
            self.under(tokens.drop_last(), i)
        }
    }

    /// The group of a variant, from a list with one more token at its end.
    pub proof fn lemma_under_push(self, tokens: Seq<Seq<u8>>, token: Seq<u8>, i: nat)
        ensures
            self.under(tokens.push(token), i) == if self.is_under(token, i) {
                self.under(tokens, i).push(token)
            } else {
                self.under(tokens, i)
            },
    {
        assert(tokens.push(token).drop_last() =~= tokens);
    }

    /// Every token of the group of a variant is grouped under that variant.
    pub proof fn lemma_under_all(self, tokens: Seq<Seq<u8>>, i: nat)
        ensures
            forall|k: int|
                0 <= k < self.under(tokens, i).len() ==> self.is_under(
                    #[trigger] self.under(tokens, i)[k],
                    i,
                ),
        decreases tokens.len(),
    {
        if tokens.len() > 0 {
            let shorter = self.under(tokens.drop_last(), i);
            let all = self.under(tokens, i);
            self.lemma_under_all(tokens.drop_last(), i);
            assert forall|k: int| 0 <= k < all.len() implies self.is_under(#[trigger] all[k], i) by {
                if k < shorter.len() {
                    assert(all[k] == shorter[k]);
                }
            }
        }
    }

    /// A token that is grouped under a variant is grouped under one of the
    /// variants there are.
    pub proof fn lemma_variant_in_range(self, token: Seq<u8>)
        requires
            self.variants.len() <= usize::MAX,
        ensures
            self.classify(token) matches Classification::Variant(v, _) ==> v
                < self.variants.len(),
    {
        crate::consts::lemma_longest_prefix(
            crate::consts::variant_patterns(self.variants),
            token,
        );
    }

    /// The two buckets of a variant hold the same tokens whether they are
    /// picked from the whole list or from the group of the variant.
    pub proof fn lemma_pick_under(self, tokens: Seq<Seq<u8>>, i: nat, b: nat)
        requires
            i < self.variants.len() <= usize::MAX,
            b == 1 + i || b == 2 + self.variants.len() + i,
        ensures
            self.pick(self.under(tokens, i), b) == self.pick(tokens, b),
        decreases tokens.len(),
    {
        if tokens.len() > 0 {
            let shorter = tokens.drop_last();
            let last = tokens.last();
            self.lemma_pick_under(shorter, i, b);
            self.lemma_variant_in_range(last);
            if self.is_under(last, i) {
                self.lemma_pick_push(self.under(shorter, i), last, b);
            }
        }
    }
}

} // verus!
