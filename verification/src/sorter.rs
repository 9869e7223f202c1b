//! The order table: which rank each known class has.
use ahash::AHashMap;
use ahash::RandomState;
use vstd::prelude::*;

use crate::defaults::default_class_list;
use crate::defaults::default_class_names;
use crate::parser::selector_classes;
use crate::parser::selector_class_list;
use crate::text::first_occurrences;
use crate::text::lemma_first_occurrences;
use crate::text::views_of;

verus! {

/// `ahash::AHashMap`, the hash map that holds an order table. Verus sees
/// nothing inside it; `table_entries` names what it holds.
#[verifier::external_type_specification]
#[verifier::external_body]
#[verifier::reject_recursive_types(K)]
#[verifier::reject_recursive_types(V)]
#[verifier::reject_recursive_types(S)]
pub struct ExAHashMap<K, V, S>(AHashMap<K, V, S>);

/// `ahash::RandomState`, the hasher that an `AHashMap` is made with.
#[verifier::external_type_specification]
#[verifier::external_body]
pub struct ExRandomState(RandomState);

/// The entries of an order table: each class name with its rank.
pub uninterp spec fn table_entries(table: AHashMap<Vec<u8>, usize>) -> Map<Seq<u8>, usize>;

/// `AHashMap::new`: a map without entries.
#[verifier::external_body]
pub(crate) fn table_new() -> (table: AHashMap<Vec<u8>, usize>)
    ensures
        table_entries(table) == (Map::<Seq<u8>, usize>::empty()),
{
    AHashMap::new()
}

/// `AHashMap::get`: the rank stored under `name`, if there is one. Keys are
/// compared as byte strings, which is what `Vec<u8>` and `[u8]` do.
#[verifier::external_body]
pub(crate) fn table_get(table: &AHashMap<Vec<u8>, usize>, name: &[u8]) -> (rank: Option<usize>)
    ensures
        rank == ranked(table_entries(*table), name@),
{
    table.get(name).copied()
}

/// `AHashMap::insert`: afterwards `name` has rank `rank`, and every other
/// name has what it had.
#[verifier::external_body]
pub(crate) fn table_insert(table: &mut AHashMap<Vec<u8>, usize>, name: Vec<u8>, rank: usize)
    ensures
        table_entries(*final(table)) == table_entries(*old(table)).insert(name@, rank),
{
    table.insert(name, rank);
}

/// `HashMap::len`, reached through the map that an `AHashMap` wraps: the
/// number of entries, of which there are finitely many.
#[verifier::external_body]
pub(crate) fn table_len(table: &AHashMap<Vec<u8>, usize>) -> (count: usize)
    ensures
        counts(table_entries(*table), count),
{
    table.len()
}

/// `entries` has `count` names, and no more.
pub open spec fn counts(entries: Map<Seq<u8>, usize>, count: usize) -> bool {
    entries.dom().finite() && entries.dom().len() == count
}

/// The rank that `entries` gives `name`, if any.
pub open spec fn ranked(entries: Map<Seq<u8>, usize>, name: Seq<u8>) -> Option<usize> {
    if entries.contains_key(name) {
        Some(entries[name])
    } else {
        None
    }
}

/// Each name of the list with the position at which it first stands in it.
pub open spec fn position_ranks(names: Seq<Seq<u8>>) -> Map<Seq<u8>, usize>
    decreases names.len(),
{
    if names.len() == 0 {
        Map::empty()
    } else if position_ranks(names.drop_last()).contains_key(names.last()) {
        position_ranks(names.drop_last())
    } else {
        position_ranks(names.drop_last()).insert(names.last(), (names.len() - 1) as usize)
    }
}

/// The table has exactly the names of the list.
pub proof fn lemma_position_ranks(names: Seq<Seq<u8>>)
    ensures
        forall|name: Seq<u8>| position_ranks(names).contains_key(name) <==> names.contains(name),
    decreases names.len(),
{
    if names.len() > 0 {
        let shorter = names.drop_last();
        let last = names.last();
        let before = position_ranks(shorter);
        let all = position_ranks(names);
        lemma_position_ranks(shorter);
        assert(names[names.len() - 1] == last);
        assert(names.contains(last));
        assert forall|name: Seq<u8>| all.contains_key(name) <==> names.contains(name) by {
            assert(before.contains_key(name) <==> shorter.contains(name));
            if names.contains(name) {
                let k = choose|k: int| 0 <= k < names.len() && names[k] == name;
                if k < shorter.len() {
                    assert(shorter[k] == name);
                    assert(shorter.contains(name));
                }
            }
            if shorter.contains(name) {
                let k = choose|k: int| 0 <= k < shorter.len() && shorter[k] == name;
                assert(names[k] == name);
            }
        }
    }
}

/// The rank of a name is the first position at which the list has it.
pub proof fn lemma_position_ranks_first(names: Seq<Seq<u8>>, i: int)
    requires
        0 <= i < names.len() <= usize::MAX,
    ensures
        position_ranks(names).contains_key(names[i]),
        0 <= position_ranks(names)[names[i]] <= i,
        names[position_ranks(names)[names[i]] as int] == names[i],
        forall|j: int| 0 <= j < position_ranks(names)[names[i]] ==> names[j] != names[i],
    decreases names.len(),
{
    let shorter = names.drop_last();
    let last = names.last();
    let before = position_ranks(shorter);
    lemma_position_ranks(shorter);
    lemma_position_ranks(names);
    assert(names.contains(names[i]));
    if i < shorter.len() {
        assert(shorter[i] == names[i]);
        assert(shorter.contains(shorter[i]));
        lemma_position_ranks_first(shorter, i);
        let r = before[shorter[i]] as int;
        assert(shorter[r] == names[r]);
        assert forall|j: int| 0 <= j < r implies names[j] != names[i] by {
            assert(shorter[j] == names[j]);
        }
    } else {
        if before.contains_key(last) {
            assert(shorter.contains(last));
            let k = choose|k: int| 0 <= k < shorter.len() && shorter[k] == last;
            lemma_position_ranks_first(shorter, k);
            let r = before[shorter[k]] as int;
            assert(shorter[r] == names[r]);
            assert forall|j: int| 0 <= j < r implies names[j] != names[i] by {
                assert(shorter[j] == names[j]);
            }
        } else {
            assert forall|j: int| 0 <= j < i implies names[j] != names[i] by {
                if names[j] == names[i] {
                    assert(shorter[j] == last);
                    assert(shorter.contains(last));
                }
            }
        }
    }
}

/// Use either the default order or a custom one.
#[derive(Debug)]
pub enum Sorter {
    /// The order of `default_class_names`.
    DefaultSorter,
    /// The order that the table gives.
    CustomSorter(AHashMap<Vec<u8>, usize>),
}

/// The table of the default order: each of its classes with its position.
pub open spec fn default_ranks() -> Map<Seq<u8>, usize> {
    position_ranks(default_class_names())
}

/// The table that a stylesheet gives: the classes of its selector lines, each
/// ranked by how many other classes were seen before it was first seen.
pub open spec fn stylesheet_ranks(css: Seq<u8>) -> Map<Seq<u8>, usize> {
    position_ranks(first_occurrences(selector_classes(css)))
}

/// A table in which each name of the list has the position at which it
/// first stands in the list.
pub fn parse_custom_sorter(contents: Vec<Vec<u8>>) -> (table: AHashMap<Vec<u8>, usize>)
    ensures
        table_entries(table) == position_ranks(views_of(contents@)),
{
    let ghost names = views_of(contents@);
    let mut table = table_new();
    let mut rank: usize = 0;
    while rank < contents.len()
        invariant
            rank <= contents.len(),
            names == views_of(contents@),
            table_entries(table) == position_ranks(names.take(rank as int)),
        decreases contents.len() - rank,
    {
        let name = contents[rank].clone();
        proof {
            assert(name@ =~= names[rank as int]);
            assert(names.take(rank + 1).drop_last() =~= names.take(rank as int));
            assert(names.take(rank + 1).last() == names[rank as int]);
        }
        if table_get(&table, name.as_slice()).is_none() {
            table_insert(&mut table, name, rank);
        }
        rank += 1;
    }
    proof {
        assert(names.take(names.len() as int) =~= names);
    }
    table
}

/// A table in which each name of the list is ranked by how many other names
/// stand before the place where it first stands.
pub fn rank_first_seen(names: Vec<Vec<u8>>) -> (table: AHashMap<Vec<u8>, usize>)
    ensures
        table_entries(table) == position_ranks(first_occurrences(views_of(names@))),
{
    let ghost all = views_of(names@);
    let mut table = table_new();
    let mut seen: usize = 0;
    let mut index: usize = 0;
    while seen < names.len()
        invariant
            seen <= names.len(),
            all == views_of(names@),
            index == first_occurrences(all.take(seen as int)).len(),
            table_entries(table) == position_ranks(first_occurrences(all.take(seen as int))),
        decreases names.len() - seen,
    {
        let ghost done = all.take(seen as int);
        let name = names[seen].clone();
        proof {
            assert(name@ =~= all[seen as int]);
            assert(all.take(seen + 1).drop_last() =~= done);
            assert(all.take(seen + 1).last() == all[seen as int]);
            lemma_first_occurrences(done);
            lemma_first_occurrences(all.take(seen + 1));
            lemma_position_ranks(first_occurrences(done));
            assert(first_occurrences(done).push(name@).drop_last() =~= first_occurrences(done));
        }
        if table_get(&table, name.as_slice()).is_none() {
            table_insert(&mut table, name, index);
            index += 1;
        }
        seen += 1;
    }
    proof {
        assert(all.take(all.len() as int) =~= all);
    }
    table
}

/// The table that a stylesheet gives. A line defines a class where, after
/// its leading whitespace, it starts with `.`, goes on with other bytes that
/// are not whitespace, and has a space behind them. The class is that word
/// without the dots at its start and without backslashes. A class has the
/// rank of its first appearance.
pub fn parse_classes(css: &[u8]) -> (table: AHashMap<Vec<u8>, usize>)
    ensures
        table_entries(table) == stylesheet_ranks(css@),
{
    rank_first_seen(selector_class_list(css))
}

impl Sorter {
    /// What the sorter ranks, and how.
    pub open spec fn entries(self) -> Map<Seq<u8>, usize> {
        match self {
            Sorter::DefaultSorter => default_ranks(),
            Sorter::CustomSorter(table) => table_entries(table),
        }
    }

    /// A sorter with the order that `sorter` gives.
    pub fn new(sorter: AHashMap<Vec<u8>, usize>) -> (made: Sorter)
        ensures
            made == Sorter::CustomSorter(sorter),
    {
        Sorter::CustomSorter(sorter)
    }

    /// A sorter with the order in which a stylesheet first names its
    /// classes.
    pub fn new_from_reader(css: &[u8]) -> (made: Sorter)
        ensures
            made is CustomSorter,
            made.entries() == stylesheet_ranks(css@),
    {
        Sorter::CustomSorter(parse_classes(css))
    }

    /// The table of the sorter; for the default sorter it is built here.
    pub fn into_table(self) -> (table: AHashMap<Vec<u8>, usize>)
        ensures
            table_entries(table) == self.entries(),
    {
        match self {
            Sorter::DefaultSorter => parse_custom_sorter(default_class_list()),
            Sorter::CustomSorter(table) => table,
        }
    }

    /// The rank of `class`, if the sorter has it. On the default sorter each
    /// call builds its table: take the table once with `into_table` where
    /// many classes are looked up.
    pub fn get(&self, class: &[u8]) -> (rank: Option<usize>)
        ensures
            rank == ranked(self.entries(), class@),
    {
        match self {
            Sorter::DefaultSorter => {
                let table = parse_custom_sorter(default_class_list());
                table_get(&table, class)
            },
            Sorter::CustomSorter(table) => table_get(table, class),
        }
    }

    /// How many classes the sorter ranks.
    pub fn len(&self) -> (count: usize)
        ensures
            counts(self.entries(), count),
    {
        match self {
            Sorter::DefaultSorter => {
                let table = parse_custom_sorter(default_class_list());
                table_len(&table)
            },
            Sorter::CustomSorter(table) => table_len(table),
        }
    }
}

} // verus!
