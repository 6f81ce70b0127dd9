//! The hash collections of `rustc_hash` that the analysis keeps, and std's sort
//! of names: what each call does to what a collection holds.
//!
//! The order in which a hash collection hands out its items is left open: it is
//! no part of what the collection holds.
use crate::text::{codes, precedes, texts};
use crate::types::{cause_views, AffectCause, CauseView};
use rustc_hash::{FxHashMap, FxHashSet};
use vstd::prelude::*;

verus! {

/// The hasher of `rustc_hash`'s collections.
#[verifier::external_type_specification]
#[verifier::external_body]
pub struct ExFxBuildHasher(rustc_hash::FxBuildHasher);

/// The texts that a set of strings holds.
pub uninterp spec fn names_in(names: &FxHashSet<String>) -> Set<Seq<char>>;

/// `FxHashSet::default` makes a set that holds nothing.
#[verifier::external_body]
pub(crate) fn no_names() -> (names: FxHashSet<String>)
    ensures
        names_in(&names) == Set::<Seq<char>>::empty(),
{
    FxHashSet::default()
}

/// `HashSet::insert` adds the name and says whether it was not there before.
#[verifier::external_body]
pub(crate) fn insert_name(names: &mut FxHashSet<String>, name: String) -> (added: bool)
    ensures
        names_in(final(names)) == names_in(old(names)).insert(name@),
        added == !names_in(old(names)).contains(name@),
{
    names.insert(name)
}

/// `HashSet::contains` says whether the set holds the name.
#[verifier::external_body]
pub(crate) fn contains_name(names: &FxHashSet<String>, name: &str) -> (r: bool)
    ensures
        r == names_in(names).contains(name@),
{
    names.contains(name)
}

/// `HashSet::iter` hands out each name once, in an order that is left open.
#[verifier::external_body]
pub(crate) fn list_names(names: &FxHashSet<String>) -> (r: Vec<String>)
    ensures
        texts(r@).to_set() == names_in(names),
        texts(r@).no_duplicates(),
{
    names.iter().cloned().collect()
}

/// Whether names stand in the order of their code points.
pub open spec fn in_order(names: Seq<Seq<char>>) -> bool {
    forall|i: int, j: int|
        #![trigger names[i], names[j]]
        0 <= i < j < names.len() ==> !precedes(codes(names[j]), codes(names[i]))
}

/// `<[String]>::sort` puts the names in the order of their code points.
#[verifier::external_body]
pub(crate) fn sort_names(names: &mut Vec<String>)
    ensures
        texts(final(names)@).to_multiset() == texts(old(names)@).to_multiset(),
        in_order(texts(final(names)@)),
{
    names.sort();
}

/// The numbers that a map keeps by text.
pub uninterp spec fn numbers_in(numbers: &FxHashMap<String, usize>) -> Map<Seq<char>, usize>;

/// `FxHashMap::default` makes a map that keeps nothing.
#[verifier::external_body]
pub(crate) fn no_numbers() -> (numbers: FxHashMap<String, usize>)
    ensures
        numbers_in(&numbers).dom() == Set::<Seq<char>>::empty(),
{
    FxHashMap::default()
}

/// `HashMap::insert` keeps the number under the text, in place of an earlier one.
#[verifier::external_body]
pub(crate) fn set_number(numbers: &mut FxHashMap<String, usize>, text: String, number: usize)
    ensures
        numbers_in(final(numbers)) == numbers_in(old(numbers)).insert(text@, number),
{
    numbers.insert(text, number);
}

/// `HashMap::get` finds the number that is kept under the text.
#[verifier::external_body]
pub(crate) fn number_of(numbers: &FxHashMap<String, usize>, text: &str) -> (r: Option<usize>)
    ensures
        match r {
            Some(number) => numbers_in(numbers).contains_pair(text@, number),
            None => !numbers_in(numbers).dom().contains(text@),
        },
{
    numbers.get(text).copied()
}

/// The numbers that a map keeps by pairs of texts.
pub uninterp spec fn pair_numbers_in(
    numbers: &FxHashMap<(String, String), usize>,
) -> Map<(Seq<char>, Seq<char>), usize>;

/// `FxHashMap::default` makes a map that keeps nothing.
#[verifier::external_body]
pub(crate) fn no_pair_numbers() -> (numbers: FxHashMap<(String, String), usize>)
    ensures
        pair_numbers_in(&numbers).dom() == Set::<(Seq<char>, Seq<char>)>::empty(),
{
    FxHashMap::default()
}

/// `HashMap::insert` keeps the number under the pair, in place of an earlier one.
#[verifier::external_body]
pub(crate) fn set_pair_number(
    numbers: &mut FxHashMap<(String, String), usize>,
    pair: (String, String),
    number: usize,
)
    ensures
        pair_numbers_in(final(numbers)) == pair_numbers_in(old(numbers)).insert(
            (pair.0@, pair.1@),
            number,
        ),
{
    numbers.insert(pair, number);
}

/// `HashMap::get` finds the number that is kept under the pair.
#[verifier::external_body]
pub(crate) fn pair_number_of(
    numbers: &FxHashMap<(String, String), usize>,
    pair: &(String, String),
) -> (r: Option<usize>)
    ensures
        match r {
            Some(number) => pair_numbers_in(numbers).contains_pair((pair.0@, pair.1@), number),
            None => !pair_numbers_in(numbers).dom().contains((pair.0@, pair.1@)),
        },
{
    numbers.get(pair).copied()
}

/// The file numbers and symbols that a set of such pairs holds.
pub uninterp spec fn nodes_in(nodes: &FxHashSet<(usize, String)>) -> Set<(usize, Seq<char>)>;

/// `FxHashSet::default` makes a set that holds nothing.
#[verifier::external_body]
pub(crate) fn no_nodes() -> (nodes: FxHashSet<(usize, String)>)
    ensures
        nodes_in(&nodes) == Set::<(usize, Seq<char>)>::empty(),
{
    FxHashSet::default()
}

/// `HashSet::insert` adds the pair and says whether it was not there before.
#[verifier::external_body]
pub(crate) fn insert_node(nodes: &mut FxHashSet<(usize, String)>, node: (usize, String)) -> (added:
    bool)
    ensures
        nodes_in(final(nodes)) == nodes_in(old(nodes)).insert((node.0, node.1@)),
        added == !nodes_in(old(nodes)).contains((node.0, node.1@)),
{
    nodes.insert(node)
}

/// The causes that a map keeps by project name, in the order of their coming.
pub uninterp spec fn causes_in(
    causes: &FxHashMap<String, Vec<AffectCause>>,
) -> Map<Seq<char>, Seq<CauseView>>;

/// `FxHashMap::default` makes a map that keeps nothing.
#[verifier::external_body]
pub(crate) fn no_causes() -> (causes: FxHashMap<String, Vec<AffectCause>>)
    ensures
        causes_in(&causes).dom() == Set::<Seq<char>>::empty(),
{
    FxHashMap::default()
}

/// `HashMap::remove` takes the causes out that are kept under the name.
#[verifier::external_body]
pub(crate) fn take_causes(
    causes: &mut FxHashMap<String, Vec<AffectCause>>,
    name: &str,
) -> (r: Option<Vec<AffectCause>>)
    ensures
        causes_in(final(causes)) == causes_in(old(causes)).remove(name@),
        match r {
            Some(list) => causes_in(old(causes)).contains_pair(name@, cause_views(list@)),
            None => !causes_in(old(causes)).dom().contains(name@),
        },
{
    causes.remove(name)
}

/// `HashMap::insert` keeps the causes under the name, in place of earlier ones.
#[verifier::external_body]
pub(crate) fn set_causes(
    causes: &mut FxHashMap<String, Vec<AffectCause>>,
    name: String,
    list: Vec<AffectCause>,
)
    ensures
        causes_in(final(causes)) == causes_in(old(causes)).insert(name@, cause_views(list@)),
{
    causes.insert(name, list);
}

/// `HashMap::get` finds the causes that are kept under the name.
#[verifier::external_body]
pub(crate) fn causes_of<'a>(
    causes: &'a FxHashMap<String, Vec<AffectCause>>,
    name: &str,
) -> (r: Option<&'a Vec<AffectCause>>)
    ensures
        match r {
            Some(list) => causes_in(causes).contains_pair(name@, cause_views(list@)),
            None => !causes_in(causes).dom().contains(name@),
        },
{
    causes.get(name)
}

/// `HashMap::keys` hands out each name once, in an order that is left open.
#[verifier::external_body]
pub(crate) fn cause_names(causes: &FxHashMap<String, Vec<AffectCause>>) -> (r: Vec<String>)
    ensures
        texts(r@).to_set() == causes_in(causes).dom(),
        texts(r@).no_duplicates(),
{
    causes.keys().cloned().collect()
}

} // verus!
