//! The frequency table: a hash map of fnv from patterns to their counts, which
//! rayon walks. What the table does is taken on trust from the two crates and
//! from `std`; this file says what is trusted.

use fnv::FnvHashMap;
use rayon::iter::{IntoParallelRefIterator, ParallelIterator};
use vstd::prelude::*;

verus! {

/// `std::hash::BuildHasherDefault`, which builds a table's hashers.
#[verifier::external_type_specification]
#[verifier::external_body]
#[verifier::reject_recursive_types(H)]
pub struct ExBuildHasherDefault<H>(std::hash::BuildHasherDefault<H>);

/// `fnv::FnvHasher`, the hasher of the frequency table.
#[verifier::external_type_specification]
#[verifier::external_body]
pub struct ExFnvHasher(fnv::FnvHasher);

/// What a frequency table holds: the patterns counted so far, each with its count.
pub uninterp spec fn tally(table: FnvHashMap<&[u8], usize>) -> Map<Seq<u8>, usize>;

/// Whether `pairs` lists the entries of `counts`, each once, in some order.
pub open spec fn lists(pairs: Seq<(&[u8], usize)>, counts: Map<Seq<u8>, usize>) -> bool {
    &&& forall|i: int|
        0 <= i < pairs.len() ==> counts.contains_pair((#[trigger] pairs[i]).0@, pairs[i].1)
    &&& forall|i: int, j: int|
        0 <= i < j < pairs.len() ==> (#[trigger] pairs[i]).0@ != (#[trigger] pairs[j]).0@
    &&& forall|pattern: Seq<u8>| #[trigger]
        counts.contains_key(pattern) ==> exists|i: int|
            0 <= i < pairs.len() && (#[trigger] pairs[i]).0@ == pattern
}

/// `FnvHashMap::with_capacity_and_hasher`, with fnv's default hasher: the new
/// table holds nothing.
#[verifier::external_body]
pub(crate) fn empty_table<'a>(capacity: usize) -> (table: FnvHashMap<&'a [u8], usize>)
    ensures
        tally(table) =~= Map::empty(),
{
    FnvHashMap::with_capacity_and_hasher(capacity, Default::default())
}

/// `HashMap::get` on a frequency table: the count kept for `pattern`, where it has
/// one. The table finds a pattern by what it holds, not by where it lies.
#[verifier::external_body]
pub(crate) fn count_of<'t>(table: &'t FnvHashMap<&[u8], usize>, pattern: &[u8]) -> (count: Option<
    &'t usize,
>)
    ensures
        count is Some <==> tally(*table).contains_key(pattern@),
        count matches Some(n) ==> *n == tally(*table)[pattern@],
{
    table.get(pattern)
}

/// `HashMap::insert` on a frequency table: `pattern` now has the count `count`,
/// and every other pattern the count it had.
#[verifier::external_body]
pub(crate) fn set_count<'a>(
    table: &mut FnvHashMap<&'a [u8], usize>,
    pattern: &'a [u8],
    count: usize,
)
    ensures
        tally(*final(table)) == tally(*old(table)).insert(pattern@, count),
{
    table.insert(pattern, count);
}

/// `par_iter` of rayon on a frequency table, collected: the entries of the table,
/// each once. Their order is that in which the table is walked, of which nothing
/// is said.
#[verifier::external_body]
pub(crate) fn entries<'a>(table: &FnvHashMap<&'a [u8], usize>) -> (pairs: Vec<
    (&'a [u8], usize),
>)
    ensures
        lists(pairs@, tally(*table)),
{
    table.par_iter().map(|entry| (*entry.0, *entry.1)).collect()
}

} // verus!
