//! How many patterns of a batch occur in it more than once.

use crate::table::{count_of, empty_table, entries, lists, set_count, tally};
use vstd::prelude::*;
use vstd::seq_lib::*;

verus! {

/// A batch as the sequence of its patterns.
pub open spec fn batch_of(patterns: Seq<Vec<u8>>) -> Seq<Seq<u8>> {
    patterns.map_values(|pattern: Vec<u8>| pattern@)
}

/// How often `pattern` occurs in `batch`.
pub open spec fn occurrences(batch: Seq<Seq<u8>>, pattern: Seq<u8>) -> nat {
    batch.to_multiset().count(pattern)
}

/// The test for a pattern that occurs in `batch` at least twice.
pub open spec fn recurs_in(batch: Seq<Seq<u8>>) -> spec_fn(Seq<u8>) -> bool {
    |pattern: Seq<u8>| occurrences(batch, pattern) >= 2
}

/// How many entries of `batch` hold a pattern that occurs in it at least twice.
pub open spec fn recurring(batch: Seq<Seq<u8>>) -> nat {
    batch.filter(recurs_in(batch)).len()
}

/// The test for a pattern other than `pattern`.
pub open spec fn other_than(pattern: Seq<u8>) -> spec_fn(Seq<u8>) -> bool {
    |other: Seq<u8>| other != pattern
}

/// `batch` without the entries that hold `pattern`.
pub open spec fn without(batch: Seq<Seq<u8>>, pattern: Seq<u8>) -> Seq<Seq<u8>> {
    batch.filter(other_than(pattern))
}

/// Whether `counts` holds each pattern of `batch` with the number of its occurrences,
/// and no other pattern.
spec fn tallies(counts: Map<Seq<u8>, usize>, batch: Seq<Seq<u8>>) -> bool {
    forall|pattern: Seq<u8>|
        (#[trigger] counts.contains_key(pattern) <==> occurrences(batch, pattern) > 0) && (
        counts.contains_key(pattern) ==> counts[pattern] == occurrences(batch, pattern))
}

/// The test for a pattern that recurs in `batch` and stands among the first `upto`
/// of `pairs`.
spec fn counted(batch: Seq<Seq<u8>>, pairs: Seq<(&[u8], usize)>, upto: int) -> spec_fn(
    Seq<u8>,
) -> bool {
    |pattern: Seq<u8>|
        occurrences(batch, pattern) >= 2 && exists|m: int|
            0 <= m < upto && (#[trigger] pairs[m]).0@ == pattern
}

/// Tests that agree on every entry keep the same entries.
proof fn lemma_filter_agree(batch: Seq<Seq<u8>>, p: spec_fn(Seq<u8>) -> bool, q: spec_fn(
    Seq<u8>,
) -> bool)
    requires
        forall|i: int| 0 <= i < batch.len() ==> p(#[trigger] batch[i]) == q(batch[i]),
    ensures
        batch.filter(p) == batch.filter(q),
    decreases batch.len(),
{
    reveal(Seq::filter);
    if batch.len() > 0 {
        let front = batch.drop_last();
        assert forall|i: int| 0 <= i < front.len() implies p(#[trigger] front[i]) == q(
            front[i],
        ) by {}
        lemma_filter_agree(front, p, q);
    }
}

/// A test that passes what `p` passes and the pattern `extra` besides, which `p`
/// does not pass, keeps as many entries more as `extra` has occurrences.
proof fn lemma_filter_one_more(
    batch: Seq<Seq<u8>>,
    p: spec_fn(Seq<u8>) -> bool,
    r: spec_fn(Seq<u8>) -> bool,
    extra: Seq<u8>,
)
    requires
        forall|i: int|
            0 <= i < batch.len() ==> r(#[trigger] batch[i]) == (p(batch[i]) || batch[i] == extra),
        forall|i: int| 0 <= i < batch.len() ==> !(p(#[trigger] batch[i]) && batch[i] == extra),
    ensures
        batch.filter(r).len() == batch.filter(p).len() + occurrences(batch, extra),
    decreases batch.len(),
{
    reveal(Seq::filter);
    if batch.len() == 0 {
        assert(batch.to_multiset().len() == 0) by {
            to_multiset_len(batch);
        }
        assert(batch.to_multiset().count(extra) == 0) by {
            vstd::multiset::axiom_count_le_len(batch.to_multiset(), extra);
        }
    } else {
        let front = batch.drop_last();
        let last = batch.last();
        assert forall|i: int| 0 <= i < front.len() implies r(#[trigger] front[i]) == (p(
            front[i],
        ) || front[i] == extra) && !(p(front[i]) && front[i] == extra) by {}
        lemma_filter_one_more(front, p, r, extra);
        assert(batch =~= front.push(last));
        to_multiset_build(front, last);
        vstd::multiset::lemma_insert_increases_count_by_1(front.to_multiset(), last);
        vstd::multiset::lemma_insert_other_elements_unchanged(front.to_multiset(), last, extra);
        assert(r(batch[batch.len() - 1]) == (p(batch[batch.len() - 1]) || batch[batch.len() - 1]
            == extra));
    }
}

/// The entries that pass a test are, as a multiset, those of the batch that pass it.
proof fn lemma_filter_to_multiset(batch: Seq<Seq<u8>>, p: spec_fn(Seq<u8>) -> bool)
    ensures
        batch.filter(p).to_multiset() =~= batch.to_multiset().filter(p),
        batch.filter(p).len() == batch.to_multiset().filter(p).len(),
    decreases batch.len(),
{
    reveal(Seq::filter);
    broadcast use vstd::multiset::group_multiset_axioms;

    if batch.len() == 0 {
        assert(batch.to_multiset().len() == 0) by {
            to_multiset_len(batch);
        }
        assert forall|v: Seq<u8>| batch.to_multiset().count(v) == 0 by {
            vstd::multiset::axiom_count_le_len(batch.to_multiset(), v);
        }
    } else {
        let front = batch.drop_last();
        let last = batch.last();
        lemma_filter_to_multiset(front, p);
        assert(batch =~= front.push(last));
        to_multiset_build(front, last);
        to_multiset_build(front.filter(p), last);
        assert forall|v: Seq<u8>|
            batch.filter(p).to_multiset().count(v) == batch.to_multiset().filter(p).count(
                v,
            ) by {
            vstd::multiset::lemma_insert_increases_count_by_1(front.to_multiset(), last);
            vstd::multiset::lemma_insert_other_elements_unchanged(front.to_multiset(), last, v);
            vstd::multiset::lemma_insert_increases_count_by_1(
                front.filter(p).to_multiset(),
                last,
            );
            vstd::multiset::lemma_insert_other_elements_unchanged(
                front.filter(p).to_multiset(),
                last,
                v,
            );
            assert(front.filter(p).to_multiset().count(v) == front.to_multiset().filter(p).count(
                v,
            ));
        }
        assert(batch.filter(p).to_multiset() =~= batch.to_multiset().filter(p));
    }
    to_multiset_len(batch.filter(p));
}

/// What the entries that hold `pattern` add to the count over `batch`: their
/// number where there are two or more, and nothing where there is one or none.
pub open spec fn contribution(batch: Seq<Seq<u8>>, pattern: Seq<u8>) -> nat {
    if occurrences(batch, pattern) >= 2 {
        occurrences(batch, pattern)
    } else {
        0
    }
}

/// A table that tallies a batch tallies it still when one more pattern is counted,
/// and the new count fits.
proof fn lemma_tally_one_more(counts: Map<Seq<u8>, usize>, seen: Seq<Seq<u8>>, pattern: Seq<u8>)
    requires
        tallies(counts, seen),
        seen.len() < usize::MAX,
    ensures
        occurrences(seen, pattern) < usize::MAX,
        tallies(
            counts.insert(pattern, (occurrences(seen, pattern) + 1) as usize),
            seen.push(pattern),
        ),
{
    to_multiset_build(seen, pattern);
    to_multiset_len(seen);
    vstd::multiset::axiom_count_le_len(seen.to_multiset(), pattern);
    vstd::multiset::lemma_insert_increases_count_by_1(seen.to_multiset(), pattern);
    assert forall|other: Seq<u8>| other != pattern implies occurrences(seen.push(pattern), other)
        == occurrences(seen, other) by {
        vstd::multiset::lemma_insert_other_elements_unchanged(seen.to_multiset(), pattern, other);
    }
}

/// No pattern occurs in an empty batch.
proof fn lemma_tally_none(batch: Seq<Seq<u8>>)
    requires
        batch.len() == 0,
    ensures
        tallies(Map::empty(), batch),
{
    to_multiset_len(batch);
    assert forall|pattern: Seq<u8>| occurrences(batch, pattern) == 0 by {
        vstd::multiset::axiom_count_le_len(batch.to_multiset(), pattern);
    }
}

/// Before any pair is taken, nothing is counted.
proof fn lemma_counted_none(batch: Seq<Seq<u8>>, pairs: Seq<(&[u8], usize)>)
    ensures
        batch.filter(counted(batch, pairs, 0)).len() == 0,
{
    lemma_filter_agree(batch, counted(batch, pairs, 0), |pattern: Seq<u8>| false);
    batch.lemma_all_neg_filter_empty(|pattern: Seq<u8>| false);
}

/// Taking the pair at `j` counts what its pattern adds, and the pair holds the
/// number of that pattern's occurrences.
proof fn lemma_counted_one_more(
    batch: Seq<Seq<u8>>,
    pairs: Seq<(&[u8], usize)>,
    counts: Map<Seq<u8>, usize>,
    j: int,
)
    requires
        tallies(counts, batch),
        lists(pairs, counts),
        0 <= j < pairs.len(),
    ensures
        pairs[j].1 == occurrences(batch, pairs[j].0@),
        batch.filter(counted(batch, pairs, j + 1)).len() == batch.filter(
            counted(batch, pairs, j),
        ).len() + contribution(batch, pairs[j].0@),
        batch.filter(counted(batch, pairs, j + 1)).len() <= batch.len(),
{
    let before = counted(batch, pairs, j);
    let after = counted(batch, pairs, j + 1);
    let extra = pairs[j].0@;
    assert(counts.contains_key(extra));
    batch.lemma_filter_len(after);
    assert forall|k: int| 0 <= k < batch.len() implies after(#[trigger] batch[k]) == (before(
        batch[k],
    ) || (batch[k] == extra && recurs_in(batch)(extra))) && !(before(batch[k]) && batch[k]
        == extra) by {
        let pattern = batch[k];
        if before(pattern) {
            let m = choose|m: int| 0 <= m < j && (#[trigger] pairs[m]).0@ == pattern;
            assert(pairs[m].0@ != pairs[j].0@);
        }
        if after(pattern) && !before(pattern) {
            let m = choose|m: int| 0 <= m < j + 1 && (#[trigger] pairs[m]).0@ == pattern;
            assert(m == j);
        }
    }
    if recurs_in(batch)(extra) {
        lemma_filter_one_more(batch, before, after, extra);
    } else {
        lemma_filter_agree(batch, before, after);
    }
}

/// When every pair is taken, every pattern that recurs is counted.
proof fn lemma_counted_all(
    batch: Seq<Seq<u8>>,
    pairs: Seq<(&[u8], usize)>,
    counts: Map<Seq<u8>, usize>,
)
    requires
        tallies(counts, batch),
        lists(pairs, counts),
    ensures
        batch.filter(counted(batch, pairs, pairs.len() as int)).len() == recurring(batch),
{
    let all = counted(batch, pairs, pairs.len() as int);
    assert forall|k: int| 0 <= k < batch.len() implies all(#[trigger] batch[k]) == recurs_in(
        batch,
    )(batch[k]) by {
        to_multiset_contains(batch, batch[k]);
        assert(counts.contains_key(batch[k]));
    }
    lemma_filter_agree(batch, all, recurs_in(batch));
}

/// Counts how many of `patterns` occur among them at least twice: a pattern that
/// occurs `n >= 2` times counts `n` times, one that occurs once does not count.
///
/// The patterns are compared by what they hold, and their order does not matter.
pub fn count_frequency(patterns: &[Vec<u8>]) -> (total: usize)
    ensures
        total == recurring(batch_of(patterns@)),
{
    let ghost batch = batch_of(patterns@);
    // build up a frequency count of all patterns
    let mut frequency = empty_table(patterns.len());
    let mut i: usize = 0;
    proof {
        lemma_tally_none(batch.take(0));
    }
    while i < patterns.len()
        invariant
            batch == batch_of(patterns@),
            0 <= i <= patterns@.len(),
            tallies(tally(frequency), batch.take(i as int)),
        decreases patterns@.len() - i,
    {
        let pattern: &[u8] = patterns[i].as_slice();
        proof {
            assert(batch.take(i + 1) =~= batch.take(i as int).push(pattern@));
            lemma_tally_one_more(tally(frequency), batch.take(i as int), pattern@);
        }
        let count: usize = match count_of(&frequency, pattern) {
            Some(n) => *n + 1,
            None => 1,
        };
        set_count(&mut frequency, pattern, count);
        i += 1;
    }
    proof {
        assert(batch.take(i as int) =~= batch);
    }
    // retain the counts greater than 1, and sum them
    let pairs = entries(&frequency);
    let mut total: usize = 0;
    let mut j: usize = 0;
    proof {
        lemma_counted_none(batch, pairs@);
    }
    while j < pairs.len()
        invariant
            batch.len() <= usize::MAX,
            tallies(tally(frequency), batch),
            lists(pairs@, tally(frequency)),
            0 <= j <= pairs@.len(),
            total == batch.filter(counted(batch, pairs@, j as int)).len(),
        decreases pairs@.len() - j,
    {
        let count: usize = pairs[j].1;
        proof {
            lemma_counted_one_more(batch, pairs@, tally(frequency), j as int);
        }
        if count > 1 {
            total += count;
        }
        j += 1;
    }
    proof {
        lemma_counted_all(batch, pairs@, tally(frequency));
    }
    total
}

/// The test for a pattern other than `pattern` that occurs in `batch` at least twice.
spec fn recurs_beside(batch: Seq<Seq<u8>>, pattern: Seq<u8>) -> spec_fn(Seq<u8>) -> bool {
    |other: Seq<u8>| other_than(pattern)(other) && recurs_in(batch)(other)
}

/// Taking the entries with `pattern` out of a batch leaves every other pattern as
/// often as it was, and `pattern` not at all.
pub proof fn lemma_occurrences_without(batch: Seq<Seq<u8>>, pattern: Seq<u8>, other: Seq<u8>)
    ensures
        occurrences(without(batch, pattern), other) == if other == pattern {
            0
        } else {
            occurrences(batch, other)
        },
{
    lemma_filter_to_multiset(batch, other_than(pattern));
    vstd::multiset::axiom_filter_count(batch.to_multiset(), other_than(pattern), other);
}

/// The count over a batch is the count over the batch without one pattern, and
/// what that pattern adds.
pub proof fn lemma_contribution(batch: Seq<Seq<u8>>, pattern: Seq<u8>)
    ensures
        recurring(batch) == recurring(without(batch, pattern)) + contribution(batch, pattern),
{
    let rest = without(batch, pattern);
    let differs = other_than(pattern);
    let both = recurs_beside(batch, pattern);
    assert(rest.filter(recurs_in(rest)) == rest.filter(recurs_in(batch))) by {
        assert forall|i: int| 0 <= i < rest.len() implies recurs_in(rest)(#[trigger] rest[i])
            == recurs_in(batch)(rest[i]) by {
            batch.lemma_filter_pred(differs, i);
            lemma_occurrences_without(batch, pattern, rest[i]);
        }
        lemma_filter_agree(rest, recurs_in(rest), recurs_in(batch));
    }
    assert(rest.filter(recurs_in(batch)).len() == batch.filter(both).len()) by {
        lemma_filter_to_multiset(batch, differs);
        lemma_filter_to_multiset(rest, recurs_in(batch));
        lemma_filter_to_multiset(batch, both);
        let kept = batch.to_multiset().filter(differs).filter(recurs_in(batch));
        assert forall|v: Seq<u8>| kept.count(v) == batch.to_multiset().filter(both).count(
            v,
        ) by {
            vstd::multiset::axiom_filter_count(
                batch.to_multiset().filter(differs),
                recurs_in(batch),
                v,
            );
            vstd::multiset::axiom_filter_count(batch.to_multiset(), differs, v);
            vstd::multiset::axiom_filter_count(batch.to_multiset(), both, v);
        }
        assert(kept =~= batch.to_multiset().filter(both));
    }
    if occurrences(batch, pattern) >= 2 {
        lemma_filter_one_more(batch, both, recurs_in(batch), pattern);
    } else {
        lemma_filter_agree(batch, both, recurs_in(batch));
    }
}

/// A pattern that occurs once in a batch adds nothing to the count: the count is
/// that of the batch without it.
pub proof fn lemma_single_occurrence_excluded(batch: Seq<Seq<u8>>, pattern: Seq<u8>)
    requires
        occurrences(batch, pattern) == 1,
    ensures
        recurring(batch) == recurring(without(batch, pattern)),
{
    lemma_contribution(batch, pattern);
}

/// A pattern that occurs `n >= 2` times in a batch adds `n` to the count, each of
/// its occurrences and not only those after the first: three occurrences add 3.
pub proof fn lemma_repeated_pattern_counts_fully(batch: Seq<Seq<u8>>, pattern: Seq<u8>)
    requires
        occurrences(batch, pattern) >= 2,
    ensures
        recurring(batch) == recurring(without(batch, pattern)) + occurrences(batch, pattern),
{
    lemma_contribution(batch, pattern);
}

/// The count does not depend on the order of the batch: batches that hold the same
/// patterns equally often have the same count.
pub proof fn lemma_order_invariance(a: Seq<Seq<u8>>, b: Seq<Seq<u8>>)
    requires
        a.to_multiset() == b.to_multiset(),
    ensures
        recurring(a) == recurring(b),
{
    lemma_filter_agree(b, recurs_in(a), recurs_in(b));
    lemma_filter_to_multiset(a, recurs_in(a));
    lemma_filter_to_multiset(b, recurs_in(a));
}

/// The count is at most the size of the batch, and it is never 1.
pub proof fn lemma_recurring_bounds(batch: Seq<Seq<u8>>)
    ensures
        recurring(batch) <= batch.len(),
        recurring(batch) != 1,
{
    batch.lemma_filter_len(recurs_in(batch));
    let kept = batch.filter(recurs_in(batch));
    if kept.len() == 1 {
        let pattern = kept[0];
        batch.lemma_filter_pred(recurs_in(batch), 0);
        lemma_filter_to_multiset(batch, recurs_in(batch));
        vstd::multiset::axiom_filter_count(batch.to_multiset(), recurs_in(batch), pattern);
        vstd::multiset::axiom_count_le_len(kept.to_multiset(), pattern);
        to_multiset_len(kept);
    }
}

} // verus!
