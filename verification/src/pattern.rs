//! The pattern of a line: for each symbol, the rank at which it first appeared.

use vstd::prelude::*;
use vstd::seq_lib::*;
use vstd::set_lib::*;
use vstd::string::*;

verus! {

/// The number of symbols in the alphabet: the byte values `0..=127`.
pub const ALPHABET_SIZE: usize = 128;

/// A line held a symbol outside the alphabet.
#[derive(Debug, Clone, Copy, PartialEq, Eq, Structural)]
pub struct AlphabetRangeError {
    /// Where in the line, counted in bytes from 0, the first such symbol stands.
    pub index: usize,
    /// The symbol found there.
    pub byte: u8,
}

/// Whether every symbol of `line` lies in the alphabet.
pub open spec fn in_alphabet(line: Seq<u8>) -> bool {
    forall|i: int| 0 <= i < line.len() ==> (#[trigger] line[i]) < ALPHABET_SIZE
}

/// Whether `k` is the first position of `line` with a symbol outside the alphabet.
pub open spec fn is_first_outside(line: Seq<u8>, k: int) -> bool {
    &&& 0 <= k < line.len()
    &&& line[k] >= ALPHABET_SIZE
    &&& in_alphabet(line.take(k))
}

/// The first position of `line` with a symbol outside the alphabet, where there is one.
pub open spec fn first_outside(line: Seq<u8>) -> int {
    choose|k: int| is_first_outside(line, k)
}

/// The distinct symbols of `line`, in the order in which they first appear.
pub open spec fn first_seen(line: Seq<u8>) -> Seq<u8>
    decreases line.len(),
{
    if line.len() == 0 {
        Seq::empty()
    } else {
        let earlier = first_seen(line.drop_last());
        if earlier.contains(line.last()) {
            earlier
        } else {
            earlier.push(line.last())
        }
    }
}

/// The rank of `symbol` in `line`: how many distinct symbols appear before its
/// first appearance.
pub open spec fn rank(line: Seq<u8>, symbol: u8) -> int {
    first_seen(line).index_of(symbol)
}

/// The pattern of `line`: at each position the rank of the symbol that stands there.
pub open spec fn pattern_of(line: Seq<u8>) -> Seq<u8> {
    Seq::new(line.len(), |i: int| rank(line, line[i]) as u8)
}

/// What generating the pattern of `line` gives: the pattern, or the first symbol
/// outside the alphabet.
pub open spec fn generated(line: Seq<u8>) -> Result<Seq<u8>, AlphabetRangeError> {
    if in_alphabet(line) {
        Ok(pattern_of(line))
    } else {
        Err(
            AlphabetRangeError {
                index: first_outside(line) as usize,
                byte: line[first_outside(line)],
            },
        )
    }
}

/// Whether the symbol at position `i` of `line` appears there for the first time.
pub open spec fn is_new(line: Seq<u8>, i: int) -> bool {
    0 <= i < line.len() && !line.take(i).contains(line[i])
}

/// Whether `a` and `b` have equal symbols at the same pairs of positions.
pub open spec fn same_structure(a: Seq<u8>, b: Seq<u8>) -> bool {
    &&& a.len() == b.len()
    &&& forall|i: int, j: int|
        0 <= i < a.len() && 0 <= j < a.len() ==> ((a[i] == a[j]) <==> (b[i] == b[j]))
}

/// No sequence of distinct alphabet symbols is longer than the alphabet.
proof fn lemma_distinct_symbols_bounded(symbols: Seq<u8>)
    requires
        symbols.no_duplicates(),
        in_alphabet(symbols),
    ensures
        symbols.len() <= ALPHABET_SIZE,
{
    let wide = symbols.map_values(|b: u8| b as int);
    wide.unique_seq_to_set();
    lemma_int_range(0, ALPHABET_SIZE as int);
    assert(wide.to_set().subset_of(set_int_range(0, ALPHABET_SIZE as int))) by {
        assert forall|v: int| wide.to_set().contains(v) implies set_int_range(
            0,
            ALPHABET_SIZE as int,
        ).contains(v) by {
            let k = choose|k: int| 0 <= k < wide.len() && wide[k] == v;
            assert(symbols[k] < ALPHABET_SIZE);
        }
    }
    lemma_len_subset(wide.to_set(), set_int_range(0, ALPHABET_SIZE as int));
}

/// `first_seen(line)` lists each symbol of `line` once, and nothing else.
pub proof fn lemma_first_seen(line: Seq<u8>)
    ensures
        first_seen(line).no_duplicates(),
        forall|symbol: u8| first_seen(line).contains(symbol) <==> line.contains(symbol),
        first_seen(line).len() <= line.len(),
        in_alphabet(line) ==> in_alphabet(first_seen(line)) && first_seen(line).len()
            <= ALPHABET_SIZE,
    decreases line.len(),
{
    if line.len() > 0 {
        let front = line.drop_last();
        let earlier = first_seen(front);
        lemma_first_seen(front);
        assert forall|symbol: u8| first_seen(line).contains(symbol) <==> line.contains(
            symbol,
        ) by {
            if line.contains(symbol) {
                let k = choose|k: int| 0 <= k < line.len() && line[k] == symbol;
                if k < line.len() - 1 {
                    assert(front[k] == symbol);
                    assert(front.contains(symbol));
                    let m = choose|m: int| 0 <= m < earlier.len() && earlier[m] == symbol;
                    assert(first_seen(line)[m] == symbol);
                } else if !earlier.contains(line.last()) {
                    assert(first_seen(line)[earlier.len() as int] == symbol);
                }
            }
            if first_seen(line).contains(symbol) && symbol != line.last() {
                assert(front.contains(symbol));
            }
        }
        if in_alphabet(line) {
            assert(in_alphabet(front));
            assert(in_alphabet(first_seen(line)));
            lemma_distinct_symbols_bounded(first_seen(line));
        }
    }
}

/// The distinct symbols of a prefix are a prefix of the distinct symbols of the line.
pub proof fn lemma_first_seen_prefix(line: Seq<u8>, k: int)
    requires
        0 <= k <= line.len(),
    ensures
        first_seen(line.take(k)).is_prefix_of(first_seen(line)),
    decreases line.len() - k,
{
    if k == line.len() {
        assert(line.take(k) =~= line);
    } else {
        lemma_first_seen_prefix(line, k + 1);
        assert(line.take(k + 1).drop_last() =~= line.take(k));
    }
}

/// A symbol that a prefix holds has in the line the rank that it has in the prefix.
pub proof fn lemma_rank_stable(line: Seq<u8>, k: int, symbol: u8)
    requires
        0 <= k <= line.len(),
        line.take(k).contains(symbol),
    ensures
        rank(line.take(k), symbol) == rank(line, symbol),
        0 <= rank(line, symbol) < first_seen(line.take(k)).len(),
        first_seen(line)[rank(line, symbol)] == symbol,
{
    lemma_first_seen(line.take(k));
    lemma_first_seen(line);
    lemma_first_seen_prefix(line, k);
    let m = rank(line.take(k), symbol);
    assert(first_seen(line)[m] == symbol);
}

/// A symbol that is new at position `i` has the number of distinct symbols before
/// `i` as its rank.
pub proof fn lemma_rank_of_new_symbol(line: Seq<u8>, i: int)
    requires
        0 <= i < line.len(),
        !line.take(i).contains(line[i]),
    ensures
        rank(line, line[i]) == first_seen(line.take(i)).len(),
{
    let upto = line.take(i + 1);
    assert(upto.drop_last() =~= line.take(i));
    lemma_first_seen(line.take(i));
    lemma_first_seen(upto);
    assert(first_seen(upto).last() == line[i]);
    lemma_rank_stable(line, i + 1, line[i]);
}

/// A line has at most one first position outside the alphabet.
proof fn lemma_first_outside_unique(line: Seq<u8>, k: int)
    requires
        is_first_outside(line, k),
    ensures
        first_outside(line) == k,
        !in_alphabet(line),
{
    let c = first_outside(line);
    if c < k {
        assert(line.take(k)[c] == line[c]);
    } else if k < c {
        assert(line.take(c)[k] == line[k]);
    }
}

/// Generates the pattern of `line`, read as bytes: at each position the rank of
/// the symbol there, where the symbols are ranked 0, 1, 2, ... in the order in which
/// they first appear. A line with a byte above 127 has no pattern: the first such
/// byte is reported.
///
/// The result is a function of the line alone, and a pattern is as long as its line.
pub fn generate_pattern(line: &str) -> (res: Result<Vec<u8>, AlphabetRangeError>)
    ensures
        match res {
            Ok(pattern) => generated(line.spec_bytes()) == Ok::<Seq<u8>, AlphabetRangeError>(
                pattern@,
            ),
            Err(e) => generated(line.spec_bytes()) == Err::<Seq<u8>, AlphabetRangeError>(e),
        },
        res is Ok <==> in_alphabet(line.spec_bytes()),
        res matches Ok(pattern) ==> pattern@.len() == line.spec_bytes().len(),
        res matches Err(e) ==> is_first_outside(line.spec_bytes(), e.index as int),
{
    let bytes = line.as_bytes();
    let ghost symbols = line.spec_bytes();
    // for each symbol 0 until it is seen, then its rank and 1
    let mut seen = [0u8; ALPHABET_SIZE];
    let mut distinct: u8 = 0;
    let mut pattern: Vec<u8> = Vec::with_capacity(bytes.len());
    let mut i: usize = 0;
    while i < bytes.len()
        invariant
            symbols == line.spec_bytes(),
            bytes@ == symbols,
            0 <= i <= symbols.len(),
            in_alphabet(symbols.take(i as int)),
            distinct == first_seen(symbols.take(i as int)).len(),
            distinct <= ALPHABET_SIZE,
            forall|b: int|
                0 <= b < ALPHABET_SIZE ==> (#[trigger] seen[b] == 0 <==> !symbols.take(
                    i as int,
                ).contains(b as u8)),
            forall|b: int|
                0 <= b < ALPHABET_SIZE && #[trigger] seen[b] != 0 ==> seen[b] == rank(
                    symbols.take(i as int),
                    b as u8,
                ) + 1,
            pattern@.len() == i,
            forall|j: int|
                0 <= j < i ==> #[trigger] pattern@[j] == rank(symbols.take(i as int), symbols[j]),
        decreases symbols.len() - i,
    {
        let byte: u8 = bytes[i];
        let ghost before = symbols.take(i as int);
        let ghost upto = symbols.take(i + 1);
        if byte as usize >= ALPHABET_SIZE {
            proof {
                lemma_first_outside_unique(symbols, i as int);
            }
            return Err(AlphabetRangeError { index: i, byte });
        }
        proof {
            assert(upto.drop_last() =~= before);
            assert(in_alphabet(upto)) by {
                assert forall|j: int| 0 <= j < i implies (#[trigger] upto[j]) == before[j] by {}
            }
            lemma_first_seen(upto);
            lemma_first_seen(before);
            assert forall|b: u8| before.contains(b) implies upto.contains(b) && rank(upto, b)
                == rank(before, b) by {
                let k = choose|k: int| 0 <= k < before.len() && before[k] == b;
                assert(upto[k] == b);
                lemma_rank_stable(upto, i as int, b);
            }
            assert forall|b: u8| upto.contains(b) && b != byte implies before.contains(b) by {
                let k = choose|k: int| 0 <= k < upto.len() && upto[k] == b;
                assert(before[k] == b);
            }
        }
        let mut slot: u8 = seen[byte as usize];
        if slot == 0 {
            proof {
                lemma_rank_of_new_symbol(upto, i as int);
            }
            distinct += 1;
            seen[byte as usize] = distinct;
            slot = distinct;
        }
        pattern.push(slot - 1);
        proof {
            assert forall|j: int| 0 <= j < i + 1 implies #[trigger] pattern@[j] == rank(
                upto,
                symbols[j],
            ) by {
                if j < i {
                    assert(before[j] == symbols[j]);
                }
            }
        }
        i += 1;
    }
    proof {
        assert(symbols.take(i as int) =~= symbols);
        assert(pattern@ =~= pattern_of(symbols));
    }
    Ok(pattern)
}

/// Every rank is below the number of distinct symbols of its line, which is at most
/// the size of the alphabet: a rank always fits in a byte, and the pattern holds
/// the ranks themselves.
pub proof fn lemma_ranks_fit(line: Seq<u8>, i: int)
    requires
        in_alphabet(line),
        0 <= i < line.len(),
    ensures
        pattern_of(line)[i] == rank(line, line[i]),
        0 <= rank(line, line[i]) < first_seen(line).len() <= ALPHABET_SIZE,
        first_seen(line)[rank(line, line[i])] == line[i],
{
    assert(line.take(line.len() as int) =~= line);
    lemma_rank_stable(line, line.len() as int, line[i]);
    lemma_first_seen(line);
}

/// Each symbol of a line has one rank, and no two symbols share a rank: two
/// positions hold the same symbol exactly when the pattern holds the same rank there.
pub proof fn lemma_same_symbol_same_rank(line: Seq<u8>, i: int, j: int)
    requires
        in_alphabet(line),
        0 <= i < line.len(),
        0 <= j < line.len(),
    ensures
        (line[i] == line[j]) <==> (pattern_of(line)[i] == pattern_of(line)[j]),
{
    lemma_ranks_fit(line, i);
    lemma_ranks_fit(line, j);
}

/// A symbol that is new at position `i` gets as its rank the number of distinct
/// symbols before `i`; so the first symbol of a line has rank 0.
pub proof fn lemma_new_symbol_counts_earlier(line: Seq<u8>, i: int)
    requires
        in_alphabet(line),
        is_new(line, i),
    ensures
        pattern_of(line)[i] == first_seen(line.take(i)).len(),
        i == 0 ==> pattern_of(line)[i] == 0,
{
    lemma_ranks_fit(line, i);
    lemma_rank_of_new_symbol(line, i);
    lemma_first_seen(line.take(i));
}

/// Where no position from `from` up to `to` holds a new symbol, the distinct
/// symbols seen are the same at both.
proof fn lemma_first_seen_without_new(line: Seq<u8>, from: int, to: int)
    requires
        0 <= from <= to <= line.len(),
        forall|k: int| from <= k < to ==> !is_new(line, k),
    ensures
        first_seen(line.take(to)) == first_seen(line.take(from)),
    decreases to - from,
{
    if from < to {
        lemma_first_seen_without_new(line, from, to - 1);
        assert(line.take(to).drop_last() =~= line.take(to - 1));
        assert(!is_new(line, to - 1));
        lemma_first_seen(line.take(to - 1));
    }
}

/// The ranks given to new symbols rise along the line, one at a time: of two
/// positions with new symbols the later has the higher rank, and it is higher by
/// exactly 1 where no new symbol stands between them.
pub proof fn lemma_new_symbol_ranks_rise(line: Seq<u8>, i: int, j: int)
    requires
        in_alphabet(line),
        is_new(line, i),
        is_new(line, j),
        i < j,
    ensures
        pattern_of(line)[i] < pattern_of(line)[j],
        (forall|k: int| i < k < j ==> !is_new(line, k)) ==> pattern_of(line)[j]
            == pattern_of(line)[i] + 1,
{
    lemma_new_symbol_counts_earlier(line, i);
    lemma_new_symbol_counts_earlier(line, j);
    let upto = line.take(i + 1);
    assert(upto.drop_last() =~= line.take(i));
    lemma_first_seen(line.take(i));
    assert(line.take(j).take(i + 1) =~= upto);
    lemma_first_seen_prefix(line.take(j), i + 1);
    if forall|k: int| i < k < j ==> !is_new(line, k) {
        lemma_first_seen_without_new(line, i + 1, j);
    }
}

/// Lines of the same structure have, prefix by prefix, as many distinct symbols
/// and the same ranks.
proof fn lemma_structure_gives_ranks(a: Seq<u8>, b: Seq<u8>, n: int)
    requires
        same_structure(a, b),
        0 <= n <= a.len(),
    ensures
        first_seen(a.take(n)).len() == first_seen(b.take(n)).len(),
        forall|i: int|
            #![trigger a[i]]
            #![trigger b[i]]
            0 <= i < n ==> rank(a.take(n), a[i]) == rank(b.take(n), b[i]),
    decreases n,
{
    if n > 0 {
        lemma_structure_gives_ranks(a, b, n - 1);
        let pa = a.take(n - 1);
        let pb = b.take(n - 1);
        let ua = a.take(n);
        let ub = b.take(n);
        assert(ua.drop_last() =~= pa);
        assert(ub.drop_last() =~= pb);
        lemma_first_seen(pa);
        lemma_first_seen(pb);
        assert forall|i: int| 0 <= i < n - 1 implies rank(ua, a[i]) == rank(pa, a[i]) && rank(
            ub,
            b[i],
        ) == rank(pb, b[i]) by {
            assert(pa[i] == a[i]);
            assert(pb[i] == b[i]);
            lemma_rank_stable(ua, n - 1, a[i]);
            lemma_rank_stable(ub, n - 1, b[i]);
        }
        if pa.contains(a[n - 1]) {
            let j = choose|j: int| 0 <= j < pa.len() && pa[j] == a[n - 1];
            assert(pb[j] == b[n - 1]);
            assert(pb.contains(b[n - 1]));
        } else {
            if pb.contains(b[n - 1]) {
                let j = choose|j: int| 0 <= j < pb.len() && pb[j] == b[n - 1];
                assert(pa[j] == a[n - 1]);
            }
            lemma_rank_of_new_symbol(ua, n - 1);
            lemma_rank_of_new_symbol(ub, n - 1);
        }
    }
}

/// Two lines give the same pattern exactly when they have the same structure:
/// the pattern keeps which positions hold equal symbols, and nothing of which
/// symbols they are.
pub proof fn lemma_pattern_is_structure(a: Seq<u8>, b: Seq<u8>)
    requires
        in_alphabet(a),
        in_alphabet(b),
    ensures
        same_structure(a, b) <==> pattern_of(a) == pattern_of(b),
{
    if same_structure(a, b) {
        let n = a.len() as int;
        lemma_structure_gives_ranks(a, b, n);
        assert(a.take(n) =~= a);
        assert(b.take(n) =~= b);
        assert(pattern_of(a) =~= pattern_of(b));
    }
    if pattern_of(a) == pattern_of(b) {
        assert(a.len() == pattern_of(a).len());
        assert forall|i: int, j: int| 0 <= i < a.len() && 0 <= j < a.len() implies ((a[i]
            == a[j]) <==> (b[i] == b[j])) by {
            lemma_same_symbol_same_rank(a, i, j);
            lemma_same_symbol_same_rank(b, i, j);
        }
    }
}

/// Renaming the symbols of a line, different symbols to different symbols, leaves
/// its pattern as it was.
pub proof fn lemma_renaming_keeps_pattern(line: Seq<u8>, renaming: spec_fn(u8) -> u8)
    requires
        in_alphabet(line),
        in_alphabet(line.map_values(renaming)),
        forall|x: u8, y: u8|
            line.contains(x) && line.contains(y) && #[trigger] renaming(x) == #[trigger] renaming(
                y,
            ) ==> x == y,
    ensures
        pattern_of(line.map_values(renaming)) == pattern_of(line),
{
    let renamed = line.map_values(renaming);
    assert(same_structure(line, renamed));
    lemma_pattern_is_structure(line, renamed);
}

} // verus!
