//! The lines of a text, and their patterns as a batch.

use crate::pattern::{generate_pattern, generated, in_alphabet, AlphabetRangeError};
use rayon::iter::ParallelIterator;
use rayon::str::ParallelString;
use vstd::prelude::*;
use vstd::utf8::encode_utf8;

verus! {

/// A line of a batch has no pattern.
#[derive(Debug, Clone, Copy, PartialEq, Eq, Structural)]
pub struct LineError {
    /// Which line, counted from 0.
    pub line: usize,
    /// What was found in it.
    pub error: AlphabetRangeError,
}

/// How many characters of `text` stand before its first line feed, or in all of
/// it where it has none.
pub open spec fn first_line_len(text: Seq<char>) -> nat
    decreases text.len(),
{
    if text.len() == 0 || text.first() == '\n' {
        0
    } else {
        1 + first_line_len(text.drop_first())
    }
}

/// The pieces of `text` that line feeds end, and the rest after the last line
/// feed unless it is empty.
pub open spec fn split_at_line_feeds(text: Seq<char>) -> Seq<Seq<char>>
    decreases text.len(),
{
    let end = first_line_len(text) as int;
    if text.len() == 0 {
        Seq::empty()
    } else if end < text.len() {
        seq![text.take(end)] + split_at_line_feeds(text.skip(end + 1))
    } else {
        seq![text]
    }
}

/// `piece` without the carriage return at its end, if it has one.
pub open spec fn without_carriage_return(piece: Seq<char>) -> Seq<char> {
    if piece.len() > 0 && piece.last() == '\r' {
        piece.drop_last()
    } else {
        piece
    }
}

/// The lines of `text`: each ends with a line feed, before which one carriage
/// return may stand, and neither belongs to the line; the last line may lack
/// the line feed.
pub open spec fn text_lines(text: Seq<char>) -> Seq<Seq<char>> {
    split_at_line_feeds(text).map_values(|piece: Seq<char>| without_carriage_return(piece))
}

/// The lines as the bytes that the generator reads.
pub open spec fn lines_as_bytes(lines: Seq<Seq<char>>) -> Seq<Seq<u8>> {
    lines.map_values(|line: Seq<char>| encode_utf8(line))
}

/// Whether `patterns` holds, line by line, the patterns of `lines`.
pub open spec fn are_patterns_of(patterns: Seq<Vec<u8>>, lines: Seq<Seq<u8>>) -> bool {
    &&& patterns.len() == lines.len()
    &&& forall|i: int|
        0 <= i < lines.len() ==> generated(#[trigger] lines[i]) == Ok::<
            Seq<u8>,
            AlphabetRangeError,
        >(patterns[i]@)
}

/// Whether `e` reports the first of `lines` that has no pattern, and what the
/// generator finds in it.
pub open spec fn is_first_failure(e: LineError, lines: Seq<Seq<u8>>) -> bool {
    &&& 0 <= e.line < lines.len()
    &&& generated(lines[e.line as int]) == Err::<Seq<u8>, AlphabetRangeError>(e.error)
    &&& forall|j: int| 0 <= j < e.line ==> in_alphabet(#[trigger] lines[j])
}

/// Whether every one of `lines` has a pattern.
pub open spec fn all_in_alphabet(lines: Seq<Seq<u8>>) -> bool {
    forall|i: int| 0 <= i < lines.len() ==> in_alphabet(#[trigger] lines[i])
}

/// Whether `outcome` is what generating the pattern of `line` gives.
pub open spec fn is_outcome_of(outcome: Result<Vec<u8>, AlphabetRangeError>, line: Seq<u8>) -> bool {
    match outcome {
        Ok(pattern) => generated(line) == Ok::<Seq<u8>, AlphabetRangeError>(pattern@),
        Err(e) => generated(line) == Err::<Seq<u8>, AlphabetRangeError>(e),
    }
}

/// Whether `outcomes` holds, line by line, what generating the patterns of `lines`
/// gives.
pub open spec fn are_outcomes_of(
    outcomes: Seq<Result<Vec<u8>, AlphabetRangeError>>,
    lines: Seq<Seq<u8>>,
) -> bool {
    &&& outcomes.len() == lines.len()
    &&& forall|i: int| 0 <= i < lines.len() ==> is_outcome_of(#[trigger] outcomes[i], lines[i])
}

/// `par_lines`, `map` and `collect` of rayon: the lines of `text`, as `text_lines`
/// gives them, are handed to `generate_pattern` one by one, on as many threads as
/// rayon sees fit, and the outcomes are collected in the order of the lines.
#[verifier::external_body]
fn par_generate(text: &str) -> (outcomes: Vec<Result<Vec<u8>, AlphabetRangeError>>)
    ensures
        are_outcomes_of(outcomes@, lines_as_bytes(text_lines(text@))),
{
    text.par_lines().map(|line| generate_pattern(line)).collect()
}

/// Gathers the patterns of a batch from the outcomes of its lines. The first line
/// that has no pattern fails the batch: it is reported with its number, and no
/// pattern is handed out.
pub fn gather_patterns(outcomes: Vec<Result<Vec<u8>, AlphabetRangeError>>) -> (res: Result<
    Vec<Vec<u8>>,
    LineError,
>)
    ensures
        res is Ok <==> forall|i: int| 0 <= i < outcomes@.len() ==> (#[trigger] outcomes@[i]) is Ok,
        res matches Ok(patterns) ==> patterns@.len() == outcomes@.len() && forall|i: int|
            0 <= i < outcomes@.len() ==> (#[trigger] outcomes@[i]) == Ok::<
                Vec<u8>,
                AlphabetRangeError,
            >(patterns@[i]),
        res matches Err(e) ==> 0 <= e.line < outcomes@.len() && outcomes@[e.line as int] == Err::<
            Vec<u8>,
            AlphabetRangeError,
        >(e.error) && forall|j: int| 0 <= j < e.line ==> (#[trigger] outcomes@[j]) is Ok,
{
    let mut patterns: Vec<Vec<u8>> = Vec::with_capacity(outcomes.len());
    for outcome in it: outcomes.into_iter()
        invariant
            patterns@.len() == it.index(),
            it.seq() == outcomes@,
            forall|j: int|
                0 <= j < it.index() ==> (#[trigger] outcomes@[j]) == Ok::<
                    Vec<u8>,
                    AlphabetRangeError,
                >(patterns@[j]),
    {
        match outcome {
            Ok(pattern) => {
                patterns.push(pattern);
            },
            Err(error) => {
                return Err(LineError { line: patterns.len(), error });
            },
        }
    }
    Ok(patterns)
}

/// Generates the patterns of the lines of `text`. The first line that has none
/// fails the text: it is reported with its number, and no pattern is handed out.
pub fn text_to_patterns(text: &str) -> (res: Result<Vec<Vec<u8>>, LineError>)
    ensures
        res is Ok <==> all_in_alphabet(lines_as_bytes(text_lines(text@))),
        res matches Ok(patterns) ==> are_patterns_of(patterns@, lines_as_bytes(text_lines(text@))),
        res matches Err(e) ==> is_first_failure(e, lines_as_bytes(text_lines(text@))),
{
    let ghost lines = lines_as_bytes(text_lines(text@));
    let outcomes = par_generate(text);
    let ghost held = outcomes@;
    let res = gather_patterns(outcomes);
    proof {
        assert forall|i: int| 0 <= i < lines.len() implies (held[i] is Ok <==> in_alphabet(
            #[trigger] lines[i],
        )) by {
            assert(is_outcome_of(held[i], lines[i]));
        }
        if res is Ok {
            let patterns = res->Ok_0;
            assert forall|i: int| 0 <= i < lines.len() implies generated(#[trigger] lines[i])
                == Ok::<Seq<u8>, AlphabetRangeError>(patterns@[i]@) by {
                assert(is_outcome_of(held[i], lines[i]));
            }
        }
        if res is Err {
            let e = res->Err_0;
            assert(is_outcome_of(held[e.line as int], lines[e.line as int]));
            assert(!in_alphabet(lines[e.line as int]));
        }
    }
    res
}

} // verus!
