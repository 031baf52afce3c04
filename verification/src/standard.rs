//! The standard (in-memory) strategy: split the whole input into lines,
//! sort them, join them once. The caller reads the file into memory and
//! writes the joined result out.
use vstd::prelude::*;
use vstd::relations::sorted_by;
use vstd::seq_lib::lemma_sorted_unique;
use crate::order::{line_le, lemma_line_le_total_ordering, sort_lines};
use crate::lines::{
    read_lines, join, read_lines_spec, split_spec, join_spec, lemma_split_len,
    lemma_split_pieces_delim_free, lemma_split_join_inverse,
};

verus! {

/// The sorted arrangement of a sequence of lines: ascending lexicographic
/// order, with the same multiset of lines.
pub open spec fn sort_spec(lines: Seq<Seq<u8>>) -> Seq<Seq<u8>> {
    lines.sort_by(line_le())
}

/// Sorts lines into ascending lexicographic order. The result is the one
/// sorted permutation of the input: non-decreasing, and the same multiset
/// of lines.
pub fn standard_sort(lines: Vec<Vec<u8>>) -> (r: Vec<Vec<u8>>)
    ensures
        r.deep_view() == sort_spec(lines.deep_view()),
        sorted_by(r.deep_view(), line_le()),
        r.deep_view().to_multiset() == lines.deep_view().to_multiset(),
{
    let ghost orig: Seq<Seq<u8>> = lines.deep_view();
    let mut r = lines;
    sort_lines(&mut r);
    proof {
        lemma_line_le_total_ordering();
        orig.lemma_sort_by_ensures(line_le());
        lemma_sorted_unique(r.deep_view(), orig.sort_by(line_le()), line_le());
        assert(r.deep_view() =~= sort_spec(orig));
    }
    r
}

/// Reads the whole input, held in memory, as lines split on the delimiter,
/// preserving encounter order: interior empty lines are kept, and a
/// trailing delimiter adds no empty last line. The read step of the
/// standard strategy.
pub fn read(content: &Vec<u8>, delimiter: &Vec<u8>) -> (r: Vec<Vec<u8>>)
    ensures
        r.deep_view() == read_lines_spec(content@, delimiter@),
{
    read_lines(content, delimiter)
}

/// Sorts the lines and joins them with the output delimiter: the whole
/// output of the standard strategy, ready to be written in one write.
pub fn sort(content: Vec<Vec<u8>>, output_delimiter: &Vec<u8>) -> (r: Vec<u8>)
    ensures
        r@ == join_spec(sort_spec(content.deep_view()), output_delimiter@),
{
    let sorted = standard_sort(content);
    join(&sorted, output_delimiter)
}

/// Sorting leaves a sequence that is already in ascending lexicographic
/// order unchanged.
pub proof fn lemma_standard_sort_idempotent(lines: Seq<Seq<u8>>)
    requires
        sorted_by(lines, line_le()),
    ensures
        sort_spec(lines) == lines,
{
    lemma_line_le_total_ordering();
    lines.lemma_sort_by_ensures(line_le());
    lemma_sorted_unique(sort_spec(lines), lines, line_le());
    assert(sort_spec(lines) =~= lines);
}

/// Round trip, for a one-byte delimiter: joining the sorted lines of a text
/// with the delimiter they were split on and splitting again gives exactly
/// the sorted lines — the same lines the text held, re-ordered.
pub proof fn lemma_sort_round_trip(text: Seq<u8>, d: Seq<u8>)
    requires
        d.len() == 1,
    ensures
        split_spec(join_spec(sort_spec(split_spec(text, d)), d), d) == sort_spec(
            split_spec(text, d),
        ),
        split_spec(join_spec(sort_spec(split_spec(text, d)), d), d).to_multiset() == split_spec(
            text,
            d,
        ).to_multiset(),
{
    broadcast use vstd::seq_lib::group_to_multiset_ensures;

    let ps = split_spec(text, d);
    lemma_line_le_total_ordering();
    ps.lemma_sort_by_ensures(line_le());
    let sorted = sort_spec(ps);
    lemma_split_pieces_delim_free(text, d);
    assert forall|k: int| 0 <= k < sorted.len() implies !(#[trigger] sorted[k]).contains(
        d[0],
    ) by {
        assert(sorted.contains(sorted[k]));
        assert(ps.contains(sorted[k]));
        let j = choose|j: int| 0 <= j < ps.len() && ps[j] == sorted[k];
        assert(!ps[j].contains(d[0]));
    }
    lemma_split_len(text, d);
    assert(sorted.len() == sorted.to_multiset().len());
    assert(ps.len() == ps.to_multiset().len());
    assert(sorted.len() == ps.len());
    lemma_split_join_inverse(sorted, d);
}

} // verus!
