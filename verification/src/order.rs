//! The orders the sorters produce: plain lexicographic order on byte
//! sequences for the standard sorter, and partition-key-major order for the
//! bucketed sorter, together with proofs that both are total orders and the
//! one trusted call into rayon that does the actual sorting.
use vstd::prelude::*;
use vstd::relations::{sorted_by, total_ordering};

verus! {

/// Lexicographic (byte-wise) order on lines: the order `Ord` gives `Vec<u8>`.
pub open spec fn lex_leq(a: Seq<u8>, b: Seq<u8>) -> bool
    decreases a.len(),
{
    if a.len() == 0 {
        true
    } else if b.len() == 0 {
        false
    } else if a[0] < b[0] {
        true
    } else if a[0] > b[0] {
        false
    } else {
        lex_leq(a.drop_first(), b.drop_first())
    }
}

/// `lex_leq` as a relation value, for `sort_by` and `sorted_by`.
pub open spec fn line_le() -> spec_fn(Seq<u8>, Seq<u8>) -> bool {
    |a: Seq<u8>, b: Seq<u8>| lex_leq(a, b)
}

pub proof fn lemma_lex_leq_reflexive(a: Seq<u8>)
    ensures
        lex_leq(a, a),
    decreases a.len(),
{
    if a.len() > 0 {
        lemma_lex_leq_reflexive(a.drop_first());
    }
}

pub proof fn lemma_lex_leq_total(a: Seq<u8>, b: Seq<u8>)
    ensures
        lex_leq(a, b) || lex_leq(b, a),
    decreases a.len(),
{
    if a.len() > 0 && b.len() > 0 && a[0] == b[0] {
        lemma_lex_leq_total(a.drop_first(), b.drop_first());
    }
}

pub proof fn lemma_lex_leq_antisymmetric(a: Seq<u8>, b: Seq<u8>)
    requires
        lex_leq(a, b),
        lex_leq(b, a),
    ensures
        a == b,
    decreases a.len(),
{
    if a.len() == 0 {
        assert(a =~= b);
    } else {
        assert(a[0] == b[0]);
        lemma_lex_leq_antisymmetric(a.drop_first(), b.drop_first());
        assert forall|i: int| 0 <= i < a.len() implies a[i] == b[i] by {
            if i > 0 {
                assert(a[i] == a.drop_first()[i - 1]);
                assert(b[i] == b.drop_first()[i - 1]);
            }
        }
        assert(a =~= b);
    }
}

pub proof fn lemma_lex_leq_transitive(a: Seq<u8>, b: Seq<u8>, c: Seq<u8>)
    requires
        lex_leq(a, b),
        lex_leq(b, c),
    ensures
        lex_leq(a, c),
    decreases a.len(),
{
    if a.len() > 0 && b.len() > 0 && c.len() > 0 && a[0] == b[0] && b[0] == c[0] {
        lemma_lex_leq_transitive(a.drop_first(), b.drop_first(), c.drop_first());
    }
}

/// Lexicographic order on lines is a total order.
pub proof fn lemma_line_le_total_ordering()
    ensures
        total_ordering(line_le()),
{
    assert forall|a: Seq<u8>| #[trigger] line_le()(a, a) by {
        lemma_lex_leq_reflexive(a);
    }
    assert forall|a: Seq<u8>, b: Seq<u8>|
        #[trigger] line_le()(a, b) && #[trigger] line_le()(b, a) implies a == b by {
        lemma_lex_leq_antisymmetric(a, b);
    }
    assert forall|a: Seq<u8>, b: Seq<u8>, c: Seq<u8>|
        #[trigger] line_le()(a, b) && #[trigger] line_le()(b, c) implies line_le()(a, c) by {
        lemma_lex_leq_transitive(a, b, c);
    }
    assert forall|a: Seq<u8>, b: Seq<u8>| #[trigger] line_le()(a, b) || #[trigger] line_le()(
        b,
        a,
    ) by {
        lemma_lex_leq_total(a, b);
    }
}

/// Whether a byte keeps its own bucket: the ASCII alphanumeric bytes do.
/// Lines are plain bytes throughout this library and are never decoded, so
/// "alphanumeric" means ASCII alphanumeric; a line opening with a multi-byte
/// character (its first byte is not ASCII) shares the fallback bucket.
pub open spec fn is_key_byte(b: u8) -> bool {
    (48 <= b <= 57) || (65 <= b <= 90) || (97 <= b <= 122)
}

/// The shared fallback bucket key for lines whose first byte is not
/// alphanumeric: `-`.
pub const FALLBACK_KEY: u8 = 45;

/// The partition key of a non-empty line: its first byte if ASCII
/// alphanumeric, the fallback key otherwise. An empty line, which is never
/// bucketed, is given the fallback key so the order below stays total.
pub open spec fn key_of(line: Seq<u8>) -> u8 {
    if line.len() == 0 {
        FALLBACK_KEY
    } else if is_key_byte(line[0]) {
        line[0]
    } else {
        FALLBACK_KEY
    }
}

/// The order of the bucketed output: ascending partition key first, and
/// lexicographic order between lines of one bucket.
pub open spec fn bucket_le() -> spec_fn(Seq<u8>, Seq<u8>) -> bool {
    |a: Seq<u8>, b: Seq<u8>| key_of(a) < key_of(b) || (key_of(a) == key_of(b) && lex_leq(a, b))
}

/// Partition-key-major order on lines is a total order.
pub proof fn lemma_bucket_le_total_ordering()
    ensures
        total_ordering(bucket_le()),
{
    assert forall|a: Seq<u8>| #[trigger] bucket_le()(a, a) by {
        lemma_lex_leq_reflexive(a);
    }
    assert forall|a: Seq<u8>, b: Seq<u8>|
        #[trigger] bucket_le()(a, b) && #[trigger] bucket_le()(b, a) implies a == b by {
        lemma_lex_leq_antisymmetric(a, b);
    }
    assert forall|a: Seq<u8>, b: Seq<u8>, c: Seq<u8>|
        #[trigger] bucket_le()(a, b) && #[trigger] bucket_le()(b, c) implies bucket_le()(
        a,
        c,
    ) by {
        if key_of(a) == key_of(b) && key_of(b) == key_of(c) {
            lemma_lex_leq_transitive(a, b, c);
        }
    }
    assert forall|a: Seq<u8>, b: Seq<u8>| #[trigger] bucket_le()(a, b) || #[trigger] bucket_le()(
        b,
        a,
    ) by {
        lemma_lex_leq_total(a, b);
    }
}

/// Sequences with the same multiset of lines sort to the same sequence.
pub proof fn lemma_sort_by_of_equal_multisets(
    a: Seq<Seq<u8>>,
    b: Seq<Seq<u8>>,
    leq: spec_fn(Seq<u8>, Seq<u8>) -> bool,
)
    requires
        total_ordering(leq),
        a.to_multiset() == b.to_multiset(),
    ensures
        a.sort_by(leq) == b.sort_by(leq),
{
    a.lemma_sort_by_ensures(leq);
    b.lemma_sort_by_ensures(leq);
    vstd::seq_lib::lemma_sorted_unique(a.sort_by(leq), b.sort_by(leq), leq);
    assert(a.sort_by(leq) =~= b.sort_by(leq));
}

/// Relies on rayon's `par_sort_unstable`, which sorts a slice into ascending
/// `Ord` order, keeping the same elements; `Ord` on `Vec<u8>` is
/// lexicographic byte order.
#[verifier::external_body]
pub(crate) fn sort_lines(lines: &mut Vec<Vec<u8>>)
    ensures
        sorted_by(final(lines).deep_view(), line_le()),
        final(lines).deep_view().to_multiset() == old(lines).deep_view().to_multiset(),
{
    rayon::slice::ParallelSliceMut::par_sort_unstable(lines.as_mut_slice());
}

} // verus!
