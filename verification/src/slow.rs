//! The low-memory (bucketed external sort) strategy. The partition phase
//! routes every non-empty line to the bucket of its partition key — the
//! first byte if it is ASCII alphanumeric, a shared fallback key otherwise;
//! lines are plain bytes and never decoded, so a line opening with a
//! multi-byte character falls into the fallback bucket — skipping empty
//! lines; buckets are created lazily, one per distinct key, and held in
//! ascending key order. The merge phase sorts each bucket on its
//! own and emits the buckets in ascending key order. The caller keeps each
//! bucket's lines in one scratch file; the store here is the plain-value
//! model of those files.
use vstd::prelude::*;
use vstd::relations::sorted_by;
use vstd::seq_lib::{lemma_sorted_unique, lemma_multiset_commutative};
use crate::order::{
    key_of, is_key_byte, FALLBACK_KEY, line_le, bucket_le, lemma_line_le_total_ordering,
    lemma_bucket_le_total_ordering, sort_lines,
};
use crate::lines::{join, join_spec, copy_bytes, lemma_deep_view_push};

verus! {

/// One bucket of the store: the non-empty lines that share one partition
/// key, in encounter order until the merge phase sorts them.
#[derive(Debug)]
pub struct Bucket {
    /// The partition key every line of this bucket maps to.
    pub key: u8,
    /// The bucket's lines.
    pub lines: Vec<Vec<u8>>,
}

/// The lines that belong to the bucket of key `k`: non-empty, and keyed `k`.
pub open spec fn key_pred(k: u8) -> spec_fn(Seq<u8>) -> bool {
    |l: Seq<u8>| l.len() > 0 && key_of(l) == k
}

/// A line that is bucketed at all: a non-empty one.
pub open spec fn line_pred() -> spec_fn(Seq<u8>) -> bool {
    |l: Seq<u8>| l.len() > 0
}

/// The sub-sequence of `lines` that bucket `k` collects, in encounter order.
pub open spec fn lines_with_key(lines: Seq<Seq<u8>>, k: u8) -> Seq<Seq<u8>> {
    lines.filter(key_pred(k))
}

/// The sub-sequence of lines that are bucketed at all: the non-empty ones.
pub open spec fn nonempty_lines(lines: Seq<Seq<u8>>) -> Seq<Seq<u8>> {
    lines.filter(line_pred())
}

/// Whether some line of `lines` belongs to the bucket of key `k`.
pub open spec fn has_key(lines: Seq<Seq<u8>>, k: u8) -> bool {
    exists|i: int| 0 <= i < lines.len() && (#[trigger] lines[i]).len() > 0 && key_of(lines[i]) == k
}

/// Whether the store holds a bucket for key `k`.
pub open spec fn key_present(bs: Seq<Bucket>, k: u8) -> bool {
    exists|i: int| 0 <= i < bs.len() && (#[trigger] bs[i]).key == k
}

/// Every line of the bucket is non-empty and keyed by the bucket's key.
pub open spec fn bucket_ok(b: Bucket) -> bool {
    forall|i: int|
        0 <= i < b.lines.deep_view().len() ==> (#[trigger] b.lines.deep_view()[i]).len() > 0
            && key_of(b.lines.deep_view()[i]) == b.key
}

/// One bucket per key: no two buckets share one.
pub open spec fn buckets_distinct(bs: Seq<Bucket>) -> bool {
    forall|i: int, j: int| 0 <= i < j < bs.len() ==> (#[trigger] bs[i]).key != (#[trigger] bs[j]).key
}

/// A store the merge phase can take: distinct keys, and every bucket
/// holding only lines of its own key.
pub open spec fn buckets_ok(bs: Seq<Bucket>) -> bool {
    &&& buckets_distinct(bs)
    &&& forall|i: int| 0 <= i < bs.len() ==> bucket_ok(#[trigger] bs[i])
}

/// The store's full invariant: bucket keys strictly ascending — so one
/// bucket per key — and every bucket holding only lines of its own key.
pub open spec fn buckets_wf(bs: Seq<Bucket>) -> bool {
    &&& forall|i: int, j: int| 0 <= i < j < bs.len() ==> (#[trigger] bs[i]).key < (#[trigger] bs[j]).key
    &&& forall|i: int| 0 <= i < bs.len() ==> bucket_ok(#[trigger] bs[i])
}

/// The partition key of a non-empty line.
pub fn partition_key(line: &Vec<u8>) -> (k: u8)
    requires
        line@.len() > 0,
    ensures
        k == key_of(line@),
{
    let b = line[0];
    if (48 <= b && b <= 57) || (65 <= b && b <= 90) || (97 <= b && b <= 122) {
        assert(is_key_byte(b));
        b
    } else {
        FALLBACK_KEY
    }
}

/// Appending one line extends exactly the bucket of its key.
proof fn lemma_lines_with_key_push(lines: Seq<Seq<u8>>, l: Seq<u8>, k: u8)
    ensures
        l.len() > 0 && key_of(l) == k ==> lines_with_key(lines.push(l), k) == lines_with_key(
            lines,
            k,
        ).push(l),
        !(l.len() > 0 && key_of(l) == k) ==> lines_with_key(lines.push(l), k) == lines_with_key(
            lines,
            k,
        ),
{
    reveal(Seq::filter);
    assert(lines.push(l).drop_last() =~= lines);
    assert(lines.push(l).last() == l);
}

/// A key no line of `lines` maps to has an empty bucket.
proof fn lemma_lines_with_key_absent(lines: Seq<Seq<u8>>, k: u8)
    requires
        !has_key(lines, k),
    ensures
        lines_with_key(lines, k) == Seq::<Seq<u8>>::empty(),
{
    assert(lines.all(|l: Seq<u8>| !(key_pred(k)(l)))) by {
        assert forall|i: int| 0 <= i < lines.len() implies !(key_pred(k)(#[trigger] lines[i])) by {
            if lines[i].len() > 0 && key_of(lines[i]) == k {
                assert(has_key(lines, k));
            }
        }
    }
    lines.lemma_all_neg_filter_empty(key_pred(k));
    assert(lines_with_key(lines, k) =~= Seq::<Seq<u8>>::empty());
}

/// The partition phase on plain values: routes every non-empty line of
/// `lines` to the bucket of its partition key, skipping empty lines,
/// creating each bucket lazily on the first line of its key, and keeping
/// the store in ascending key order. Each bucket holds exactly the input's
/// lines of its key, in encounter order; a bucket exists exactly for the
/// keys that occur.
pub fn read(lines: &Vec<Vec<u8>>) -> (r: Vec<Bucket>)
    ensures
        buckets_wf(r@),
        forall|i: int|
            0 <= i < r@.len() ==> (#[trigger] r@[i]).lines.deep_view() == lines_with_key(
                lines.deep_view(),
                r@[i].key,
            ),
        forall|k: u8| has_key(lines.deep_view(), k) <==> key_present(r@, k),
{
    let ghost lv: Seq<Seq<u8>> = lines.deep_view();
    let mut buckets: Vec<Bucket> = Vec::new();
    let mut i: usize = 0;
    proof {
        assert(lv.take(0) =~= Seq::<Seq<u8>>::empty());
    }
    while i < lines.len()
        invariant
            i <= lv.len(),
            lv == lines.deep_view(),
            lv.len() == lines@.len(),
            buckets_wf(buckets@),
            forall|bi: int|
                0 <= bi < buckets@.len() ==> (#[trigger] buckets@[bi]).lines.deep_view()
                    == lines_with_key(lv.take(i as int), buckets@[bi].key),
            forall|k: u8| has_key(lv.take(i as int), k) <==> key_present(buckets@, k),
        decreases lines.len() - i,
    {
        let ghost prefix: Seq<Seq<u8>> = lv.take(i as int);
        let ghost prefix1: Seq<Seq<u8>> = lv.take(i + 1 as int);
        proof {
            assert(lines[i as int].deep_view() =~= lines[i as int]@);
            assert(prefix1 =~= prefix.push(lv[i as int]));
        }
        let line = crate::lines::copy_bytes(&lines[i]);
        assert(line@ == lv[i as int]);
        if line.len() == 0 {
            proof {
                assert forall|k: u8| has_key(prefix1, k) <==> key_present(buckets@, k) by {
                    lemma_has_key_push(prefix, lv[i as int], k);
                }
                assert forall|bi: int| 0 <= bi < buckets@.len() implies (#[trigger] buckets@[bi]).lines.deep_view()
                    == lines_with_key(prefix1, buckets@[bi].key) by {
                    lemma_lines_with_key_push(prefix, lv[i as int], buckets@[bi].key);
                }
            }
            i = i + 1;
            continue;
        }
        let k = partition_key(&line);
        let mut idx: usize = 0;
        while idx < buckets.len() && buckets[idx].key < k
            invariant
                idx <= buckets@.len(),
                forall|j: int| 0 <= j < idx ==> (#[trigger] buckets@[j]).key < k,
            decreases buckets.len() - idx,
        {
            idx = idx + 1;
        }
        if idx < buckets.len() && buckets[idx].key == k {
            let ghost old_bs: Seq<Bucket> = buckets@;
            let mut b = buckets.remove(idx);
            let ghost old_lines_vs: Seq<Vec<u8>> = b.lines@;
            let ghost old_lines: Seq<Seq<u8>> = b.lines.deep_view();
            b.lines.push(line);
            proof {
                crate::lines::lemma_deep_view_push(old_lines_vs, b.lines, old_lines, lv[i as int]);
            }
            buckets.insert(idx, b);
            proof {
                assert(buckets@ =~= old_bs.update(idx as int, buckets@[idx as int]));
                assert(buckets@[idx as int].key == k);
                assert(buckets@[idx as int].lines.deep_view() == old_lines.push(lv[i as int]));
                assert forall|bi: int| 0 <= bi < buckets@.len() implies (#[trigger] buckets@[bi]).lines.deep_view()
                    == lines_with_key(prefix1, buckets@[bi].key) by {
                    lemma_lines_with_key_push(prefix, lv[i as int], buckets@[bi].key);
                    if bi != idx {
                        assert(buckets@[bi] == old_bs[bi]);
                        assert(buckets@[bi].key != k);
                    }
                }
                assert(bucket_ok(buckets@[idx as int])) by {
                    assert forall|j: int|
                        0 <= j < buckets@[idx as int].lines.deep_view().len() implies (
                        #[trigger] buckets@[idx as int].lines.deep_view()[j]).len() > 0 && key_of(
                        buckets@[idx as int].lines.deep_view()[j],
                    ) == k by {
                        if j < old_lines.len() {
                            assert(bucket_ok(old_bs[idx as int]));
                            assert(old_bs[idx as int].lines.deep_view()[j] == old_lines[j]);
                        }
                    }
                }
                assert(buckets_wf(buckets@));
                assert forall|kk: u8| has_key(prefix1, kk) <==> key_present(buckets@, kk) by {
                    lemma_has_key_push(prefix, lv[i as int], kk);
                    assert(key_present(buckets@, kk) <==> key_present(old_bs, kk)) by {
                        assert forall|bi: int| 0 <= bi < buckets@.len() implies buckets@[bi].key
                            == old_bs[bi].key by {}
                    }
                    if kk == k {
                        assert(key_present(old_bs, k));
                    }
                }
            }
        } else {
            let ghost old_bs: Seq<Bucket> = buckets@;
            let mut bucket_lines: Vec<Vec<u8>> = Vec::new();
            bucket_lines.push(line);
            proof {
                crate::lines::lemma_deep_view_push(
                    Seq::<Vec<u8>>::empty(),
                    bucket_lines,
                    Seq::<Seq<u8>>::empty(),
                    lv[i as int],
                );
            }
            let nb = Bucket { key: k, lines: bucket_lines };
            buckets.insert(idx, nb);
            proof {
                assert(!key_present(old_bs, k)) by {
                    if key_present(old_bs, k) {
                        let bi = choose|bi: int| 0 <= bi < old_bs.len() && old_bs[bi].key == k;
                        if bi < idx as int {
                        } else {
                            assert(old_bs[idx as int].key <= old_bs[bi].key);
                        }
                    }
                }
                assert(!has_key(prefix, k));
                lemma_lines_with_key_absent(prefix, k);
                assert(buckets@[idx as int].lines.deep_view() == seq![lv[i as int]]);
                assert forall|bi: int| 0 <= bi < buckets@.len() implies (#[trigger] buckets@[bi]).lines.deep_view()
                    == lines_with_key(prefix1, buckets@[bi].key) by {
                    if bi < idx as int {
                        assert(buckets@[bi] == old_bs[bi]);
                        lemma_lines_with_key_push(prefix, lv[i as int], buckets@[bi].key);
                        assert(buckets@[bi].key < k);
                    } else if bi == idx as int {
                        lemma_lines_with_key_push(prefix, lv[i as int], k);
                        assert(lines_with_key(prefix1, k) =~= seq![lv[i as int]]);
                    } else {
                        assert(buckets@[bi] == old_bs[bi - 1]);
                        lemma_lines_with_key_push(prefix, lv[i as int], buckets@[bi].key);
                        assert(buckets@[bi].key != k);
                    }
                }
                assert(buckets_wf(buckets@)) by {
                    assert forall|x: int, y: int| 0 <= x < y < buckets@.len() implies (
                    #[trigger] buckets@[x]).key < (#[trigger] buckets@[y]).key by {
                        if y == idx as int {
                            assert(buckets@[x] == old_bs[x]);
                        } else if x == idx as int {
                            assert(buckets@[y] == old_bs[y - 1]);
                            assert(old_bs[y - 1].key >= old_bs[idx as int].key);
                            assert(old_bs[idx as int].key != k);
                        } else if x < idx as int && y > idx as int {
                            assert(buckets@[x] == old_bs[x]);
                            assert(buckets@[y] == old_bs[y - 1]);
                        } else if y < idx as int {
                            assert(buckets@[x] == old_bs[x]);
                            assert(buckets@[y] == old_bs[y]);
                        } else {
                            assert(buckets@[x] == old_bs[x - 1]);
                            assert(buckets@[y] == old_bs[y - 1]);
                        }
                    }
                    assert forall|bi: int| 0 <= bi < buckets@.len() implies bucket_ok(
                        #[trigger] buckets@[bi],
                    ) by {
                        if bi != idx as int {
                            if bi < idx as int {
                                assert(buckets@[bi] == old_bs[bi]);
                            } else {
                                assert(buckets@[bi] == old_bs[bi - 1]);
                            }
                        }
                    }
                }
                assert forall|kk: u8| has_key(prefix1, kk) <==> key_present(buckets@, kk) by {
                    lemma_has_key_push(prefix, lv[i as int], kk);
                    if kk == k {
                        assert(buckets@[idx as int].key == k);
                        assert(key_present(buckets@, k));
                    } else {
                        assert(key_present(buckets@, kk) <==> key_present(old_bs, kk)) by {
                            if key_present(old_bs, kk) {
                                let bi = choose|bi: int|
                                    0 <= bi < old_bs.len() && old_bs[bi].key == kk;
                                if bi < idx as int {
                                    assert(buckets@[bi].key == kk);
                                } else {
                                    assert(buckets@[bi + 1].key == kk);
                                }
                            }
                            if key_present(buckets@, kk) {
                                let bi = choose|bi: int|
                                    0 <= bi < buckets@.len() && buckets@[bi].key == kk;
                                if bi < idx as int {
                                    assert(old_bs[bi].key == kk);
                                } else {
                                    assert(old_bs[bi - 1].key == kk);
                                }
                            }
                        }
                    }
                }
            }
        }
        i = i + 1;
    }
    proof {
        assert(lv.take(lv.len() as int) =~= lv);
    }
    buckets
}

/// Every line the store holds, bucket after bucket.
pub open spec fn all_lines(bs: Seq<Bucket>) -> Seq<Seq<u8>>
    decreases bs.len(),
{
    if bs.len() == 0 {
        Seq::<Seq<u8>>::empty()
    } else {
        bs[0].lines.deep_view() + all_lines(bs.drop_first())
    }
}

/// The merge phase's output lines: each bucket's lines sorted, bucket after
/// bucket in the store's order.
pub open spec fn merged_spec(bs: Seq<Bucket>) -> Seq<Seq<u8>>
    decreases bs.len(),
{
    if bs.len() == 0 {
        Seq::<Seq<u8>>::empty()
    } else {
        bs[0].lines.deep_view().sort_by(line_le()) + merged_spec(bs.drop_first())
    }
}

/// What the bucketed strategy makes of a sequence of lines: its non-empty
/// lines, ordered by ascending partition key and lexicographically within
/// one key.
pub open spec fn bucketed_spec(lines: Seq<Seq<u8>>) -> Seq<Seq<u8>> {
    nonempty_lines(lines).sort_by(bucket_le())
}

/// The disjunction of two line predicates, as one relation value.
pub open spec fn or_pred(p: spec_fn(Seq<u8>) -> bool, q: spec_fn(Seq<u8>) -> bool) -> spec_fn(
    Seq<u8>,
) -> bool {
    |l: Seq<u8>| p(l) || q(l)
}

/// The non-empty lines whose key no bucket of `excluded` claims.
pub open spec fn excl_pred(excluded: Set<u8>) -> spec_fn(Seq<u8>) -> bool {
    |l: Seq<u8>| l.len() > 0 && !excluded.contains(key_of(l))
}

/// Filtering by predicates that agree on every element gives the same
/// result.
proof fn lemma_filter_congruence(s: Seq<Seq<u8>>, p: spec_fn(Seq<u8>) -> bool, q: spec_fn(
    Seq<u8>,
) -> bool)
    requires
        forall|i: int| 0 <= i < s.len() ==> (p(#[trigger] s[i]) <==> q(s[i])),
    ensures
        s.filter(p) == s.filter(q),
    decreases s.len(),
{
    reveal(Seq::filter);
    if s.len() > 0 {
        let rest = s.drop_last();
        assert(forall|i: int| 0 <= i < rest.len() ==> (p(#[trigger] rest[i]) <==> q(rest[i])))
            by {
            assert(forall|i: int| 0 <= i < rest.len() ==> rest[i] == s[i]);
        }
        lemma_filter_congruence(rest, p, q);
        assert(p(s.last()) <==> q(s.last()));
    }
}

/// Filtering by every element gives the sequence back.
proof fn lemma_filter_all_pos(s: Seq<Seq<u8>>, p: spec_fn(Seq<u8>) -> bool)
    requires
        forall|i: int| 0 <= i < s.len() ==> p(#[trigger] s[i]),
    ensures
        s.filter(p) == s,
    decreases s.len(),
{
    reveal(Seq::filter);
    if s.len() > 0 {
        let rest = s.drop_last();
        assert(forall|i: int| 0 <= i < rest.len() ==> p(#[trigger] rest[i])) by {
            assert(forall|i: int| 0 <= i < rest.len() ==> rest[i] == s[i]);
        }
        lemma_filter_all_pos(rest, p);
        assert(p(s.last()));
        assert(s.filter(p) =~= s);
    }
}

/// A filter by a disjunction of predicates that never hold together splits
/// into the two filters, as multisets.
proof fn lemma_filter_split_multiset(s: Seq<Seq<u8>>, p: spec_fn(Seq<u8>) -> bool, q: spec_fn(
    Seq<u8>,
) -> bool)
    requires
        forall|l: Seq<u8>| !(#[trigger] p(l) && #[trigger] q(l)),
    ensures
        s.filter(or_pred(p, q)).to_multiset() == s.filter(p).to_multiset().add(
            s.filter(q).to_multiset(),
        ),
    decreases s.len(),
{
    broadcast use vstd::seq_lib::group_to_multiset_ensures;
    broadcast use vstd::multiset::group_multiset_axioms;

    reveal(Seq::filter);
    if s.len() == 0 {
        assert(s.filter(or_pred(p, q)).to_multiset() =~= s.filter(p).to_multiset().add(
            s.filter(q).to_multiset(),
        ));
    } else {
        let rest = s.drop_last();
        let l = s.last();
        lemma_filter_split_multiset(rest, p, q);
        if p(l) {
            assert(or_pred(p, q)(l));
            assert(!q(l));
            assert(s.filter(or_pred(p, q)).to_multiset() =~= s.filter(p).to_multiset().add(
                s.filter(q).to_multiset(),
            ));
        } else if q(l) {
            assert(or_pred(p, q)(l));
            assert(s.filter(or_pred(p, q)).to_multiset() =~= s.filter(p).to_multiset().add(
                s.filter(q).to_multiset(),
            ));
        } else {
            assert(!or_pred(p, q)(l));
        }
    }
}

/// Buckets that partition exactly the lines whose keys no one excluded hold,
/// together, exactly those lines.
proof fn lemma_partition_multiset_rec(lines: Seq<Seq<u8>>, bs: Seq<Bucket>, excluded: Set<u8>)
    requires
        buckets_distinct(bs),
        forall|i: int|
            0 <= i < bs.len() ==> (#[trigger] bs[i]).lines.deep_view() == lines_with_key(
                lines,
                bs[i].key,
            ),
        forall|i: int| 0 <= i < bs.len() ==> !excluded.contains((#[trigger] bs[i]).key),
        forall|k: u8| has_key(lines, k) && !excluded.contains(k) ==> key_present(bs, k),
    ensures
        all_lines(bs).to_multiset() == lines.filter(excl_pred(excluded)).to_multiset(),
    decreases bs.len(),
{
    broadcast use vstd::seq_lib::group_to_multiset_ensures;
    broadcast use vstd::multiset::group_multiset_axioms;

    if bs.len() == 0 {
        assert forall|i: int| 0 <= i < lines.len() implies !(excl_pred(excluded)(
            #[trigger] lines[i],
        )) by {
            if lines[i].len() > 0 && !excluded.contains(key_of(lines[i])) {
                assert(has_key(lines, key_of(lines[i])));
            }
        }
        assert(lines.all(|l: Seq<u8>| !(excl_pred(excluded)(l))));
        lines.lemma_all_neg_filter_empty(excl_pred(excluded));
        assert(all_lines(bs).to_multiset() =~= lines.filter(excl_pred(excluded)).to_multiset());
    } else {
        let b0 = bs[0];
        let rest = bs.drop_first();
        let excluded1 = excluded.insert(b0.key);
        assert(forall|i: int| 0 <= i < rest.len() ==> rest[i] == bs[i + 1]);
        assert forall|k: u8| has_key(lines, k) && !excluded1.contains(k) implies key_present(
            rest,
            k,
        ) by {
            assert(key_present(bs, k));
            let bi = choose|bi: int| 0 <= bi < bs.len() && (#[trigger] bs[bi]).key == k;
            assert(bi != 0);
            assert(rest[bi - 1].key == k);
        }
        lemma_partition_multiset_rec(lines, rest, excluded1);
        let p = key_pred(b0.key);
        let q = excl_pred(excluded1);
        assert(forall|l: Seq<u8>| !(#[trigger] p(l) && #[trigger] q(l)));
        lemma_filter_split_multiset(lines, p, q);
        assert forall|i: int| 0 <= i < lines.len() implies (or_pred(p, q)(#[trigger] lines[i])
            <==> excl_pred(excluded)(lines[i])) by {}
        lemma_filter_congruence(lines, or_pred(p, q), excl_pred(excluded));
        assert(all_lines(bs) == b0.lines.deep_view() + all_lines(rest));
        lemma_multiset_commutative(b0.lines.deep_view(), all_lines(rest));
    }
}

/// A well-formed store that covers exactly the keys of `lines` holds,
/// across all its buckets, exactly the non-empty lines of `lines`.
pub proof fn lemma_partition_multiset(lines: Seq<Seq<u8>>, bs: Seq<Bucket>)
    requires
        buckets_wf(bs),
        forall|i: int|
            0 <= i < bs.len() ==> (#[trigger] bs[i]).lines.deep_view() == lines_with_key(
                lines,
                bs[i].key,
            ),
        forall|k: u8| has_key(lines, k) ==> key_present(bs, k),
    ensures
        all_lines(bs).to_multiset() == nonempty_lines(lines).to_multiset(),
{
    lemma_partition_multiset_rec(lines, bs, Set::<u8>::empty());
    assert forall|i: int| 0 <= i < lines.len() implies (excl_pred(Set::<u8>::empty())(
        #[trigger] lines[i],
    ) <==> line_pred()(lines[i])) by {}
    lemma_filter_congruence(lines, excl_pred(Set::<u8>::empty()), line_pred());
}

/// Appending one bucket to the store appends its sorted lines to the merge
/// phase's output.
proof fn lemma_merged_push(bs: Seq<Bucket>, b: Bucket)
    ensures
        merged_spec(bs.push(b)) == merged_spec(bs) + b.lines.deep_view().sort_by(line_le()),
    decreases bs.len(),
{
    lemma_line_le_total_ordering();
    if bs.len() == 0 {
        let single = bs.push(b);
        assert(single[0] == b);
        assert(single.drop_first() =~= Seq::<Bucket>::empty());
        assert(merged_spec(single.drop_first()).len() == 0);
        assert(merged_spec(single) == b.lines.deep_view().sort_by(line_le()) + merged_spec(
            single.drop_first(),
        ));
        assert(merged_spec(bs).len() == 0);
        assert(merged_spec(single) =~= merged_spec(bs) + b.lines.deep_view().sort_by(line_le()));
    } else {
        assert(bs.push(b).drop_first() =~= bs.drop_first().push(b));
        lemma_merged_push(bs.drop_first(), b);
        assert(bs.push(b)[0] == bs[0]);
        assert(merged_spec(bs.push(b)) =~= merged_spec(bs) + b.lines.deep_view().sort_by(
            line_le(),
        ));
    }
}

/// The merge phase's output holds the same lines as the store.
proof fn lemma_merged_multiset(bs: Seq<Bucket>)
    ensures
        merged_spec(bs).to_multiset() == all_lines(bs).to_multiset(),
    decreases bs.len(),
{
    if bs.len() > 0 {
        lemma_merged_multiset(bs.drop_first());
        lemma_line_le_total_ordering();
        bs[0].lines.deep_view().lemma_sort_by_ensures(line_le());
        lemma_multiset_commutative(
            bs[0].lines.deep_view().sort_by(line_le()),
            merged_spec(bs.drop_first()),
        );
        lemma_multiset_commutative(bs[0].lines.deep_view(), all_lines(bs.drop_first()));
    }
}

/// On a well-formed store the merge phase's output is in partition-key-major
/// order, and holds only non-empty lines keyed by some bucket of the store.
proof fn lemma_merged_sorted(bs: Seq<Bucket>)
    requires
        buckets_wf(bs),
    ensures
        sorted_by(merged_spec(bs), bucket_le()),
        forall|x: Seq<u8>|
            #[trigger] merged_spec(bs).contains(x) ==> x.len() > 0 && key_present(
                bs,
                key_of(x),
            ),
    decreases bs.len(),
{
    broadcast use vstd::seq_lib::group_to_multiset_ensures;

    if bs.len() == 0 {
        assert forall|x: Seq<u8>| #[trigger] merged_spec(bs).contains(x) implies x.len() > 0
            && key_present(bs, key_of(x)) by {
            assert(merged_spec(bs).len() == 0);
        }
    } else {
        let b0 = bs[0];
        let rest = bs.drop_first();
        assert(forall|i: int| 0 <= i < rest.len() ==> rest[i] == bs[i + 1]);
        assert(buckets_wf(rest));
        lemma_merged_sorted(rest);
        lemma_line_le_total_ordering();
        b0.lines.deep_view().lemma_sort_by_ensures(line_le());
        let x = b0.lines.deep_view().sort_by(line_le());
        let t = merged_spec(rest);
        assert(merged_spec(bs) == x + t);
        assert forall|l: Seq<u8>| #[trigger] x.contains(l) implies l.len() > 0 && key_of(l)
            == b0.key by {
            assert(b0.lines.deep_view().contains(l));
            let j = choose|j: int|
                0 <= j < b0.lines.deep_view().len() && b0.lines.deep_view()[j] == l;
            assert(bucket_ok(b0));
            assert(b0.lines.deep_view()[j].len() > 0);
        }
        assert forall|l: Seq<u8>| #[trigger] t.contains(l) implies key_of(l) > b0.key by {
            assert(key_present(rest, key_of(l)));
            let m = choose|m: int| 0 <= m < rest.len() && (#[trigger] rest[m]).key == key_of(l);
            assert(bs[m + 1].key == key_of(l));
            assert(bs[0].key < bs[m + 1].key);
        }
        let cat = x + t;
        assert forall|i: int, j: int| 0 <= i < j < cat.len() implies #[trigger] bucket_le()(
            cat[i],
            cat[j],
        ) by {
            if j < x.len() {
                assert(cat[i] == x[i]);
                assert(cat[j] == x[j]);
                assert(line_le()(x[i], x[j]));
                assert(x.contains(x[i]));
                assert(x.contains(x[j]));
            } else if i >= x.len() {
                assert(cat[i] == t[i - x.len()]);
                assert(cat[j] == t[j - x.len()]);
            } else {
                assert(cat[i] == x[i]);
                assert(cat[j] == t[j - x.len()]);
                assert(x.contains(x[i]));
                assert(t.contains(t[j - x.len()]));
            }
        }
        assert forall|l: Seq<u8>| #[trigger] cat.contains(l) implies l.len() > 0 && key_present(
            bs,
            key_of(l),
        ) by {
            let i = choose|i: int| 0 <= i < cat.len() && cat[i] == l;
            if i < x.len() {
                assert(x.contains(l)) by {
                    assert(x[i] == l);
                }
                assert(bs[0].key == key_of(l));
            } else {
                assert(t.contains(l)) by {
                    assert(t[i - x.len()] == l);
                }
                let m = choose|m: int|
                    0 <= m < rest.len() && (#[trigger] rest[m]).key == key_of(l);
                assert(bs[m + 1].key == key_of(l));
            }
        }
    }
}

/// Inserting one bucket anywhere adds it to the sequence's multiset.
proof fn lemma_to_multiset_insert(s: Seq<Bucket>, i: int, x: Bucket)
    requires
        0 <= i <= s.len(),
    ensures
        s.insert(i, x).to_multiset() == s.to_multiset().insert(x),
{
    broadcast use vstd::seq_lib::group_to_multiset_ensures;
    broadcast use vstd::multiset::group_multiset_axioms;

    let ins = s.insert(i, x);
    assert(ins[i] == x);
    assert(ins.remove(i) =~= s);
    assert(ins.remove(i).to_multiset() =~= ins.to_multiset().remove(x));
    assert(ins.to_multiset().contains(x)) by {
        assert(ins.contains(x));
    }
    assert(ins.to_multiset() =~= s.to_multiset().insert(x));
}

/// Removing one bucket takes exactly its lines out of the store's lines.
proof fn lemma_all_lines_remove(bs: Seq<Bucket>, j: int)
    requires
        0 <= j < bs.len(),
    ensures
        all_lines(bs).to_multiset() == all_lines(bs.remove(j)).to_multiset().add(
            bs[j].lines.deep_view().to_multiset(),
        ),
    decreases bs.len(),
{
    broadcast use vstd::multiset::group_multiset_axioms;

    if j == 0 {
        assert(bs.remove(0) =~= bs.drop_first());
        lemma_multiset_commutative(bs[0].lines.deep_view(), all_lines(bs.drop_first()));
        assert(all_lines(bs).to_multiset() =~= all_lines(bs.remove(j)).to_multiset().add(
            bs[j].lines.deep_view().to_multiset(),
        ));
    } else {
        let rest = bs.drop_first();
        lemma_all_lines_remove(rest, j - 1);
        assert(bs.remove(j).drop_first() =~= rest.remove(j - 1));
        assert(bs.remove(j)[0] == bs[0]);
        assert(rest[j - 1] == bs[j]);
        lemma_multiset_commutative(bs[0].lines.deep_view(), all_lines(rest.remove(j - 1)));
        lemma_multiset_commutative(bs[0].lines.deep_view(), all_lines(rest));
        assert(all_lines(bs).to_multiset() =~= all_lines(bs.remove(j)).to_multiset().add(
            bs[j].lines.deep_view().to_multiset(),
        ));
    }
}

/// Stores that hold the same buckets hold the same lines, whatever the
/// buckets' order.
proof fn lemma_all_lines_multiset(bs1: Seq<Bucket>, bs2: Seq<Bucket>)
    requires
        bs1.to_multiset() == bs2.to_multiset(),
    ensures
        all_lines(bs1).to_multiset() == all_lines(bs2).to_multiset(),
    decreases bs1.len(),
{
    broadcast use vstd::seq_lib::group_to_multiset_ensures;
    broadcast use vstd::multiset::group_multiset_axioms;

    if bs1.len() == 0 {
        assert(bs1.to_multiset().len() == bs1.len());
        assert(bs2.to_multiset().len() == bs2.len());
        assert(bs2.len() == 0);
        assert(all_lines(bs1).to_multiset() =~= all_lines(bs2).to_multiset());
    } else {
        let b = bs1[0];
        assert(bs1.contains(b));
        assert(bs2.to_multiset().contains(b));
        assert(bs2.contains(b));
        let j = choose|j: int| 0 <= j < bs2.len() && bs2[j] == b;
        assert(bs1.drop_first() =~= bs1.remove(0));
        assert(bs1.remove(0).to_multiset() =~= bs1.to_multiset().remove(b));
        assert(bs2.remove(j).to_multiset() =~= bs2.to_multiset().remove(b));
        lemma_all_lines_multiset(bs1.drop_first(), bs2.remove(j));
        lemma_all_lines_remove(bs2, j);
        lemma_multiset_commutative(b.lines.deep_view(), all_lines(bs1.drop_first()));
        assert(all_lines(bs1).to_multiset() =~= all_lines(bs2).to_multiset());
    }
}

/// Orders a distinct-keyed store by ascending partition key: the first step
/// of the merge phase.
fn order_buckets(buckets: Vec<Bucket>) -> (r: Vec<Bucket>)
    requires
        buckets_ok(buckets@),
    ensures
        buckets_wf(r@),
        r@.to_multiset() == buckets@.to_multiset(),
{
    broadcast use vstd::seq_lib::group_to_multiset_ensures;
    broadcast use vstd::multiset::group_multiset_axioms;

    let ghost orig: Seq<Bucket> = buckets@;
    let mut remaining = buckets;
    let mut out: Vec<Bucket> = Vec::new();
    proof {
        assert(out@.to_multiset().add(remaining@.to_multiset()) =~= orig.to_multiset());
    }
    while remaining.len() > 0
        invariant
            forall|i: int, j: int|
                0 <= i < j < out@.len() ==> (#[trigger] out@[i]).key < (#[trigger] out@[j]).key,
            forall|i: int| 0 <= i < out@.len() ==> bucket_ok(#[trigger] out@[i]),
            forall|i: int| 0 <= i < remaining@.len() ==> bucket_ok(#[trigger] remaining@[i]),
            forall|i: int, j: int|
                0 <= i < out@.len() && 0 <= j < remaining@.len() ==> (#[trigger] out@[i]).key != (
                #[trigger] remaining@[j]).key,
            buckets_distinct(remaining@),
            out@.to_multiset().add(remaining@.to_multiset()) == orig.to_multiset(),
        decreases remaining.len(),
    {
        let ghost old_rem: Seq<Bucket> = remaining@;
        let ghost old_out: Seq<Bucket> = out@;
        let b = remaining.remove(0);
        let mut idx: usize = 0;
        while idx < out.len() && out[idx].key < b.key
            invariant
                idx <= out@.len(),
                forall|j: int| 0 <= j < idx ==> (#[trigger] out@[j]).key < b.key,
            decreases out.len() - idx,
        {
            idx = idx + 1;
        }
        proof {
            assert(b == old_rem[0]);
            assert(remaining@ =~= old_rem.drop_first());
            if (idx as int) < old_out.len() {
                assert(old_out[idx as int].key != b.key);
            }
        }
        out.insert(idx, b);
        proof {
            broadcast use vstd::seq_lib::group_to_multiset_ensures;
            broadcast use vstd::multiset::group_multiset_axioms;

            assert(out@ == old_out.insert(idx as int, b));
            assert forall|x: int, y: int| 0 <= x < y < out@.len() implies (#[trigger] out@[x]).key
                < (#[trigger] out@[y]).key by {
                if y == idx as int {
                    assert(out@[x] == old_out[x]);
                } else if x == idx as int {
                    assert(out@[y] == old_out[y - 1]);
                    assert(old_out[y - 1].key != b.key);
                    if y - 1 > idx as int {
                        assert(old_out[idx as int].key < old_out[y - 1].key);
                        assert(old_out[idx as int].key >= b.key);
                    }
                } else if x < idx as int && y > idx as int {
                    assert(out@[x] == old_out[x]);
                    assert(out@[y] == old_out[y - 1]);
                } else if y < idx as int {
                    assert(out@[x] == old_out[x]);
                    assert(out@[y] == old_out[y]);
                } else {
                    assert(out@[x] == old_out[x - 1]);
                    assert(out@[y] == old_out[y - 1]);
                }
            }
            assert forall|i: int| 0 <= i < out@.len() implies bucket_ok(#[trigger] out@[i]) by {
                if i < idx as int {
                    assert(out@[i] == old_out[i]);
                } else if i > idx as int {
                    assert(out@[i] == old_out[i - 1]);
                } else {
                    assert(out@[i] == b);
                    assert(bucket_ok(old_rem[0]));
                }
            }
            assert forall|i: int, j: int|
                0 <= i < out@.len() && 0 <= j < remaining@.len() implies (#[trigger] out@[i]).key
                != (#[trigger] remaining@[j]).key by {
                assert(remaining@[j] == old_rem[j + 1]);
                if i < idx as int {
                    assert(out@[i] == old_out[i]);
                } else if i > idx as int {
                    assert(out@[i] == old_out[i - 1]);
                } else {
                    assert(out@[i] == b);
                    assert(old_rem[0].key != old_rem[j + 1].key);
                }
            }
            assert(buckets_distinct(remaining@)) by {
                assert forall|x: int, y: int| 0 <= x < y < remaining@.len() implies (
                #[trigger] remaining@[x]).key != (#[trigger] remaining@[y]).key by {
                    assert(remaining@[x] == old_rem[x + 1]);
                    assert(remaining@[y] == old_rem[y + 1]);
                }
            }
            lemma_to_multiset_insert(old_out, idx as int, b);
            assert(old_rem.remove(0) =~= remaining@);
            assert(old_rem.remove(0).to_multiset() =~= old_rem.to_multiset().remove(b));
            assert(old_rem.to_multiset().contains(b)) by {
                assert(old_rem.contains(b));
            }
            assert(out@.to_multiset().add(remaining@.to_multiset()) =~= old_out.to_multiset().add(
                old_rem.to_multiset(),
            ));
        }
    }
    proof {
        assert(remaining@.to_multiset().len() == 0);
        assert(out@.to_multiset().add(remaining@.to_multiset()) =~= out@.to_multiset());
    }
    out
}

/// Copies a vector of lines.
fn copy_lines(src: &Vec<Vec<u8>>) -> (r: Vec<Vec<u8>>)
    ensures
        r.deep_view() == src.deep_view(),
{
    let mut r: Vec<Vec<u8>> = Vec::new();
    let mut i: usize = 0;
    proof {
        assert(r.deep_view() =~= src.deep_view().take(0));
    }
    while i < src.len()
        invariant
            i <= src@.len(),
            src.deep_view().len() == src@.len(),
            r.deep_view() == src.deep_view().take(i as int),
        decreases src.len() - i,
    {
        let ghost prev_vs: Seq<Vec<u8>> = r@;
        let ghost prev_deep: Seq<Seq<u8>> = r.deep_view();
        let line = copy_bytes(&src[i]);
        proof {
            assert(src[i as int].deep_view() =~= src[i as int]@);
        }
        r.push(line);
        proof {
            lemma_deep_view_push(prev_vs, r, prev_deep, src.deep_view()[i as int]);
            assert(r.deep_view() =~= src.deep_view().take(i + 1 as int));
        }
        i = i + 1;
    }
    proof {
        assert(src.deep_view().take(src@.len() as int) =~= src.deep_view());
    }
    r
}

/// Appends a copy of every line of `src` to `dst`.
fn append_lines(dst: &mut Vec<Vec<u8>>, src: &Vec<Vec<u8>>)
    ensures
        final(dst).deep_view() == old(dst).deep_view() + src.deep_view(),
{
    let mut i: usize = 0;
    proof {
        assert(dst.deep_view() =~= old(dst).deep_view() + src.deep_view().take(0));
    }
    while i < src.len()
        invariant
            i <= src@.len(),
            src.deep_view().len() == src@.len(),
            dst.deep_view() == old(dst).deep_view() + src.deep_view().take(i as int),
        decreases src.len() - i,
    {
        let ghost prev_vs: Seq<Vec<u8>> = dst@;
        let ghost prev_deep: Seq<Seq<u8>> = dst.deep_view();
        let line = copy_bytes(&src[i]);
        proof {
            assert(src[i as int].deep_view() =~= src[i as int]@);
        }
        dst.push(line);
        proof {
            lemma_deep_view_push(prev_vs, *dst, prev_deep, src.deep_view()[i as int]);
            assert(prev_deep.push(src.deep_view()[i as int]) =~= old(dst).deep_view()
                + src.deep_view().take(i + 1 as int));
        }
        i = i + 1;
    }
    proof {
        assert(src.deep_view().take(src@.len() as int) =~= src.deep_view());
    }
}

/// The merge phase on plain values: sorts each bucket on its own and lays
/// the buckets out in the store's ascending key order. The output is the one
/// arrangement of the store's lines that is sorted by partition key first
/// and lexicographically within a key.
pub fn merge_buckets(buckets: &Vec<Bucket>) -> (r: Vec<Vec<u8>>)
    requires
        buckets_wf(buckets@),
    ensures
        r.deep_view() == all_lines(buckets@).sort_by(bucket_le()),
        sorted_by(r.deep_view(), bucket_le()),
        r.deep_view().to_multiset() == all_lines(buckets@).to_multiset(),
{
    let ghost bv: Seq<Bucket> = buckets@;
    let mut out: Vec<Vec<u8>> = Vec::new();
    let mut bi: usize = 0;
    proof {
        assert(bv.take(0) =~= Seq::<Bucket>::empty());
        assert(out.deep_view() =~= merged_spec(bv.take(0)));
    }
    while bi < buckets.len()
        invariant
            bi <= bv.len(),
            bv == buckets@,
            out.deep_view() == merged_spec(bv.take(bi as int)),
        decreases buckets.len() - bi,
    {
        let mut blines = copy_lines(&buckets[bi].lines);
        sort_lines(&mut blines);
        proof {
            lemma_line_le_total_ordering();
            bv[bi as int].lines.deep_view().lemma_sort_by_ensures(line_le());
            lemma_sorted_unique(
                blines.deep_view(),
                bv[bi as int].lines.deep_view().sort_by(line_le()),
                line_le(),
            );
        }
        append_lines(&mut out, &blines);
        proof {
            lemma_merged_push(bv.take(bi as int), bv[bi as int]);
            assert(bv.take(bi as int).push(bv[bi as int]) =~= bv.take(bi + 1 as int));
        }
        bi = bi + 1;
    }
    proof {
        assert(bv.take(bv.len() as int) =~= bv);
        lemma_merged_sorted(bv);
        lemma_merged_multiset(bv);
        lemma_bucket_le_total_ordering();
        all_lines(bv).lemma_sort_by_ensures(bucket_le());
        lemma_sorted_unique(out.deep_view(), all_lines(bv).sort_by(bucket_le()), bucket_le());
    }
    out
}

/// The merge phase, written out: orders the readable buckets by ascending
/// partition key, sorts each bucket on its own, and joins every line with
/// the output delimiter, ready to be written.
pub fn sort(buckets: Vec<Bucket>, output_delimiter: &Vec<u8>) -> (r: Vec<u8>)
    requires
        buckets_ok(buckets@),
    ensures
        r@ == join_spec(all_lines(buckets@).sort_by(bucket_le()), output_delimiter@),
{
    let ghost orig: Seq<Bucket> = buckets@;
    let ordered = order_buckets(buckets);
    let merged = merge_buckets(&ordered);
    proof {
        lemma_all_lines_multiset(ordered@, orig);
        lemma_bucket_le_total_ordering();
        crate::order::lemma_sort_by_of_equal_multisets(
            all_lines(ordered@),
            all_lines(orig),
            bucket_le(),
        );
    }
    join(&merged, output_delimiter)
}

/// The whole bucketed strategy on plain values: partitions the non-empty
/// lines into buckets by key and merges them back sorted. The result is the
/// one arrangement of the input's non-empty lines that ascends by partition
/// key and lexicographically within one key; empty lines are dropped.
pub fn bucketed_sort(lines: Vec<Vec<u8>>) -> (r: Vec<Vec<u8>>)
    ensures
        r.deep_view() == bucketed_spec(lines.deep_view()),
        sorted_by(r.deep_view(), bucket_le()),
        r.deep_view().to_multiset() == nonempty_lines(lines.deep_view()).to_multiset(),
{
    let ghost lv: Seq<Seq<u8>> = lines.deep_view();
    let buckets = read(&lines);
    let r = merge_buckets(&buckets);
    proof {
        lemma_partition_multiset(lv, buckets@);
        lemma_bucket_le_total_ordering();
        nonempty_lines(lv).lemma_sort_by_ensures(bucket_le());
        lemma_sorted_unique(r.deep_view(), bucketed_spec(lv), bucket_le());
    }
    r
}

/// The bucketed strategy leaves a sequence of non-empty lines that is
/// already in partition-key-major order unchanged.
pub proof fn lemma_bucketed_sort_idempotent(lines: Seq<Seq<u8>>)
    requires
        sorted_by(lines, bucket_le()),
        forall|i: int| 0 <= i < lines.len() ==> (#[trigger] lines[i]).len() > 0,
    ensures
        bucketed_spec(lines) == lines,
{
    assert forall|i: int| 0 <= i < lines.len() implies line_pred()(#[trigger] lines[i]) by {}
    lemma_filter_all_pos(lines, line_pred());
    lemma_bucket_le_total_ordering();
    lines.lemma_sort_by_ensures(bucket_le());
    lemma_sorted_unique(bucketed_spec(lines), lines, bucket_le());
    assert(bucketed_spec(lines) =~= lines);
}

/// Pushing one line onto `lines` makes its key occur; every other key
/// occurs as before.
proof fn lemma_has_key_push(lines: Seq<Seq<u8>>, l: Seq<u8>, k: u8)
    ensures
        l.len() > 0 && key_of(l) == k ==> has_key(lines.push(l), k),
        !(l.len() > 0 && key_of(l) == k) ==> (has_key(lines.push(l), k) <==> has_key(lines, k)),
{
    let p = lines.push(l);
    if l.len() > 0 && key_of(l) == k {
        assert(p[lines.len() as int] == l);
    } else {
        if has_key(p, k) {
            let i = choose|i: int| 0 <= i < p.len() && (#[trigger] p[i]).len() > 0 && key_of(p[i]) == k;
            if i < lines.len() {
                assert(lines[i] == p[i]);
            }
        }
        if has_key(lines, k) {
            let i = choose|i: int|
                0 <= i < lines.len() && (#[trigger] lines[i]).len() > 0 && key_of(lines[i]) == k;
            assert(p[i] == lines[i]);
        }
    }
}

} // verus!
