//! Lines and delimiters: splitting a text into the pieces between
//! occurrences of a delimiter, scanning from the left, and joining pieces
//! back with a delimiter. Splitting and joining are exact inverses:
//! `join(split(t, d), d) == t` for every non-empty delimiter.
use vstd::prelude::*;

verus! {

/// `ps` with `s` prepended to its first piece.
pub open spec fn prepend_to_first(s: Seq<u8>, ps: Seq<Seq<u8>>) -> Seq<Seq<u8>>
    recommends
        ps.len() > 0,
{
    seq![s + ps[0]] + ps.drop_first()
}

/// The pieces of `t` between occurrences of the delimiter `d`, scanning
/// from the left; `n` occurrences give `n + 1` pieces. An empty delimiter
/// never matches: the whole text is then one piece.
pub open spec fn split_spec(t: Seq<u8>, d: Seq<u8>) -> Seq<Seq<u8>>
    decreases t.len(),
{
    if d.len() == 0 || t.len() == 0 {
        seq![t]
    } else if d.is_prefix_of(t) {
        seq![Seq::<u8>::empty()] + split_spec(t.skip(d.len() as int), d)
    } else {
        prepend_to_first(seq![t[0]], split_spec(t.drop_first(), d))
    }
}

/// The pieces of `ps` concatenated, with `d` between adjacent pieces.
pub open spec fn join_spec(ps: Seq<Seq<u8>>, d: Seq<u8>) -> Seq<u8>
    decreases ps.len(),
{
    if ps.len() == 0 {
        Seq::<u8>::empty()
    } else if ps.len() == 1 {
        ps[0]
    } else {
        ps[0] + d + join_spec(ps.drop_first(), d)
    }
}

/// Splitting always yields at least one piece.
pub proof fn lemma_split_len(t: Seq<u8>, d: Seq<u8>)
    ensures
        split_spec(t, d).len() >= 1,
    decreases t.len(),
{
    if d.len() != 0 && t.len() != 0 {
        if d.is_prefix_of(t) {
            lemma_split_len(t.skip(d.len() as int), d);
        } else {
            lemma_split_len(t.drop_first(), d);
        }
    }
}

proof fn lemma_prepend_empty(ps: Seq<Seq<u8>>)
    requires
        ps.len() >= 1,
    ensures
        prepend_to_first(Seq::<u8>::empty(), ps) == ps,
{
    assert(Seq::<u8>::empty() + ps[0] =~= ps[0]);
    assert(prepend_to_first(Seq::<u8>::empty(), ps) =~= ps);
}

proof fn lemma_prepend_push(s: Seq<u8>, c: u8, ps: Seq<Seq<u8>>)
    requires
        ps.len() >= 1,
    ensures
        prepend_to_first(s, prepend_to_first(seq![c], ps)) == prepend_to_first(s.push(c), ps),
{
    assert(s + (seq![c] + ps[0]) =~= s.push(c) + ps[0]);
    assert((seq![seq![c] + ps[0]] + ps.drop_first()).drop_first() =~= ps.drop_first());
    assert(prepend_to_first(s, prepend_to_first(seq![c], ps)) =~= prepend_to_first(
        s.push(c),
        ps,
    ));
}

proof fn lemma_prepend_cut(s: Seq<u8>, ps: Seq<Seq<u8>>)
    ensures
        prepend_to_first(s, seq![Seq::<u8>::empty()] + ps) == seq![s] + ps,
{
    assert(s + (seq![Seq::<u8>::empty()] + ps)[0] =~= s);
    assert((seq![Seq::<u8>::empty()] + ps).drop_first() =~= ps);
    assert(prepend_to_first(s, seq![Seq::<u8>::empty()] + ps) =~= seq![s] + ps);
}

/// The deep view of a byte vector is its plain view.
pub(crate) proof fn lemma_bytes_deep_view(v: Vec<u8>)
    ensures
        v.deep_view() == v@,
{
    assert(v.deep_view() =~= v@);
}

/// Pushing one vector onto a vector of vectors pushes its view onto the
/// deep view.
pub(crate) proof fn lemma_deep_view_push(
    prev: Seq<Vec<u8>>,
    v: Vec<Vec<u8>>,
    prev_deep: Seq<Seq<u8>>,
    xv: Seq<u8>,
)
    requires
        v@.len() == prev.len() + 1,
        forall|k: int| 0 <= k < prev.len() ==> v@[k] == prev[k],
        v@[prev.len() as int]@ == xv,
        prev_deep.len() == prev.len(),
        forall|k: int| 0 <= k < prev.len() ==> prev_deep[k] == prev[k].deep_view(),
    ensures
        v.deep_view() == prev_deep.push(xv),
{
    lemma_bytes_deep_view(v@[prev.len() as int]);
    assert forall|k: int| 0 <= k < v.deep_view().len() implies v.deep_view()[k] == prev_deep.push(
        xv,
    )[k] by {
        if k < prev.len() {
            assert(v@[k] == prev[k]);
        }
    }
    assert(v.deep_view() =~= prev_deep.push(xv));
}

/// Copies a byte vector.
pub(crate) fn copy_bytes(src: &Vec<u8>) -> (r: Vec<u8>)
    ensures
        r@ == src@,
{
    let mut r: Vec<u8> = Vec::new();
    let mut i: usize = 0;
    while i < src.len()
        invariant
            i <= src.len(),
            r@ == src@.subrange(0, i as int),
        decreases src.len() - i,
    {
        r.push(src[i]);
        proof {
            assert(r@ =~= src@.subrange(0, i + 1 as int));
        }
        i = i + 1;
    }
    proof {
        assert(src@.subrange(0, src@.len() as int) =~= src@);
    }
    r
}

/// Whether the delimiter occurs in `text` at position `i`.
fn delim_matches_at(text: &Vec<u8>, i: usize, d: &Vec<u8>) -> (r: bool)
    requires
        i <= text@.len(),
    ensures
        r == d@.is_prefix_of(text@.skip(i as int)),
{
    if text.len() - i < d.len() {
        assert(!d@.is_prefix_of(text@.skip(i as int)));
        return false;
    }
    let mut j: usize = 0;
    while j < d.len()
        invariant
            j <= d@.len(),
            i + d@.len() <= text@.len(),
            text@.len() <= usize::MAX,
            forall|k: int| 0 <= k < j ==> text@[i + k] == d@[k],
        decreases d.len() - j,
    {
        assert(i + j < text@.len());
        if text[i + j] != d[j] {
            proof {
                assert(text@.skip(i as int).subrange(0, d@.len() as int)[j as int] == text@[i + j]);
            }
            return false;
        }
        j = j + 1;
    }
    proof {
        assert forall|k: int| 0 <= k < d@.len() implies text@.skip(i as int).subrange(
            0,
            d@.len() as int,
        )[k] == d@[k] by {
            assert(text@[i + k] == d@[k]);
        }
        assert(d@ =~= text@.skip(i as int).subrange(0, d@.len() as int));
    }
    true
}

/// The lines a reader yields from `t`: the split pieces, with the final
/// piece dropped when it is empty. A trailing delimiter ends the last line
/// rather than opening an empty one, so `"a\n"` reads as one line and the
/// empty text as none; empty lines in the interior are kept.
pub open spec fn read_lines_spec(t: Seq<u8>, d: Seq<u8>) -> Seq<Seq<u8>> {
    let ps = split_spec(t, d);
    if ps.len() > 0 && ps.last().len() == 0 {
        ps.drop_last()
    } else {
        ps
    }
}

/// Splits `text` into the pieces between occurrences of `delimiter`,
/// scanning from the left and keeping empty pieces; an empty delimiter
/// leaves the whole text as one piece.
pub fn split(text: &Vec<u8>, delimiter: &Vec<u8>) -> (r: Vec<Vec<u8>>)
    ensures
        r.deep_view() == split_spec(text@, delimiter@),
{
    let ghost tv: Seq<u8> = text@;
    let ghost dv: Seq<u8> = delimiter@;
    if delimiter.len() == 0 {
        let piece = copy_bytes(text);
        let mut r: Vec<Vec<u8>> = Vec::new();
        r.push(piece);
        proof {
            lemma_deep_view_push(Seq::<Vec<u8>>::empty(), r, Seq::<Seq<u8>>::empty(), tv);
            assert(r.deep_view() =~= split_spec(tv, dv));
        }
        return r;
    }
    let mut pieces: Vec<Vec<u8>> = Vec::new();
    let mut cur: Vec<u8> = Vec::new();
    let mut i: usize = 0;
    proof {
        lemma_split_len(tv, dv);
        assert(tv.skip(0) =~= tv);
        lemma_prepend_empty(split_spec(tv, dv));
        assert(pieces.deep_view() + prepend_to_first(cur@, split_spec(tv.skip(0), dv)) =~= split_spec(
            tv,
            dv,
        ));
    }
    while i < text.len()
        invariant
            i <= tv.len(),
            tv == text@,
            dv == delimiter@,
            dv.len() > 0,
            split_spec(tv, dv) == pieces.deep_view() + prepend_to_first(
                cur@,
                split_spec(tv.skip(i as int), dv),
            ),
        decreases tv.len() - i,
    {
        let ghost rest: Seq<u8> = tv.skip(i as int);
        let ghost ps: Seq<Seq<u8>> = split_spec(rest, dv);
        if delim_matches_at(text, i, delimiter) {
            let ghost old_vs: Seq<Vec<u8>> = pieces@;
            let ghost old_pieces: Seq<Seq<u8>> = pieces.deep_view();
            let ghost old_cur: Seq<u8> = cur@;
            pieces.push(cur);
            cur = Vec::new();
            i = i + delimiter.len();
            proof {
                let tail: Seq<u8> = tv.skip(i as int);
                assert(rest.skip(dv.len() as int) =~= tail);
                assert(ps == seq![Seq::<u8>::empty()] + split_spec(tail, dv));
                lemma_split_len(tail, dv);
                lemma_prepend_cut(old_cur, split_spec(tail, dv));
                lemma_prepend_empty(split_spec(tail, dv));
                lemma_deep_view_push(old_vs, pieces, old_pieces, old_cur);
                assert(old_pieces + (seq![old_cur] + split_spec(tail, dv)) =~= old_pieces.push(
                    old_cur,
                ) + prepend_to_first(cur@, split_spec(tail, dv)));
            }
        } else {
            let ghost old_cur: Seq<u8> = cur@;
            let c = text[i];
            cur.push(c);
            i = i + 1;
            proof {
                let tail: Seq<u8> = tv.skip(i as int);
                assert(rest.drop_first() =~= tail);
                assert(rest[0] == tv[i - 1]);
                assert(ps == prepend_to_first(seq![rest[0]], split_spec(tail, dv)));
                lemma_split_len(tail, dv);
                lemma_prepend_push(old_cur, rest[0], split_spec(tail, dv));
                assert(cur@ == old_cur.push(rest[0]));
            }
        }
    }
    let ghost old_vs: Seq<Vec<u8>> = pieces@;
    let ghost old_pieces: Seq<Seq<u8>> = pieces.deep_view();
    let ghost old_cur: Seq<u8> = cur@;
    pieces.push(cur);
    proof {
        assert(tv.skip(i as int) =~= Seq::<u8>::empty());
        assert(split_spec(tv.skip(i as int), dv) == seq![Seq::<u8>::empty()]);
        assert(old_cur + Seq::<u8>::empty() =~= old_cur);
        assert(prepend_to_first(old_cur, seq![Seq::<u8>::empty()]) =~= seq![old_cur]);
        lemma_deep_view_push(old_vs, pieces, old_pieces, old_cur);
        assert(pieces.deep_view() =~= old_pieces + seq![old_cur]);
    }
    pieces
}

/// Reads `text` as lines: splits on `delimiter` and drops the final piece
/// when it is empty, so a trailing delimiter adds no empty last line.
pub fn read_lines(text: &Vec<u8>, delimiter: &Vec<u8>) -> (r: Vec<Vec<u8>>)
    ensures
        r.deep_view() == read_lines_spec(text@, delimiter@),
{
    let mut pieces = split(text, delimiter);
    let n = pieces.len();
    if n > 0 && pieces[n - 1].len() == 0 {
        let ghost prev_vs: Seq<Vec<u8>> = pieces@;
        let ghost prev_deep: Seq<Seq<u8>> = pieces.deep_view();
        proof {
            assert(prev_deep.last() == prev_vs.last()@);
        }
        pieces.truncate(n - 1);
        proof {
            assert forall|k: int| 0 <= k < pieces.deep_view().len() implies pieces.deep_view()[k]
                == prev_deep.drop_last()[k] by {
                assert(pieces@[k] == prev_vs[k]);
            }
            assert(pieces.deep_view() =~= prev_deep.drop_last());
        }
    }
    pieces
}

/// `join_spec` grows from the right: appending one more piece appends a
/// delimiter and that piece.
pub proof fn lemma_join_push(ps: Seq<Seq<u8>>, x: Seq<u8>, d: Seq<u8>)
    ensures
        ps.len() == 0 ==> join_spec(ps.push(x), d) == x,
        ps.len() > 0 ==> join_spec(ps.push(x), d) == join_spec(ps, d) + d + x,
    decreases ps.len(),
{
    if ps.len() == 0 {
        assert(join_spec(ps.push(x), d) == ps.push(x)[0]);
        assert(ps.push(x)[0] == x);
    } else if ps.len() == 1 {
        assert(ps.push(x).drop_first() =~= seq![x]);
        assert(join_spec(seq![x], d) == x);
        assert(join_spec(ps.push(x), d) == ps[0] + d + x);
        assert(join_spec(ps, d) == ps[0]);
    } else {
        lemma_join_push(ps.drop_first(), x, d);
        assert(ps.push(x).drop_first() =~= ps.drop_first().push(x));
        assert(join_spec(ps.push(x), d) == ps[0] + d + join_spec(ps.drop_first().push(x), d));
        assert((ps[0] + d + join_spec(ps.drop_first(), d)) + d + x =~= ps[0] + d + (join_spec(
            ps.drop_first(),
            d,
        ) + d + x));
    }
}

/// Pushes every byte of `src` onto `dst`.
fn push_bytes(dst: &mut Vec<u8>, src: &Vec<u8>)
    ensures
        final(dst)@ == old(dst)@ + src@,
{
    let mut i: usize = 0;
    while i < src.len()
        invariant
            i <= src@.len(),
            dst@ == old(dst)@ + src@.subrange(0, i as int),
        decreases src.len() - i,
    {
        dst.push(src[i]);
        proof {
            assert(old(dst)@ + src@.subrange(0, i as int) + seq![src@[i as int]] =~= old(dst)@
                + src@.subrange(0, i + 1 as int));
        }
        i = i + 1;
    }
    proof {
        assert(src@.subrange(0, src@.len() as int) =~= src@);
    }
}

/// Joins `lines` into one byte sequence with `delimiter` between adjacent
/// lines.
pub fn join(lines: &Vec<Vec<u8>>, delimiter: &Vec<u8>) -> (r: Vec<u8>)
    ensures
        r@ == join_spec(lines.deep_view(), delimiter@),
{
    let ghost lv: Seq<Seq<u8>> = lines.deep_view();
    let mut r: Vec<u8> = Vec::new();
    let mut i: usize = 0;
    while i < lines.len()
        invariant
            i <= lv.len(),
            lv == lines.deep_view(),
            lv.len() == lines@.len(),
            r@ == join_spec(lv.take(i as int), delimiter@),
        decreases lines.len() - i,
    {
        if i > 0 {
            push_bytes(&mut r, delimiter);
        }
        let ghost before: Seq<u8> = r@;
        push_bytes(&mut r, &lines[i]);
        proof {
            assert(lines[i as int].deep_view() =~= lines[i as int]@);
            assert(lv[i as int] == lines[i as int]@);
            lemma_join_push(lv.take(i as int), lv[i as int], delimiter@);
            assert(lv.take(i as int).push(lv[i as int]) =~= lv.take(i + 1 as int));
        }
        i = i + 1;
    }
    proof {
        assert(lv.take(lv.len() as int) =~= lv);
    }
    r
}

/// No piece of a split contains the delimiter byte, for a one-byte
/// delimiter.
pub proof fn lemma_split_pieces_delim_free(t: Seq<u8>, d: Seq<u8>)
    requires
        d.len() == 1,
    ensures
        forall|k: int|
            0 <= k < split_spec(t, d).len() ==> !(#[trigger] split_spec(t, d)[k]).contains(d[0]),
    decreases t.len(),
{
    if t.len() == 0 {
    } else if d.is_prefix_of(t) {
        let rest = t.skip(1);
        lemma_split_pieces_delim_free(rest, d);
        let ps = split_spec(t, d);
        assert(ps == seq![Seq::<u8>::empty()] + split_spec(rest, d));
        assert forall|k: int| 0 <= k < ps.len() implies !(#[trigger] ps[k]).contains(d[0]) by {
            if k > 0 {
                assert(ps[k] == split_spec(rest, d)[k - 1]);
            }
        }
    } else {
        let tail = t.drop_first();
        lemma_split_pieces_delim_free(tail, d);
        lemma_split_len(tail, d);
        let ps = split_spec(tail, d);
        let ex = prepend_to_first(seq![t[0]], ps);
        assert(split_spec(t, d) == ex);
        assert(t[0] != d[0]) by {
            if t[0] == d[0] {
                assert(d =~= t.subrange(0, 1));
            }
        }
        assert forall|k: int| 0 <= k < ex.len() implies !(#[trigger] ex[k]).contains(d[0]) by {
            if k == 0 {
                assert(ex[0] == seq![t[0]] + ps[0]);
                if (seq![t[0]] + ps[0]).contains(d[0]) {
                    let j = choose|j: int|
                        0 <= j < (seq![t[0]] + ps[0]).len() && (seq![t[0]] + ps[0])[j] == d[0];
                    if j > 0 {
                        assert(ps[0][j - 1] == d[0]);
                        assert(ps[0].contains(d[0]));
                    }
                }
            } else {
                assert(ex[k] == ps.drop_first()[k - 1]);
                assert(ex[k] == ps[k]);
            }
        }
    }
}

/// A text free of a one-byte delimiter splits into itself as the one piece.
pub proof fn lemma_split_free_whole(t: Seq<u8>, d: Seq<u8>)
    requires
        d.len() == 1,
        !t.contains(d[0]),
    ensures
        split_spec(t, d) == seq![t],
    decreases t.len(),
{
    if t.len() > 0 {
        assert(!d.is_prefix_of(t)) by {
            if d.is_prefix_of(t) {
                assert(d[0] == t.subrange(0, 1)[0]);
                assert(t[0] == d[0]);
                assert(t.contains(d[0]));
            }
        }
        let tail = t.drop_first();
        assert(!tail.contains(d[0])) by {
            if tail.contains(d[0]) {
                let j = choose|j: int| 0 <= j < tail.len() && tail[j] == d[0];
                assert(t[j + 1] == d[0]);
                assert(t.contains(d[0]));
            }
        }
        lemma_split_free_whole(tail, d);
        assert(prepend_to_first(seq![t[0]], seq![tail]) =~= seq![t]) by {
            assert(seq![t[0]] + tail =~= t);
        }
    }
}

/// Splitting a text of the form `p + d + s`, with `p` free of the one-byte
/// delimiter `d`, cuts exactly at that first delimiter.
pub proof fn lemma_split_at_delim(p: Seq<u8>, d: Seq<u8>, s: Seq<u8>)
    requires
        d.len() == 1,
        !p.contains(d[0]),
    ensures
        split_spec(p + d + s, d) == seq![p] + split_spec(s, d),
    decreases p.len(),
{
    let t = p + d + s;
    if p.len() == 0 {
        assert(d.is_prefix_of(t)) by {
            assert(t[0] == d[0]);
            assert(d =~= t.subrange(0, 1));
        }
        assert(t.skip(1) =~= s);
        assert(split_spec(t, d) == seq![Seq::<u8>::empty()] + split_spec(s, d));
        assert(p =~= Seq::<u8>::empty());
    } else {
        assert(t[0] == p[0]);
        assert(p[0] != d[0]) by {
            if p[0] == d[0] {
                assert(p.contains(d[0]));
            }
        }
        assert(!d.is_prefix_of(t)) by {
            if d.is_prefix_of(t) {
                assert(d[0] == t.subrange(0, 1)[0]);
            }
        }
        let ptail = p.drop_first();
        assert(!ptail.contains(d[0])) by {
            if ptail.contains(d[0]) {
                let j = choose|j: int| 0 <= j < ptail.len() && ptail[j] == d[0];
                assert(p[j + 1] == d[0]);
                assert(p.contains(d[0]));
            }
        }
        lemma_split_at_delim(ptail, d, s);
        assert(t.drop_first() =~= ptail + d + s);
        let ps = split_spec(t.drop_first(), d);
        assert(ps == seq![ptail] + split_spec(s, d));
        lemma_split_len(s, d);
        assert(split_spec(t, d) == prepend_to_first(seq![t[0]], ps));
        assert(prepend_to_first(seq![t[0]], ps) =~= seq![p] + split_spec(s, d)) by {
            assert(ps[0] == ptail);
            assert(seq![t[0]] + ptail =~= p);
            assert(ps.drop_first() =~= split_spec(s, d));
        }
    }
}

/// Splitting the join of delimiter-free pieces with a one-byte delimiter
/// gives back exactly those pieces.
pub proof fn lemma_split_join_inverse(ps: Seq<Seq<u8>>, d: Seq<u8>)
    requires
        d.len() == 1,
        ps.len() >= 1,
        forall|k: int| 0 <= k < ps.len() ==> !(#[trigger] ps[k]).contains(d[0]),
    ensures
        split_spec(join_spec(ps, d), d) == ps,
    decreases ps.len(),
{
    if ps.len() == 1 {
        assert(join_spec(ps, d) == ps[0]);
        lemma_split_free_whole(ps[0], d);
        assert(seq![ps[0]] =~= ps);
    } else {
        let rest = ps.drop_first();
        assert(forall|k: int| 0 <= k < rest.len() ==> !(#[trigger] rest[k]).contains(d[0])) by {
            assert(forall|k: int| 0 <= k < rest.len() ==> rest[k] == ps[k + 1]);
        }
        lemma_split_join_inverse(rest, d);
        assert(join_spec(ps, d) == ps[0] + d + join_spec(rest, d));
        lemma_split_at_delim(ps[0], d, join_spec(rest, d));
        assert(seq![ps[0]] + rest =~= ps);
    }
}

/// Joining the pieces of a split with the same non-empty delimiter rebuilds
/// the text exactly.
pub proof fn lemma_join_split_round_trip(t: Seq<u8>, d: Seq<u8>)
    requires
        d.len() > 0,
    ensures
        join_spec(split_spec(t, d), d) == t,
    decreases t.len(),
{
    if t.len() == 0 {
        assert(split_spec(t, d) == seq![t]);
    } else if d.is_prefix_of(t) {
        let rest = t.skip(d.len() as int);
        lemma_join_split_round_trip(rest, d);
        lemma_split_len(rest, d);
        let ps = split_spec(t, d);
        assert(ps == seq![Seq::<u8>::empty()] + split_spec(rest, d));
        assert(ps.len() >= 2);
        assert(ps[0] == Seq::<u8>::empty());
        assert(ps.drop_first() =~= split_spec(rest, d));
        assert(Seq::<u8>::empty() + d + rest =~= t);
    } else {
        let tail = t.drop_first();
        lemma_join_split_round_trip(tail, d);
        lemma_split_len(tail, d);
        let ps = split_spec(tail, d);
        let ex = prepend_to_first(seq![t[0]], ps);
        assert(split_spec(t, d) == ex);
        if ps.len() == 1 {
            assert(ex =~= seq![seq![t[0]] + ps[0]]);
            assert(join_spec(ex, d) == seq![t[0]] + ps[0]);
            assert(join_spec(ps, d) == ps[0]);
            assert(seq![t[0]] + ps[0] =~= t);
        } else {
            assert(ex[0] == seq![t[0]] + ps[0]);
            assert(ex.drop_first() =~= ps.drop_first());
            assert(ex.len() >= 2);
            assert(join_spec(ex, d) == (seq![t[0]] + ps[0]) + d + join_spec(ps.drop_first(), d));
            assert(join_spec(ps, d) == ps[0] + d + join_spec(ps.drop_first(), d));
            assert((seq![t[0]] + ps[0]) + d + join_spec(ps.drop_first(), d) =~= seq![t[0]] + (
            ps[0] + d + join_spec(ps.drop_first(), d)));
            assert(seq![t[0]] + tail =~= t);
        }
    }
}

} // verus!
