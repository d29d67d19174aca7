//! The chunking of a whole stream, as repeated scans produce it, and the
//! laws it obeys.
use vstd::prelude::*;

use crate::buzhash::WINDOW_SIZE;
use crate::chunker::{cut_in, is_boundary, max_size, min_size, lemma_cut_in_append, lemma_cut_in_bound};

verus! {

/// Every offset of `s` moved on by `k`.
pub open spec fn shift(s: Seq<nat>, k: nat) -> Seq<nat> {
    s.map_values(|x: nat| x + k)
}

/// What scanning `data` reports when it follows the bytes `p` of the current
/// chunk, scanning again right after each boundary: the boundaries, as
/// increasing offsets into `data`, and the bytes of the chunk left open.
pub open spec fn feed(avg: nat, p: Seq<u8>, data: Seq<u8>) -> (Seq<nat>, Seq<u8>)
    decreases data.len(),
    via feed_decreases
{
    let c = cut_in(avg, p, data);
    if c == 0 {
        (Seq::empty(), p + data)
    } else {
        let rest = feed(avg, Seq::empty(), data.subrange(c as int, data.len() as int));
        (seq![c] + shift(rest.0, c), rest.1)
    }
}

#[via_fn]
proof fn feed_decreases(avg: nat, p: Seq<u8>, data: Seq<u8>) {
    lemma_cut_in_bound(avg, p, data);
}

/// The boundaries of a whole stream `d`, from a fresh chunker.
pub open spec fn boundaries(avg: nat, d: Seq<u8>) -> Seq<nat> {
    feed(avg, Seq::empty(), d).0
}

/// `feed` over a stream handed over as the pieces `slices`, one after the
/// other; offsets count from the start of the first piece.
pub open spec fn feed_slices(avg: nat, p: Seq<u8>, slices: Seq<Seq<u8>>) -> (Seq<nat>, Seq<u8>)
    decreases slices.len(),
{
    if slices.len() == 0 {
        (Seq::empty(), p)
    } else {
        let first = feed(avg, p, slices[0]);
        let rest = feed_slices(avg, first.1, slices.drop_first());
        (first.0 + shift(rest.0, slices[0].len()), rest.1)
    }
}

/// Feeding `a` then `b` reports what feeding `a + b` at once does.
pub proof fn lemma_feed_append(avg: nat, p: Seq<u8>, a: Seq<u8>, b: Seq<u8>)
    ensures
        feed(avg, p, a + b) == (
        feed(avg, p, a).0 + shift(feed(avg, feed(avg, p, a).1, b).0, a.len()),
        feed(avg, feed(avg, p, a).1, b).1,
    ),
    decreases a.len(),
{
    let c = cut_in(avg, p, a);
    lemma_cut_in_append(avg, p, a, b);
    lemma_cut_in_bound(avg, p, a);
    let ab = a + b;
    if c > 0 {
        let a2 = a.subrange(c as int, a.len() as int);
        assert(ab.subrange(c as int, ab.len() as int) =~= a2 + b);
        lemma_feed_append(avg, Seq::empty(), a2, b);
        let f1 = feed(avg, Seq::empty(), a2);
        let g = feed(avg, f1.1, b);
        let lhs = feed(avg, p, ab).0;
        let rhs = feed(avg, p, a).0 + shift(g.0, a.len());
        assert(lhs =~= rhs);
    } else {
        let c2 = cut_in(avg, p + a, b);
        assert(p + ab =~= (p + a) + b);
        if c2 > 0 {
            lemma_cut_in_bound(avg, p + a, b);
            let k = a.len() + c2;
            assert(ab.subrange(k as int, ab.len() as int) =~= b.subrange(c2 as int, b.len() as int));
            let h = feed(avg, Seq::empty(), b.subrange(c2 as int, b.len() as int));
            let lhs = feed(avg, p, ab).0;
            let rhs = Seq::<nat>::empty() + shift(feed(avg, p + a, b).0, a.len());
            assert(lhs =~= rhs);
        } else {
            assert(Seq::<nat>::empty() + shift(Seq::<nat>::empty(), a.len()) =~= Seq::<nat>::empty());
        }
    }
}

/// However a stream is cut into pieces before it is handed to the chunker,
/// the boundaries and the open chunk at its end are those of the whole
/// stream fed at once.
pub proof fn lemma_feed_slicing(avg: nat, p: Seq<u8>, slices: Seq<Seq<u8>>)
    ensures
        feed_slices(avg, p, slices) == feed(avg, p, slices.flatten()),
    decreases slices.len(),
{
    if slices.len() == 0 {
        assert(p + Seq::<u8>::empty() =~= p);
        assert(feed(avg, p, Seq::<u8>::empty()) == (Seq::<nat>::empty(), p + Seq::<u8>::empty()));
    } else {
        let first = feed(avg, p, slices[0]);
        lemma_feed_slicing(avg, first.1, slices.drop_first());
        lemma_feed_append(avg, p, slices[0], slices.drop_first().flatten());
    }
}

/// Two runs over the same stream, each handed over in pieces of its own,
/// report the same boundaries.
pub proof fn lemma_deterministic(avg: nat, s1: Seq<Seq<u8>>, s2: Seq<Seq<u8>>)
    requires
        s1.flatten() == s2.flatten(),
    ensures
        feed_slices(avg, Seq::empty(), s1).0 == feed_slices(avg, Seq::empty(), s2).0,
        feed_slices(avg, Seq::empty(), s1).0 == boundaries(avg, s1.flatten()),
{
    lemma_feed_slicing(avg, Seq::empty(), s1);
    lemma_feed_slicing(avg, Seq::empty(), s2);
}

/// The payloads of the chunks that are closed while feeding `data` after `p`.
pub open spec fn chunks(avg: nat, p: Seq<u8>, data: Seq<u8>) -> Seq<Seq<u8>>
    decreases data.len(),
    via chunks_decreases
{
    let c = cut_in(avg, p, data);
    if c == 0 {
        Seq::empty()
    } else {
        seq![p + data.subrange(0, c as int)] + chunks(
            avg,
            Seq::empty(),
            data.subrange(c as int, data.len() as int),
        )
    }
}

#[via_fn]
proof fn chunks_decreases(avg: nat, p: Seq<u8>, data: Seq<u8>) {
    lemma_cut_in_bound(avg, p, data);
}

/// No byte is lost or reordered: the closed chunks, in order, followed by the
/// open one, are exactly the bytes fed.
pub proof fn lemma_lossless(avg: nat, p: Seq<u8>, data: Seq<u8>)
    ensures
        chunks(avg, p, data).flatten() + feed(avg, p, data).1 == p + data,
    decreases data.len(),
{
    let c = cut_in(avg, p, data);
    lemma_cut_in_bound(avg, p, data);
    if c == 0 {
        assert(Seq::<u8>::empty() + (p + data) =~= p + data);
    } else {
        let rest = data.subrange(c as int, data.len() as int);
        lemma_lossless(avg, Seq::empty(), rest);
        let cs = chunks(avg, p, data);
        assert(cs.first() == p + data.subrange(0, c as int));
        assert(cs.drop_first() =~= chunks(avg, Seq::empty(), rest));
        assert(Seq::<u8>::empty() + rest =~= rest);
        assert(data =~= data.subrange(0, c as int) + rest);
        assert(cs.flatten() + feed(avg, p, data).1 =~= p + data);
    }
}

/// A reported boundary completes a chunk.
pub proof fn lemma_cut_in_found(avg: nat, p: Seq<u8>, data: Seq<u8>)
    requires
        cut_in(avg, p, data) > 0,
    ensures
        is_boundary(avg, p + data.subrange(0, cut_in(avg, p, data) as int)),
    decreases data.len(),
{
    let c1 = cut_in(avg, p, data.drop_last());
    if c1 > 0 {
        lemma_cut_in_found(avg, p, data.drop_last());
        lemma_cut_in_bound(avg, p, data.drop_last());
        assert(data.drop_last().subrange(0, c1 as int) =~= data.subrange(0, c1 as int));
    } else {
        assert(data.subrange(0, data.len() as int) =~= data);
    }
}

/// The reported boundary is the first one.
pub proof fn lemma_cut_in_first(avg: nat, p: Seq<u8>, data: Seq<u8>, k: int)
    requires
        1 <= k <= data.len(),
        is_boundary(avg, p + data.subrange(0, k)),
    ensures
        0 < cut_in(avg, p, data) <= k,
    decreases data.len(),
{
    if k == data.len() {
        assert(data.subrange(0, k) =~= data);
        lemma_cut_in_bound(avg, p, data.drop_last());
    } else {
        assert(data.drop_last().subrange(0, k) =~= data.subrange(0, k));
        lemma_cut_in_first(avg, p, data.drop_last(), k);
    }
}

/// From a fresh chunk, the first boundary falls within the size bounds, and
/// without one the bytes stay below the maximum size.
proof fn lemma_first_chunk_size(avg: nat, data: Seq<u8>)
    requires
        max_size(avg) > WINDOW_SIZE,
    ensures
        cut_in(avg, Seq::empty(), data) > 0 ==> min_size(avg) <= cut_in(avg, Seq::empty(), data)
            <= max_size(avg),
        cut_in(avg, Seq::empty(), data) == 0 ==> data.len() < max_size(avg),
{
    let c = cut_in(avg, Seq::empty(), data);
    let m = max_size(avg) as int;
    if c > 0 {
        lemma_cut_in_found(avg, Seq::empty(), data);
        lemma_cut_in_bound(avg, Seq::empty(), data);
        assert(Seq::<u8>::empty() + data.subrange(0, c as int) =~= data.subrange(0, c as int));
        assert(min_size(avg) <= max_size(avg));
    }
    if m <= data.len() {
        assert(Seq::<u8>::empty() + data.subrange(0, m) =~= data.subrange(0, m));
        lemma_cut_in_first(avg, Seq::empty(), data, m);
    }
}

/// Every closed chunk of a stream is between the minimum and the maximum
/// size; the open chunk at its end is below the maximum (it may be shorter
/// than the minimum). This holds when the maximum size exceeds the window,
/// as no chunk is cut before the window has rolled.
pub proof fn lemma_chunk_sizes(avg: nat, d: Seq<u8>)
    requires
        max_size(avg) > WINDOW_SIZE,
    ensures
        forall|i: int|
            0 <= i < chunks(avg, Seq::empty(), d).len() ==> min_size(avg) <= (#[trigger] chunks(
                avg,
                Seq::empty(),
                d,
            )[i]).len() <= max_size(avg),
        feed(avg, Seq::empty(), d).1.len() < max_size(avg),
    decreases d.len(),
{
    let c = cut_in(avg, Seq::empty(), d);
    lemma_first_chunk_size(avg, d);
    lemma_cut_in_bound(avg, Seq::empty(), d);
    if c == 0 {
        assert(Seq::<u8>::empty() + d =~= d);
    } else {
        let rest = d.subrange(c as int, d.len() as int);
        lemma_chunk_sizes(avg, rest);
        let cs = chunks(avg, Seq::empty(), d);
        assert forall|i: int| 0 <= i < cs.len() implies min_size(avg) <= (#[trigger] cs[i]).len()
            <= max_size(avg) by {
            if i == 0 {
                assert(cs[0] =~= Seq::<u8>::empty() + d.subrange(0, c as int));
            } else {
                assert(cs[i] == chunks(avg, Seq::empty(), rest)[i - 1]);
            }
        }
    }
}

/// The boundaries reported over `data` increase strictly and lie in `1..=data.len()`.
pub proof fn lemma_feed_offsets(avg: nat, p: Seq<u8>, data: Seq<u8>)
    ensures
        forall|i: int|
            0 <= i < feed(avg, p, data).0.len() ==> 0 < #[trigger] feed(avg, p, data).0[i]
                <= data.len(),
        forall|i: int, j: int|
            0 <= i < j < feed(avg, p, data).0.len() ==> feed(avg, p, data).0[i] < feed(
                avg,
                p,
                data,
            ).0[j],
    decreases data.len(),
{
    let c = cut_in(avg, p, data);
    lemma_cut_in_bound(avg, p, data);
    if c > 0 {
        let rest = data.subrange(c as int, data.len() as int);
        lemma_feed_offsets(avg, Seq::empty(), rest);
        let r = feed(avg, Seq::empty(), rest).0;
        let f = feed(avg, p, data).0;
        assert forall|i: int| 0 <= i < f.len() implies 0 < #[trigger] f[i] <= data.len() by {
            if i > 0 {
                assert(f[i] == r[i - 1] + c);
            }
        }
        assert forall|i: int, j: int| 0 <= i < j < f.len() implies f[i] < f[j] by {
            assert(f[j] == r[j - 1] + c);
            if i > 0 {
                assert(f[i] == r[i - 1] + c);
            }
        }
    }
}

/// When the last boundary reported over `data` is at its very end, no chunk is left open.
proof fn lemma_cut_at_end(avg: nat, p: Seq<u8>, data: Seq<u8>)
    requires
        feed(avg, p, data).0.contains(data.len()),
    ensures
        feed(avg, p, data).1 == Seq::<u8>::empty(),
    decreases data.len(),
{
    let c = cut_in(avg, p, data);
    lemma_cut_in_bound(avg, p, data);
    let rest = data.subrange(c as int, data.len() as int);
    let f = feed(avg, p, data).0;
    let i = choose|i: int| 0 <= i < f.len() && f[i] == data.len();
    if c == data.len() {
        assert(rest.len() == 0);
        assert(cut_in(avg, Seq::empty(), rest) == 0);
        assert(Seq::<u8>::empty() + rest =~= Seq::<u8>::empty());
        assert(feed(avg, Seq::empty(), rest).1 == Seq::<u8>::empty() + rest);
    } else {
        let r = feed(avg, Seq::empty(), rest).0;
        assert(i > 0);
        assert(r[i - 1] == rest.len());
        assert(r.contains(rest.len()));
        lemma_cut_at_end(avg, Seq::empty(), rest);
    }
}

/// The boundaries of a stream that fall within its first `e` bytes are those
/// of that prefix alone; every other boundary lies beyond `e`. So an edit at
/// offset `e` or later leaves every chunk that ends before it as it was.
pub proof fn lemma_locality_before(avg: nat, d: Seq<u8>, e: int)
    requires
        0 <= e <= d.len(),
    ensures
        boundaries(avg, d.subrange(0, e)).len() <= boundaries(avg, d).len(),
        boundaries(avg, d).subrange(0, boundaries(avg, d.subrange(0, e)).len() as int)
            == boundaries(avg, d.subrange(0, e)),
        forall|i: int|
            boundaries(avg, d.subrange(0, e)).len() <= i < boundaries(avg, d).len() ==> #[trigger] boundaries(
                avg,
                d,
            )[i] > e,
{
    let a = d.subrange(0, e);
    let b = d.subrange(e, d.len() as int);
    assert(d =~= a + b);
    lemma_feed_append(avg, Seq::empty(), a, b);
    let fa = feed(avg, Seq::empty(), a);
    lemma_feed_offsets(avg, fa.1, b);
    let g = feed(avg, fa.1, b).0;
    let all = boundaries(avg, d);
    assert(all.subrange(0, fa.0.len() as int) =~= fa.0);
    assert forall|i: int| fa.0.len() <= i < all.len() implies #[trigger] all[i] > e by {
        assert(all[i] == g[i - fa.0.len()] + a.len());
    }
}

/// Once two streams have a boundary at the same offset `q` and agree from
/// there on, they have the same boundaries past `q`: after an edit, the chunks
/// resynchronise at the first boundary both runs share.
pub proof fn lemma_locality_after(avg: nat, d1: Seq<u8>, d2: Seq<u8>, q: int)
    requires
        0 <= q <= d1.len(),
        0 <= q <= d2.len(),
        d1.subrange(q, d1.len() as int) == d2.subrange(q, d2.len() as int),
        boundaries(avg, d1).contains(q as nat),
        boundaries(avg, d2).contains(q as nat),
    ensures
        forall|x: nat|
            x > q ==> (boundaries(avg, d1).contains(x) <==> boundaries(avg, d2).contains(x)),
{
    lemma_tail_suffix(avg, d1, q);
    lemma_tail_suffix(avg, d2, q);
}

/// The boundaries of `d` past a boundary at `q` are those of `d[q..]` from a
/// fresh chunker, moved on by `q`.
proof fn lemma_tail_suffix(avg: nat, d: Seq<u8>, q: int)
    requires
        0 <= q <= d.len(),
        boundaries(avg, d).contains(q as nat),
    ensures
        forall|x: nat|
            x > q ==> (boundaries(avg, d).contains(x) <==> boundaries(
                avg,
                d.subrange(q, d.len() as int),
            ).contains((x - q) as nat)),
{
    let a = d.subrange(0, q);
    let b = d.subrange(q, d.len() as int);
    assert(d =~= a + b);
    lemma_feed_append(avg, Seq::empty(), a, b);
    let fa = feed(avg, Seq::empty(), a);
    lemma_feed_offsets(avg, Seq::empty(), a);
    lemma_feed_offsets(avg, fa.1, b);
    let g = feed(avg, fa.1, b).0;
    let all = boundaries(avg, d);
    // q is a boundary of the prefix, so nothing is open after it
    let k = choose|k: int| 0 <= k < all.len() && all[k] == q as nat;
    if k >= fa.0.len() {
        assert(all[k] == g[k - fa.0.len()] + a.len());
        assert(false);
    }
    assert(fa.0[k] == a.len());
    assert(fa.0.contains(a.len()));
    lemma_cut_at_end(avg, Seq::empty(), a);
    assert forall|x: nat| x > q implies (all.contains(x) <==> g.contains((x - q) as nat)) by {
        if all.contains(x) {
            let i = choose|i: int| 0 <= i < all.len() && all[i] == x;
            if i < fa.0.len() {
                assert(fa.0[i] <= a.len());
                assert(false);
            }
            assert(g[i - fa.0.len()] == (x - q) as nat);
        }
        if g.contains((x - q) as nat) {
            let j = choose|j: int| 0 <= j < g.len() && g[j] == (x - q) as nat;
            assert(all[j + fa.0.len()] == x);
        }
    }
}

} // verus!
