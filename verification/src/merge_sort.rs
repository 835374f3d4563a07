//! A stable merge sort of tracks.
//!
//! The tracks are split in halves, the halves are sorted, and the two sorted
//! runs are merged from their ends, so that tracks are only ever taken off
//! the end of a list and put onto the end of another.

use vstd::prelude::*;
use crate::library::{Track, TrackView};
use crate::order::{compare_opt_number, compare_opt_text, Order};
use crate::sorting::{
    is_sorted, is_stable_sort_of, key_order, lemma_tied_concat, lemma_tied_none,
    lemma_tied_single, lemma_tied_witness, lemma_ties_equivalence, lemma_track_order_chain,
    lemma_track_order_flip, lemma_track_order_same, tied_with, ties, track_order, SortBy,
    SortDirection,
};

verus! {

/// Compares two tracks by the key `by`, in the direction `dir`.
pub fn compare_tracks(a: &Track, b: &Track, by: SortBy, dir: SortDirection) -> (r: Order)
    ensures
        r == track_order(a.deep_view(), b.deep_view(), by, dir),
{
    proof {
        reveal(key_order);
    }
    let key = match by {
        SortBy::Artist => compare_opt_text(&a.1.artist, &b.1.artist).followed_by(
            compare_opt_text(&a.1.album, &b.1.album),
        ).followed_by(compare_opt_number(a.1.track_number, b.1.track_number)),
        SortBy::Album => compare_opt_text(&a.1.album, &b.1.album),
        SortBy::Title => compare_opt_text(&a.1.title, &b.1.title),
    };
    match dir {
        SortDirection::Ascending => key,
        SortDirection::Descending => key.flip(),
    }
}

/// What holds while two sorted runs `a` and `b` are merged from their ends:
/// their first `i` and `j` tracks are still to be placed, and `t` is the
/// merged tail made of the others.
spec fn merging(
    a: Seq<TrackView>,
    b: Seq<TrackView>,
    i: int,
    j: int,
    t: Seq<TrackView>,
    by: SortBy,
    dir: SortDirection,
) -> bool {
    &&& 0 <= i <= a.len()
    &&& 0 <= j <= b.len()
    &&& is_sorted(a, by, dir)
    &&& is_sorted(b, by, dir)
    &&& is_sorted(t, by, dir)
    &&& t.len() == (a.len() - i) + (b.len() - j)
    &&& forall|x: TrackView| #[trigger]
        tied_with(t, x, by) == tied_with(a.skip(i), x, by) + tied_with(b.skip(j), x, by)
    &&& i > 0 && t.len() > 0 ==> track_order(a[i - 1], t[0], by, dir) != Order::Greater
    &&& j > 0 && t.len() > 0 ==> track_order(b[j - 1], t[0], by, dir) != Order::Greater
    &&& j > 0 && i < a.len() ==> track_order(b[j - 1], a[i], by, dir) == Order::Less
}

/// A track that does not follow the first of a sorted sequence may be put
/// in front of it.
proof fn lemma_sorted_with_front(e: TrackView, t: Seq<TrackView>, by: SortBy, dir: SortDirection)
    requires
        is_sorted(t, by, dir),
        t.len() > 0 ==> track_order(e, t[0], by, dir) != Order::Greater,
    ensures
        is_sorted(seq![e] + t, by, dir),
{
    let r = seq![e] + t;
    assert forall|p: int, q: int| 0 <= p < q < r.len() implies track_order(
        #[trigger] r[p],
        #[trigger] r[q],
        by,
        dir,
    ) != Order::Greater by {
        assert(r[q] == t[q - 1]);
        if p == 0 {
            if q - 1 > 0 {
                assert(track_order(t[0], t[q - 1], by, dir) != Order::Greater);
                lemma_track_order_chain(e, t[0], t[q - 1], by, dir);
            }
        } else {
            assert(r[p] == t[p - 1]);
        }
    }
}

/// No track from position `i` on of a sorted sequence shares a key with a
/// track that stands strictly before the one at `i`.
proof fn lemma_none_tied_beyond(
    e: TrackView,
    a: Seq<TrackView>,
    i: int,
    x: TrackView,
    by: SortBy,
    dir: SortDirection,
)
    requires
        is_sorted(a, by, dir),
        0 <= i <= a.len(),
        i < a.len() ==> track_order(e, a[i], by, dir) == Order::Less,
        ties(x, e, by),
    ensures
        tied_with(a.skip(i), x, by) == Seq::<TrackView>::empty(),
{
    let rest = a.skip(i);
    assert forall|k: int| 0 <= k < rest.len() implies !ties(x, #[trigger] rest[k], by) by {
        assert(rest[k] == a[i + k]);
        if k > 0 {
            assert(track_order(a[i], a[i + k], by, dir) != Order::Greater);
        } else {
            lemma_track_order_same(a[i], by, dir);
        }
        lemma_track_order_chain(e, a[i], a[i + k], by, dir);
        assert(track_order(e, a[i + k], by, dir) == Order::Less);
        lemma_ties_equivalence(e, x, a[i + k], by);
        lemma_ties_equivalence(x, e, a[i + k], by);
    }
    lemma_tied_none(rest, x, by);
}

/// Moving the last waiting track of `b` to the front of the tail keeps the
/// merge sound, where it does not stand before the last waiting track of `a`.
proof fn lemma_merge_from_second(
    a: Seq<TrackView>,
    b: Seq<TrackView>,
    i: int,
    j: int,
    t: Seq<TrackView>,
    by: SortBy,
    dir: SortDirection,
)
    requires
        merging(a, b, i, j, t, by, dir),
        i > 0,
        j > 0,
        track_order(a[i - 1], b[j - 1], by, dir) != Order::Greater,
    ensures
        merging(a, b, i, j - 1, seq![b[j - 1]] + t, by, dir),
{
    let e = b[j - 1];
    let t2 = seq![e] + t;
    lemma_sorted_with_front(e, t, by, dir);
    assert(b.skip(j - 1) =~= seq![e] + b.skip(j));
    assert forall|x: TrackView| #[trigger]
        tied_with(t2, x, by) == tied_with(a.skip(i), x, by) + tied_with(
            b.skip(j - 1),
            x,
            by,
        ) by {
        lemma_tied_concat(seq![e], t, x, by);
        lemma_tied_concat(seq![e], b.skip(j), x, by);
        lemma_tied_single(e, x, by);
        let ta = tied_with(a.skip(i), x, by);
        let tb = tied_with(b.skip(j), x, by);
        assert(tied_with(t, x, by) == ta + tb);
        if ties(x, e, by) {
            lemma_none_tied_beyond(e, a, i, x, by, dir);
            assert(seq![e] + (ta + tb) =~= ta + (seq![e] + tb));
        } else {
            assert(Seq::<TrackView>::empty() + (ta + tb) =~= ta + (Seq::<TrackView>::empty() + tb));
        }
    }
    assert(t2[0] == e);
    if j - 1 > 0 {
        assert(track_order(b[j - 2], b[j - 1], by, dir) != Order::Greater);
        if i < a.len() {
            lemma_track_order_chain(b[j - 2], b[j - 1], a[i], by, dir);
        }
    }
}

/// Moving the last waiting track of `a` to the front of the tail keeps the
/// merge sound, where it stands strictly after the last waiting track of `b`.
proof fn lemma_merge_from_first(
    a: Seq<TrackView>,
    b: Seq<TrackView>,
    i: int,
    j: int,
    t: Seq<TrackView>,
    by: SortBy,
    dir: SortDirection,
)
    requires
        merging(a, b, i, j, t, by, dir),
        i > 0,
        j > 0,
        track_order(a[i - 1], b[j - 1], by, dir) == Order::Greater,
    ensures
        merging(a, b, i - 1, j, seq![a[i - 1]] + t, by, dir),
{
    let e = a[i - 1];
    let t2 = seq![e] + t;
    lemma_sorted_with_front(e, t, by, dir);
    assert(a.skip(i - 1) =~= seq![e] + a.skip(i));
    assert forall|x: TrackView| #[trigger]
        tied_with(t2, x, by) == tied_with(a.skip(i - 1), x, by) + tied_with(
            b.skip(j),
            x,
            by,
        ) by {
        lemma_tied_concat(seq![e], t, x, by);
        lemma_tied_concat(seq![e], a.skip(i), x, by);
        let se = tied_with(seq![e], x, by);
        let ta = tied_with(a.skip(i), x, by);
        let tb = tied_with(b.skip(j), x, by);
        assert(tied_with(t, x, by) == ta + tb);
        assert(se + (ta + tb) =~= (se + ta) + tb);
    }
    assert(t2[0] == e);
    lemma_track_order_flip(a[i - 1], b[j - 1], by, dir);
    if i - 1 > 0 {
        assert(track_order(a[i - 2], a[i - 1], by, dir) != Order::Greater);
    }
}

/// Once one run has no track waiting, what waits of the other, followed by
/// the tail, is the merge of the two runs.
proof fn lemma_merge_done(
    a: Seq<TrackView>,
    b: Seq<TrackView>,
    i: int,
    j: int,
    t: Seq<TrackView>,
    by: SortBy,
    dir: SortDirection,
)
    requires
        merging(a, b, i, j, t, by, dir),
        i == 0 || j == 0,
    ensures
        is_stable_sort_of(a.take(i) + b.take(j) + t, a + b, by, dir),
{
    let head = a.take(i) + b.take(j);
    let r = head + t;
    let n = if j == 0 { i } else { j };
    let src = if j == 0 { a } else { b };
    assert(head =~= src.take(n));
    assert forall|p: int, q: int| 0 <= p < q < r.len() implies track_order(
        #[trigger] r[p],
        #[trigger] r[q],
        by,
        dir,
    ) != Order::Greater by {
        if q < n {
            assert(r[p] == src[p] && r[q] == src[q]);
        } else if p >= n {
            assert(r[p] == t[p - n] && r[q] == t[q - n]);
        } else {
            assert(r[p] == src[p] && r[q] == t[q - n]);
            if p < n - 1 {
                assert(track_order(src[p], src[n - 1], by, dir) != Order::Greater);
            } else {
                lemma_track_order_same(src[p], by, dir);
            }
            lemma_track_order_chain(src[p], src[n - 1], t[0], by, dir);
            if q - n > 0 {
                assert(track_order(t[0], t[q - n], by, dir) != Order::Greater);
            } else {
                lemma_track_order_same(t[0], by, dir);
            }
            lemma_track_order_chain(src[p], t[0], t[q - n], by, dir);
        }
    }
    assert(a =~= a.take(i) + a.skip(i));
    assert(b =~= b.take(j) + b.skip(j));
    assert forall|x: TrackView| #[trigger]
        tied_with(r, x, by) == tied_with(a + b, x, by) by {
        lemma_tied_concat(head, t, x, by);
        lemma_tied_concat(a.take(i), b.take(j), x, by);
        lemma_tied_concat(a, b, x, by);
        lemma_tied_concat(a.take(i), a.skip(i), x, by);
        lemma_tied_concat(b.take(j), b.skip(j), x, by);
        let a1 = tied_with(a.take(i), x, by);
        let a2 = tied_with(a.skip(i), x, by);
        let b1 = tied_with(b.take(j), x, by);
        let b2 = tied_with(b.skip(j), x, by);
        assert(tied_with(t, x, by) == a2 + b2);
        if j == 0 {
            assert(b.take(0) =~= Seq::<TrackView>::empty());
            assert(b1 =~= Seq::<TrackView>::empty());
            assert((a1 + b1) + (a2 + b2) =~= (a1 + a2) + (b1 + b2));
        } else {
            assert(a.take(0) =~= Seq::<TrackView>::empty());
            assert(a1 =~= Seq::<TrackView>::empty());
            assert(a.skip(0) =~= a);
            if b1.len() > 0 {
                let m = lemma_tied_witness(b.take(j), x, by);
                assert(b.take(j)[m] == b[m]);
                if a.len() > 0 {
                    if m < j - 1 {
                        assert(track_order(b[m], b[j - 1], by, dir) != Order::Greater);
                    } else {
                        lemma_track_order_same(b[m], by, dir);
                    }
                    lemma_track_order_chain(b[m], b[j - 1], a[0], by, dir);
                }
                lemma_none_tied_beyond(b[m], a, 0, x, by, dir);
                assert(a2 =~= Seq::<TrackView>::empty());
            }
            assert((a1 + b1) + (a2 + b2) =~= (a1 + a2) + (b1 + b2));
        }
    }
}

/// A sequence of at most one track is its own stable sort.
proof fn lemma_short_is_sorted(s: Seq<TrackView>, by: SortBy, dir: SortDirection)
    requires
        s.len() <= 1,
    ensures
        is_stable_sort_of(s, s, by, dir),
{
}

/// The stable sorts of the two halves, merged, are the stable sort of the
/// whole.
proof fn lemma_halves_sorted(
    merged: Seq<TrackView>,
    first: Seq<TrackView>,
    second: Seq<TrackView>,
    whole: Seq<TrackView>,
    mid: int,
    by: SortBy,
    dir: SortDirection,
)
    requires
        0 <= mid <= whole.len(),
        is_stable_sort_of(first, whole.take(mid), by, dir),
        is_stable_sort_of(second, whole.skip(mid), by, dir),
        is_stable_sort_of(merged, first + second, by, dir),
    ensures
        is_stable_sort_of(merged, whole, by, dir),
{
    assert(whole =~= whole.take(mid) + whole.skip(mid));
    assert forall|x: TrackView| #[trigger]
        tied_with(merged, x, by) == tied_with(whole, x, by) by {
        lemma_tied_concat(first, second, x, by);
        lemma_tied_concat(whole.take(mid), whole.skip(mid), x, by);
        assert(tied_with(merged, x, by) == tied_with(first + second, x, by));
        assert(tied_with(first, x, by) == tied_with(whole.take(mid), x, by));
        assert(tied_with(second, x, by) == tied_with(whole.skip(mid), x, by));
    }
}

/// Merges two sorted runs into one; where a track of each carries the same
/// key, the one of `first` comes first.
fn merge_runs(
    first: Vec<Track>,
    second: Vec<Track>,
    by: SortBy,
    dir: SortDirection,
) -> (r: Vec<Track>)
    requires
        is_sorted(first.deep_view(), by, dir),
        is_sorted(second.deep_view(), by, dir),
    ensures
        is_stable_sort_of(r.deep_view(), first.deep_view() + second.deep_view(), by, dir),
{
    let ghost a0 = first.deep_view();
    let ghost b0 = second.deep_view();
    let mut a = first;
    let mut b = second;
    // The merged tail, last track first.
    let mut tail: Vec<Track> = Vec::new();
    proof {
        assert(a.deep_view() =~= a0.take(a.len() as int));
        assert(b.deep_view() =~= b0.take(b.len() as int));
        assert(tail.deep_view().reverse() =~= Seq::<TrackView>::empty());
        assert(a0.skip(a0.len() as int) =~= Seq::<TrackView>::empty());
        assert(b0.skip(b0.len() as int) =~= Seq::<TrackView>::empty());
        assert forall|x: TrackView| #[trigger]
            tied_with(Seq::<TrackView>::empty(), x, by) == tied_with(
                a0.skip(a0.len() as int),
                x,
                by,
            ) + tied_with(b0.skip(b0.len() as int), x, by) by {
            let none = Seq::<TrackView>::empty();
            assert(none + none =~= none);
        }
    }
    while a.len() > 0 && b.len() > 0
        invariant
            a.deep_view() == a0.take(a.len() as int),
            b.deep_view() == b0.take(b.len() as int),
            merging(a0, b0, a.len() as int, b.len() as int, tail.deep_view().reverse(), by, dir),
        decreases a.len() + b.len(),
    {
        let ghost i = a.len() as int;
        let ghost j = b.len() as int;
        let ghost t = tail.deep_view().reverse();
        assert(a[i - 1].deep_view() == a0.take(i)[i - 1]);
        assert(b[j - 1].deep_view() == b0.take(j)[j - 1]);
        let from_second = match compare_tracks(&a[a.len() - 1], &b[b.len() - 1], by, dir) {
            Order::Greater => false,
            _ => true,
        };
        if from_second {
            let e = b.pop().unwrap();
            tail.push(e);
            proof {
                lemma_merge_from_second(a0, b0, i, j, t, by, dir);
                assert(b.deep_view() =~= b0.take(j - 1));
                assert(tail.deep_view().reverse() =~= seq![b0[j - 1]] + t);
            }
        } else {
            let e = a.pop().unwrap();
            tail.push(e);
            proof {
                lemma_merge_from_first(a0, b0, i, j, t, by, dir);
                assert(a.deep_view() =~= a0.take(i - 1));
                assert(tail.deep_view().reverse() =~= seq![a0[i - 1]] + t);
            }
        }
    }
    let ghost i = a.len() as int;
    let ghost j = b.len() as int;
    let ghost t = tail.deep_view().reverse();
    let ghost whole = a0.take(i) + b0.take(j) + t;
    proof {
        lemma_merge_done(a0, b0, i, j, t, by, dir);
        assert(a0.take(0) =~= Seq::<TrackView>::empty());
        assert(b0.take(0) =~= Seq::<TrackView>::empty());
    }
    let mut out = if a.len() > 0 {
        a
    } else {
        b
    };
    assert(out.deep_view() + t =~= whole);
    while tail.len() > 0
        invariant
            out.deep_view() + tail.deep_view().reverse() == whole,
        decreases tail.len(),
    {
        let ghost before = out.deep_view();
        let ghost rest = tail.deep_view().reverse();
        let e = tail.pop().unwrap();
        out.push(e);
        assert(out.deep_view() + tail.deep_view().reverse() =~= before + rest);
    }
    assert(out.deep_view() =~= out.deep_view() + tail.deep_view().reverse());
    out
}

/// Sorts tracks by the key `by` in the direction `dir`, tracks with the same
/// key left in the order they came in.
pub fn sorted_tracks(tracks: Vec<Track>, by: SortBy, dir: SortDirection) -> (r: Vec<Track>)
    ensures
        is_stable_sort_of(r.deep_view(), tracks.deep_view(), by, dir),
    decreases tracks.len(),
{
    let ghost whole = tracks.deep_view();
    if tracks.len() <= 1 {
        proof {
            lemma_short_is_sorted(whole, by, dir);
        }
        return tracks;
    }
    let mid: usize = tracks.len() / 2;
    let mut left = tracks;
    let right = left.split_off(mid);
    assert(left.deep_view() =~= whole.take(mid as int));
    assert(right.deep_view() =~= whole.skip(mid as int));
    let first = sorted_tracks(left, by, dir);
    let second = sorted_tracks(right, by, dir);
    let ghost f = first.deep_view();
    let ghost s = second.deep_view();
    let merged = merge_runs(first, second, by, dir);
    proof {
        lemma_halves_sorted(merged.deep_view(), f, s, whole, mid as int, by, dir);
    }
    merged
}

} // verus!
