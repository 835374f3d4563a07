//! What it means for a sequence of tracks to be the stable sort of another,
//! and why that leaves exactly one result.
//!
//! A sequence is the stable sort of `s` when it is in order and when, for
//! every key, the tracks that carry that key are the same, in the same
//! order, as in `s`. Nothing is said through permutations or indices: the
//! second condition holds both that no track is lost or added and that tracks
//! with the same key keep their places among themselves.

use vstd::prelude::*;
use crate::library::TrackView;
use crate::order::{
    chained, lemma_opt_text_order_chain, lemma_opt_text_order_flip, lemma_opt_text_order_same,
    opt_number_order, opt_text_order, Order,
};

verus! {

/// The key a playlist is sorted by.
#[derive(Clone, Copy, Debug, PartialEq, Eq, Structural)]
pub enum SortBy {
    /// By artist, then album, then track number.
    Artist,
    Album,
    Title,
}

/// The direction of a sort. `Descending` reverses the whole comparison, not
/// each key of it.
#[derive(Clone, Copy, Debug, PartialEq, Eq, Structural)]
pub enum SortDirection {
    Ascending,
    Descending,
}

/// How two tracks compare by the key `by`, ascending.
#[verifier::opaque]
pub open spec fn key_order(a: TrackView, b: TrackView, by: SortBy) -> Order {
    match by {
        SortBy::Artist => opt_text_order(a.1.artist, b.1.artist).and_next(
            opt_text_order(a.1.album, b.1.album),
        ).and_next(opt_number_order(a.1.track_number, b.1.track_number)),
        SortBy::Album => opt_text_order(a.1.album, b.1.album),
        SortBy::Title => opt_text_order(a.1.title, b.1.title),
    }
}

/// How two tracks compare by the key `by` in the direction `dir`.
pub open spec fn track_order(a: TrackView, b: TrackView, by: SortBy, dir: SortDirection) -> Order {
    match dir {
        SortDirection::Ascending => key_order(a, b, by),
        SortDirection::Descending => key_order(a, b, by).flipped(),
    }
}

/// Whether two tracks carry the same key.
pub open spec fn ties(a: TrackView, b: TrackView, by: SortBy) -> bool {
    key_order(a, b, by) == Order::Equal
}

/// Whether no track of `s` stands before one that it should follow.
pub open spec fn is_sorted(s: Seq<TrackView>, by: SortBy, dir: SortDirection) -> bool {
    forall|i: int, j: int|
        #![trigger s[i], s[j]]
        0 <= i < j < s.len() ==> track_order(s[i], s[j], by, dir) != Order::Greater
}

/// The tracks of `s` that carry the key of `x`, in the order they have in `s`.
pub open spec fn tied_with(s: Seq<TrackView>, x: TrackView, by: SortBy) -> Seq<TrackView>
    decreases s.len(),
{
    if s.len() == 0 {
        Seq::empty()
    } else if ties(x, s.last(), by) {
        tied_with(s.drop_last(), x, by).push(s.last())
    } else {
        tied_with(s.drop_last(), x, by)
    }
}

/// Whether `sorted` is `s` put in order by `by` and `dir`, tracks with the
/// same key left in the order they had.
pub open spec fn is_stable_sort_of(
    sorted: Seq<TrackView>,
    s: Seq<TrackView>,
    by: SortBy,
    dir: SortDirection,
) -> bool {
    &&& sorted.len() == s.len()
    &&& is_sorted(sorted, by, dir)
    &&& forall|x: TrackView| #[trigger] tied_with(sorted, x, by) == tied_with(s, x, by)
}

/// Whether the tracks of each key read the same forwards and backwards.
pub open spec fn ties_are_palindromes(s: Seq<TrackView>, by: SortBy) -> bool {
    forall|x: TrackView| (#[trigger] tied_with(s, x, by)).reverse() == tied_with(s, x, by)
}

/// A track ties with itself.
pub proof fn lemma_key_order_same(a: TrackView, by: SortBy)
    ensures
        key_order(a, a, by) == Order::Equal,
{
    reveal(key_order);
    lemma_opt_text_order_same(a.1.artist);
    lemma_opt_text_order_same(a.1.album);
    lemma_opt_text_order_same(a.1.title);
}

/// Swapping two tracks flips their comparison.
pub proof fn lemma_key_order_flip(a: TrackView, b: TrackView, by: SortBy)
    ensures
        key_order(b, a, by) == key_order(a, b, by).flipped(),
{
    reveal(key_order);
    lemma_opt_text_order_flip(a.1.artist, b.1.artist);
    lemma_opt_text_order_flip(a.1.album, b.1.album);
    lemma_opt_text_order_flip(a.1.title, b.1.title);
}

/// The comparison by a key is transitive, and strict as soon as one step is.
pub proof fn lemma_key_order_chain(a: TrackView, b: TrackView, c: TrackView, by: SortBy)
    requires
        key_order(a, b, by) != Order::Greater,
        key_order(b, c, by) != Order::Greater,
    ensures
        key_order(a, c, by) == chained(key_order(a, b, by), key_order(b, c, by)),
{
    reveal(key_order);
    match by {
        SortBy::Artist => {
            lemma_opt_text_order_chain(a.1.artist, b.1.artist, c.1.artist);
            if opt_text_order(a.1.artist, b.1.artist) == Order::Equal && opt_text_order(
                b.1.artist,
                c.1.artist,
            ) == Order::Equal {
                lemma_opt_text_order_chain(a.1.album, b.1.album, c.1.album);
            }
        },
        SortBy::Album => {
            lemma_opt_text_order_chain(a.1.album, b.1.album, c.1.album);
        },
        SortBy::Title => {
            lemma_opt_text_order_chain(a.1.title, b.1.title, c.1.title);
        },
    }
}

/// A track ties with itself, in either direction.
pub proof fn lemma_track_order_same(a: TrackView, by: SortBy, dir: SortDirection)
    ensures
        track_order(a, a, by, dir) == Order::Equal,
{
    lemma_key_order_same(a, by);
}

/// Swapping two tracks flips their comparison, in either direction.
pub proof fn lemma_track_order_flip(a: TrackView, b: TrackView, by: SortBy, dir: SortDirection)
    ensures
        track_order(b, a, by, dir) == track_order(a, b, by, dir).flipped(),
{
    lemma_key_order_flip(a, b, by);
}

/// The comparison is transitive in either direction, and strict as soon as
/// one step is.
pub proof fn lemma_track_order_chain(
    a: TrackView,
    b: TrackView,
    c: TrackView,
    by: SortBy,
    dir: SortDirection,
)
    requires
        track_order(a, b, by, dir) != Order::Greater,
        track_order(b, c, by, dir) != Order::Greater,
    ensures
        track_order(a, c, by, dir) == chained(
            track_order(a, b, by, dir),
            track_order(b, c, by, dir),
        ),
{
    match dir {
        SortDirection::Ascending => {
            lemma_key_order_chain(a, b, c, by);
        },
        SortDirection::Descending => {
            lemma_key_order_flip(a, b, by);
            lemma_key_order_flip(b, c, by);
            lemma_key_order_flip(a, c, by);
            lemma_key_order_chain(c, b, a, by);
        },
    }
}

/// Tracks that tie with the same track tie with each other.
pub proof fn lemma_ties_equivalence(a: TrackView, b: TrackView, c: TrackView, by: SortBy)
    ensures
        ties(a, a, by),
        ties(a, b, by) ==> ties(b, a, by),
        ties(a, b, by) && ties(b, c, by) ==> ties(a, c, by),
{
    lemma_key_order_same(a, by);
    lemma_key_order_flip(a, b, by);
    if ties(a, b, by) && ties(b, c, by) {
        lemma_key_order_chain(a, b, c, by);
    }
}

/// The tracks of a key in two sequences put end to end are those of the
/// first followed by those of the second.
pub proof fn lemma_tied_concat(s: Seq<TrackView>, t: Seq<TrackView>, x: TrackView, by: SortBy)
    ensures
        tied_with(s + t, x, by) == tied_with(s, x, by) + tied_with(t, x, by),
    decreases t.len(),
{
    if t.len() == 0 {
        assert(s + t =~= s);
        assert(tied_with(s, x, by) + tied_with(t, x, by) =~= tied_with(s, x, by));
    } else {
        assert((s + t).drop_last() =~= s + t.drop_last());
        assert((s + t).last() == t.last());
        lemma_tied_concat(s, t.drop_last(), x, by);
        let front = tied_with(s, x, by);
        let back = tied_with(t.drop_last(), x, by);
        assert((front + back).push(t.last()) =~= front + back.push(t.last()));
    }
}

/// The tracks of a key in a sequence of one track.
pub proof fn lemma_tied_single(e: TrackView, x: TrackView, by: SortBy)
    ensures
        tied_with(seq![e], x, by) == if ties(x, e, by) {
            seq![e]
        } else {
            Seq::empty()
        },
{
    let s = seq![e];
    assert(s.drop_last() =~= Seq::<TrackView>::empty());
    assert(tied_with(s.drop_last(), x, by) =~= Seq::<TrackView>::empty());
    assert(Seq::<TrackView>::empty().push(e) =~= seq![e]);
}

/// The tracks of a key, read off from the first track on.
pub proof fn lemma_tied_first(s: Seq<TrackView>, x: TrackView, by: SortBy)
    requires
        s.len() > 0,
    ensures
        tied_with(s, x, by) == if ties(x, s[0], by) {
            seq![s[0]] + tied_with(s.skip(1), x, by)
        } else {
            tied_with(s.skip(1), x, by)
        },
{
    assert(s =~= seq![s[0]] + s.skip(1));
    lemma_tied_concat(seq![s[0]], s.skip(1), x, by);
    lemma_tied_single(s[0], x, by);
    assert(Seq::<TrackView>::empty() + tied_with(s.skip(1), x, by) =~= tied_with(s.skip(1), x, by));
}

/// A sequence without a track of some key has no tracks of that key.
pub proof fn lemma_tied_none(s: Seq<TrackView>, x: TrackView, by: SortBy)
    requires
        forall|i: int| 0 <= i < s.len() ==> !ties(x, #[trigger] s[i], by),
    ensures
        tied_with(s, x, by) == Seq::<TrackView>::empty(),
    decreases s.len(),
{
    if s.len() > 0 {
        assert(!ties(x, s[s.len() - 1], by));
        assert forall|i: int| 0 <= i < s.drop_last().len() implies !ties(
            x,
            #[trigger] s.drop_last()[i],
            by,
        ) by {
            assert(s.drop_last()[i] == s[i]);
        }
        lemma_tied_none(s.drop_last(), x, by);
    }
}

/// Where a key has tracks in a sequence, one of the sequence's tracks
/// carries it.
pub proof fn lemma_tied_witness(s: Seq<TrackView>, x: TrackView, by: SortBy) -> (i: int)
    requires
        tied_with(s, x, by).len() > 0,
    ensures
        0 <= i < s.len(),
        ties(x, s[i], by),
    decreases s.len(),
{
    if ties(x, s.last(), by) {
        s.len() - 1
    } else {
        lemma_tied_witness(s.drop_last(), x, by)
    }
}

/// The tracks of a key in a reversed sequence are those of the sequence,
/// reversed.
pub proof fn lemma_tied_reverse(s: Seq<TrackView>, x: TrackView, by: SortBy)
    ensures
        tied_with(s.reverse(), x, by) == tied_with(s, x, by).reverse(),
    decreases s.len(),
{
    if s.len() == 0 {
        assert(s.reverse() =~= s);
        assert(tied_with(s, x, by).reverse() =~= tied_with(s, x, by));
    } else {
        let init = s.drop_last();
        assert(s.reverse() =~= seq![s.last()] + init.reverse());
        lemma_tied_concat(seq![s.last()], init.reverse(), x, by);
        lemma_tied_single(s.last(), x, by);
        lemma_tied_reverse(init, x, by);
        let inner = tied_with(init, x, by);
        if ties(x, s.last(), by) {
            assert(inner.push(s.last()).reverse() =~= seq![s.last()] + inner.reverse());
        } else {
            assert(Seq::<TrackView>::empty() + inner.reverse() =~= inner.reverse());
        }
    }
}

/// A sequence in order stays in order without its first track.
proof fn lemma_sorted_rest(s: Seq<TrackView>, by: SortBy, dir: SortDirection)
    requires
        is_sorted(s, by, dir),
        s.len() > 0,
    ensures
        is_sorted(s.skip(1), by, dir),
{
    let r = s.skip(1);
    assert forall|i: int, j: int| 0 <= i < j < r.len() implies track_order(
        #[trigger] r[i],
        #[trigger] r[j],
        by,
        dir,
    ) != Order::Greater by {
        assert(r[i] == s[i + 1] && r[j] == s[j + 1]);
    }
}

/// The first track of a sequence in order does not follow any track of the
/// key of `x`, where the sequence has one.
proof fn lemma_first_not_after(s: Seq<TrackView>, x: TrackView, by: SortBy, dir: SortDirection)
    requires
        is_sorted(s, by, dir),
        tied_with(s, x, by).len() > 0,
    ensures
        s.len() > 0,
        track_order(s[0], x, by, dir) != Order::Greater,
{
    let m = lemma_tied_witness(s, x, by);
    lemma_key_order_flip(x, s[m], by);
    assert(track_order(s[m], x, by, dir) == Order::Equal);
    if m == 0 {
    } else {
        assert(track_order(s[0], s[m], by, dir) != Order::Greater);
        lemma_track_order_chain(s[0], s[m], x, by, dir);
    }
}

/// There is one stable sort: two sequences in order that hold, for every
/// key, the same tracks in the same order are the same sequence.
pub proof fn lemma_sorted_same_ties_equal(
    a: Seq<TrackView>,
    b: Seq<TrackView>,
    by: SortBy,
    dir: SortDirection,
)
    requires
        a.len() == b.len(),
        is_sorted(a, by, dir),
        is_sorted(b, by, dir),
        forall|x: TrackView| #[trigger] tied_with(a, x, by) == tied_with(b, x, by),
    ensures
        a == b,
    decreases a.len(),
{
    if a.len() == 0 {
        assert(a =~= b);
    } else {
        let x = a[0];
        let y = b[0];
        lemma_key_order_same(x, by);
        lemma_key_order_same(y, by);
        lemma_tied_first(a, x, by);
        lemma_tied_first(b, y, by);
        assert(tied_with(a, x, by) == tied_with(b, x, by));
        assert(tied_with(a, y, by) == tied_with(b, y, by));
        lemma_first_not_after(b, x, by, dir);
        lemma_first_not_after(a, y, by, dir);
        lemma_track_order_flip(x, y, by, dir);
        assert(track_order(x, y, by, dir) == Order::Equal);
        assert(ties(x, y, by));
        lemma_tied_first(b, x, by);
        let ta = tied_with(a.skip(1), x, by);
        let tb = tied_with(b.skip(1), x, by);
        assert((seq![x] + ta)[0] == (seq![y] + tb)[0]);
        assert(x == y);
        let ra = a.skip(1);
        let rb = b.skip(1);
        assert forall|z: TrackView| #[trigger] tied_with(ra, z, by) == tied_with(rb, z, by) by {
            lemma_tied_first(a, z, by);
            lemma_tied_first(b, z, by);
            assert(tied_with(a, z, by) == tied_with(b, z, by));
            if ties(z, x, by) {
                let u = tied_with(ra, z, by);
                let v = tied_with(rb, z, by);
                assert(u =~= (seq![x] + u).skip(1));
                assert(v =~= (seq![x] + v).skip(1));
            }
        }
        lemma_sorted_rest(a, by, dir);
        lemma_sorted_rest(b, by, dir);
        lemma_sorted_same_ties_equal(ra, rb, by, dir);
        assert(a =~= seq![x] + ra);
        assert(b =~= seq![y] + rb);
    }
}

/// A playlist has exactly one stable sort: two results for the same tracks,
/// key and direction are equal.
pub proof fn lemma_stable_sort_unique(
    first: Seq<TrackView>,
    second: Seq<TrackView>,
    s: Seq<TrackView>,
    by: SortBy,
    dir: SortDirection,
)
    requires
        is_stable_sort_of(first, s, by, dir),
        is_stable_sort_of(second, s, by, dir),
    ensures
        first == second,
{
    assert forall|x: TrackView| #[trigger] tied_with(first, x, by) == tied_with(second, x, by) by {
        assert(tied_with(first, x, by) == tied_with(s, x, by));
        assert(tied_with(second, x, by) == tied_with(s, x, by));
    }
    lemma_sorted_same_ties_equal(first, second, by, dir);
}

/// Sorting what is already in order changes nothing: a second sort by the
/// same key and direction, right after the first, leaves the order as it is.
pub proof fn lemma_sort_again_same(
    once: Seq<TrackView>,
    twice: Seq<TrackView>,
    by: SortBy,
    dir: SortDirection,
)
    requires
        is_sorted(once, by, dir),
        is_stable_sort_of(twice, once, by, dir),
    ensures
        twice == once,
{
    lemma_sorted_same_ties_equal(twice, once, by, dir);
}

/// In order one way is, read backwards, in order the other way.
pub proof fn lemma_sorted_reverse(s: Seq<TrackView>, by: SortBy)
    requires
        is_sorted(s, by, SortDirection::Ascending),
    ensures
        is_sorted(s.reverse(), by, SortDirection::Descending),
{
    let r = s.reverse();
    assert forall|i: int, j: int| 0 <= i < j < r.len() implies track_order(
        #[trigger] r[i],
        #[trigger] r[j],
        by,
        SortDirection::Descending,
    ) != Order::Greater by {
        let p = s.len() - 1 - j;
        let q = s.len() - 1 - i;
        assert(r[i] == s[q] && r[j] == s[p]);
        assert(track_order(s[p], s[q], by, SortDirection::Ascending) != Order::Greater);
        lemma_key_order_flip(s[p], s[q], by);
    }
}

/// Sorting descending gives the exact reverse of sorting ascending, for
/// every playlist in which the tracks of each key read the same forwards and
/// backwards; so for every playlist in which no two tracks share a key.
///
/// Other playlists are left out because the sort is stable: where two
/// different tracks share a key it keeps them in their order both times, and
/// the two results are no mirror images
/// ([`lemma_reverse_needs_palindromes`]).
pub proof fn lemma_descending_is_reverse(
    ascending: Seq<TrackView>,
    descending: Seq<TrackView>,
    s: Seq<TrackView>,
    by: SortBy,
)
    requires
        is_stable_sort_of(ascending, s, by, SortDirection::Ascending),
        is_stable_sort_of(descending, s, by, SortDirection::Descending),
        ties_are_palindromes(s, by),
    ensures
        descending == ascending.reverse(),
{
    let r = ascending.reverse();
    lemma_sorted_reverse(ascending, by);
    assert forall|x: TrackView| #[trigger]
        tied_with(r, x, by) == tied_with(descending, x, by) by {
        lemma_tied_reverse(ascending, x, by);
        assert(tied_with(ascending, x, by) == tied_with(s, x, by));
        assert(tied_with(s, x, by).reverse() == tied_with(s, x, by));
        assert(tied_with(descending, x, by) == tied_with(s, x, by));
    }
    lemma_sorted_same_ties_equal(r, descending, by, SortDirection::Descending);
}

/// Sorting descending gives the reverse of sorting ascending only for the
/// playlists of [`lemma_descending_is_reverse`].
pub proof fn lemma_reverse_needs_palindromes(
    ascending: Seq<TrackView>,
    descending: Seq<TrackView>,
    s: Seq<TrackView>,
    by: SortBy,
)
    requires
        is_stable_sort_of(ascending, s, by, SortDirection::Ascending),
        is_stable_sort_of(descending, s, by, SortDirection::Descending),
        descending == ascending.reverse(),
    ensures
        ties_are_palindromes(s, by),
{
    assert forall|x: TrackView|
        (#[trigger] tied_with(s, x, by)).reverse() == tied_with(s, x, by) by {
        lemma_tied_reverse(ascending, x, by);
        assert(tied_with(ascending, x, by) == tied_with(s, x, by));
        assert(tied_with(descending, x, by) == tied_with(s, x, by));
    }
}

/// A playlist in which no two tracks share a key is one in which the tracks
/// of each key read the same forwards and backwards.
pub proof fn lemma_distinct_keys_are_palindromes(s: Seq<TrackView>, by: SortBy)
    requires
        forall|i: int, j: int|
            #![trigger s[i], s[j]]
            0 <= i < j < s.len() ==> !ties(s[i], s[j], by),
    ensures
        ties_are_palindromes(s, by),
{
    assert forall|x: TrackView|
        (#[trigger] tied_with(s, x, by)).reverse() == tied_with(s, x, by) by {
        lemma_tied_at_most_one(s, x, by);
        let t = tied_with(s, x, by);
        assert(t.reverse() =~= t);
    }
}

/// Where no two tracks of a sequence share a key, at most one carries the
/// key of `x`.
proof fn lemma_tied_at_most_one(s: Seq<TrackView>, x: TrackView, by: SortBy)
    requires
        forall|i: int, j: int|
            #![trigger s[i], s[j]]
            0 <= i < j < s.len() ==> !ties(s[i], s[j], by),
    ensures
        tied_with(s, x, by).len() <= 1,
    decreases s.len(),
{
    if s.len() > 0 {
        let init = s.drop_last();
        assert forall|i: int, j: int| 0 <= i < j < init.len() implies !ties(
            #[trigger] init[i],
            #[trigger] init[j],
            by,
        ) by {
            assert(init[i] == s[i] && init[j] == s[j]);
        }
        lemma_tied_at_most_one(init, x, by);
        if ties(x, s.last(), by) && tied_with(init, x, by).len() > 0 {
            let m = lemma_tied_witness(init, x, by);
            assert(init[m] == s[m]);
            lemma_ties_equivalence(x, s[m], s[s.len() - 1], by);
            lemma_ties_equivalence(s[m], x, s[s.len() - 1], by);
            assert(!ties(s[m], s[s.len() - 1], by));
        }
    }
}

/// The tracks of the key of `x` hold `x` as often as the sequence does.
proof fn lemma_tied_count(s: Seq<TrackView>, x: TrackView, by: SortBy)
    ensures
        tied_with(s, x, by).to_multiset().count(x) == s.to_multiset().count(x),
    decreases s.len(),
{
    if s.len() == 0 {
        assert(tied_with(s, x, by) =~= s);
    } else {
        let init = s.drop_last();
        lemma_tied_count(init, x, by);
        assert(s =~= init.push(s.last()));
        vstd::seq_lib::to_multiset_build(init, s.last());
        vstd::seq_lib::to_multiset_build(tied_with(init, x, by), s.last());
        lemma_key_order_same(x, by);
    }
}

/// A stable sort moves tracks and neither drops nor adds one: the result
/// holds each track as often as the playlist did.
pub proof fn lemma_stable_sort_permutes(
    sorted: Seq<TrackView>,
    s: Seq<TrackView>,
    by: SortBy,
    dir: SortDirection,
)
    requires
        is_stable_sort_of(sorted, s, by, dir),
    ensures
        sorted.to_multiset() == s.to_multiset(),
{
    assert forall|x: TrackView| sorted.to_multiset().count(x) == s.to_multiset().count(x) by {
        lemma_tied_count(sorted, x, by);
        lemma_tied_count(s, x, by);
        assert(tied_with(sorted, x, by) == tied_with(s, x, by));
    }
    assert(sorted.to_multiset() =~= s.to_multiset());
}

} // verus!
