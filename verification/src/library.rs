//! Track metadata and the library that maps file paths to it.

use vstd::hash_map::StringHashMap;
use vstd::prelude::*;

verus! {

/// What is known of one audio file.
///
/// A record is complete once `id` is set to a non-empty text; incomplete
/// records are dropped before a library is stored or shown.
#[derive(Debug, PartialEq, Eq)]
pub struct MediaMetaData {
    /// Identity of the track, derived from the file's path.
    pub id: Option<String>,
    pub title: Option<String>,
    pub artist: Option<String>,
    pub album: Option<String>,
    pub album_artist: Option<String>,
    pub genre: Option<String>,
    pub album_disc_number: Option<u32>,
    pub album_disc_count: Option<u32>,
    pub track_number: Option<u32>,
    pub track_count: Option<u32>,
    /// Length of the track in milliseconds.
    pub duration_ms: Option<u64>,
    /// Name of the cached artwork file, if the track carries artwork.
    pub artwork_filename: Option<String>,
}

/// The mathematical value of a [`MediaMetaData`].
pub ghost struct MetaView {
    pub id: Option<Seq<char>>,
    pub title: Option<Seq<char>>,
    pub artist: Option<Seq<char>>,
    pub album: Option<Seq<char>>,
    pub album_artist: Option<Seq<char>>,
    pub genre: Option<Seq<char>>,
    pub album_disc_number: Option<u32>,
    pub album_disc_count: Option<u32>,
    pub track_number: Option<u32>,
    pub track_count: Option<u32>,
    pub duration_ms: Option<u64>,
    pub artwork_filename: Option<Seq<char>>,
}

impl MetaView {
    /// The record in which nothing is known.
    pub open spec fn empty() -> MetaView {
        MetaView {
            id: None,
            title: None,
            artist: None,
            album: None,
            album_artist: None,
            genre: None,
            album_disc_number: None,
            album_disc_count: None,
            track_number: None,
            track_count: None,
            duration_ms: None,
            artwork_filename: None,
        }
    }

    /// Whether the record carries a non-empty `id`.
    pub open spec fn is_complete(self) -> bool {
        self.id is Some && self.id->0.len() > 0
    }
}

impl View for MediaMetaData {
    type V = MetaView;

    open spec fn view(&self) -> MetaView {
        MetaView {
            id: self.id.deep_view(),
            title: self.title.deep_view(),
            artist: self.artist.deep_view(),
            album: self.album.deep_view(),
            album_artist: self.album_artist.deep_view(),
            genre: self.genre.deep_view(),
            album_disc_number: self.album_disc_number,
            album_disc_count: self.album_disc_count,
            track_number: self.track_number,
            track_count: self.track_count,
            duration_ms: self.duration_ms,
            artwork_filename: self.artwork_filename.deep_view(),
        }
    }
}

impl DeepView for MediaMetaData {
    type V = MetaView;

    open spec fn deep_view(&self) -> MetaView {
        self.view()
    }
}

/// Copies an optional text.
pub fn copy_opt_text(text: &Option<String>) -> (r: Option<String>)
    ensures
        r.deep_view() == text.deep_view(),
{
    match text {
        Some(s) => Some(s.clone()),
        None => None,
    }
}

impl Clone for MediaMetaData {
    fn clone(&self) -> (r: Self)
        ensures
            r@ == self@,
    {
        MediaMetaData {
            id: copy_opt_text(&self.id),
            title: copy_opt_text(&self.title),
            artist: copy_opt_text(&self.artist),
            album: copy_opt_text(&self.album),
            album_artist: copy_opt_text(&self.album_artist),
            genre: copy_opt_text(&self.genre),
            album_disc_number: self.album_disc_number,
            album_disc_count: self.album_disc_count,
            track_number: self.track_number,
            track_count: self.track_count,
            duration_ms: self.duration_ms,
            artwork_filename: copy_opt_text(&self.artwork_filename),
        }
    }
}

impl MediaMetaData {
    /// A record in which nothing is known yet.
    pub fn new() -> (r: Self)
        ensures
            r@ == MetaView::empty(),
    {
        MediaMetaData {
            id: None,
            title: None,
            artist: None,
            album: None,
            album_artist: None,
            genre: None,
            album_disc_number: None,
            album_disc_count: None,
            track_number: None,
            track_count: None,
            duration_ms: None,
            artwork_filename: None,
        }
    }

    /// Whether the record carries a non-empty `id`.
    pub fn is_complete(&self) -> (r: bool)
        ensures
            r == self@.is_complete(),
    {
        match &self.id {
            Some(id) => !id.as_str().is_empty(),
            None => false,
        }
    }
}

/// A track: the file's path and what is known of the file.
pub type Track = (String, MediaMetaData);

/// The mathematical value of a track.
pub type TrackView = (Seq<char>, MetaView);

/// Whether some entry of `s` has the path `path`.
pub open spec fn has_path(s: Seq<TrackView>, path: Seq<char>) -> bool {
    exists|i: int| 0 <= i < s.len() && (#[trigger] s[i]).0 == path
}

/// Whether no path occurs twice in `s`.
pub open spec fn paths_unique(s: Seq<TrackView>) -> bool {
    forall|i: int, j: int|
        #![trigger s[i], s[j]]
        0 <= i < j < s.len() ==> s[i].0 != s[j].0
}

/// The mapping that a list of entries stands for: each path with its
/// metadata; of two entries with one path the later one counts.
pub open spec fn entries_map(s: Seq<TrackView>) -> Map<Seq<char>, MetaView>
    decreases s.len(),
{
    if s.len() == 0 {
        Map::empty()
    } else {
        entries_map(s.drop_last()).insert(s.last().0, s.last().1)
    }
}

/// The paths of the mapping are those of the entries.
pub proof fn lemma_entries_map_keys(s: Seq<TrackView>, path: Seq<char>)
    ensures
        entries_map(s).contains_key(path) <==> has_path(s, path),
    decreases s.len(),
{
    if s.len() > 0 {
        let init = s.drop_last();
        lemma_entries_map_keys(init, path);
        if has_path(init, path) {
            let i = choose|i: int| 0 <= i < init.len() && (#[trigger] init[i]).0 == path;
            assert(s[i].0 == path);
        }
        if s.last().0 == path {
            assert(s[s.len() - 1].0 == path);
        }
        if has_path(s, path) {
            let i = choose|i: int| 0 <= i < s.len() && (#[trigger] s[i]).0 == path;
            if i < s.len() - 1 {
                assert(init[i].0 == path);
            }
        }
    }
}

/// Where no path occurs twice, the mapping holds each entry's metadata
/// under its path.
pub proof fn lemma_entries_map_value(s: Seq<TrackView>, i: int)
    requires
        paths_unique(s),
        0 <= i < s.len(),
    ensures
        entries_map(s).contains_key(s[i].0),
        entries_map(s)[s[i].0] == s[i].1,
    decreases s.len(),
{
    let init = s.drop_last();
    if i < s.len() - 1 {
        assert(s[i].0 != s[s.len() - 1].0);
        assert forall|p: int, q: int| 0 <= p < q < init.len() implies
            (#[trigger] init[p]).0 != (#[trigger] init[q]).0
        by {
            assert(init[p] == s[p] && init[q] == s[q]);
        }
        lemma_entries_map_value(init, i);
        assert(init[i] == s[i]);
    }
}

/// The entries once `meta` is stored under `path`: in the place of the entry
/// with that path, or at the end where there is none.
pub open spec fn stored(s: Seq<TrackView>, path: Seq<char>, meta: MetaView) -> Seq<TrackView> {
    if has_path(s, path) {
        Seq::new(
            s.len(),
            |i: int|
                if s[i].0 == path {
                    (path, meta)
                } else {
                    s[i]
                },
        )
    } else {
        s.push((path, meta))
    }
}

/// The entries once each entry of `added` is stored, one after the other.
pub open spec fn stored_all(s: Seq<TrackView>, added: Seq<TrackView>) -> Seq<TrackView>
    decreases added.len(),
{
    if added.len() == 0 {
        s
    } else {
        stored(stored_all(s, added.drop_last()), added.last().0, added.last().1)
    }
}

/// Storing entries of which no two share a path in an empty list gives
/// those entries.
pub proof fn lemma_stored_all_unique(added: Seq<TrackView>)
    requires
        paths_unique(added),
    ensures
        stored_all(Seq::empty(), added) == added,
    decreases added.len(),
{
    if added.len() > 0 {
        lemma_unique_init(added);
        lemma_stored_all_unique(added.drop_last());
        assert(added.drop_last().push(added.last()) =~= added);
    }
}

/// The part of a mapping whose records are complete.
pub open spec fn complete_only(m: Map<Seq<char>, MetaView>) -> Map<Seq<char>, MetaView> {
    Map::new(|k: Seq<char>| m.contains_key(k) && m[k].is_complete(), |k: Seq<char>| m[k])
}

/// The entries of `s` whose records are complete, in their order.
pub open spec fn complete_entries(s: Seq<TrackView>) -> Seq<TrackView>
    decreases s.len(),
{
    if s.len() == 0 {
        Seq::empty()
    } else if s.last().1.is_complete() {
        complete_entries(s.drop_last()).push(s.last())
    } else {
        complete_entries(s.drop_last())
    }
}

/// A list without its last entry holds no path twice if the list does not.
proof fn lemma_unique_init(s: Seq<TrackView>)
    requires
        paths_unique(s),
        s.len() > 0,
    ensures
        paths_unique(s.drop_last()),
        !has_path(s.drop_last(), s.last().0),
{
    let init = s.drop_last();
    assert forall|p: int, q: int| 0 <= p < q < init.len() implies
        (#[trigger] init[p]).0 != (#[trigger] init[q]).0
    by {
        assert(init[p] == s[p] && init[q] == s[q]);
    }
    if has_path(init, s.last().0) {
        let i = choose|i: int| 0 <= i < init.len() && (#[trigger] init[i]).0 == s.last().0;
        assert(s[i].0 == s[s.len() - 1].0);
    }
}

/// The complete entries of a list are entries of the list, and complete.
pub proof fn lemma_complete_entries(s: Seq<TrackView>)
    ensures
        forall|i: int|
            0 <= i < complete_entries(s).len() ==> (#[trigger] complete_entries(
                s,
            )[i]).1.is_complete() && has_path(s, complete_entries(s)[i].0),
        complete_entries(s).len() <= s.len(),
    decreases s.len(),
{
    if s.len() > 0 {
        let init = s.drop_last();
        lemma_complete_entries(init);
        let c = complete_entries(s);
        assert forall|i: int| 0 <= i < c.len() implies (#[trigger] c[i]).1.is_complete()
            && has_path(s, c[i].0) by {
            if i < complete_entries(init).len() {
                assert(c[i] == complete_entries(init)[i]);
                let j = choose|j: int| 0 <= j < init.len() && (#[trigger] init[j]).0 == c[i].0;
                assert(s[j].0 == c[i].0);
            } else {
                assert(c[i] == s[s.len() - 1]);
            }
        }
    }
}

/// Where no path occurs twice, the complete entries stand for the complete
/// part of the mapping.
pub proof fn lemma_complete_map(s: Seq<TrackView>)
    requires
        paths_unique(s),
    ensures
        paths_unique(complete_entries(s)),
        entries_map(complete_entries(s)) == complete_only(entries_map(s)),
    decreases s.len(),
{
    if s.len() == 0 {
        assert(entries_map(complete_entries(s)) =~= complete_only(entries_map(s)));
    } else {
        let init = s.drop_last();
        let last = s.last();
        lemma_unique_init(s);
        lemma_complete_map(init);
        lemma_complete_entries(init);
        lemma_entries_map_keys(init, last.0);
        let c = complete_entries(init);
        if last.1.is_complete() {
            let c2 = c.push(last);
            assert(c2.drop_last() =~= c);
            assert forall|p: int, q: int| 0 <= p < q < c2.len() implies
                (#[trigger] c2[p]).0 != (#[trigger] c2[q]).0
            by {
                if q < c.len() {
                    assert(c2[p] == c[p] && c2[q] == c[q]);
                } else {
                    assert(c2[p] == c[p]);
                    assert(has_path(init, c[p].0));
                }
            }
        }
        assert(entries_map(complete_entries(s)) =~= complete_only(entries_map(s)));
    }
}

/// Where no path occurs twice, the mapping has as many paths as the list
/// has entries.
pub proof fn lemma_entries_map_len(s: Seq<TrackView>)
    requires
        paths_unique(s),
    ensures
        entries_map(s).dom().finite(),
        entries_map(s).dom().len() == s.len(),
    decreases s.len(),
{
    if s.len() > 0 {
        lemma_unique_init(s);
        lemma_entries_map_len(s.drop_last());
        lemma_entries_map_keys(s.drop_last(), s.last().0);
    }
}

/// What ties the list of entries to the index over it: the index holds each
/// path with its place in the list, and nothing else.
spec fn indexed(s: Seq<TrackView>, index: Map<Seq<char>, usize>) -> bool {
    &&& forall|i: int|
        0 <= i < s.len() ==> index.contains_key((#[trigger] s[i]).0) && index[s[i].0] == i
    &&& forall|k: Seq<char>| #[trigger]
        index.contains_key(k) ==> index[k] < s.len() && s[index[k] as int].0 == k
}

/// An indexed list holds no path twice, and its mapping can be read off
/// through the index.
proof fn lemma_indexed(s: Seq<TrackView>, index: Map<Seq<char>, usize>)
    requires
        indexed(s, index),
    ensures
        paths_unique(s),
        forall|k: Seq<char>| #[trigger] entries_map(s).contains_key(k) <==> index.contains_key(k),
        forall|k: Seq<char>| #[trigger]
            index.contains_key(k) ==> entries_map(s)[k] == s[index[k] as int].1,
{
    assert forall|i: int, j: int| 0 <= i < j < s.len() implies
        (#[trigger] s[i]).0 != (#[trigger] s[j]).0
    by {
        assert(index[s[i].0] == i && index[s[j].0] == j);
    }
    assert forall|k: Seq<char>| #[trigger]
        entries_map(s).contains_key(k) <==> index.contains_key(k) by {
        lemma_entries_map_keys(s, k);
        if has_path(s, k) {
            let i = choose|i: int| 0 <= i < s.len() && (#[trigger] s[i]).0 == k;
            assert(index.contains_key(s[i].0));
        }
        if index.contains_key(k) {
            assert(s[index[k] as int].0 == k);
        }
    }
    assert forall|k: Seq<char>| #[trigger]
        index.contains_key(k) implies entries_map(s)[k] == s[index[k] as int].1 by {
        lemma_entries_map_value(s, index[k] as int);
    }
}

/// The tracks of the music library, by file path.
///
/// Each path occurs once. The entries keep the order in which their paths
/// were first inserted.
pub struct Library {
    media: Vec<Track>,
    index: StringHashMap<usize>,
}

impl View for Library {
    type V = Map<Seq<char>, MetaView>;

    closed spec fn view(&self) -> Map<Seq<char>, MetaView> {
        entries_map(self.media.deep_view())
    }
}

impl Library {
    /// What holds of every library: its index names the place of each path,
    /// and of nothing else.
    #[verifier::type_invariant]
    pub closed spec fn well_formed(self) -> bool {
        indexed(self.media.deep_view(), self.index@)
    }

    /// A library holds each path once, and is the mapping that its entries
    /// stand for.
    pub proof fn lemma_entries(self)
        requires
            self.well_formed(),
        ensures
            paths_unique(self.entry_views()),
            self@ == entries_map(self.entry_views()),
            self@.dom().finite(),
            self@.dom().len() == self.entry_views().len(),
            self.entry_views().len() <= usize::MAX,
    {
        assert(self.media.deep_view().len() == self.media.len());
        lemma_indexed(self.media.deep_view(), self.index@);
        lemma_entries_map_len(self.media.deep_view());
    }

    /// The entries, in the order of [`Library::entries`].
    pub closed spec fn entry_views(&self) -> Seq<TrackView> {
        self.media.deep_view()
    }

    /// An empty library.
    pub fn new() -> (r: Library)
        ensures
            r@ == Map::<Seq<char>, MetaView>::empty(),
            r.entry_views() == Seq::<TrackView>::empty(),
    {
        let r = Library { media: Vec::new(), index: StringHashMap::new() };
        assert(r.media.deep_view() =~= Seq::<TrackView>::empty());
        r
    }

    /// The number of tracks.
    pub fn len(&self) -> (r: usize)
        ensures
            r == self.entry_views().len(),
            self@.dom().finite(),
            r == self@.dom().len(),
    {
        proof {
            use_type_invariant(self);
            lemma_indexed(self.media.deep_view(), self.index@);
            lemma_entries_map_len(self.media.deep_view());
        }
        self.media.len()
    }

    /// The metadata stored under `path`, if any.
    pub fn get(&self, path: &str) -> (r: Option<&MediaMetaData>)
        ensures
            r is Some <==> self@.contains_key(path@),
            r is Some ==> r->0@ == self@[path@],
    {
        proof {
            use_type_invariant(self);
            lemma_indexed(self.media.deep_view(), self.index@);
        }
        match self.index.get(path) {
            Some(i) => {
                assert(self.media.deep_view()[*i as int].1 == self.media[*i as int].1@);
                Some(&self.media[*i].1)
            },
            None => None,
        }
    }

    /// Stores `meta` under `path`, in place of what was stored there.
    pub fn insert(&mut self, path: String, meta: MediaMetaData)
        ensures
            final(self)@ == old(self)@.insert(path@, meta@),
            final(self).entry_views() == stored(old(self).entry_views(), path@, meta@),
    {
        let mut taken = Library::new();
        std::mem::swap(self, &mut taken);
        proof {
            use_type_invariant(&taken);
        }
        let Library { mut media, mut index } = taken;
        insert_indexed(&mut media, &mut index, path, meta);
        *self = Library { media, index };
    }

    /// Whether a track is stored under `path`.
    pub fn contains(&self, path: &str) -> (r: bool)
        ensures
            r == self@.contains_key(path@),
    {
        proof {
            use_type_invariant(self);
            lemma_indexed(self.media.deep_view(), self.index@);
        }
        self.index.contains_key(path)
    }

    /// Whether the library holds no track.
    pub fn is_empty(&self) -> (r: bool)
        ensures
            r == (self.entry_views().len() == 0),
            r == (self@ == Map::<Seq<char>, MetaView>::empty()),
    {
        proof {
            use_type_invariant(self);
            lemma_indexed(self.media.deep_view(), self.index@);
            lemma_entries_map_len(self.media.deep_view());
            if self.media.len() == 0 {
                assert(self@ =~= Map::<Seq<char>, MetaView>::empty());
            }
        }
        self.media.len() == 0
    }

    /// The entries: each path once, with its metadata.
    pub fn entries(&self) -> (r: &[Track])
        ensures
            r.deep_view() == self.entry_views(),
            paths_unique(r.deep_view()),
            entries_map(r.deep_view()) == self@,
    {
        proof {
            use_type_invariant(self);
            lemma_indexed(self.media.deep_view(), self.index@);
        }
        let r = self.media.as_slice();
        assert(r.deep_view() =~= self.media.deep_view());
        r
    }

    /// Drops every entry whose record is not complete. The entries that
    /// stay keep their order.
    pub fn purge_incomplete(&mut self)
        ensures
            final(self)@ == complete_only(old(self)@),
            final(self).entry_views() == complete_entries(old(self).entry_views()),
            forall|k: Seq<char>| #[trigger]
                final(self)@.contains_key(k) ==> final(self)@[k].is_complete(),
    {
        let mut taken = Library::new();
        std::mem::swap(self, &mut taken);
        proof {
            use_type_invariant(&taken);
            lemma_indexed(taken.media.deep_view(), taken.index@);
            lemma_complete_map(taken.media.deep_view());
        }
        let Library { media, index: _ } = taken;
        let kept = keep_complete(media);
        *self = kept;
    }

    /// Adds the entries of `other`; where both hold a path, the record of
    /// `other` replaces the one held.
    pub fn merge(&mut self, other: &Library)
        ensures
            final(self)@ == old(self)@.union_prefer_right(other@),
            final(self).entry_views() == stored_all(old(self).entry_views(), other.entry_views()),
    {
        let entries = other.entries();
        let ghost start = self@;
        let ghost held = self.entry_views();
        let ghost added = entries.deep_view();
        let mut i: usize = 0;
        assert(added.take(0) =~= Seq::<TrackView>::empty());
        assert(start.union_prefer_right(Map::<Seq<char>, MetaView>::empty()) =~= start);
        while i < entries.len()
            invariant
                i <= entries.len(),
                added == entries.deep_view(),
                self@ == start.union_prefer_right(entries_map(added.take(i as int))),
                self.entry_views() == stored_all(held, added.take(i as int)),
            decreases entries.len() - i,
        {
            let ghost part = entries_map(added.take(i as int));
            let e = &entries[i];
            self.insert(e.0.clone(), e.1.clone());
            proof {
                assert(added.take(i + 1).drop_last() =~= added.take(i as int));
                assert(added.take(i + 1).last() == added[i as int]);
                assert(start.union_prefer_right(part).insert(e.0@, e.1@)
                    =~= start.union_prefer_right(part.insert(e.0@, e.1@)));
            }
            i += 1;
        }
        assert(added.take(i as int) =~= added);
    }

    /// The library that a stored snapshot stands for: of two entries with
    /// one path the later one counts, and entries whose record is not
    /// complete are left out.
    pub fn load(entries: Vec<Track>) -> (r: Library)
        ensures
            r@ == complete_only(entries_map(entries.deep_view())),
            r.entry_views() == complete_entries(
                stored_all(Seq::empty(), entries.deep_view()),
            ),
            forall|k: Seq<char>| #[trigger] r@.contains_key(k) ==> r@[k].is_complete(),
    {
        let mut all = Library::new();
        let ghost given = entries.deep_view();
        assert(given.take(0) =~= Seq::<TrackView>::empty());
        for entry in it: entries
            invariant
                it.seq() == entries@,
                given == entries.deep_view(),
                all@ == entries_map(given.take(it.index())),
                all.entry_views() == stored_all(Seq::empty(), given.take(it.index())),
        {
            assert(given.take(it.index() + 1).drop_last() =~= given.take(it.index()));
            assert(given.take(it.index() + 1).last() == entry.deep_view());
            let (path, meta) = entry;
            all.insert(path, meta);
        }
        assert(given.take(given.len() as int) =~= given);
        all.purge_incomplete();
        all
    }

    /// The entries that a stored snapshot of this library holds: the
    /// complete ones, copied, in their order.
    pub fn save(&self) -> (r: Vec<Track>)
        ensures
            r.deep_view() == complete_entries(self.entry_views()),
            entries_map(r.deep_view()) == complete_only(self@),
            forall|i: int| 0 <= i < r.len() ==> (#[trigger] r.deep_view()[i]).1.is_complete(),
    {
        proof {
            use_type_invariant(self);
            lemma_indexed(self.media.deep_view(), self.index@);
            lemma_complete_map(self.media.deep_view());
            lemma_complete_entries(self.media.deep_view());
        }
        let ghost all = self.media.deep_view();
        let mut out: Vec<Track> = Vec::new();
        let mut i: usize = 0;
        assert(all.take(0) =~= Seq::<TrackView>::empty());
        assert(out.deep_view() =~= Seq::<TrackView>::empty());
        while i < self.media.len()
            invariant
                i <= self.media.len(),
                all == self.media.deep_view(),
                out.deep_view() == complete_entries(all.take(i as int)),
            decreases self.media.len() - i,
        {
            let ghost before = out.deep_view();
            assert(all.take(i + 1).drop_last() =~= all.take(i as int));
            assert(all.take(i + 1).last() == all[i as int]);
            if self.media[i].1.is_complete() {
                out.push((self.media[i].0.clone(), self.media[i].1.clone()));
                assert(out.deep_view() =~= before.push(all[i as int]));
            }
            i += 1;
        }
        assert(all.take(i as int) =~= all);
        out
    }
}

impl Clone for Library {
    fn clone(&self) -> (r: Self)
        ensures
            r@ == self@,
            r.entry_views() == self.entry_views(),
    {
        let mut r = Library::new();
        proof {
            use_type_invariant(self);
            self.lemma_entries();
            assert(Map::<Seq<char>, MetaView>::empty().union_prefer_right(self@) =~= self@);
            lemma_stored_all_unique(self.entry_views());
        }
        r.merge(self);
        r
    }
}

/// The library of the complete entries of `media`, in their order.
fn keep_complete(media: Vec<Track>) -> (r: Library)
    requires
        paths_unique(media.deep_view()),
    ensures
        r.entry_views() == complete_entries(media.deep_view()),
        r@ == entries_map(complete_entries(media.deep_view())),
{
    let ghost given = media.deep_view();
    let mut kept: Vec<Track> = Vec::new();
    let mut index: StringHashMap<usize> = StringHashMap::new();
    assert(given.take(0) =~= Seq::<TrackView>::empty());
    assert(kept.deep_view() =~= Seq::<TrackView>::empty());
    for entry in it: media
        invariant
            it.seq() == media@,
            given == media.deep_view(),
            paths_unique(given),
            kept.deep_view() == complete_entries(given.take(it.index())),
            indexed(kept.deep_view(), index@),
    {
        let ghost n = it.index();
        let ghost held = kept.deep_view();
        assert(given.take(n + 1).drop_last() =~= given.take(n));
        assert(given.take(n + 1).last() == entry.deep_view());
        if entry.1.is_complete() {
            proof {
                // No entry kept so far has the path of this one.
                lemma_complete_entries(given.take(n));
                if has_path(held, entry.0@) {
                    let i = choose|i: int| 0 <= i < held.len() && (#[trigger] held[i]).0 == entry.0@;
                    assert(has_path(given.take(n), held[i].0));
                    let j = choose|j: int|
                        0 <= j < given.take(n).len() && (#[trigger] given.take(n)[j]).0
                            == entry.0@;
                    assert(given[j].0 == given[n].0);
                }
            }
            let (path, meta) = entry;
            insert_indexed(&mut kept, &mut index, path, meta);
            assert(kept.deep_view() == held.push(given[n]));
        }
    }
    assert(given.take(given.len() as int) =~= given);
    Library { media: kept, index }
}

/// Stores `meta` under `path` in an indexed list of entries: in the place of
/// the entry with that path, or at the end where there is none.
fn insert_indexed(
    media: &mut Vec<Track>,
    index: &mut StringHashMap<usize>,
    path: String,
    meta: MediaMetaData,
)
    requires
        indexed(old(media).deep_view(), old(index)@),
    ensures
        indexed(final(media).deep_view(), final(index)@),
        entries_map(final(media).deep_view()) == entries_map(old(media).deep_view()).insert(
            path@,
            meta@,
        ),
        final(media).deep_view() == stored(old(media).deep_view(), path@, meta@),
{
    let ghost before = media.deep_view();
    proof {
        lemma_indexed(before, index@);
        lemma_entries_map_keys(before, path@);
    }
    let found: Option<usize> = match index.get(path.as_str()) {
        Some(i) => Some(*i),
        None => None,
    };
    match found {
        Some(i) => {
            media.set(i, (path, meta));
            proof {
                let after = media.deep_view();
                assert(after =~= before.update(i as int, (path@, meta@)));
                assert forall|j: int| 0 <= j < after.len() implies index@.contains_key(
                    (#[trigger] after[j]).0,
                ) && index@[after[j].0] == j by {
                    assert(after[j].0 == before[j].0);
                }
                assert(indexed(after, index@));
                lemma_indexed(after, index@);
                assert(entries_map(after) =~= entries_map(before).insert(path@, meta@));
                assert(before[i as int].0 == path@);
                assert(after =~= stored(before, path@, meta@));
            }
        },
        None => {
            let at: usize = media.len();
            index.insert(path.clone(), at);
            media.push((path, meta));
            proof {
                let after = media.deep_view();
                assert(after =~= before.push((path@, meta@)));
                assert(after.drop_last() =~= before);
                assert forall|j: int| 0 <= j < after.len() implies index@.contains_key(
                    (#[trigger] after[j]).0,
                ) && index@[after[j].0] == j by {
                    if j < before.len() {
                        assert(after[j] == before[j]);
                        assert(old(index)@.contains_key(before[j].0));
                    }
                }
                assert(indexed(after, index@));
            }
        },
    }
}

} // verus!
