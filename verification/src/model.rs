//! The side that a scan reports to: the library, the playlist that mirrors
//! it, and the guard that lets one scan run at a time.

use vstd::prelude::*;
use crate::library::{entries_map, Library, MetaView, TrackView};
use crate::playlist::{copy_track, Playlist, PlaylistKind, PlaylistView, LIBRARY_PLAYLIST_ID};
use crate::scan::{MessageView, Progress, ScanMessage};
use crate::sorting::{is_stable_sort_of, SortBy, SortDirection};

verus! {

/// The mathematical value of a [`LibraryModel`].
pub ghost struct ModelView {
    /// The library, by path.
    pub library: Map<Seq<char>, MetaView>,
    /// The entries of the library in the order it holds them.
    pub entries: Seq<TrackView>,
    /// The playlist that mirrors the library.
    pub playlist: PlaylistView,
    pub sort_by: SortBy,
    pub sort_direction: SortDirection,
    /// Whether a scan is running.
    pub is_updating: bool,
    /// The last progress message of the scan.
    pub progress: Progress,
}

impl ModelView {
    /// What holds of every model: there is one playlist of the kind
    /// `Library`, it has the reserved id, and it holds the entries of the
    /// library, sorted.
    pub open spec fn valid(self) -> bool {
        &&& self.library == entries_map(self.entries)
        &&& self.playlist.kind == PlaylistKind::Library
        &&& self.playlist.id == LIBRARY_PLAYLIST_ID
        &&& is_stable_sort_of(
            self.playlist.tracks,
            self.entries,
            self.sort_by,
            self.sort_direction,
        )
    }
}

/// The progress of a scan that has not handled a file yet.
pub open spec fn no_progress() -> Progress {
    Progress { done: 0, total: 0, percent: 0 }
}

/// The library, the playlist that mirrors it, and the state of the scan
/// that fills it.
pub struct LibraryModel {
    library: Library,
    playlist: Playlist,
    sort_by: SortBy,
    sort_direction: SortDirection,
    is_updating: bool,
    progress: Progress,
}

impl View for LibraryModel {
    type V = ModelView;

    closed spec fn view(&self) -> ModelView {
        ModelView {
            library: self.library@,
            entries: self.library.entry_views(),
            playlist: self.playlist@,
            sort_by: self.sort_by,
            sort_direction: self.sort_direction,
            is_updating: self.is_updating,
            progress: self.progress,
        }
    }
}

/// Empties `playlist` and fills it with the entries of `library`, sorted by
/// `by` in the direction `dir`. Its id, name and kind stay.
fn mirror(playlist: &mut Playlist, library: &Library, by: SortBy, dir: SortDirection)
    ensures
        final(playlist)@.id == old(playlist)@.id,
        final(playlist)@.name == old(playlist)@.name,
        final(playlist)@.kind == old(playlist)@.kind,
        is_stable_sort_of(final(playlist)@.tracks, library.entry_views(), by, dir),
{
    playlist.clear();
    let entries = library.entries();
    let mut i: usize = 0;
    assert(entries.deep_view().take(0) =~= Seq::<TrackView>::empty());
    while i < entries.len()
        invariant
            i <= entries.len(),
            playlist@.id == old(playlist)@.id,
            playlist@.name == old(playlist)@.name,
            playlist@.kind == old(playlist)@.kind,
            playlist@.tracks == entries.deep_view().take(i as int),
        decreases entries.len() - i,
    {
        playlist.push(copy_track(&entries[i]));
        assert(entries.deep_view().take(i + 1) =~= entries.deep_view().take(i as int).push(
            entries[i as int].deep_view(),
        ));
        i += 1;
    }
    assert(entries.deep_view().take(i as int) =~= entries.deep_view());
    playlist.sort(by, dir);
}

impl LibraryModel {
    #[verifier::type_invariant]
    spec fn well_formed(self) -> bool {
        self@.valid()
    }

    /// An empty library that no scan is filling, its playlist sorted by
    /// `sort_by` in the direction `sort_direction`.
    pub fn new(sort_by: SortBy, sort_direction: SortDirection) -> (r: LibraryModel)
        ensures
            r@.valid(),
            r@.library == Map::<Seq<char>, MetaView>::empty(),
            r@.playlist.tracks == Seq::<TrackView>::empty(),
            r@.playlist.id == LIBRARY_PLAYLIST_ID,
            r@.sort_by == sort_by,
            r@.sort_direction == sort_direction,
            !r@.is_updating,
            r@.progress == no_progress(),
    {
        let library = Library::new();
        let playlist = Playlist::library();
        proof {
            use_type_invariant(&library);
            library.lemma_entries();
        }
        LibraryModel {
            library,
            playlist,
            sort_by,
            sort_direction,
            is_updating: false,
            progress: Progress { done: 0, total: 0, percent: 0 },
        }
    }

    /// The library.
    pub fn library(&self) -> (r: &Library)
        ensures
            r@ == self@.library,
            r.entry_views() == self@.entries,
    {
        &self.library
    }

    /// The playlist that mirrors the library.
    pub fn playlist(&self) -> (r: &Playlist)
        ensures
            r@ == self@.playlist,
            self@.valid(),
    {
        proof {
            use_type_invariant(self);
        }
        &self.playlist
    }

    /// Whether a scan is running.
    pub fn is_updating(&self) -> (r: bool)
        ensures
            r == self@.is_updating,
    {
        self.is_updating
    }

    /// The last progress message of the scan.
    pub fn progress(&self) -> (r: Progress)
        ensures
            r == self@.progress,
    {
        self.progress
    }

    /// Asks for a scan. Tells whether one is to be started: none is while
    /// another is running. A scan that starts is noted as running, with no
    /// progress yet.
    pub fn begin_update(&mut self) -> (r: bool)
        ensures
            r == !old(self)@.is_updating,
            r ==> final(self)@ == (ModelView {
                is_updating: true,
                progress: no_progress(),
                ..old(self)@
            }),
            !r ==> final(self)@ == old(self)@,
    {
        if self.is_updating {
            return false;
        }
        let mut taken = LibraryModel::new(self.sort_by, self.sort_direction);
        std::mem::swap(self, &mut taken);
        proof {
            use_type_invariant(&taken);
        }
        let LibraryModel { library, playlist, sort_by, sort_direction, is_updating: _, progress: _ } =
            taken;
        *self = LibraryModel {
            library,
            playlist,
            sort_by,
            sort_direction,
            is_updating: true,
            progress: Progress { done: 0, total: 0, percent: 0 },
        };
        true
    }

    /// Takes in a message of the scan. Tells whether the library changed and
    /// is to be stored.
    ///
    /// A progress message is kept. A partial snapshot is merged into the
    /// library, its records replacing those held. The library that ends the
    /// scan replaces the one held, and the scan is over. After either of the
    /// last two the playlist is filled anew from the library and sorted.
    pub fn apply(&mut self, message: ScanMessage) -> (r: bool)
        ensures
            final(self)@.valid(),
            final(self)@.sort_by == old(self)@.sort_by,
            final(self)@.sort_direction == old(self)@.sort_direction,
            final(self)@.playlist.id == old(self)@.playlist.id,
            final(self)@.playlist.name == old(self)@.playlist.name,
            match message@ {
                MessageView::Progress(p) => {
                    &&& !r
                    &&& final(self)@ == (ModelView { progress: p, ..old(self)@ })
                },
                MessageView::PartialSnapshot(snapshot) => {
                    &&& r
                    &&& final(self)@.library == old(self)@.library.union_prefer_right(snapshot)
                    &&& final(self)@.is_updating == old(self)@.is_updating
                    &&& final(self)@.progress == old(self)@.progress
                },
                MessageView::Complete(found) => {
                    &&& r
                    &&& final(self)@.library == found
                    &&& !final(self)@.is_updating
                    &&& final(self)@.progress == old(self)@.progress
                },
            },
    {
        let mut taken = LibraryModel::new(self.sort_by, self.sort_direction);
        std::mem::swap(self, &mut taken);
        proof {
            use_type_invariant(&taken);
        }
        let LibraryModel {
            mut library,
            mut playlist,
            sort_by,
            sort_direction,
            mut is_updating,
            mut progress,
        } = taken;
        let changed = match message {
            ScanMessage::Progress(p) => {
                progress = p;
                false
            },
            ScanMessage::PartialSnapshot(snapshot) => {
                library.merge(&snapshot);
                mirror(&mut playlist, &library, sort_by, sort_direction);
                true
            },
            ScanMessage::Complete(found) => {
                library = found;
                is_updating = false;
                mirror(&mut playlist, &library, sort_by, sort_direction);
                true
            },
        };
        proof {
            use_type_invariant(&library);
            library.lemma_entries();
        }
        *self = LibraryModel { library, playlist, sort_by, sort_direction, is_updating, progress };
        changed
    }

    /// Sorts the playlist by `sort_by` in the direction `sort_direction`,
    /// and keeps sorting it so.
    pub fn set_sort(&mut self, sort_by: SortBy, sort_direction: SortDirection)
        ensures
            final(self)@.valid(),
            final(self)@ == (ModelView {
                playlist: final(self)@.playlist,
                sort_by,
                sort_direction,
                ..old(self)@
            }),
            final(self)@.playlist.id == old(self)@.playlist.id,
            final(self)@.playlist.name == old(self)@.playlist.name,
    {
        let mut taken = LibraryModel::new(sort_by, sort_direction);
        std::mem::swap(self, &mut taken);
        proof {
            use_type_invariant(&taken);
        }
        let LibraryModel {
            library,
            mut playlist,
            sort_by: _,
            sort_direction: _,
            is_updating,
            progress,
        } = taken;
        mirror(&mut playlist, &library, sort_by, sort_direction);
        proof {
            use_type_invariant(&library);
            library.lemma_entries();
        }
        *self = LibraryModel { library, playlist, sort_by, sort_direction, is_updating, progress };
    }
}

} // verus!
