//! Playlists: a named, ordered list of tracks that can be sorted in place.

use vstd::prelude::*;
use crate::library::{Track, TrackView};
use crate::merge_sort::sorted_tracks;
use crate::sorting::{is_stable_sort_of, SortBy, SortDirection};

verus! {

/// Whether a playlist mirrors the scanned library or was made by the user.
#[derive(Clone, Copy, Debug, PartialEq, Eq, Structural)]
pub enum PlaylistKind {
    Library,
    User,
}

/// The id of the playlist that mirrors the library. It is reserved: no user
/// playlist has it.
pub const LIBRARY_PLAYLIST_ID: u32 = 0;

/// How often a draw of the reserved id is replaced by a new one before a
/// playlist id is settled without the generator.
pub const ID_REDRAWS: u32 = 64;

/// Copies a track.
pub fn copy_track(track: &Track) -> (r: Track)
    ensures
        r.deep_view() == track.deep_view(),
{
    (track.0.clone(), track.1.clone())
}

/// Copies a list of tracks.
pub fn copy_tracks(tracks: &[Track]) -> (r: Vec<Track>)
    ensures
        r.deep_view() == tracks.deep_view(),
{
    let mut out: Vec<Track> = Vec::new();
    let mut i: usize = 0;
    while i < tracks.len()
        invariant
            i <= tracks.len(),
            out.deep_view() == tracks.deep_view().take(i as int),
        decreases tracks.len() - i,
    {
        let ghost before = out.deep_view();
        out.push(copy_track(&tracks[i]));
        assert(out.deep_view() =~= before.push(tracks[i as int].deep_view()));
        assert(tracks.deep_view().take(i + 1) =~= before.push(tracks[i as int].deep_view()));
        i += 1;
    }
    assert(tracks.deep_view().take(i as int) =~= tracks.deep_view());
    out
}

/// Draws a 32-bit number from the thread-local generator of the `rand`
/// crate (`rand::rng()`, then `Rng::random`). Nothing is claimed of the
/// number drawn. The call fails only where the operating system gives the
/// generator no seed.
#[verifier::external_body]
fn draw_u32() -> u32 {
    rand::Rng::random(&mut rand::rng())
}

/// An ordered, named list of tracks.
#[derive(Debug)]
pub struct Playlist {
    id: u32,
    name: String,
    kind: PlaylistKind,
    tracks: Vec<Track>,
}

/// The mathematical value of a [`Playlist`].
pub ghost struct PlaylistView {
    pub id: u32,
    pub name: Seq<char>,
    pub kind: PlaylistKind,
    pub tracks: Seq<TrackView>,
}

impl View for Playlist {
    type V = PlaylistView;

    closed spec fn view(&self) -> PlaylistView {
        PlaylistView {
            id: self.id,
            name: self.name@,
            kind: self.kind,
            tracks: self.tracks.deep_view(),
        }
    }
}

impl Clone for Playlist {
    fn clone(&self) -> (r: Self)
        ensures
            r@ == self@,
    {
        Playlist {
            id: self.id,
            name: self.name.clone(),
            kind: self.kind,
            tracks: copy_tracks(self.tracks.as_slice()),
        }
    }
}

impl Playlist {
    /// A user playlist with the id `draw`, unless `draw` is the id reserved
    /// for the library playlist, which is zero: then there is no playlist,
    /// and the name is handed back for another draw.
    pub fn from_draw(draw: u32, name: String) -> (r: Result<Playlist, String>)
        ensures
            draw != LIBRARY_PLAYLIST_ID ==> r is Ok && r->Ok_0@ == (PlaylistView {
                id: draw,
                name: name@,
                kind: PlaylistKind::User,
                tracks: Seq::empty(),
            }),
            draw == LIBRARY_PLAYLIST_ID ==> r is Err && r->Err_0@ == name@,
    {
        if draw == LIBRARY_PLAYLIST_ID {
            Err(name)
        } else {
            let p = Playlist { id: draw, name, kind: PlaylistKind::User, tracks: Vec::new() };
            assert(p.tracks.deep_view() =~= Seq::<TrackView>::empty());
            Ok(p)
        }
    }

    /// An empty user playlist with a random id that is never zero, the id
    /// reserved for the library playlist.
    ///
    /// A zero draw is replaced by a new draw, at most [`ID_REDRAWS`] times;
    /// should the generator give nothing but zeros, the id is 1. No check is
    /// made against the ids of other user playlists.
    pub fn new(name: String) -> (p: Playlist)
        ensures
            p@.id != 0,
            p@.id != LIBRARY_PLAYLIST_ID,
            p@.name == name@,
            p@.kind == PlaylistKind::User,
            p@.tracks == Seq::<TrackView>::empty(),
    {
        let ghost wanted = name@;
        let mut label = name;
        let mut left: u32 = ID_REDRAWS;
        loop
            invariant
                label@ == wanted,
                wanted == name@,
            decreases left,
        {
            match Playlist::from_draw(draw_u32(), label) {
                Ok(p) => {
                    return p;
                },
                Err(back) => {
                    label = back;
                },
            }
            if left == 0 {
                break;
            }
            left -= 1;
        }
        let p = Playlist { id: 1, name: label, kind: PlaylistKind::User, tracks: Vec::new() };
        assert(p.tracks.deep_view() =~= Seq::<TrackView>::empty());
        p
    }

    /// The empty playlist that mirrors the library. Its id is the reserved
    /// one, zero, which no user playlist ever gets.
    pub fn library() -> (p: Playlist)
        ensures
            p@ == (PlaylistView {
                id: LIBRARY_PLAYLIST_ID,
                name: "Library"@,
                kind: PlaylistKind::Library,
                tracks: Seq::empty(),
            }),
    {
        let p = Playlist {
            id: LIBRARY_PLAYLIST_ID,
            name: "Library".to_owned(),
            kind: PlaylistKind::Library,
            tracks: Vec::new(),
        };
        assert(p.tracks.deep_view() =~= Seq::<TrackView>::empty());
        p
    }

    /// Removes every track.
    pub fn clear(&mut self)
        ensures
            final(self)@ == (PlaylistView { tracks: Seq::empty(), ..old(self)@ }),
    {
        self.tracks.clear();
        assert(self.tracks.deep_view() =~= Seq::<TrackView>::empty());
    }

    /// Whether this is the playlist that mirrors the library.
    pub fn is_library(&self) -> (r: bool)
        ensures
            r == (self@.kind == PlaylistKind::Library),
    {
        match self.kind {
            PlaylistKind::Library => true,
            PlaylistKind::User => false,
        }
    }

    pub fn id(&self) -> (r: u32)
        ensures
            r == self@.id,
    {
        self.id
    }

    pub fn name(&self) -> (r: &str)
        ensures
            r@ == self@.name,
    {
        self.name.as_str()
    }

    /// Renames the playlist; its id stays.
    pub fn set_name(&mut self, name: String)
        ensures
            final(self)@ == (PlaylistView { name: name@, ..old(self)@ }),
    {
        self.name = name
    }

    pub fn tracks(&self) -> (r: &[Track])
        ensures
            r.deep_view() == self@.tracks,
    {
        let r = self.tracks.as_slice();
        assert(r.deep_view() =~= self.tracks.deep_view());
        r
    }

    pub fn len(&self) -> (r: usize)
        ensures
            r == self@.tracks.len(),
    {
        self.tracks.len()
    }

    /// Sorts the tracks in place by the key `by` in the direction `dir`.
    ///
    /// The sort is stable: the result is in order, and for every key the
    /// tracks that carry it are those of before, in the order they had.
    pub fn sort(&mut self, sort_by: SortBy, sort_direction: SortDirection)
        ensures
            is_stable_sort_of(final(self)@.tracks, old(self)@.tracks, sort_by, sort_direction),
            final(self)@.id == old(self)@.id,
            final(self)@.name == old(self)@.name,
            final(self)@.kind == old(self)@.kind,
    {
        let mut tracks: Vec<Track> = Vec::new();
        std::mem::swap(&mut self.tracks, &mut tracks);
        self.tracks = sorted_tracks(tracks, sort_by, sort_direction);
    }

    /// Appends a track. A path may occur more than once.
    pub fn push(&mut self, media: Track)
        ensures
            final(self)@ == (PlaylistView {
                tracks: old(self)@.tracks.push(media.deep_view()),
                ..old(self)@
            }),
    {
        self.tracks.push(media);
        assert(self.tracks.deep_view() =~= old(self).tracks.deep_view().push(media.deep_view()));
    }

    /// Removes the track at `index`; the tracks after it move up.
    pub fn remove(&mut self, index: usize)
        requires
            index < old(self)@.tracks.len(),
        ensures
            final(self)@ == (PlaylistView {
                tracks: old(self)@.tracks.remove(index as int),
                ..old(self)@
            }),
    {
        self.tracks.remove(index);
        assert(self.tracks.deep_view() =~= old(self).tracks.deep_view().remove(index as int));
    }
}

} // verus!
