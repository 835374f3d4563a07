//! What reading the tags of a file gives, and the record that is made of it.

use vstd::prelude::*;
use crate::artwork::{artwork_name, track_id, track_id_of, ArtworkCache, ArtworkSample};
use crate::library::{MediaMetaData, MetaView};

verus! {

/// The tags of one file, as a tag reader hands them over.
#[derive(Debug)]
pub struct Tags {
    pub title: Option<String>,
    pub artist: Option<String>,
    pub album: Option<String>,
    pub album_artist: Option<String>,
    pub genre: Option<String>,
    pub album_disc_number: Option<u32>,
    pub album_disc_count: Option<u32>,
    pub track_number: Option<u32>,
    pub track_count: Option<u32>,
    /// Length of the track in milliseconds.
    pub duration_ms: Option<u64>,
    /// The picture embedded in the file.
    pub image: Option<ArtworkSample>,
    /// The preview picture embedded in the file.
    pub preview_image: Option<ArtworkSample>,
}

/// What reading the tags of one file gave.
#[derive(Debug)]
pub enum Extraction {
    /// The file could not be read: it is unreadable or of no known format,
    /// has no address, or the reader ran out of time.
    Failed,
    /// The file was read and carries no tags at all.
    Untagged,
    /// The file was read and carries tags.
    Tagged(Tags),
}

/// A picture that has to be written into the cache directory.
#[derive(Debug)]
pub struct ArtworkWrite {
    pub filename: String,
    pub bytes: Vec<u8>,
}

/// A file's metadata together with the picture to write for it.
#[derive(Debug)]
pub struct Recorded {
    /// The file's record; `None` where reading the file failed.
    pub meta: Option<MediaMetaData>,
    /// The picture to write, where the file carries one that the cache does
    /// not hold yet.
    pub artwork: Option<ArtworkWrite>,
}

/// The picture that stands for a file's artwork: the embedded picture, or
/// the preview picture where there is no other.
pub open spec fn chosen_sample(tags: Tags) -> Option<ArtworkSample> {
    if tags.image is Some {
        tags.image
    } else {
        tags.preview_image
    }
}

/// The name under which a picture is cached; `None` where there is no
/// picture, where it lacks its bytes or its media type, or where the cache
/// directory is not ready.
pub open spec fn sample_name(sample: Option<ArtworkSample>, dir_ready: bool) -> Option<Seq<char>> {
    match sample {
        Some(s) => if dir_ready && s.bytes is Some && s.mime is Some {
            Some(artwork_name(s.bytes->0@, s.mime->0@))
        } else {
            None
        },
        None => None,
    }
}

/// The record of the file at `path` for what reading it gave. A file that
/// could not be read has none. A file without tags gets its path as title,
/// so that it can still be told from others.
pub open spec fn metadata_of(
    path: Seq<char>,
    extraction: Extraction,
    dir_ready: bool,
) -> Option<MetaView> {
    match extraction {
        Extraction::Failed => None,
        Extraction::Untagged => Some(
            MetaView { id: Some(track_id_of(path)), title: Some(path), ..MetaView::empty() },
        ),
        Extraction::Tagged(tags) => Some(
            MetaView {
                id: Some(track_id_of(path)),
                title: tags.title.deep_view(),
                artist: tags.artist.deep_view(),
                album: tags.album.deep_view(),
                album_artist: tags.album_artist.deep_view(),
                genre: tags.genre.deep_view(),
                album_disc_number: tags.album_disc_number,
                album_disc_count: tags.album_disc_count,
                track_number: tags.track_number,
                track_count: tags.track_count,
                duration_ms: tags.duration_ms,
                artwork_filename: sample_name(chosen_sample(tags), dir_ready),
            },
        ),
    }
}

/// Whether `meta` is a record of the file at `path`: it is complete, and its
/// id is the one that belongs to the path.
pub open spec fn is_record_of(meta: MetaView, path: Seq<char>) -> bool {
    meta.is_complete() && meta.id == Some(track_id_of(path))
}

/// The picture of the tags that stands for the file's artwork, if any.
pub open spec fn artwork_of(extraction: Extraction) -> Option<ArtworkSample> {
    match extraction {
        Extraction::Tagged(tags) => chosen_sample(tags),
        _ => None,
    }
}

/// The files of the artwork cache once a file with this outcome is recorded.
pub open spec fn cache_after(
    files: Set<Seq<char>>,
    extraction: Extraction,
    dir_ready: bool,
) -> Set<Seq<char>> {
    match sample_name(artwork_of(extraction), dir_ready) {
        Some(name) => files.insert(name),
        None => files,
    }
}

/// Builds the record of the file at `path` from what reading it gave, and
/// passes its artwork, if it has any, through the cache.
pub fn metadata_for(
    path: &str,
    extraction: Extraction,
    artwork: &mut ArtworkCache,
    dir_ready: bool,
) -> (r: Recorded)
    ensures
        r.meta.deep_view() == metadata_of(path@, extraction, dir_ready),
        r.meta is Some <==> !(extraction is Failed),
        r.meta is Some ==> is_record_of(r.meta->0@, path@),
        final(artwork)@ == cache_after(old(artwork)@, extraction, dir_ready),
        match sample_name(artwork_of(extraction), dir_ready) {
            Some(name) => if old(artwork)@.contains(name) {
                r.artwork is None
            } else {
                r.artwork is Some && r.artwork->0.filename@ == name && r.artwork->0.bytes@
                    == artwork_of(extraction)->0.bytes->0@
            },
            None => r.artwork is None,
        },
{
    match extraction {
        Extraction::Failed => Recorded { meta: None, artwork: None },
        Extraction::Untagged => {
            let mut meta = MediaMetaData::new();
            meta.id = Some(track_id(path));
            meta.title = Some(path.to_owned());
            Recorded { meta: Some(meta), artwork: None }
        },
        Extraction::Tagged(tags) => {
            let Tags {
                title,
                artist,
                album,
                album_artist,
                genre,
                album_disc_number,
                album_disc_count,
                track_number,
                track_count,
                duration_ms,
                image,
                preview_image,
            } = tags;
            let sample = if image.is_some() {
                image
            } else {
                preview_image
            };
            let mut artwork_filename: Option<String> = None;
            let mut write: Option<ArtworkWrite> = None;
            match sample {
                Some(picture) => {
                    match artwork.cache_image(&picture, dir_ready) {
                        Some(plan) => {
                            if plan.write {
                                let ArtworkSample { bytes, mime: _ } = picture;
                                write = Some(
                                    ArtworkWrite {
                                        filename: plan.filename.clone(),
                                        bytes: bytes.unwrap(),
                                    },
                                );
                            }
                            artwork_filename = Some(plan.filename);
                        },
                        None => {},
                    }
                },
                None => {},
            }
            let meta = MediaMetaData {
                id: Some(track_id(path)),
                title,
                artist,
                album,
                album_artist,
                genre,
                album_disc_number,
                album_disc_count,
                track_number,
                track_count,
                duration_ms,
                artwork_filename,
            };
            Recorded { meta: Some(meta), artwork: write }
        },
    }
}

/// The tag reader may take this many seconds for one file; a file that takes
/// longer counts as one that cannot be read.
pub const EXTRACTION_TIMEOUT_SECONDS: u64 = 5;

} // verus!
