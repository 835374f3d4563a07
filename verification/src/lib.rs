//! The data model and the scan pipeline of a music library.
//!
//! A scan walks the roots of the library, takes the audio files, reads the
//! tags of each and sends what it finds, bit by bit, to whoever started it.
//! This crate holds what a scan decides and records: which files are taken
//! ([`scan::candidates`]), what is made of a file's tags
//! ([`scan::extraction`]), the bookkeeping of the scan and its messages
//! ([`scan::scanner`]), the library and the playlists the results end up in
//! ([`library`], [`playlist`], [`model`]), the stable sort of a playlist
//! ([`sorting`], [`merge_sort`]), and the content-addressed artwork cache
//! ([`artwork`], [`image_store`]).
//!
//! Walking directories, reading tags, and reading and writing files are left
//! to the caller, who hands over plain values and gets plain values back.

pub mod artwork;
pub mod config;
pub mod image_store;
pub mod library;
pub mod merge_sort;
pub mod model;
pub mod names;
pub mod order;
pub mod playlist;
pub mod scan;
pub mod sorting;

pub use artwork::{ArtworkCache, ArtworkSample};
pub use config::{AppTheme, Config};
pub use image_store::ImageStore;
pub use library::{Library, MediaMetaData};
pub use model::LibraryModel;
pub use playlist::{Playlist, PlaylistKind};
pub use scan::{Extraction, Progress, ScanMessage, Scanner};
pub use sorting::{SortBy, SortDirection};
