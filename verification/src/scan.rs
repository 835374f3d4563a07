//! The library scan: which files are taken, what is recorded of each, and
//! which messages a scan sends while it runs.

pub mod candidates;
pub mod extraction;
pub mod progress;
pub mod scanner;

pub use candidates::{is_audio_candidate, seed, FoundFile, MIN_AUDIO_SIZE};
pub use extraction::{
    metadata_for, ArtworkWrite, Extraction, Recorded, Tags, EXTRACTION_TIMEOUT_SECONDS,
};
pub use progress::{percent, Progress, PROGRESS_INTERVAL_MS, SNAPSHOT_INTERVAL_MS};
pub use scanner::{
    completion_messages, ExtractJob, MessageView, ScanMessage, ScanView, Scanner, StepOutcome,
};
