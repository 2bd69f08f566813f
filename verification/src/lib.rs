//! Bookkeeping for the recognition of speech in long recordings, segment by
//! segment, and for the one subtitle track that the results are merged
//! into.
//!
//! A recording is cut at cut points into segments. A recognition engine
//! writes a subtitle fragment for each segment, with times counted from
//! the segment's start. The fragments are merged into one track on the
//! recording's clock, in ascending order of time and numbered from one.
//! Which segments are done is told from the presence of their fragments
//! alone, so that an interrupted run can be resumed with the missing ones.
//! A window of the recording can be recognised again; its new subtitles
//! replace whatever the track held there.
//!
//! All times are whole milliseconds. Contracts are stated over sequences
//! of characters and over `Cue`, what a subtitle entry stands for, and are
//! proved with Verus. The library reads no file and starts no process: it
//! is handed texts and the outcomes of what was done outside.

pub mod app_logic;
pub mod app_state;
pub mod ffmpeg;
pub mod manual_cut;
pub mod recognition;
pub mod resume;
pub mod srt_merger;
pub mod subtitle;
pub mod text;
pub mod time;
pub mod timeline;
pub mod vad_recognition;
pub mod whisper;
pub mod workspace;
pub mod written_track;
