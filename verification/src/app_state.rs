//! The settings and messages of a recognition session.

use crate::subtitle::SubtitleEntry;
use std::path::PathBuf;
use crate::time::{display_time_text, format_time};
use vstd::prelude::*;

verus! {

/// What the session is doing.
#[derive(Debug, Clone, Copy, PartialEq, Eq, Structural)]
pub enum AppState {
    Idle,
    AudioExtracted,
    Processing,
}

impl Default for AppState {
    fn default() -> (r: Self)
        ensures
            r == AppState::Idle,
    {
        AppState::Idle
    }
}

/// What a recognition run reports while it works.
#[derive(Debug, Clone)]
pub enum ProgressMessage {
    /// `current` of `total` segments are done.
    Progress { current: usize, total: usize },
    /// The text recognised in segment number `segment`, counted from one.
    Result { segment: usize, text: String },
    /// A line of output of the recognition engine.
    RealtimeOutput(String),
    /// The run has ended.
    Completed,
    /// Something failed; the run goes on.
    Error(String),
}

/// What a progress message stands for.
pub enum Report {
    Progress { current: nat, total: nat },
    Result { segment: nat, text: Seq<char> },
    RealtimeOutput(Seq<char>),
    Completed,
    Error(Seq<char>),
}

impl View for ProgressMessage {
    type V = Report;

    open spec fn view(&self) -> Report {
        match self {
            ProgressMessage::Progress { current, total } => Report::Progress {
                current: *current as nat,
                total: *total as nat,
            },
            ProgressMessage::Result { segment, text } => Report::Result {
                segment: *segment as nat,
                text: text@,
            },
            ProgressMessage::RealtimeOutput(line) => Report::RealtimeOutput(line@),
            ProgressMessage::Completed => Report::Completed,
            ProgressMessage::Error(reason) => Report::Error(reason@),
        }
    }
}

/// What a list of progress messages stands for.
pub open spec fn reports(messages: Seq<ProgressMessage>) -> Seq<Report> {
    messages.map_values(|m: ProgressMessage| m@)
}

/// The size of the recognition model.
#[derive(Debug, Clone, Copy, PartialEq, Eq, Structural)]
pub enum WhisperModel {
    Tiny,
    Base,
    Small,
    Medium,
    Large,
    Turbo,
}

impl Default for WhisperModel {
    fn default() -> (r: Self)
        ensures
            r == WhisperModel::Base,
    {
        WhisperModel::Base
    }
}

/// The name by which the recognition engine knows a model.
pub open spec fn model_name(model: WhisperModel) -> Seq<char> {
    match model {
        WhisperModel::Tiny => "tiny"@,
        WhisperModel::Base => "base"@,
        WhisperModel::Small => "small"@,
        WhisperModel::Medium => "medium"@,
        WhisperModel::Large => "large"@,
        WhisperModel::Turbo => "turbo"@,
    }
}

/// The models in the order in which they are offered.
pub open spec fn all_models() -> Seq<WhisperModel> {
    seq![
        WhisperModel::Tiny,
        WhisperModel::Base,
        WhisperModel::Small,
        WhisperModel::Medium,
        WhisperModel::Large,
        WhisperModel::Turbo,
    ]
}

impl WhisperModel {
    /// The name by which the recognition engine knows this model.
    pub fn as_str(&self) -> (r: &str)
        ensures
            r@ == model_name(*self),
    {
        match self {
            WhisperModel::Tiny => "tiny",
            WhisperModel::Base => "base",
            WhisperModel::Small => "small",
            WhisperModel::Medium => "medium",
            WhisperModel::Large => "large",
            WhisperModel::Turbo => "turbo",
        }
    }

    /// Every model, from the smallest to the fastest.
    pub fn all() -> (r: Vec<WhisperModel>)
        ensures
            r@ == all_models(),
    {
        let mut r: Vec<WhisperModel> = Vec::new();
        r.push(WhisperModel::Tiny);
        r.push(WhisperModel::Base);
        r.push(WhisperModel::Small);
        r.push(WhisperModel::Medium);
        r.push(WhisperModel::Large);
        r.push(WhisperModel::Turbo);
        assert(r@ =~= all_models());
        r
    }
}

/// The language of the speech.
#[derive(Debug, Clone, PartialEq, Eq, Structural)]
pub enum WhisperLanguage {
    /// Left to the recognition engine to detect.
    Unknown,
    Japanese,
    English,
    Chinese,
    French,
    German,
    Spanish,
    Italian,
    Russian,
    /// A language named by a code that the user types.
    Custom,
}

impl Default for WhisperLanguage {
    fn default() -> (r: Self)
        ensures
            r == WhisperLanguage::Unknown,
    {
        WhisperLanguage::Unknown
    }
}

/// The name under which a language is offered.
pub open spec fn language_name(language: WhisperLanguage) -> Seq<char> {
    match language {
        WhisperLanguage::Unknown => "Auto Detect"@,
        WhisperLanguage::Japanese => "Japanese"@,
        WhisperLanguage::English => "English"@,
        WhisperLanguage::Chinese => "Chinese"@,
        WhisperLanguage::French => "French"@,
        WhisperLanguage::German => "German"@,
        WhisperLanguage::Spanish => "Spanish"@,
        WhisperLanguage::Italian => "Italian"@,
        WhisperLanguage::Russian => "Russian"@,
        WhisperLanguage::Custom => "Custom (Manual Input)"@,
    }
}

/// The languages in the order in which they are offered.
pub open spec fn all_languages() -> Seq<WhisperLanguage> {
    seq![
        WhisperLanguage::Unknown,
        WhisperLanguage::English,
        WhisperLanguage::Chinese,
        WhisperLanguage::Japanese,
        WhisperLanguage::French,
        WhisperLanguage::German,
        WhisperLanguage::Spanish,
        WhisperLanguage::Italian,
        WhisperLanguage::Russian,
        WhisperLanguage::Custom,
    ]
}

/// The code handed to the recognition engine for a language: none where
/// the engine is to detect it, the typed code for a custom language unless
/// that is empty, and the two-letter code otherwise.
pub open spec fn language_code(language: WhisperLanguage, custom_code: Seq<char>) -> Option<
    Seq<char>,
> {
    match language {
        WhisperLanguage::Unknown => None,
        WhisperLanguage::Japanese => Some("ja"@),
        WhisperLanguage::English => Some("en"@),
        WhisperLanguage::Chinese => Some("zh"@),
        WhisperLanguage::French => Some("fr"@),
        WhisperLanguage::German => Some("de"@),
        WhisperLanguage::Spanish => Some("es"@),
        WhisperLanguage::Italian => Some("it"@),
        WhisperLanguage::Russian => Some("ru"@),
        WhisperLanguage::Custom => if custom_code.len() == 0 {
            None
        } else {
            Some(custom_code)
        },
    }
}

/// Whether `r` is the code `code`.
pub open spec fn is_code(r: Option<&str>, code: Option<Seq<char>>) -> bool {
    match code {
        Some(c) => r is Some && r->Some_0@ == c,
        None => r is None,
    }
}

impl WhisperLanguage {
    /// The name under which this language is offered.
    pub fn as_str(&self) -> (r: &str)
        ensures
            r@ == language_name(*self),
    {
        match self {
            WhisperLanguage::Unknown => "Auto Detect",
            WhisperLanguage::Japanese => "Japanese",
            WhisperLanguage::English => "English",
            WhisperLanguage::Chinese => "Chinese",
            WhisperLanguage::French => "French",
            WhisperLanguage::German => "German",
            WhisperLanguage::Spanish => "Spanish",
            WhisperLanguage::Italian => "Italian",
            WhisperLanguage::Russian => "Russian",
            WhisperLanguage::Custom => "Custom (Manual Input)",
        }
    }

    /// Every language that is offered, automatic detection first and the
    /// custom language last.
    pub fn all() -> (r: Vec<WhisperLanguage>)
        ensures
            r@ == all_languages(),
    {
        let mut r: Vec<WhisperLanguage> = Vec::new();
        r.push(WhisperLanguage::Unknown);
        r.push(WhisperLanguage::English);
        r.push(WhisperLanguage::Chinese);
        r.push(WhisperLanguage::Japanese);
        r.push(WhisperLanguage::French);
        r.push(WhisperLanguage::German);
        r.push(WhisperLanguage::Spanish);
        r.push(WhisperLanguage::Italian);
        r.push(WhisperLanguage::Russian);
        r.push(WhisperLanguage::Custom);
        assert(r@ =~= all_languages());
        r
    }

    /// The code handed to the recognition engine for this language, where
    /// `custom_code` is what the user typed for a custom language.
    pub fn to_code<'a>(&self, custom_code: &'a str) -> (r: Option<&'a str>)
        ensures
            is_code(r, language_code(*self, custom_code@)),
    {
        match self {
            WhisperLanguage::Unknown => None,
            WhisperLanguage::Japanese => Some("ja"),
            WhisperLanguage::English => Some("en"),
            WhisperLanguage::Chinese => Some("zh"),
            WhisperLanguage::French => Some("fr"),
            WhisperLanguage::German => Some("de"),
            WhisperLanguage::Spanish => Some("es"),
            WhisperLanguage::Italian => Some("it"),
            WhisperLanguage::Russian => Some("ru"),
            WhisperLanguage::Custom => {
                if custom_code.is_empty() {
                    None
                } else {
                    Some(custom_code)
                }
            },
        }
    }
}

/// How the speech is cut up for recognition.
#[derive(Debug, Clone, Copy, PartialEq, Eq, Structural)]
pub enum RecognitionMode {
    /// Segment by segment, as cut by the user.
    Normal,
    /// Cut by voice activity detection.
    VAD,
}

impl Default for RecognitionMode {
    fn default() -> (r: Self)
        ensures
            r == RecognitionMode::Normal,
    {
        RecognitionMode::Normal
    }
}

/// The state of a session on one recording, as far as it is plain data.
/// Positions and durations are in milliseconds.
#[derive(Debug)]
pub struct WhisperApp {
    /// The recording, the sound taken from it, and the subtitle file.
    pub video_path: Option<PathBuf>,
    pub audio_path: Option<PathBuf>,
    pub srt_path: Option<PathBuf>,
    pub state: AppState,
    pub status_message: String,
    pub is_playing: bool,
    pub current_position: u64,
    pub total_duration: u64,
    /// The cut points, ascending and without duplicates.
    pub cut_points: Vec<u64>,
    pub whisper_model: WhisperModel,
    pub whisper_language: WhisperLanguage,
    pub custom_language_code: String,
    pub recognition_mode: RecognitionMode,
    /// The sound files of the segments, in the order of the segments.
    pub audio_segments: Vec<PathBuf>,
    /// The progress of the run: so many segments of so many are done.
    pub processing_done: usize,
    pub processing_total: usize,
    pub processing_status: String,
    pub recognition_results: Vec<String>,
    /// The window of the manual cut, as typed.
    pub manual_start_time: String,
    pub manual_end_time: String,
    pub manual_segment: Option<PathBuf>,
    pub workspace_dir: Option<PathBuf>,
    pub can_resume: bool,
    pub missing_segments: Vec<usize>,
    pub completed_segments: Vec<usize>,
    pub subtitles: Vec<SubtitleEntry>,
    pub selected_subtitle_index: Option<usize>,
}

impl Default for WhisperApp {
    fn default() -> (app: Self)
        ensures
            app.video_path is None,
            app.audio_path is None,
            app.srt_path is None,
            app.manual_segment is None,
            app.workspace_dir is None,
            app.state == AppState::Idle,
            app.status_message@.len() == 0,
            !app.is_playing,
            app.current_position == 0,
            app.total_duration == 0,
            app.cut_points@.len() == 0,
            app.whisper_model == WhisperModel::Base,
            app.whisper_language == WhisperLanguage::Unknown,
            app.custom_language_code@.len() == 0,
            app.recognition_mode == RecognitionMode::Normal,
            app.audio_segments@.len() == 0,
            app.processing_done == 0,
            app.processing_total == 0,
            app.processing_status@.len() == 0,
            app.recognition_results@.len() == 0,
            app.manual_start_time@.len() == 0,
            app.manual_end_time@.len() == 0,
            !app.can_resume,
            app.missing_segments@.len() == 0,
            app.completed_segments@.len() == 0,
            app.subtitles@.len() == 0,
            app.selected_subtitle_index is None,
    {
        WhisperApp {
            video_path: None,
            audio_path: None,
            srt_path: None,
            manual_segment: None,
            workspace_dir: None,
            state: AppState::Idle,
            status_message: String::new(),
            is_playing: false,
            current_position: 0,
            total_duration: 0,
            cut_points: Vec::new(),
            whisper_model: WhisperModel::Base,
            whisper_language: WhisperLanguage::Unknown,
            custom_language_code: String::new(),
            recognition_mode: RecognitionMode::Normal,
            audio_segments: Vec::new(),
            processing_done: 0,
            processing_total: 0,
            processing_status: String::new(),
            recognition_results: Vec::new(),
            manual_start_time: String::new(),
            manual_end_time: String::new(),
            can_resume: false,
            missing_segments: Vec::new(),
            completed_segments: Vec::new(),
            subtitles: Vec::new(),
            selected_subtitle_index: None,
        }
    }
}

impl WhisperApp {
    /// Writes `ms` milliseconds as shown to the user, `HH:MM:SS.mmm`.
    pub fn format_time(ms: u64) -> (r: String)
        ensures
            r@ == display_time_text(ms as nat),
    {
        format_time(ms)
    }
}

} // verus!
