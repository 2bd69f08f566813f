//! What a session does to its state: marking cut points, editing the
//! track, starting and resuming runs, and taking in what a run reports.

use crate::app_state::{AppState, ProgressMessage, RecognitionMode, Report, WhisperApp};
use crate::manual_cut::{reconcile_range, reconciled};
use crate::recognition::RecognitionRun;
use crate::resume::{positions_of, scan_completion};
use crate::subtitle::{
    cues, numbered_from_one, parse_srt_content, parse_track, reindex_subtitles, renumbered,
    SubtitleEntry,
};
use crate::text::{
    chars_of, decimal_text, lemma_decimal_text_value, push_padded, push_str_chars, string_of, texts,
};
use crate::time::{
    flexible_time_value, parse_time_string, time_error_text, time_result, TimeError,
};
use crate::timeline::{
    add_cut_point, cut_points_valid, derive_offsets, remove_cut_point, segments_of,
    strictly_ascending, valid_cut_points, with_cut_point, Segment,
};
use crate::workspace::{copy_path, copy_paths, WorkspaceState};
use std::path::PathBuf;
use vstd::prelude::*;

verus! {

/// The status while segment `current` of `total` has just been recognised.
pub open spec fn progress_text(current: nat, total: nat) -> Seq<char> {
    "识别片段 "@ + decimal_text(current) + "/"@ + decimal_text(total)
}

/// The line that shows what was recognised in a segment.
pub open spec fn result_text(segment: nat, text: Seq<char>) -> Seq<char> {
    "片段 "@ + decimal_text(segment) + ": "@ + text
}

/// The line that shows a failure.
pub open spec fn error_text(reason: Seq<char>) -> Seq<char> {
    "❌ 错误: "@ + reason
}

/// The status when a run resumes with `done` of `total` segments complete.
pub open spec fn resume_text(done: nat, total: nat) -> Seq<char> {
    "从 "@ + decimal_text(done) + "/"@ + decimal_text(total) + " 片段恢复..."@
}

/// The window that two typed times denote: where it starts and how long
/// it lasts. There is none where a time cannot be read (the start is
/// looked at first), nor where the start is not before the end.
pub open spec fn window_of(start: Seq<char>, end: Seq<char>) -> Result<Segment, TimeError> {
    match (time_result(flexible_time_value(start)), time_result(flexible_time_value(end))) {
        (Ok(a), Ok(b)) => if a < b {
            Ok(Segment { offset: a, duration: (b - a) as u64 })
        } else {
            Err(TimeError::InvalidInterval)
        },
        (Ok(_), Err(e)) => Err(e),
        (Err(e), _) => Err(e),
    }
}

/// The status that tells why the manual cut cannot be recognised.
pub open spec fn refusal_text(e: TimeError) -> Seq<char> {
    "识别失败: "@ + time_error_text(e)
}

/// Appends the shortest decimal notation of `n` to `out`.
fn push_number(out: &mut Vec<char>, n: usize)
    ensures
        final(out)@ == old(out)@ + decimal_text(n as nat),
{
    proof {
        lemma_decimal_text_value(n as nat);
    }
    push_padded(out, n as u64, 1);
}

impl WhisperApp {
    /// Marks a cut point at the current position, unless there is one
    /// already. Ascending cut points stay ascending.
    pub fn add_cut_point(&mut self)
        ensures
            final(self).cut_points@ == with_cut_point(
                old(self).cut_points@,
                old(self).current_position,
            ),
            strictly_ascending(old(self).cut_points@) ==> strictly_ascending(
                final(self).cut_points@,
            ),
            *final(self) == (WhisperApp { cut_points: final(self).cut_points, ..*old(self) }),
    {
        add_cut_point(&mut self.cut_points, self.current_position);
    }

    /// Takes out the cut point at place `index`, counted from zero; does
    /// nothing where there is none.
    pub fn remove_cut_point(&mut self, index: usize)
        ensures
            index < old(self).cut_points@.len() ==> final(self).cut_points@
                == old(self).cut_points@.remove(index as int),
            index >= old(self).cut_points@.len() ==> final(self).cut_points@
                == old(self).cut_points@,
            strictly_ascending(old(self).cut_points@) ==> strictly_ascending(
                final(self).cut_points@,
            ),
            *final(self) == (WhisperApp { cut_points: final(self).cut_points, ..*old(self) }),
    {
        remove_cut_point(&mut self.cut_points, index);
    }

    /// Deletes the subtitle at place `index`, counted from zero, and numbers
    /// the others from one; does nothing where there is none.
    pub fn delete_subtitle(&mut self, index: usize)
        ensures
            index < old(self).subtitles@.len() ==> cues(final(self).subtitles@) == renumbered(
                cues(old(self).subtitles@).remove(index as int),
            ) && numbered_from_one(cues(final(self).subtitles@)),
            index >= old(self).subtitles@.len() ==> final(self).subtitles@ == old(self).subtitles@,
            *final(self) == (WhisperApp { subtitles: final(self).subtitles, ..*old(self) }),
    {
        if index < self.subtitles.len() {
            let ghost before = cues(self.subtitles@);
            self.subtitles.remove(index);
            assert(cues(self.subtitles@) =~= before.remove(index as int));
            reindex_subtitles(&mut self.subtitles);
        }
    }

    /// Tells the completed segments from the missing ones anew, where
    /// `has_fragment` says of each segment whether its fragment is there,
    /// and offers to resume where there are some of both.
    pub fn check_missing_subtitles(&mut self, has_fragment: &Vec<bool>)
        ensures
            final(self).completed_segments@ == positions_of(has_fragment@, true),
            final(self).missing_segments@ == positions_of(has_fragment@, false),
            final(self).can_resume == (final(self).completed_segments@.len() > 0
                && final(self).missing_segments@.len() > 0),
            *final(self) == (WhisperApp {
                completed_segments: final(self).completed_segments,
                missing_segments: final(self).missing_segments,
                can_resume: final(self).can_resume,
                ..*old(self)
            }),
    {
        let record = scan_completion(has_fragment);
        self.completed_segments = record.completed;
        self.missing_segments = record.missing;
        self.can_resume = record.can_resume;
    }
}

/// What the state is after the message `report` of a run was taken in.
pub open spec fn after_report(app: WhisperApp, report: Report, next: WhisperApp) -> bool {
    match report {
        Report::Progress { current, total } => {
            &&& next.processing_status@ == progress_text(current, total)
            &&& next.processing_done == current
            &&& next.processing_total == total
            &&& next == (WhisperApp {
                processing_status: next.processing_status,
                processing_done: next.processing_done,
                processing_total: next.processing_total,
                ..app
            })
        },
        Report::Result { segment, text } => {
            &&& texts(next.recognition_results@) == texts(app.recognition_results@).push(
                result_text(segment, text),
            )
            &&& next == (WhisperApp { recognition_results: next.recognition_results, ..app })
        },
        Report::RealtimeOutput(line) => {
            &&& texts(next.recognition_results@) == texts(app.recognition_results@).push(line)
            &&& next == (WhisperApp { recognition_results: next.recognition_results, ..app })
        },
        Report::Completed => {
            &&& next.state == AppState::AudioExtracted
            &&& next.status_message@ == "识别完成!"@
            &&& next == (WhisperApp {
                state: next.state,
                status_message: next.status_message,
                ..app
            })
        },
        Report::Error(reason) => {
            &&& texts(next.recognition_results@) == texts(app.recognition_results@).push(
                error_text(reason),
            )
            &&& next == (WhisperApp { recognition_results: next.recognition_results, ..app })
        },
    }
}

impl WhisperApp {
    /// Adds a line to the results shown.
    fn push_result(&mut self, line: String)
        ensures
            texts(final(self).recognition_results@) == texts(old(self).recognition_results@).push(
                line@,
            ),
            *final(self) == (WhisperApp {
                recognition_results: final(self).recognition_results,
                ..*old(self)
            }),
    {
        let ghost before = self.recognition_results@;
        self.recognition_results.push(line);
        assert(texts(before.push(line)) =~= texts(before).push(line@));
    }

    /// Takes in a message of the run and tells whether the run has ended.
    /// Progress becomes the status of the run; results, engine output and
    /// failures become lines of the results shown; the end of the run ends
    /// the processing.
    pub fn handle_message(&mut self, message: ProgressMessage) -> (ended: bool)
        ensures
            after_report(*old(self), message@, *final(self)),
            ended == (message@ is Completed),
    {
        match message {
            ProgressMessage::Progress { current, total } => {
                let mut line: Vec<char> = Vec::new();
                push_str_chars(&mut line, "识别片段 ");
                push_number(&mut line, current);
                push_str_chars(&mut line, "/");
                push_number(&mut line, total);
                assert(line@ =~= progress_text(current as nat, total as nat));
                self.processing_status = string_of(&line);
                self.processing_done = current;
                self.processing_total = total;
                false
            },
            ProgressMessage::Result { segment, text } => {
                let mut line: Vec<char> = Vec::new();
                push_str_chars(&mut line, "片段 ");
                push_number(&mut line, segment);
                push_str_chars(&mut line, ": ");
                push_str_chars(&mut line, text.as_str());
                assert(line@ =~= result_text(segment as nat, text@));
                self.push_result(string_of(&line));
                false
            },
            ProgressMessage::RealtimeOutput(output) => {
                self.push_result(output);
                false
            },
            ProgressMessage::Completed => {
                self.state = AppState::AudioExtracted;
                self.status_message = "识别完成!".to_owned();
                true
            },
            ProgressMessage::Error(reason) => {
                let mut line: Vec<char> = Vec::new();
                push_str_chars(&mut line, "❌ 错误: ");
                push_str_chars(&mut line, reason.as_str());
                assert(line@ =~= error_text(reason@));
                self.push_result(string_of(&line));
                false
            },
        }
    }

    /// Gets ready for a run over all segments and tells in which mode to
    /// run. Without segments nothing is started and the status says that
    /// the recording has to be cut first.
    pub fn start_recognition(&mut self) -> (mode: Option<RecognitionMode>)
        ensures
            old(self).audio_segments@.len() == 0 ==> {
                &&& mode is None
                &&& final(self).status_message@ == "请先切割音频!"@
                &&& *final(self) == (WhisperApp {
                    status_message: final(self).status_message,
                    ..*old(self)
                })
            },
            old(self).audio_segments@.len() > 0 ==> {
                &&& mode == Some(old(self).recognition_mode)
                &&& final(self).state == AppState::Processing
                &&& final(self).processing_done == 0
                &&& final(self).processing_total == old(self).audio_segments@.len()
                &&& final(self).processing_status@ == "开始识别..."@
                &&& final(self).recognition_results@.len() == 0
                &&& *final(self) == (WhisperApp {
                    state: final(self).state,
                    processing_done: final(self).processing_done,
                    processing_total: final(self).processing_total,
                    processing_status: final(self).processing_status,
                    recognition_results: final(self).recognition_results,
                    ..*old(self)
                })
            },
    {
        if self.audio_segments.len() == 0 {
            self.status_message = "请先切割音频!".to_owned();
            return None;
        }
        self.state = AppState::Processing;
        self.processing_done = 0;
        self.processing_total = self.audio_segments.len();
        self.processing_status = "开始识别...".to_owned();
        self.recognition_results = Vec::new();
        Some(self.recognition_mode)
    }

    /// Gets ready to resume an interrupted run, where `has_fragment` says
    /// of each segment whether its fragment is there, and gives the run
    /// over the missing segments. The completed and the missing segments
    /// are told anew from `has_fragment`. Where no segment is missing,
    /// nothing is started and the status says so.
    pub fn resume_recognition(&mut self, has_fragment: &Vec<bool>) -> (run: Option<RecognitionRun>)
        ensures
            final(self).completed_segments@ == positions_of(has_fragment@, true),
            final(self).missing_segments@ == positions_of(has_fragment@, false),
            final(self).can_resume == (final(self).completed_segments@.len() > 0
                && final(self).missing_segments@.len() > 0),
            positions_of(has_fragment@, false).len() == 0 ==> {
                &&& run is None
                &&& final(self).status_message@ == "没有缺失的片段需要识别!"@
                &&& *final(self) == (WhisperApp {
                    completed_segments: final(self).completed_segments,
                    missing_segments: final(self).missing_segments,
                    can_resume: final(self).can_resume,
                    status_message: final(self).status_message,
                    ..*old(self)
                })
            },
            positions_of(has_fragment@, false).len() > 0 ==> {
                &&& run is Some
                &&& run->Some_0@.queue == positions_of(has_fragment@, false)
                &&& run->Some_0@.position == 0
                &&& run->Some_0@.done_before == positions_of(has_fragment@, true).len()
                &&& run->Some_0@.total == has_fragment@.len()
                &&& final(self).state == AppState::Processing
                &&& final(self).processing_done == positions_of(has_fragment@, true).len()
                &&& final(self).processing_total == has_fragment@.len()
                &&& final(self).processing_status@ == resume_text(
                    positions_of(has_fragment@, true).len(),
                    has_fragment@.len(),
                )
                &&& final(self).recognition_results@.len() == 0
                &&& *final(self) == (WhisperApp {
                    completed_segments: final(self).completed_segments,
                    missing_segments: final(self).missing_segments,
                    can_resume: final(self).can_resume,
                    state: final(self).state,
                    processing_done: final(self).processing_done,
                    processing_total: final(self).processing_total,
                    processing_status: final(self).processing_status,
                    recognition_results: final(self).recognition_results,
                    ..*old(self)
                })
            },
    {
        self.check_missing_subtitles(has_fragment);
        if self.missing_segments.len() == 0 {
            self.status_message = "没有缺失的片段需要识别!".to_owned();
            return None;
        }
        let done = self.completed_segments.len();
        let total = has_fragment.len();
        let mut line: Vec<char> = Vec::new();
        push_str_chars(&mut line, "从 ");
        push_number(&mut line, done);
        push_str_chars(&mut line, "/");
        push_number(&mut line, total);
        push_str_chars(&mut line, " 片段恢复...");
        assert(line@ =~= resume_text(done as nat, total as nat));
        self.state = AppState::Processing;
        self.processing_done = done;
        self.processing_total = total;
        self.processing_status = string_of(&line);
        self.recognition_results = Vec::new();
        Some(RecognitionRun::resume(has_fragment))
    }

    /// The window of the manual cut, read from what was typed: where the
    /// clip starts and how long it lasts. Where a time cannot be read or
    /// the window does not run forward, there is no clip, the status says
    /// why, and nothing else changes.
    pub fn cut_manual_segment(&mut self) -> (clip: Option<Segment>)
        ensures
            match (
                time_result(flexible_time_value(old(self).manual_start_time@)),
                time_result(flexible_time_value(old(self).manual_end_time@)),
            ) {
                (Ok(start), Ok(end)) => if start < end {
                    &&& clip == Some(Segment { offset: start, duration: (end - start) as u64 })
                    &&& *final(self) == *old(self)
                } else {
                    &&& clip is None
                    &&& final(self).status_message@
                        == "切割片段失败: Start time must be less than end time"@
                },
                (Ok(_), Err(_)) => clip is None && final(self).status_message@
                    == "结束时间格式无效!"@,
                (Err(_), _) => clip is None && final(self).status_message@ == "起始时间格式无效!"@,
            },
            *final(self) == (WhisperApp {
                status_message: final(self).status_message,
                ..*old(self)
            }),
    {
        let start = match parse_time_string(self.manual_start_time.as_str()) {
            Ok(t) => t,
            Err(_) => {
                self.status_message = "起始时间格式无效!".to_owned();
                return None;
            },
        };
        let end = match parse_time_string(self.manual_end_time.as_str()) {
            Ok(t) => t,
            Err(_) => {
                self.status_message = "结束时间格式无效!".to_owned();
                return None;
            },
        };
        if start >= end {
            self.status_message = "切割片段失败: Start time must be less than end time".to_owned();
            return None;
        }
        Some(Segment { offset: start, duration: end - start })
    }

    /// The window of the manual cut, read from what was typed, or why
    /// there is none: a time that cannot be read, or a start that is not
    /// before the end. To be asked before anything is cut or recognised.
    pub fn manual_window(&self) -> (window: Result<Segment, TimeError>)
        ensures
            window == window_of(self.manual_start_time@, self.manual_end_time@),
    {
        let start = match parse_time_string(self.manual_start_time.as_str()) {
            Ok(t) => t,
            Err(e) => {
                return Err(e);
            },
        };
        let end = match parse_time_string(self.manual_end_time.as_str()) {
            Ok(t) => t,
            Err(e) => {
                return Err(e);
            },
        };
        if start < end {
            Ok(Segment { offset: start, duration: end - start })
        } else {
            Err(TimeError::InvalidInterval)
        }
    }

    /// Gets ready to recognise the clip of the manual cut and gives its
    /// window. Without a clip, or without a window, nothing is started and
    /// nothing changes but the status, which says why.
    pub fn start_manual_recognition(&mut self) -> (window: Option<Segment>)
        ensures
            old(self).manual_segment is None ==> {
                &&& window is None
                &&& final(self).status_message@ == "没有手动片段可识别!"@
                &&& *final(self) == (WhisperApp {
                    status_message: final(self).status_message,
                    ..*old(self)
                })
            },
            old(self).manual_segment is Some ==> match window_of(
                old(self).manual_start_time@,
                old(self).manual_end_time@,
            ) {
                Err(e) => {
                    &&& window is None
                    &&& final(self).status_message@ == refusal_text(e)
                    &&& *final(self) == (WhisperApp {
                        status_message: final(self).status_message,
                        ..*old(self)
                    })
                },
                Ok(w) => {
                    &&& window == Some(w)
                    &&& final(self).state == AppState::Processing
                    &&& final(self).processing_done == 0
                    &&& final(self).processing_total == 1
                    &&& final(self).processing_status@ == "正在识别手动片段..."@
                    &&& final(self).recognition_results@.len() == 0
                    &&& *final(self) == (WhisperApp {
                        state: final(self).state,
                        processing_done: final(self).processing_done,
                        processing_total: final(self).processing_total,
                        processing_status: final(self).processing_status,
                        recognition_results: final(self).recognition_results,
                        ..*old(self)
                    })
                },
            },
    {
        if self.manual_segment.is_none() {
            self.status_message = "没有手动片段可识别!".to_owned();
            return None;
        }
        match self.manual_window() {
            Err(e) => {
                self.status_message = joined("识别失败: ", e.message());
                None
            },
            Ok(w) => {
                self.state = AppState::Processing;
                self.processing_done = 0;
                self.processing_total = 1;
                self.processing_status = "正在识别手动片段...".to_owned();
                self.recognition_results = Vec::new();
                Some(w)
            },
        }
    }

    /// Folds what the recognition of the manual cut gave into the track,
    /// with the window read from what was typed. The entries must be on
    /// the recording's clock. Where there is no window, because a time
    /// cannot be read or the start is not before the end, nothing changes
    /// but the status, which says why. Where the recognition gave nothing,
    /// nothing changes at all.
    pub fn recognize_manual_segment(&mut self, new_subtitles: Vec<SubtitleEntry>)
        ensures
            match window_of(old(self).manual_start_time@, old(self).manual_end_time@) {
                Err(e) => {
                    &&& final(self).status_message@ == refusal_text(e)
                    &&& *final(self) == (WhisperApp {
                        status_message: final(self).status_message,
                        ..*old(self)
                    })
                },
                Ok(w) => {
                    &&& new_subtitles@.len() == 0 ==> *final(self) == *old(self)
                    &&& new_subtitles@.len() > 0 ==> cues(final(self).subtitles@) == reconciled(
                        cues(old(self).subtitles@),
                        w.offset as nat,
                        (w.offset + w.duration) as nat,
                        cues(new_subtitles@),
                    ) && numbered_from_one(cues(final(self).subtitles@))
                    &&& *final(self) == (WhisperApp {
                        subtitles: final(self).subtitles,
                        ..*old(self)
                    })
                },
            },
    {
        match self.manual_window() {
            Err(e) => {
                self.status_message = joined("识别失败: ", e.message());
            },
            Ok(w) => {
                if new_subtitles.len() > 0 {
                    reconcile_range(
                        &mut self.subtitles,
                        w.offset,
                        w.offset + w.duration,
                        new_subtitles,
                    );
                }
            },
        }
    }
}

/// Whether `extension`, the lower-case extension of a file name, is that
/// of a sound file, which needs no extraction.
pub open spec fn is_audio_extension(extension: Seq<char>) -> bool {
    ||| extension == "wav"@
    ||| extension == "mp3"@
    ||| extension == "m4a"@
    ||| extension == "flac"@
    ||| extension == "ogg"@
    ||| extension == "opus"@
}

/// The status after the segments were cut.
pub open spec fn cut_done_text(count: nat) -> Seq<char> {
    "音频切割完成，共 "@ + decimal_text(count) + " 个片段"@
}

/// The status after a workspace was opened with `done` of `total` segments
/// complete.
pub open spec fn workspace_loaded_text(done: nat, total: nat) -> Seq<char> {
    "工作区已加载! "@ + decimal_text(done) + "/"@ + decimal_text(total) + " 片段已完成."@
}

/// The status after `count` subtitles were loaded.
pub open spec fn subtitles_loaded_text(count: nat) -> Seq<char> {
    "字幕已加载: "@ + decimal_text(count) + " 条"@
}

/// Tells whether `text` and `other` hold the same characters.
fn same_text(text: &Vec<char>, other: &str) -> (same: bool)
    ensures
        same == (text@ == other@),
{
    let o = chars_of(other);
    if o.len() != text.len() {
        return false;
    }
    let mut i: usize = 0;
    while i < o.len()
        invariant
            i <= o.len() == text.len(),
            o@ == other@,
            forall|k: int| 0 <= k < i ==> text@[k] == o@[k],
        decreases o.len() - i,
    {
        if text[i] != o[i] {
            return false;
        }
        i += 1;
    }
    assert(text@ =~= o@);
    true
}

/// `prefix` followed by `reason`.
fn joined(prefix: &str, reason: &str) -> (r: String)
    ensures
        r@ == prefix@ + reason@,
{
    let mut line: Vec<char> = Vec::new();
    push_str_chars(&mut line, prefix);
    push_str_chars(&mut line, reason);
    assert(line@ =~= prefix@ + reason@);
    string_of(&line)
}

impl WhisperApp {
    /// Takes in a file that was dropped on the window, where `extension` is
    /// the extension of its name in lower case, and tells whether it is a
    /// sound file, to be loaded as it is, or a recording whose sound has to
    /// be extracted first. What was known of an earlier file is forgotten.
    pub fn handle_dropped_file(&mut self, path: PathBuf, extension: &str) -> (is_audio: bool)
        ensures
            is_audio == is_audio_extension(extension@),
            final(self).video_path == Some(path),
            final(self).state == AppState::Idle,
            final(self).audio_path is None,
            final(self).cut_points@.len() == 0,
            final(self).audio_segments@.len() == 0,
            final(self).recognition_results@.len() == 0,
            final(self).workspace_dir is None,
            *final(self) == (WhisperApp {
                video_path: final(self).video_path,
                state: final(self).state,
                audio_path: final(self).audio_path,
                cut_points: final(self).cut_points,
                audio_segments: final(self).audio_segments,
                recognition_results: final(self).recognition_results,
                workspace_dir: final(self).workspace_dir,
                ..*old(self)
            }),
    {
        self.video_path = Some(path);
        self.state = AppState::Idle;
        self.audio_path = None;
        self.cut_points = Vec::new();
        self.audio_segments = Vec::new();
        self.recognition_results = Vec::new();
        self.workspace_dir = None;
        let e = chars_of(extension);
        same_text(&e, "wav") || same_text(&e, "mp3") || same_text(&e, "m4a") || same_text(
            &e,
            "flac",
        ) || same_text(&e, "ogg") || same_text(&e, "opus")
    }

    /// Takes in a sound file, with what opening it for playing gave: its
    /// length, or the reason why it could not be opened. The sound is there
    /// in either case; a failure to open it is told in the status.
    pub fn load_audio_file(&mut self, audio_path: PathBuf, opened: Result<u64, String>)
        ensures
            final(self).audio_path == Some(audio_path),
            final(self).state == AppState::AudioExtracted,
            match opened {
                Ok(length) => final(self).total_duration == length && final(self).status_message@
                    == "音频文件已加载!"@,
                Err(reason) => final(self).total_duration == old(self).total_duration
                    && final(self).status_message@ == "加载音频失败: "@ + reason@,
            },
            *final(self) == (WhisperApp {
                audio_path: final(self).audio_path,
                state: final(self).state,
                total_duration: final(self).total_duration,
                status_message: final(self).status_message,
                ..*old(self)
            }),
    {
        self.audio_path = Some(audio_path);
        self.state = AppState::AudioExtracted;
        match opened {
            Ok(length) => {
                self.status_message = "音频文件已加载!".to_owned();
                self.total_duration = length;
            },
            Err(reason) => {
                self.status_message = joined("加载音频失败: ", reason.as_str());
            },
        }
    }

    /// Takes in what the extraction of the sound of the recording gave, the
    /// sound file or the reason of the failure, and, for a sound file, what
    /// opening it for playing gave. Without a recording nothing happens.
    pub fn extract_audio(&mut self, extracted: Result<PathBuf, String>, opened: Result<u64, String>)
        ensures
            old(self).video_path is None ==> *final(self) == *old(self),
            old(self).video_path is Some ==> match extracted {
                Ok(audio_path) => {
                    &&& final(self).audio_path == Some(audio_path)
                    &&& final(self).state == AppState::AudioExtracted
                    &&& match opened {
                        Ok(length) => final(self).total_duration == length
                            && final(self).status_message@ == "音频提取成功!"@,
                        Err(reason) => final(self).total_duration == old(self).total_duration
                            && final(self).status_message@ == "加载音频失败: "@ + reason@,
                    }
                },
                Err(reason) => {
                    &&& final(self).audio_path == old(self).audio_path
                    &&& final(self).state == old(self).state
                    &&& final(self).total_duration == old(self).total_duration
                    &&& final(self).status_message@ == "提取音频失败: "@ + reason@
                },
            },
            *final(self) == (WhisperApp {
                audio_path: final(self).audio_path,
                state: final(self).state,
                total_duration: final(self).total_duration,
                status_message: final(self).status_message,
                ..*old(self)
            }),
    {
        if self.video_path.is_none() {
            return ;
        }
        match extracted {
            Ok(audio_path) => {
                self.audio_path = Some(audio_path);
                self.state = AppState::AudioExtracted;
                match opened {
                    Ok(length) => {
                        self.status_message = "音频提取成功!".to_owned();
                        self.total_duration = length;
                    },
                    Err(reason) => {
                        self.status_message = joined("加载音频失败: ", reason.as_str());
                    },
                }
            },
            Err(reason) => {
                self.status_message = joined("提取音频失败: ", reason.as_str());
            },
        }
    }

    /// The segments to cut the sound into, or none where the cut points do
    /// not ascend strictly inside the recording.
    pub fn segments(&self) -> (r: Option<Vec<Segment>>)
        ensures
            valid_cut_points(self.cut_points@, self.total_duration) ==> r is Some && r->Some_0@
                == segments_of(self.cut_points@, self.total_duration),
            !valid_cut_points(self.cut_points@, self.total_duration) ==> r is None,
    {
        if cut_points_valid(&self.cut_points, self.total_duration) {
            Some(derive_offsets(&self.cut_points, self.total_duration))
        } else {
            None
        }
    }

    /// Takes in what cutting the sound gave: the sound files of the
    /// segments, or the reason of the failure. Without sound nothing
    /// happens.
    pub fn cut_audio(&mut self, outcome: Result<Vec<PathBuf>, String>)
        ensures
            old(self).audio_path is None ==> *final(self) == *old(self),
            old(self).audio_path is Some ==> final(self).state == AppState::AudioExtracted
                && match outcome {
                Ok(files) => final(self).audio_segments == files && final(self).status_message@
                    == cut_done_text(files@.len()),
                Err(reason) => final(self).audio_segments == old(self).audio_segments
                    && final(self).status_message@ == "切割音频失败: "@ + reason@,
            },
            *final(self) == (WhisperApp {
                audio_segments: final(self).audio_segments,
                state: final(self).state,
                status_message: final(self).status_message,
                ..*old(self)
            }),
    {
        if self.audio_path.is_none() {
            return ;
        }
        self.state = AppState::AudioExtracted;
        match outcome {
            Ok(files) => {
                let mut line: Vec<char> = Vec::new();
                push_str_chars(&mut line, "音频切割完成，共 ");
                push_number(&mut line, files.len());
                push_str_chars(&mut line, " 个片段");
                assert(line@ =~= cut_done_text(files@.len()));
                self.status_message = string_of(&line);
                self.audio_segments = files;
            },
            Err(reason) => {
                self.status_message = joined("切割音频失败: ", reason.as_str());
            },
        }
    }

    /// Takes the snapshot to keep in the workspace folder `folder`, where
    /// `has_fragment` says of each segment whether its fragment is there.
    /// The folder becomes the session's workspace.
    pub fn save_workspace(&mut self, folder: PathBuf, has_fragment: &Vec<bool>) -> (snapshot:
        WorkspaceState)
        ensures
            final(self).workspace_dir == Some(folder),
            *final(self) == (WhisperApp { workspace_dir: final(self).workspace_dir, ..*old(self) }),
            snapshot.video_path == old(self).video_path,
            snapshot.audio_path == old(self).audio_path,
            snapshot.cut_points@ == old(self).cut_points@,
            snapshot.audio_segments@ == old(self).audio_segments@,
            snapshot.completed_segments@ == positions_of(has_fragment@, true),
            snapshot.manual_segment == old(self).manual_segment,
            snapshot.manual_start_time@ == old(self).manual_start_time@,
            snapshot.manual_end_time@ == old(self).manual_end_time@,
            snapshot.total_duration == old(self).total_duration,
            snapshot.workspace_dir == folder,
    {
        let record = scan_completion(has_fragment);
        let mut cut_points: Vec<u64> = Vec::new();
        let mut i: usize = 0;
        while i < self.cut_points.len()
            invariant
                i <= self.cut_points.len(),
                cut_points@ == self.cut_points@.take(i as int),
            decreases self.cut_points.len() - i,
        {
            proof {
                assert(self.cut_points@.take(i as int).push(self.cut_points@[i as int])
                    =~= self.cut_points@.take(i + 1));
            }
            cut_points.push(self.cut_points[i]);
            i += 1;
        }
        assert(self.cut_points@.take(self.cut_points.len() as int) =~= self.cut_points@);
        let snapshot = WorkspaceState {
            video_path: copy_path(&self.video_path),
            audio_path: copy_path(&self.audio_path),
            cut_points,
            audio_segments: copy_paths(&self.audio_segments),
            completed_segments: record.completed,
            manual_segment: copy_path(&self.manual_segment),
            manual_start_time: self.manual_start_time.clone(),
            manual_end_time: self.manual_end_time.clone(),
            total_duration: self.total_duration,
            workspace_dir: folder.clone(),
        };
        self.workspace_dir = Some(folder);
        snapshot
    }

    /// Takes the work up again from the snapshot found in the workspace
    /// folder `folder`. `audio_exists` says whether the sound file of the
    /// snapshot is there, and `has_fragment` says of each segment whether
    /// its fragment is there: the completed segments are told from that,
    /// not from what the snapshot says of them.
    pub fn open_workspace(
        &mut self,
        folder: PathBuf,
        snapshot: WorkspaceState,
        audio_exists: bool,
        has_fragment: &Vec<bool>,
    )
        ensures
            final(self).workspace_dir == Some(folder),
            final(self).video_path == snapshot.video_path,
            final(self).audio_path == snapshot.audio_path,
            final(self).cut_points == snapshot.cut_points,
            final(self).audio_segments == snapshot.audio_segments,
            final(self).manual_segment == snapshot.manual_segment,
            final(self).manual_start_time == snapshot.manual_start_time,
            final(self).manual_end_time == snapshot.manual_end_time,
            final(self).total_duration == snapshot.total_duration,
            final(self).state == if snapshot.audio_path is Some && audio_exists {
                AppState::AudioExtracted
            } else {
                old(self).state
            },
            final(self).completed_segments@ == positions_of(has_fragment@, true),
            final(self).missing_segments@ == positions_of(has_fragment@, false),
            final(self).can_resume == (final(self).completed_segments@.len() > 0
                && final(self).missing_segments@.len() > 0),
            final(self).status_message@ == workspace_loaded_text(
                positions_of(has_fragment@, true).len(),
                snapshot.audio_segments@.len(),
            ),
            *final(self) == (WhisperApp {
                workspace_dir: final(self).workspace_dir,
                video_path: final(self).video_path,
                audio_path: final(self).audio_path,
                cut_points: final(self).cut_points,
                audio_segments: final(self).audio_segments,
                manual_segment: final(self).manual_segment,
                manual_start_time: final(self).manual_start_time,
                manual_end_time: final(self).manual_end_time,
                total_duration: final(self).total_duration,
                state: final(self).state,
                completed_segments: final(self).completed_segments,
                missing_segments: final(self).missing_segments,
                can_resume: final(self).can_resume,
                status_message: final(self).status_message,
                ..*old(self)
            }),
    {
        self.workspace_dir = Some(folder);
        if snapshot.audio_path.is_some() && audio_exists {
            self.state = AppState::AudioExtracted;
        }
        self.video_path = snapshot.video_path;
        self.audio_path = snapshot.audio_path;
        self.cut_points = snapshot.cut_points;
        self.audio_segments = snapshot.audio_segments;
        self.manual_segment = snapshot.manual_segment;
        self.manual_start_time = snapshot.manual_start_time;
        self.manual_end_time = snapshot.manual_end_time;
        self.total_duration = snapshot.total_duration;
        self.check_missing_subtitles(has_fragment);
        let mut line: Vec<char> = Vec::new();
        push_str_chars(&mut line, "工作区已加载! ");
        push_number(&mut line, self.completed_segments.len());
        push_str_chars(&mut line, "/");
        push_number(&mut line, self.audio_segments.len());
        push_str_chars(&mut line, " 片段已完成.");
        assert(line@ =~= workspace_loaded_text(
            self.completed_segments@.len(),
            self.audio_segments@.len(),
        ));
        self.status_message = string_of(&line);
    }

    /// Takes in the subtitle file `file`, with what reading it gave: its
    /// text, or the reason why it could not be read. Where the text is read
    /// as subtitles, they become the track, as they are numbered in the
    /// text; otherwise the track stays and the status says why.
    pub fn open_subtitle_file(&mut self, file: PathBuf, content: Result<String, String>)
        ensures
            match content {
                Ok(text) => match parse_track(text@) {
                    Ok(track) => {
                        &&& cues(final(self).subtitles@) == track
                        &&& final(self).srt_path == Some(file)
                        &&& final(self).status_message@ == subtitles_loaded_text(track.len())
                    },
                    Err(e) => {
                        &&& final(self).subtitles == old(self).subtitles
                        &&& final(self).srt_path == old(self).srt_path
                        &&& final(self).status_message@ == "加载字幕失败: "@ + time_error_text(e)
                    },
                },
                Err(reason) => {
                    &&& final(self).subtitles == old(self).subtitles
                    &&& final(self).srt_path == old(self).srt_path
                    &&& final(self).status_message@ == "加载字幕失败: "@ + reason@
                },
            },
            *final(self) == (WhisperApp {
                subtitles: final(self).subtitles,
                srt_path: final(self).srt_path,
                status_message: final(self).status_message,
                ..*old(self)
            }),
    {
        match content {
            Ok(text) => match parse_srt_content(text.as_str()) {
                Ok(track) => {
                    let mut line: Vec<char> = Vec::new();
                    push_str_chars(&mut line, "字幕已加载: ");
                    push_number(&mut line, track.len());
                    push_str_chars(&mut line, " 条");
                    assert(line@ =~= subtitles_loaded_text(track@.len()));
                    assert(cues(track@).len() == track@.len());
                    self.status_message = string_of(&line);
                    self.subtitles = track;
                    self.srt_path = Some(file);
                },
                Err(e) => {
                    self.status_message = joined("加载字幕失败: ", e.message());
                },
            },
            Err(reason) => {
                self.status_message = joined("加载字幕失败: ", reason.as_str());
            },
        }
    }
}

} // verus!
