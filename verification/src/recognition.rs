//! The bookkeeping of a recognition run: what the engine is asked for each
//! segment, in which order the segments are taken, and what is reported
//! after each.

use crate::app_state::{
    language_code, reports, ProgressMessage, Report, WhisperLanguage, WhisperModel,
};
use crate::resume::{lemma_positions_of, lemma_scan_partitions, positions, positions_of};
use crate::srt_merger::{
    failed_place, lemma_complete_merge, lemma_merge_is_complete, merge_srt_files,
    merge_text_outcome, mergeable, merged_present, merged_track, moved, positional, MergeError,
};
use crate::subtitle::unnumbered;
use crate::text::{
    decimal_text, lemma_decimal_text_value, push_padded, push_str_chars, string_of, texts,
};
use vstd::prelude::*;

verus! {

/// What the recognition engine is asked to do for one segment.
#[derive(Debug, Clone)]
pub struct RecognitionRequest {
    pub model: WhisperModel,
    /// The language code, or none where the engine is to detect it.
    pub language: Option<String>,
    /// The number of the segment, counted from one.
    pub current: usize,
    /// How many segments there are.
    pub total: usize,
}

/// Whether `language` holds the code `code`.
pub open spec fn holds_code(language: Option<String>, code: Option<Seq<char>>) -> bool {
    match code {
        Some(c) => language is Some && language->Some_0@ == c,
        None => language is None,
    }
}

/// Prepares the recognition of the segment at place `segment_index`,
/// counted from zero, of `total_segments`: the engine gets the model, the
/// code of the language, and the segment's number counted from one.
pub fn recognize_single_segment(
    segment_index: usize,
    total_segments: usize,
    model: WhisperModel,
    language: &WhisperLanguage,
    custom_language: &str,
) -> (request: RecognitionRequest)
    requires
        segment_index < usize::MAX,
    ensures
        request.model == model,
        holds_code(request.language, language_code(*language, custom_language@)),
        request.current == segment_index + 1,
        request.total == total_segments,
{
    let code = match language.to_code(custom_language) {
        Some(c) => Some(c.to_owned()),
        None => None,
    };
    RecognitionRequest {
        model,
        language: code,
        current: segment_index + 1,
        total: total_segments,
    }
}

/// Merges the subtitle texts of all segments anew; see `merge_srt_files`.
pub fn remerge_subtitles(srt_contents: &Vec<String>, cut_points: &Vec<u64>) -> (r: Result<
    String,
    MergeError,
>)
    requires
        srt_contents@.len() <= cut_points@.len() + 1,
    ensures
        merge_text_outcome(r, merged_track(positional(texts(srt_contents@), cut_points@))),
{
    merge_srt_files(srt_contents, cut_points)
}

/// The message that tells of a segment, numbered from one, that could not
/// be recognised, and why.
pub open spec fn failure_text(segment: nat, reason: Seq<char>) -> Seq<char> {
    "识别片段 "@ + decimal_text(segment) + " 失败: "@ + reason
}

/// What is reported after the segment at place `segment`, counted from
/// zero, came back with `outcome`, where `done` segments are complete with
/// it: on success its text and the progress, on failure the reason.
pub open spec fn outcome_reports(
    segment: nat,
    done: nat,
    total: nat,
    outcome: Result<Seq<char>, Seq<char>>,
) -> Seq<Report> {
    match outcome {
        Ok(text) => seq![
            Report::Result { segment: segment + 1, text },
            Report::Progress { current: done, total },
        ],
        Err(reason) => seq![Report::Error(failure_text(segment + 1, reason))],
    }
}

/// What an outcome of the recognition engine stands for.
pub open spec fn outcome_view(outcome: Result<String, String>) -> Result<Seq<char>, Seq<char>> {
    match outcome {
        Ok(text) => Ok(text@),
        Err(reason) => Err(reason@),
    }
}

/// A recognition run over some segments of a recording, one segment after
/// the other.
pub struct RecognitionRun {
    queue: Vec<usize>,
    position: usize,
    done_before: usize,
    total: usize,
}

/// What a recognition run stands for.
pub struct RunView {
    /// The segments of the run, counted from zero, in the order they are
    /// taken.
    pub queue: Seq<usize>,
    /// How many segments of the run have been taken.
    pub position: nat,
    /// How many segments were complete before the run.
    pub done_before: nat,
    /// How many segments the recording has.
    pub total: nat,
}

impl View for RecognitionRun {
    type V = RunView;

    closed spec fn view(&self) -> RunView {
        RunView {
            queue: self.queue@,
            position: self.position as nat,
            done_before: self.done_before as nat,
            total: self.total as nat,
        }
    }
}

/// The segments 0, 1, ... up to `total`.
pub open spec fn all_segments(total: nat) -> Seq<usize> {
    Seq::new(total, |i: int| i as usize)
}

impl RecognitionRun {
    #[verifier::type_invariant]
    spec fn well_formed(&self) -> bool {
        &&& self.position <= self.queue@.len()
        &&& self.done_before + self.queue@.len() <= self.total
        &&& forall|i: int| 0 <= i < self.queue@.len() ==> (#[trigger] self.queue@[i]) < self.total
    }

    /// A run over every segment of a recording of `total` segments.
    pub fn full(total: usize) -> (run: Self)
        ensures
            run@ == (RunView {
                queue: all_segments(total as nat),
                position: 0,
                done_before: 0,
                total: total as nat,
            }),
    {
        let mut queue: Vec<usize> = Vec::new();
        let mut i: usize = 0;
        while i < total
            invariant
                i <= total,
                queue@ == all_segments(i as nat),
            decreases total - i,
        {
            proof {
                assert(all_segments(i as nat).push(i) =~= all_segments((i + 1) as nat));
            }
            queue.push(i);
            i += 1;
        }
        RecognitionRun { queue, position: 0, done_before: 0, total }
    }

    /// A run that resumes an interrupted one: over the segments that lack
    /// their fragment, in ascending order, and over no other. `has_fragment`
    /// says of each segment whether its fragment is there.
    pub fn resume(has_fragment: &Vec<bool>) -> (run: Self)
        ensures
            run@ == (RunView {
                queue: positions_of(has_fragment@, false),
                position: 0,
                done_before: positions_of(has_fragment@, true).len(),
                total: has_fragment@.len(),
            }),
    {
        let queue = positions(has_fragment, false);
        let done = positions(has_fragment, true);
        let total = has_fragment.len();
        proof {
            assert(has_fragment@.len() == total);
            lemma_positions_of(has_fragment@, false);
            lemma_scan_partitions(has_fragment@);
        }
        RecognitionRun { queue, position: 0, done_before: done.len(), total }
    }

    /// The segment to recognise next, counted from zero, or none where the
    /// run is through.
    pub fn next_segment(&self) -> (next: Option<usize>)
        ensures
            self@.position < self@.queue.len() ==> next == Some(self@.queue[self@.position as int]),
            self@.position >= self@.queue.len() ==> next is None,
            next is Some ==> next->Some_0 < self@.total,
    {
        proof {
            use_type_invariant(self);
        }
        if self.position < self.queue.len() {
            Some(self.queue[self.position])
        } else {
            None
        }
    }

    /// How many segments are complete or have been taken by now, and how
    /// many there are.
    pub fn progress(&self) -> (r: (usize, usize))
        ensures
            r.0 == self@.done_before + self@.position,
            r.1 == self@.total,
            r.0 <= r.1,
    {
        proof {
            use_type_invariant(self);
        }
        (self.done_before + self.position, self.total)
    }

    /// Takes note of what the recognition of the next segment gave, its
    /// text or the reason of its failure, and gives the messages to report.
    /// A failure is reported and the run goes on. The progress counts the
    /// segments that were complete before the run and those the run has
    /// taken. Where the run is through, nothing happens.
    pub fn record(&mut self, outcome: Result<String, String>) -> (messages: Vec<ProgressMessage>)
        ensures
            final(self)@.queue == old(self)@.queue,
            final(self)@.done_before == old(self)@.done_before,
            final(self)@.total == old(self)@.total,
            old(self)@.position < old(self)@.queue.len() ==> {
                &&& final(self)@.position == old(self)@.position + 1
                &&& reports(messages@) == outcome_reports(
                    old(self)@.queue[old(self)@.position as int] as nat,
                    old(self)@.done_before + old(self)@.position + 1,
                    old(self)@.total,
                    outcome_view(outcome),
                )
            },
            old(self)@.position >= old(self)@.queue.len() ==> {
                &&& final(self)@.position == old(self)@.position
                &&& messages@.len() == 0
            },
    {
        proof {
            use_type_invariant(&*self);
        }
        let mut messages: Vec<ProgressMessage> = Vec::new();
        if self.position >= self.queue.len() {
            return messages;
        }
        let segment = self.queue[self.position];
        let done = self.done_before + self.position + 1;
        match outcome {
            Ok(text) => {
                let first = ProgressMessage::Result { segment: segment + 1, text };
                let second = ProgressMessage::Progress { current: done, total: self.total };
                messages.push(first);
                messages.push(second);
                assert(reports(messages@) =~= seq![first@, second@]);
            },
            Err(reason) => {
                let mut line: Vec<char> = Vec::new();
                push_str_chars(&mut line, "识别片段 ");
                proof {
                    lemma_decimal_text_value((segment + 1) as nat);
                }
                push_padded(&mut line, (segment + 1) as u64, 1);
                push_str_chars(&mut line, " 失败: ");
                push_str_chars(&mut line, reason.as_str());
                assert(line@ =~= failure_text((segment + 1) as nat, reason@));
                let only = ProgressMessage::Error(string_of(&line));
                messages.push(only);
                assert(reports(messages@) =~= seq![only@]);
            },
        }
        self.position = self.position + 1;
        messages
    }
}

/// Resuming is complete. Where `has_fragment` says which segments had
/// their fragment when the run was resumed, the run takes every missing
/// segment once, in ascending order, and no other. Where `contents` holds
/// the texts of the fragments of all segments once the run is through, the
/// merge of them shows every cue of every fragment, moved to the start of
/// its own segment, exactly once, none left out and none doubled; or it
/// fails at the first fragment that cannot be merged.
pub proof fn lemma_resume_is_complete(
    has_fragment: Seq<bool>,
    contents: Seq<Seq<char>>,
    cuts: Seq<u64>,
)
    requires
        has_fragment.len() == contents.len(),
        contents.len() <= usize::MAX,
    ensures
        forall|i: int|
            0 <= i < has_fragment.len() ==> (positions_of(has_fragment, false).contains(i as usize)
                <==> !has_fragment[i]),
        forall|k: int, l: int|
            0 <= k < l < positions_of(has_fragment, false).len() ==> positions_of(
                has_fragment,
                false,
            )[k] < positions_of(has_fragment, false)[l],
        positions_of(has_fragment, true).len() + positions_of(has_fragment, false).len()
            == has_fragment.len(),
        match merged_present(contents.map_values(|c: Seq<char>| Some(c)), cuts) {
            Ok(track) => {
                &&& forall|i: int|
                    0 <= i < contents.len() ==> mergeable(#[trigger] positional(contents, cuts)[i])
                &&& track.len() == moved(positional(contents, cuts), contents.len() as int).len()
                &&& unnumbered(track).to_multiset() == unnumbered(
                    moved(positional(contents, cuts), contents.len() as int),
                ).to_multiset()
            },
            Err(e) => {
                &&& 0 <= failed_place(e) < contents.len()
                &&& !mergeable(positional(contents, cuts)[failed_place(e)])
            },
        },
{
    lemma_positions_of(has_fragment, false);
    lemma_scan_partitions(has_fragment);
    lemma_complete_merge(contents, cuts);
    lemma_merge_is_complete(positional(contents, cuts));
}

} // verus!
