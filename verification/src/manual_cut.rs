//! Recognising a window of the recording again: the window to cut, and the
//! folding of its new subtitles into the track.

use crate::subtitle::{
    cues, insert_subtitles, lemma_insert_all_contents, lemma_insert_all_sources,
    lemma_sorted_contents, lemma_sorted_is_ordered, numbered_from_one, ordered_by_start,
    outside_window, remove_subtitles_in_range, renumbered, runs_forward, same_but_number,
    sorted_by_start, unnumbered, well_formed, with_all_inserted, without_window, Cue, SubtitleEntry,
};
use crate::time::{check_interval, TimeError};
use crate::timeline::Segment;
use vstd::prelude::*;

pub use crate::time::parse_time_string;

verus! {

/// The clip to cut for the window from `start_time` to `end_time`: where it
/// starts and how long it lasts. A window whose start is not before its end
/// is refused, before anything is cut.
pub fn manual_segment(start_time: u64, end_time: u64) -> (r: Result<Segment, TimeError>)
    ensures
        start_time < end_time ==> r == Ok::<Segment, TimeError>(
            Segment { offset: start_time, duration: (end_time - start_time) as u64 },
        ),
        start_time >= end_time ==> r == Err::<Segment, TimeError>(TimeError::InvalidInterval),
{
    match check_interval(start_time, end_time) {
        Ok(duration) => Ok(Segment { offset: start_time, duration }),
        Err(e) => Err(e),
    }
}

/// The track after the window from `start` up to, not including, `end` was
/// recognised again and gave `new`: the cues that reached into the window
/// are gone, the new ones are in, and the whole is in ascending order of
/// start and numbered from one.
pub open spec fn reconciled(track: Seq<Cue>, start: nat, end: nat, new: Seq<Cue>) -> Seq<Cue> {
    renumbered(sorted_by_start(with_all_inserted(without_window(track, start, end), new)))
}

/// Folds the subtitles of a window that was recognised again into the
/// track. `new_entries` must be on the recording's clock already. Whatever
/// the track held in the window goes, also where it only reached into it:
/// the window wins.
pub fn reconcile_range(
    subtitles: &mut Vec<SubtitleEntry>,
    window_start: u64,
    window_end: u64,
    new_entries: Vec<SubtitleEntry>,
)
    ensures
        cues(final(subtitles)@) == reconciled(
            cues(old(subtitles)@),
            window_start as nat,
            window_end as nat,
            cues(new_entries@),
        ),
        numbered_from_one(cues(final(subtitles)@)),
        ordered_by_start(cues(final(subtitles)@)),
        runs_forward(cues(old(subtitles)@)) && runs_forward(cues(new_entries@)) ==> well_formed(
            cues(final(subtitles)@),
        ),
        final(subtitles)@.len() == without_window(
            cues(old(subtitles)@),
            window_start as nat,
            window_end as nat,
        ).len() + new_entries@.len(),
{
    remove_subtitles_in_range(subtitles, window_start, window_end);
    insert_subtitles(subtitles, new_entries);
}

/// The window wins: after a window was recognised again, every cue of the
/// track that reaches into the window is one of the new cues.
pub proof fn lemma_window_wins(track: Seq<Cue>, start: nat, end: nat, new: Seq<Cue>)
    ensures
        forall|i: int|
            0 <= i < reconciled(track, start, end, new).len() && !outside_window(
                #[trigger] reconciled(track, start, end, new)[i],
                start,
                end,
            ) ==> exists|j: int|
                0 <= j < new.len() && same_but_number(
                    #[trigger] new[j],
                    reconciled(track, start, end, new)[i],
                ),
{
    let kept = without_window(track, start, end);
    let all = with_all_inserted(kept, new);
    let sorted = sorted_by_start(all);
    let out = reconciled(track, start, end, new);
    lemma_sorted_is_ordered(all);
    lemma_insert_all_sources(Seq::<Cue>::empty(), all);
    lemma_insert_all_sources(kept, new);
    assert forall|i: int| 0 <= i < out.len() && !outside_window(#[trigger] out[i], start, end)
        implies exists|j: int| 0 <= j < new.len() && same_but_number(#[trigger] new[j], out[i]) by {
        let c = sorted[i];
        assert(same_but_number(c, out[i]));
        assert(all.contains(c));
        let k = choose|k: int| 0 <= k < all.len() && all[k] == c;
        if kept.contains(all[k]) {
            let m = choose|m: int| 0 <= m < kept.len() && kept[m] == all[k];
            track.lemma_filter_pred(|c: Cue| outside_window(c, start, end), m);
        }
        assert(new.contains(all[k]));
        let j = choose|j: int| 0 <= j < new.len() && new[j] == all[k];
        assert(same_but_number(new[j], out[i]));
    }
}

/// After a window was recognised again, the track shows what it showed
/// outside the window and what the new cues show, each cue once.
pub proof fn lemma_reconciled_contents(track: Seq<Cue>, start: nat, end: nat, new: Seq<Cue>)
    ensures
        unnumbered(reconciled(track, start, end, new)).to_multiset() == unnumbered(
            without_window(track, start, end),
        ).to_multiset().add(unnumbered(new).to_multiset()),
{
    let kept = without_window(track, start, end);
    lemma_sorted_contents(with_all_inserted(kept, new));
    lemma_insert_all_contents(kept, new);
}

/// An edit of a track.
pub enum TrackEdit {
    /// Putting cues in, as `insert_subtitles` does.
    Insert(Seq<Cue>),
    /// Recognising the window from `start` up to `end` again, as
    /// `reconcile_range` does.
    Reconcile { start: nat, end: nat, new: Seq<Cue> },
    /// Deleting the cue at a place counted from zero and numbering the
    /// others, as the session does.
    Delete(int),
}

/// Whether the edit changes the track: all do but a deletion at a place
/// where there is no cue.
pub open spec fn takes_effect(track: Seq<Cue>, edit: TrackEdit) -> bool {
    match edit {
        TrackEdit::Delete(place) => 0 <= place < track.len(),
        _ => true,
    }
}

/// The track after an edit.
pub open spec fn edited(track: Seq<Cue>, edit: TrackEdit) -> Seq<Cue> {
    match edit {
        TrackEdit::Insert(new) => renumbered(sorted_by_start(with_all_inserted(track, new))),
        TrackEdit::Reconcile { start, end, new } => reconciled(track, start, end, new),
        TrackEdit::Delete(place) => if 0 <= place < track.len() {
            renumbered(track.remove(place))
        } else {
            track
        },
    }
}

/// The track after some edits, one after the other.
pub open spec fn edited_by_all(track: Seq<Cue>, edits: Seq<TrackEdit>) -> Seq<Cue>
    decreases edits.len(),
{
    if edits.len() == 0 {
        track
    } else {
        edited(edited_by_all(track, edits.drop_last()), edits.last())
    }
}

/// After any edits of which one took effect, the cue at every place `i`,
/// counted from zero, has the number `i + 1`, whatever the track was; and a
/// track that was numbered so stays numbered so under any edits.
pub proof fn lemma_edits_number_from_one(track: Seq<Cue>, edits: Seq<TrackEdit>)
    ensures
        numbered_from_one(track) ==> numbered_from_one(edited_by_all(track, edits)),
        edits.len() > 0 && takes_effect(edited_by_all(track, edits.drop_last()), edits.last())
            ==> numbered_from_one(edited_by_all(track, edits)),
    decreases edits.len(),
{
    if edits.len() > 0 {
        lemma_edits_number_from_one(track, edits.drop_last());
    }
}

} // verus!
