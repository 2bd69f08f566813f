//! Merging the subtitle fragments of the segments of a recording into one
//! track on the recording's own clock.

use crate::subtitle::{
    cues, format_srt_content, lemma_insert_all_sources, lemma_parsed_runs_forward,
    lemma_sorted_contents, lemma_sorted_fixes_ordered, lemma_sorted_is_ordered,
    lemma_sorted_is_well_formed, parse_srt_content, parse_track, reindex_subtitles, renumbered,
    runs_forward, sort_subtitles_by_time, sorted_by_start, track_text, unnumbered, well_formed, Cue,
    SubtitleEntry,
};
use crate::text::{texts, trimmed_lines};
use crate::timeline::{segments_of, valid_cut_points};
use crate::written_track::{
    legible, lemma_read_track_is_readable, lemma_written_track_reads_back, readable,
};
use vstd::prelude::*;

verus! {

/// Why fragments could not be merged. Segments are counted from zero.
#[derive(Debug, Clone, Copy, PartialEq, Eq, Structural)]
pub enum MergeError {
    /// The fragment of this segment could not be read as subtitles.
    Fragment { segment: usize },
    /// A time in the fragment of this segment, moved to the segment's
    /// place, does not fit in 64 bits of milliseconds.
    TimeOverflow { segment: usize },
}

/// The subtitles of one segment: the subtitle text that the recognition
/// engine wrote, with times counted from the segment's start, and where the
/// segment starts in the recording.
#[derive(Debug, Clone)]
pub struct Fragment {
    pub offset: u64,
    pub content: String,
}

/// What a fragment stands for: its offset and its text.
pub struct FragmentView {
    pub offset: nat,
    pub content: Seq<char>,
}

impl View for Fragment {
    type V = FragmentView;

    open spec fn view(&self) -> FragmentView {
        FragmentView { offset: self.offset as nat, content: self.content@ }
    }
}

/// What a list of fragments stands for.
pub open spec fn fragment_views(fragments: Seq<Fragment>) -> Seq<FragmentView> {
    fragments.map_values(|f: Fragment| f@)
}

/// The cue moved later by `offset`.
pub open spec fn shifted_cue(c: Cue, offset: nat) -> Cue {
    Cue { start: c.start + offset, end: c.end + offset, ..c }
}

/// The track with every cue moved later by `offset`.
pub open spec fn shifted(track: Seq<Cue>, offset: nat) -> Seq<Cue> {
    track.map_values(|c: Cue| shifted_cue(c, offset))
}

/// Whether every time of the track, moved later by `offset`, fits in 64
/// bits.
pub open spec fn shift_fits(track: Seq<Cue>, offset: nat) -> bool {
    forall|i: int|
        0 <= i < track.len() ==> (#[trigger] track[i]).start + offset <= u64::MAX && track[i].end
            + offset <= u64::MAX
}

/// The cues of the first `count` fragments, each moved to its segment's
/// place, fragment after fragment; or the first failure on the way.
pub open spec fn gathered(fragments: Seq<FragmentView>, count: int) -> Result<Seq<Cue>, MergeError>
    decreases count,
{
    if count <= 0 {
        Ok(Seq::<Cue>::empty())
    } else {
        match gathered(fragments, count - 1) {
            Err(e) => Err(e),
            Ok(sofar) => {
                let f = fragments[count - 1];
                match parse_track(f.content) {
                    Err(_) => Err(MergeError::Fragment { segment: (count - 1) as usize }),
                    Ok(track) => if shift_fits(track, f.offset) {
                        Ok(sofar + shifted(track, f.offset))
                    } else {
                        Err(MergeError::TimeOverflow { segment: (count - 1) as usize })
                    },
                }
            },
        }
    }
}

/// The one track that the fragments merge into: all their cues, moved to
/// their segments' places, in ascending order of start and numbered from
/// one. Cues are neither clipped to their segment nor dropped where they
/// overlap.
pub open spec fn merged_track(fragments: Seq<FragmentView>) -> Result<Seq<Cue>, MergeError> {
    match gathered(fragments, fragments.len() as int) {
        Ok(all) => Ok(renumbered(sorted_by_start(all))),
        Err(e) => Err(e),
    }
}

/// The fragments that stand at the starts of the segments in order: the
/// first at zero, each further one at the cut point before it.
pub open spec fn positional(contents: Seq<Seq<char>>, cuts: Seq<u64>) -> Seq<FragmentView> {
    Seq::new(
        contents.len(),
        |i: int|
            FragmentView {
                offset: if i == 0 {
                    0nat
                } else {
                    cuts[i - 1] as nat
                },
                content: contents[i],
            },
    )
}

/// Whether `r` is the outcome `model` in executable form.
pub open spec fn merge_outcome(
    r: Result<Vec<SubtitleEntry>, MergeError>,
    model: Result<Seq<Cue>, MergeError>,
) -> bool {
    match model {
        Ok(track) => r is Ok && cues(r->Ok_0@) == track,
        Err(e) => r == Err::<Vec<SubtitleEntry>, MergeError>(e),
    }
}

/// Whether `r` is the subtitle text of the outcome `model`.
pub open spec fn merge_text_outcome(
    r: Result<String, MergeError>,
    model: Result<Seq<Cue>, MergeError>,
) -> bool {
    match model {
        Ok(track) => r is Ok && r->Ok_0@ == track_text(track),
        Err(e) => r == Err::<String, MergeError>(e),
    }
}

/// Moves every entry later by `offset`. Gives back `false`, and leaves the
/// entries as they were, where a time would not fit in 64 bits.
pub fn shift_subtitles(subtitles: &mut Vec<SubtitleEntry>, offset: u64) -> (ok: bool)
    ensures
        ok == shift_fits(cues(old(subtitles)@), offset as nat),
        ok ==> cues(final(subtitles)@) == shifted(cues(old(subtitles)@), offset as nat),
        !ok ==> final(subtitles)@ == old(subtitles)@,
{
    let ghost before = cues(old(subtitles)@);
    let n = subtitles.len();
    let mut i: usize = 0;
    while i < n
        invariant
            i <= n == subtitles.len(),
            subtitles@ == old(subtitles)@,
            before == cues(subtitles@),
            forall|k: int|
                0 <= k < i ==> (#[trigger] before[k]).start + offset <= u64::MAX && before[k].end
                    + offset <= u64::MAX,
        decreases n - i,
    {
        if subtitles[i].start_time > u64::MAX - offset || subtitles[i].end_time > u64::MAX
            - offset {
            assert(before[i as int].start + offset > u64::MAX || before[i as int].end + offset
                > u64::MAX);
            return false;
        }
        i += 1;
    }
    let mut j: usize = 0;
    while j < n
        invariant
            j <= n == subtitles.len(),
            before == cues(old(subtitles)@),
            before.len() == n,
            shift_fits(before, offset as nat),
            forall|k: int|
                0 <= k < j ==> (#[trigger] subtitles@[k])@ == shifted_cue(before[k], offset as nat),
            forall|k: int| j <= k < n ==> (#[trigger] subtitles@[k])@ == before[k],
        decreases n - j,
    {
        assert(before[j as int].start + offset <= u64::MAX);
        let start = subtitles[j].start_time + offset;
        let end = subtitles[j].end_time + offset;
        subtitles[j].start_time = start;
        subtitles[j].end_time = end;
        j += 1;
    }
    assert(cues(subtitles@) =~= shifted(before, offset as nat));
    true
}

/// A failure met while gathering stays the outcome however many more
/// fragments follow.
proof fn lemma_failure_stays(fragments: Seq<FragmentView>, at: int, count: int)
    requires
        0 <= at <= count,
        gathered(fragments, at) is Err,
    ensures
        gathered(fragments, count) == gathered(fragments, at),
    decreases count - at,
{
    if at < count {
        lemma_failure_stays(fragments, at, count - 1);
    }
}

/// Every gathered cue starts before it ends.
pub proof fn lemma_gathered_runs_forward(fragments: Seq<FragmentView>, count: int)
    ensures
        gathered(fragments, count) is Ok ==> runs_forward(gathered(fragments, count)->Ok_0),
    decreases count,
{
    if count > 0 {
        lemma_gathered_runs_forward(fragments, count - 1);
        if gathered(fragments, count) is Ok {
            let sofar = gathered(fragments, count - 1)->Ok_0;
            let f = fragments[count - 1];
            let track = parse_track(f.content)->Ok_0;
            lemma_parsed_runs_forward(trimmed_lines(f.content), 0);
            let all = gathered(fragments, count)->Ok_0;
            assert forall|i: int| 0 <= i < all.len() implies (#[trigger] all[i]).start
                < all[i].end by {
                if i < sofar.len() {
                    assert(all[i] == sofar[i]);
                } else {
                    assert(all[i] == shifted_cue(track[i - sofar.len()], f.offset));
                    assert(track[i - sofar.len()].start < track[i - sofar.len()].end);
                }
            }
        }
    }
}

/// Gathers the entries of all fragments, each moved to its segment's place.
fn gather(fragments: &Vec<Fragment>) -> (r: Result<Vec<SubtitleEntry>, MergeError>)
    ensures
        merge_outcome(r, gathered(fragment_views(fragments@), fragments@.len() as int)),
{
    let ghost views = fragment_views(fragments@);
    let mut all: Vec<SubtitleEntry> = Vec::new();
    let mut i: usize = 0;
    assert(cues(all@) =~= Seq::<Cue>::empty());
    while i < fragments.len()
        invariant
            i <= fragments.len(),
            views == fragment_views(fragments@),
            views.len() == fragments@.len(),
            gathered(views, i as int) == Ok::<Seq<Cue>, MergeError>(cues(all@)),
        decreases fragments.len() - i,
    {
        assert(views[i as int] == fragments@[i as int]@);
        let parsed = parse_srt_content(fragments[i].content.as_str());
        match parsed {
            Err(_) => {
                proof {
                    lemma_failure_stays(views, i + 1, fragments@.len() as int);
                }
                return Err(MergeError::Fragment { segment: i });
            },
            Ok(mut track) => {
                let ghost sofar = cues(all@);
                let ghost read = cues(track@);
                if !shift_subtitles(&mut track, fragments[i].offset) {
                    proof {
                        lemma_failure_stays(views, i + 1, fragments@.len() as int);
                    }
                    return Err(MergeError::TimeOverflow { segment: i });
                }
                let ghost moved = cues(track@);
                for entry in it: track
                    invariant
                        it.seq() == track@,
                        moved == cues(track@),
                        cues(all@) == sofar + moved.take(it.index()),
                {
                    proof {
                        let k = it.index();
                        assert(cues(all@.push(entry)) =~= cues(all@).push(entry@));
                        assert((sofar + moved.take(k)).push(entry@) =~= sofar + moved.take(k + 1));
                    }
                    all.push(entry);
                }
                assert(moved.take(moved.len() as int) =~= moved);
            },
        }
        i += 1;
    }
    Ok(all)
}

/// Merges the fragments into one track: reads each, moves its entries later
/// by the fragment's offset, puts the entries of all fragments in ascending
/// order of start, entries with equal starts in the order of their
/// fragments, and numbers them from one.
///
/// It fails at the first fragment, in the given order, that cannot be read
/// or whose times do not fit once moved, and names that fragment.
pub fn merge_fragments(fragments: &Vec<Fragment>) -> (r: Result<Vec<SubtitleEntry>, MergeError>)
    ensures
        merge_outcome(r, merged_track(fragment_views(fragments@))),
        r is Ok ==> well_formed(cues(r->Ok_0@)),
{
    match gather(fragments) {
        Err(e) => Err(e),
        Ok(mut all) => {
            proof {
                lemma_gathered_runs_forward(fragment_views(fragments@), fragments@.len() as int);
                lemma_sorted_is_well_formed(cues(all@));
            }
            sort_subtitles_by_time(&mut all);
            reindex_subtitles(&mut all);
            Ok(all)
        },
    }
}

/// Merges the subtitle texts of the segments of a recording, in the order
/// of the segments, into the subtitle text of the whole recording. The
/// first segment starts at zero and each further one at the cut point
/// before it.
pub fn merge_srt_files(srt_contents: &Vec<String>, cut_points: &Vec<u64>) -> (r: Result<
    String,
    MergeError,
>)
    requires
        srt_contents@.len() <= cut_points@.len() + 1,
    ensures
        merge_text_outcome(r, merged_track(positional(texts(srt_contents@), cut_points@))),
{
    let ghost want = positional(texts(srt_contents@), cut_points@);
    let mut fragments: Vec<Fragment> = Vec::new();
    let mut i: usize = 0;
    while i < srt_contents.len()
        invariant
            i <= srt_contents.len() <= cut_points.len() + 1,
            want == positional(texts(srt_contents@), cut_points@),
            fragment_views(fragments@) == want.take(i as int),
        decreases srt_contents.len() - i,
    {
        let offset = if i == 0 {
            0
        } else {
            cut_points[i - 1]
        };
        let fragment = Fragment { offset, content: srt_contents[i].clone() };
        proof {
            assert(texts(srt_contents@)[i as int] == srt_contents@[i as int]@);
            assert(fragment_views(fragments@.push(fragment)) =~= fragment_views(fragments@).push(
                fragment@,
            ));
            assert(want.take(i as int).push(fragment@) =~= want.take(i + 1));
        }
        fragments.push(fragment);
        i += 1;
    }
    assert(want.take(srt_contents.len() as int) =~= want);
    match merge_fragments(&fragments) {
        Err(e) => Err(e),
        Ok(track) => Ok(format_srt_content(&track)),
    }
}

/// The texts that a list of texts, of which some may be absent, holds.
pub open spec fn option_texts(contents: Seq<Option<String>>) -> Seq<Option<Seq<char>>> {
    contents.map_values(
        |c: Option<String>|
            match c {
                Some(text) => Some(text@),
                None => None,
            },
    )
}

/// Where segment `i`, counted from zero, starts: the first at zero, each
/// further one at the cut point before it.
pub open spec fn segment_offset(cuts: Seq<u64>, i: int) -> nat {
    if i <= 0 {
        0
    } else {
        cuts[i - 1] as nat
    }
}

/// The fragments that are there, in ascending order of their segments,
/// each at the start of its own segment: an absent fragment leaves a gap
/// and moves no other.
pub open spec fn present(contents: Seq<Option<Seq<char>>>, cuts: Seq<u64>) -> Seq<FragmentView>
    decreases contents.len(),
{
    if contents.len() == 0 {
        Seq::<FragmentView>::empty()
    } else {
        let before = present(contents.drop_last(), cuts);
        match contents.last() {
            Some(text) => before.push(
                FragmentView { offset: segment_offset(cuts, contents.len() - 1), content: text },
            ),
            None => before,
        }
    }
}

/// The segments, counted from zero and in ascending order, whose fragments
/// are there.
pub open spec fn present_places(contents: Seq<Option<Seq<char>>>) -> Seq<usize>
    decreases contents.len(),
{
    if contents.len() == 0 {
        Seq::<usize>::empty()
    } else {
        let before = present_places(contents.drop_last());
        match contents.last() {
            Some(_) => before.push((contents.len() - 1) as usize),
            None => before,
        }
    }
}

/// The outcome of a merge with a failure named by the segment at that
/// place of `places` in place of the place.
pub open spec fn at_segments(outcome: Result<Seq<Cue>, MergeError>, places: Seq<usize>) -> Result<
    Seq<Cue>,
    MergeError,
> {
    match outcome {
        Ok(track) => Ok(track),
        Err(MergeError::Fragment { segment }) => Err(
            MergeError::Fragment { segment: places[segment as int] },
        ),
        Err(MergeError::TimeOverflow { segment }) => Err(
            MergeError::TimeOverflow { segment: places[segment as int] },
        ),
    }
}

/// The one track that the fragments that are there merge into, each at the
/// start of its own segment; a failure names the segment of the fragment
/// that failed.
pub open spec fn merged_present(contents: Seq<Option<Seq<char>>>, cuts: Seq<u64>) -> Result<
    Seq<Cue>,
    MergeError,
> {
    at_segments(merged_track(present(contents, cuts)), present_places(contents))
}

/// The place that a failure names.
pub open spec fn failed_place(e: MergeError) -> int {
    match e {
        MergeError::Fragment { segment } => segment as int,
        MergeError::TimeOverflow { segment } => segment as int,
    }
}

/// A failure names one of the fragments that were gathered.
pub proof fn lemma_failure_names_a_fragment(fragments: Seq<FragmentView>, count: int)
    requires
        0 <= count <= usize::MAX,
    ensures
        gathered(fragments, count) is Err ==> 0 <= failed_place(gathered(fragments, count)->Err_0)
            < count,
    decreases count,
{
    if count > 0 {
        lemma_failure_names_a_fragment(fragments, count - 1);
    }
}

/// Every fragment that is there stands at the start of its own segment
/// and holds the text of that segment, whichever other fragments are
/// absent; and the fragments are in ascending order of their segments.
pub proof fn lemma_present_at_own_segments(contents: Seq<Option<Seq<char>>>, cuts: Seq<u64>)
    requires
        contents.len() <= usize::MAX,
    ensures
        present(contents, cuts).len() == present_places(contents).len(),
        forall|k: int|
            0 <= k < present_places(contents).len() ==> {
                let place = #[trigger] present_places(contents)[k];
                &&& place < contents.len()
                &&& contents[place as int] == Some(present(contents, cuts)[k].content)
                &&& present(contents, cuts)[k].offset == segment_offset(cuts, place as int)
            },
        forall|k: int, l: int|
            0 <= k < l < present_places(contents).len() ==> present_places(contents)[k]
                < present_places(contents)[l],
        forall|i: int|
            0 <= i < contents.len() && contents[i] is Some ==> present_places(contents).contains(
                i as usize,
            ),
    decreases contents.len(),
{
    if contents.len() > 0 {
        let front = contents.drop_last();
        lemma_present_at_own_segments(front, cuts);
        let places = present_places(contents);
        let before = present_places(front);
        assert forall|k: int| 0 <= k < places.len() implies {
            let place = #[trigger] places[k];
            &&& place < contents.len()
            &&& contents[place as int] == Some(present(contents, cuts)[k].content)
            &&& present(contents, cuts)[k].offset == segment_offset(cuts, place as int)
        } by {
            if k < before.len() {
                assert(places[k] == before[k]);
                assert(front[before[k] as int] == contents[before[k] as int]);
            }
        }
        assert forall|i: int| 0 <= i < contents.len() && contents[i] is Some implies places.contains(
            i as usize,
        ) by {
            if i < front.len() {
                assert(front[i] is Some);
                let k = choose|k: int| 0 <= k < before.len() && before[k] == i as usize;
                assert(places[k] == i as usize);
            } else {
                assert(places[places.len() - 1] == i as usize);
            }
        }
    }
}

/// Where every fragment is there, those that are there are the fragments
/// of the segments in order.
pub proof fn lemma_all_present(contents: Seq<Seq<char>>, cuts: Seq<u64>)
    ensures
        present(contents.map_values(|c: Seq<char>| Some(c)), cuts) == positional(contents, cuts),
    decreases contents.len(),
{
    let wrapped = contents.map_values(|c: Seq<char>| Some(c));
    if contents.len() == 0 {
        assert(present(wrapped, cuts) =~= positional(contents, cuts));
    } else {
        lemma_all_present(contents.drop_last(), cuts);
        assert(wrapped.drop_last() =~= contents.drop_last().map_values(|c: Seq<char>| Some(c)));
        assert(present(wrapped, cuts) =~= positional(contents, cuts));
    }
}

/// Whether a fragment can be merged: its text reads as a track, and the
/// times of the track, moved to the fragment's place, fit in 64 bits.
pub open spec fn mergeable(f: FragmentView) -> bool {
    parse_track(f.content) is Ok && shift_fits(parse_track(f.content)->Ok_0, f.offset)
}

/// The cues of the first `count` fragments, fragment after fragment, each
/// cue moved to the place of its own fragment.
pub open spec fn moved(fragments: Seq<FragmentView>, count: int) -> Seq<Cue>
    decreases count,
{
    if count <= 0 {
        Seq::<Cue>::empty()
    } else {
        moved(fragments, count - 1) + shifted(
            parse_track(fragments[count - 1].content)->Ok_0,
            fragments[count - 1].offset,
        )
    }
}

/// Gathering gives every cue of every fragment, moved to its fragment's
/// place, where every fragment can be merged; and otherwise names the
/// first fragment that cannot.
pub proof fn lemma_gathered_outcome(fragments: Seq<FragmentView>, count: int)
    requires
        0 <= count <= fragments.len(),
        count <= usize::MAX,
    ensures
        match gathered(fragments, count) {
            Ok(all) => all == moved(fragments, count) && forall|i: int|
                0 <= i < count ==> mergeable(#[trigger] fragments[i]),
            Err(e) => 0 <= failed_place(e) < count && !mergeable(fragments[failed_place(e)])
                && forall|i: int| 0 <= i < failed_place(e) ==> mergeable(#[trigger] fragments[i]),
        },
    decreases count,
{
    if count > 0 {
        lemma_gathered_outcome(fragments, count - 1);
    }
}

/// Merging leaves nothing out and doubles nothing: the merged track shows
/// every cue of every fragment, moved to its fragment's place, exactly
/// once; or the merge fails at the first fragment that cannot be merged.
pub proof fn lemma_merge_is_complete(fragments: Seq<FragmentView>)
    requires
        fragments.len() <= usize::MAX,
    ensures
        match merged_track(fragments) {
            Ok(track) => {
                &&& forall|i: int| 0 <= i < fragments.len() ==> mergeable(#[trigger] fragments[i])
                &&& track.len() == moved(fragments, fragments.len() as int).len()
                &&& unnumbered(track).to_multiset() == unnumbered(
                    moved(fragments, fragments.len() as int),
                ).to_multiset()
            },
            Err(e) => {
                &&& 0 <= failed_place(e) < fragments.len()
                &&& !mergeable(fragments[failed_place(e)])
                &&& forall|i: int| 0 <= i < failed_place(e) ==> mergeable(#[trigger] fragments[i])
            },
        },
{
    lemma_gathered_outcome(fragments, fragments.len() as int);
    if gathered(fragments, fragments.len() as int) is Ok {
        let all = gathered(fragments, fragments.len() as int)->Ok_0;
        lemma_sorted_contents(all);
        lemma_sorted_is_ordered(all);
    }
}

/// Where every fragment is there, merging those that are there is merging
/// the fragments of the segments in order.
pub proof fn lemma_complete_merge(contents: Seq<Seq<char>>, cuts: Seq<u64>)
    requires
        contents.len() <= usize::MAX,
    ensures
        merged_present(contents.map_values(|c: Seq<char>| Some(c)), cuts) == merged_track(
            positional(contents, cuts),
        ),
{
    let wrapped = contents.map_values(|c: Seq<char>| Some(c));
    lemma_all_present(contents, cuts);
    lemma_present_at_own_segments(wrapped, cuts);
    lemma_merge_is_complete(positional(contents, cuts));
    let places = present_places(wrapped);
    assert(places.len() == contents.len());
    assert forall|k: int| 0 <= k < places.len() implies places[k] == k by {
        lemma_ascending_places(places, contents.len() as int, k);
    }
}

/// Places that ascend strictly below a bound, as many as the bound, are
/// the places 0, 1, 2, ... themselves.
proof fn lemma_ascending_places(places: Seq<usize>, bound: int, k: int)
    requires
        places.len() == bound,
        forall|i: int| 0 <= i < places.len() ==> (#[trigger] places[i]) < bound,
        forall|i: int, j: int| 0 <= i < j < places.len() ==> places[i] < places[j],
        0 <= k < bound,
    ensures
        places[k] == k,
{
    lemma_place_at_least(places, k);
    lemma_place_at_most(places, bound, k);
}

/// The place at `k` of strictly ascending places is at least `k`.
proof fn lemma_place_at_least(places: Seq<usize>, k: int)
    requires
        forall|i: int, j: int| 0 <= i < j < places.len() ==> places[i] < places[j],
        0 <= k < places.len(),
    ensures
        places[k] >= k,
    decreases k,
{
    if k > 0 {
        lemma_place_at_least(places, k - 1);
        assert(places[k - 1] < places[k]);
    }
}

/// The place at `k` of strictly ascending places below a bound that is
/// their count is at most `k`.
proof fn lemma_place_at_most(places: Seq<usize>, bound: int, k: int)
    requires
        places.len() == bound,
        forall|i: int| 0 <= i < places.len() ==> (#[trigger] places[i]) < bound,
        forall|i: int, j: int| 0 <= i < j < places.len() ==> places[i] < places[j],
        0 <= k < bound,
    ensures
        places[k] <= k,
    decreases bound - k,
{
    if k < bound - 1 {
        lemma_place_at_most(places, bound, k + 1);
        assert(places[k] < places[k + 1]);
    }
}

/// Merges the subtitle texts of those segments of a recording whose
/// fragments are there into the subtitle text of the whole recording.
/// `contents` holds, for each segment in order, the text of its fragment or
/// nothing. Each fragment is moved to the start of its own segment, the
/// first at zero and each further one at the cut point before it, whichever
/// other fragments are absent. A failure names the segment, counted from
/// zero, of the fragment that failed.
pub fn merge_present_fragments(contents: &Vec<Option<String>>, cut_points: &Vec<u64>) -> (r: Result<
    String,
    MergeError,
>)
    requires
        contents@.len() <= cut_points@.len() + 1,
    ensures
        merge_text_outcome(r, merged_present(option_texts(contents@), cut_points@)),
{
    let ghost all = option_texts(contents@);
    let mut fragments: Vec<Fragment> = Vec::new();
    let mut places: Vec<usize> = Vec::new();
    let mut i: usize = 0;
    proof {
        assert(all.take(0) =~= Seq::<Option<Seq<char>>>::empty());
        assert(fragment_views(fragments@) =~= Seq::<FragmentView>::empty());
    }
    while i < contents.len()
        invariant
            i <= contents.len() <= cut_points.len() + 1,
            all == option_texts(contents@),
            fragment_views(fragments@) == present(all.take(i as int), cut_points@),
            places@ == present_places(all.take(i as int)),
        decreases contents.len() - i,
    {
        proof {
            assert(all.take(i + 1).drop_last() =~= all.take(i as int));
            assert(all.take(i + 1).last() == all[i as int]);
        }
        match &contents[i] {
            Some(text) => {
                let offset = if i == 0 {
                    0
                } else {
                    cut_points[i - 1]
                };
                let fragment = Fragment { offset, content: text.clone() };
                proof {
                    assert(fragment_views(fragments@.push(fragment)) =~= fragment_views(
                        fragments@,
                    ).push(fragment@));
                }
                fragments.push(fragment);
                places.push(i);
            },
            None => {},
        }
        i += 1;
    }
    let count = fragments.len();
    proof {
        assert(all.take(contents.len() as int) =~= all);
        lemma_present_at_own_segments(all, cut_points@);
        lemma_failure_names_a_fragment(fragment_views(fragments@), count as int);
    }
    match merge_fragments(&fragments) {
        Ok(track) => Ok(format_srt_content(&track)),
        Err(MergeError::Fragment { segment }) => Err(
            MergeError::Fragment { segment: places[segment] },
        ),
        Err(MergeError::TimeOverflow { segment }) => Err(
            MergeError::TimeOverflow { segment: places[segment] },
        ),
    }
}

/// Merging is repeatable: whatever two merges of the same texts at the same
/// cut points give is the same, be it the same subtitle text, character for
/// character, or the same failure.
pub proof fn lemma_merge_repeatable(
    contents: Seq<Seq<char>>,
    cuts: Seq<u64>,
    first: Result<String, MergeError>,
    second: Result<String, MergeError>,
)
    requires
        merge_text_outcome(first, merged_track(positional(contents, cuts))),
        merge_text_outcome(second, merged_track(positional(contents, cuts))),
    ensures
        first is Ok <==> second is Ok,
        first is Ok ==> first->Ok_0@ == second->Ok_0@,
        first is Err ==> first->Err_0 == second->Err_0,
{
}

/// The merged track shows what the fragments show, each cue moved to its
/// segment's place: no cue is left out and none comes twice.
pub proof fn lemma_merge_keeps_every_cue(fragments: Seq<FragmentView>)
    requires
        gathered(fragments, fragments.len() as int) is Ok,
    ensures
        merged_track(fragments) is Ok,
        unnumbered(merged_track(fragments)->Ok_0).to_multiset() == unnumbered(
            gathered(fragments, fragments.len() as int)->Ok_0,
        ).to_multiset(),
{
    lemma_sorted_contents(gathered(fragments, fragments.len() as int)->Ok_0);
}

/// What every gathered cue shows is legible.
proof fn lemma_gathered_legible(fragments: Seq<FragmentView>, count: int)
    ensures
        gathered(fragments, count) is Ok ==> forall|i: int|
            0 <= i < gathered(fragments, count)->Ok_0.len() ==> legible(
                #[trigger] gathered(fragments, count)->Ok_0[i],
            ),
    decreases count,
{
    if count > 0 {
        lemma_gathered_legible(fragments, count - 1);
        if gathered(fragments, count) is Ok {
            let sofar = gathered(fragments, count - 1)->Ok_0;
            let f = fragments[count - 1];
            let track = parse_track(f.content)->Ok_0;
            lemma_read_track_is_readable(f.content);
            let all = gathered(fragments, count)->Ok_0;
            assert forall|i: int| 0 <= i < all.len() implies legible(#[trigger] all[i]) by {
                if i < sofar.len() {
                    assert(all[i] == sofar[i]);
                } else {
                    let k = i - sofar.len();
                    assert(all[i] == shifted_cue(track[k], f.offset));
                    assert(readable(track[k]));
                    assert(track[k].end + f.offset <= u64::MAX);
                }
            }
        }
    }
}

/// Merging what was merged changes nothing: the subtitle text of a merged
/// track, merged as the one fragment of a recording without cut points,
/// gives the same track, and so the same subtitle text.
pub proof fn lemma_merge_is_idempotent(fragments: Seq<FragmentView>)
    requires
        merged_track(fragments) is Ok,
        merged_track(fragments)->Ok_0.len() <= usize::MAX,
    ensures
        merged_track(
            seq![FragmentView { offset: 0, content: track_text(merged_track(fragments)->Ok_0) }],
        ) == merged_track(fragments),
{
    let all = gathered(fragments, fragments.len() as int)->Ok_0;
    let sorted = sorted_by_start(all);
    let merged = merged_track(fragments)->Ok_0;
    lemma_gathered_legible(fragments, fragments.len() as int);
    lemma_gathered_runs_forward(fragments, fragments.len() as int);
    lemma_sorted_is_well_formed(all);
    lemma_sorted_is_ordered(all);
    lemma_insert_all_sources(Seq::<Cue>::empty(), all);
    assert forall|i: int| 0 <= i < merged.len() implies readable(#[trigger] merged[i]) by {
        assert(all.contains(sorted[i]));
        let k = choose|k: int| 0 <= k < all.len() && all[k] == sorted[i];
        assert(legible(all[k]));
        assert(merged[i].text == sorted[i].text);
    }
    lemma_written_track_reads_back(merged);
    let again = seq![FragmentView { offset: 0, content: track_text(merged) }];
    assert(gathered(again, 0) == Ok::<Seq<Cue>, MergeError>(Seq::<Cue>::empty()));
    assert(again[0].content == track_text(merged));
    assert(shift_fits(merged, 0));
    assert(shifted(merged, 0) =~= merged);
    assert(Seq::<Cue>::empty() + merged =~= merged);
    assert(gathered(again, 1) == Ok::<Seq<Cue>, MergeError>(merged));
    lemma_sorted_fixes_ordered(merged);
    assert(renumbered(merged) =~= merged);
}

/// The fragments of the segments of a recording stand where the segments
/// start: the offset of each is that of its segment.
pub proof fn lemma_fragments_stand_at_segments(
    contents: Seq<Seq<char>>,
    cuts: Seq<u64>,
    total: u64,
)
    requires
        valid_cut_points(cuts, total),
        contents.len() <= cuts.len() + 1,
    ensures
        forall|i: int|
            0 <= i < contents.len() ==> (#[trigger] positional(contents, cuts)[i]).offset
                == segments_of(cuts, total)[i].offset,
{
    assert forall|i: int| 0 <= i < contents.len() implies (#[trigger] positional(
        contents,
        cuts,
    )[i]).offset == segments_of(cuts, total)[i].offset by {
        if i > 0 {
            assert(0 < cuts[i - 1] < total);
        }
    }
}

} // verus!
