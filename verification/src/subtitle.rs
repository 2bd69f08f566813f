//! Subtitle entries and tracks: the subtitle text format, read leniently
//! and written exactly, and the edits that keep a track ordered by time and
//! numbered from one.

use crate::text::{
    copy_range, decimal_text, decimal_value, find_char, index_of, is_number, join,
    lemma_decimal_text_value, parse_number, push_chars, push_padded, push_str_chars, read_lines,
    rows, string_of, trim, trim_chars, trimmed_lines,
};
use crate::time::{
    format_srt_time, parse_srt_time, parse_srt_time_chars, push_clock, srt_time_text,
    srt_time_value, time_result, TimeError,
};
use vstd::prelude::*;

verus! {

/// One subtitle: its number in the track, the time it is shown at and the
/// time it is hidden at, both in milliseconds, and its lines of text joined
/// by line feeds.
#[derive(Debug, Clone)]
pub struct SubtitleEntry {
    pub index: usize,
    pub start_time: u64,
    pub end_time: u64,
    pub text: String,
}

/// What a subtitle entry stands for.
pub struct Cue {
    pub index: nat,
    pub start: nat,
    pub end: nat,
    pub text: Seq<char>,
}

impl View for SubtitleEntry {
    type V = Cue;

    open spec fn view(&self) -> Cue {
        Cue {
            index: self.index as nat,
            start: self.start_time as nat,
            end: self.end_time as nat,
            text: self.text@,
        }
    }
}

/// What a track of subtitle entries stands for.
pub open spec fn cues(track: Seq<SubtitleEntry>) -> Seq<Cue> {
    track.map_values(|e: SubtitleEntry| e@)
}

/// The arrow between the two timestamps of a block, with its spaces.
pub open spec fn arrow() -> Seq<char> {
    seq![' ', '-', '-', '>', ' ']
}

/// The block of subtitle text for one cue: its number, its two timestamps
/// around an arrow, its text, and an empty line.
pub open spec fn cue_text(c: Cue) -> Seq<char> {
    decimal_text(c.index) + seq!['\n'] + srt_time_text(c.start) + arrow() + srt_time_text(c.end)
        + seq!['\n'] + c.text + seq!['\n', '\n']
}

/// The subtitle text of a track: the blocks of its cues in the given order.
pub open spec fn track_text(track: Seq<Cue>) -> Seq<char>
    decreases track.len(),
{
    if track.len() == 0 {
        Seq::<char>::empty()
    } else {
        track_text(track.drop_last()) + cue_text(track.last())
    }
}

/// Appends the block of `entry` to `out`.
fn push_block(out: &mut Vec<char>, entry: &SubtitleEntry)
    ensures
        final(out)@ == old(out)@ + cue_text(entry@),
{
    let ghost c = entry@;
    proof {
        lemma_decimal_text_value(c.index);
    }
    push_padded(out, entry.index as u64, 1);
    out.push('\n');
    push_clock(out, entry.start_time, ',');
    out.push(' ');
    out.push('-');
    out.push('-');
    out.push('>');
    out.push(' ');
    push_clock(out, entry.end_time, ',');
    out.push('\n');
    push_str_chars(out, entry.text.as_str());
    out.push('\n');
    out.push('\n');
    assert(out@ =~= old(out)@ + (decimal_text(c.index) + seq!['\n'] + srt_time_text(c.start)
        + arrow() + srt_time_text(c.end) + seq!['\n'] + c.text + seq!['\n', '\n']));
}

impl SubtitleEntry {
    /// An entry with the given fields.
    pub fn new(index: usize, start_time: u64, end_time: u64, text: String) -> (e: Self)
        ensures
            e.index == index,
            e.start_time == start_time,
            e.end_time == end_time,
            e.text == text,
    {
        SubtitleEntry { index, start_time, end_time, text }
    }

    /// Writes `ms` milliseconds as a subtitle timestamp, `HH:MM:SS,mmm`.
    pub fn format_srt_time(ms: u64) -> (r: String)
        ensures
            r@ == srt_time_text(ms as nat),
    {
        format_srt_time(ms)
    }

    /// Reads a subtitle timestamp, `HH:MM:SS,mmm`, as milliseconds.
    pub fn parse_srt_time(time_str: &str) -> (r: Result<u64, TimeError>)
        ensures
            r == time_result(srt_time_value(time_str@)),
    {
        parse_srt_time(time_str)
    }

    /// The block of subtitle text for this entry.
    pub fn to_srt_string(&self) -> (r: String)
        ensures
            r@ == cue_text(self@),
    {
        let mut out: Vec<char> = Vec::new();
        push_block(&mut out, self);
        assert(out@ =~= cue_text(self@));
        string_of(&out)
    }
}

/// The subtitle text of `subtitles`, block after block in the given order.
/// Nothing is sorted or renumbered here.
pub fn format_srt_content(subtitles: &Vec<SubtitleEntry>) -> (r: String)
    ensures
        r@ == track_text(cues(subtitles@)),
{
    let mut out: Vec<char> = Vec::new();
    let mut i: usize = 0;
    while i < subtitles.len()
        invariant
            i <= subtitles.len(),
            out@ == track_text(cues(subtitles@).take(i as int)),
        decreases subtitles.len() - i,
    {
        proof {
            let all = cues(subtitles@);
            assert(all.take(i + 1).drop_last() =~= all.take(i as int));
            assert(all.take(i + 1).last() == subtitles@[i as int]@);
        }
        push_block(&mut out, &subtitles[i]);
        i += 1;
    }
    assert(cues(subtitles@).take(subtitles.len() as int) =~= cues(subtitles@));
    string_of(&out)
}

/// The number on an index line: a run of digits and nothing else, with a
/// value that fits the machine's index type.
pub open spec fn index_line_value(line: Seq<char>) -> Option<nat> {
    if is_number(line) && decimal_value(line) <= usize::MAX {
        Some(decimal_value(line))
    } else {
        None
    }
}

/// The two times on a timing line. The first `-` of the line must begin the
/// arrow `-->`, and what stands before and after the arrow, without the
/// white space around it, must each be a timestamp that fits in 64 bits.
/// (A timestamp holds no `-`, so this says that the line has exactly one
/// arrow, between two timestamps.)
pub open spec fn timing_line_value(line: Seq<char>) -> Option<(nat, nat)> {
    let k = index_of(line, '-');
    if k + 3 <= line.len() && line[k + 1] == '-' && line[k + 2] == '>' {
        match (
            time_result(srt_time_value(trim(line.take(k)))),
            time_result(srt_time_value(trim(line.skip(k + 3)))),
        ) {
            (Ok(a), Ok(b)) => Some((a as nat, b as nat)),
            _ => None,
        }
    } else {
        None
    }
}

/// Where the text that begins at line `from` ends: at the first empty line
/// from there on, or at the end of the lines.
pub open spec fn text_end(lines: Seq<Seq<char>>, from: int) -> int
    decreases lines.len() - from,
{
    if 0 <= from < lines.len() && lines[from].len() > 0 {
        text_end(lines, from + 1)
    } else {
        from
    }
}

/// The number and the two times of the block that begins at line `from`,
/// where that line is an index line and the next one a timing line.
pub open spec fn block_head(lines: Seq<Seq<char>>, from: int) -> Option<(nat, nat, nat)> {
    if 0 <= from && from + 1 < lines.len() {
        match (index_line_value(lines[from]), timing_line_value(lines[from + 1])) {
            (Some(index), Some((start, end))) => Some((index, start, end)),
            _ => None,
        }
    } else {
        None
    }
}

/// The text of a block ends at or after its start.
pub proof fn lemma_text_end_bounds(lines: Seq<Seq<char>>, from: int)
    requires
        0 <= from <= lines.len(),
    ensures
        from <= text_end(lines, from) <= lines.len(),
        forall|j: int| from <= j < text_end(lines, from) ==> (#[trigger] lines[j]).len() > 0,
        text_end(lines, from) < lines.len() ==> lines[text_end(lines, from)].len() == 0,
    decreases lines.len() - from,
{
    if from < lines.len() && lines[from].len() > 0 {
        lemma_text_end_bounds(lines, from + 1);
    }
}

/// `cues` in front of what a parse of the rest gave.
pub open spec fn after_cues(cues: Seq<Cue>, rest: Result<Seq<Cue>, TimeError>) -> Result<
    Seq<Cue>,
    TimeError,
> {
    match rest {
        Ok(more) => Ok(cues + more),
        Err(e) => Err(e),
    }
}

/// The cues read from trimmed lines, from line `from` on.
///
/// A block is an index line, directly followed by a timing line, followed
/// by the lines of its text up to the next empty line. A line that begins
/// no block is passed over, whatever it holds; the line after it is looked
/// at next. A block whose start is not before its end makes the whole
/// reading fail.
pub open spec fn parse_blocks(lines: Seq<Seq<char>>, from: int) -> Result<Seq<Cue>, TimeError>
    decreases lines.len() - from,
{
    if from < 0 || from >= lines.len() {
        Ok(Seq::<Cue>::empty())
    } else {
        match block_head(lines, from) {
            Some((index, start, end)) => {
                if start >= end {
                    Err(TimeError::InvalidInterval)
                } else {
                    let stop = text_end(lines, from + 2);
                    proof {
                        lemma_text_end_bounds(lines, from + 2);
                    }
                    let cue = Cue {
                        index,
                        start,
                        end,
                        text: join(lines.subrange(from + 2, stop), '\n'),
                    };
                    after_cues(seq![cue], parse_blocks(lines, stop))
                }
            },
            None => parse_blocks(lines, from + 1),
        }
    }
}

/// The track that a subtitle text holds.
pub open spec fn parse_track(content: Seq<char>) -> Result<Seq<Cue>, TimeError> {
    parse_blocks(trimmed_lines(content), 0)
}

/// Reads an index line.
fn read_index_line(line: &Vec<char>) -> (r: Option<usize>)
    ensures
        match index_line_value(line@) {
            Some(n) => r == Some(n as usize),
            None => r is None,
        },
{
    assert(line@.subrange(0, line.len() as int) =~= line@);
    match parse_number(line, 0, line.len()) {
        Some(n) => {
            if n <= usize::MAX as u64 {
                Some(n as usize)
            } else {
                None
            }
        },
        None => None,
    }
}

/// Reads a timing line.
fn read_timing_line(line: &Vec<char>) -> (r: Option<(u64, u64)>)
    ensures
        match timing_line_value(line@) {
            Some((a, b)) => r == Some((a as u64, b as u64)),
            None => r is None,
        },
{
    let n = line.len();
    let k = find_char(line, '-');
    if n < 3 || k > n - 3 {
        return None;
    }
    if line[k + 1] != '-' || line[k + 2] != '>' {
        return None;
    }
    let left = copy_range(line, 0, k);
    let right = copy_range(line, k + 3, n);
    assert(left@ =~= line@.take(k as int));
    assert(right@ =~= line@.skip(k + 3));
    let left = trim_chars(&left);
    let right = trim_chars(&right);
    match (parse_srt_time_chars(&left), parse_srt_time_chars(&right)) {
        (Ok(a), Ok(b)) => Some((a, b)),
        _ => None,
    }
}

/// The first empty line at or after `from` is where the text ends.
pub proof fn lemma_text_end_is(lines: Seq<Seq<char>>, from: int, stop: int)
    requires
        0 <= from <= stop <= lines.len(),
        forall|j: int| from <= j < stop ==> (#[trigger] lines[j]).len() > 0,
        stop < lines.len() ==> lines[stop].len() == 0,
    ensures
        text_end(lines, from) == stop,
    decreases stop - from,
{
    if from < stop {
        lemma_text_end_is(lines, from + 1, stop);
    }
}

/// Every cue that is read starts before it ends.
pub proof fn lemma_parsed_runs_forward(lines: Seq<Seq<char>>, from: int)
    ensures
        parse_blocks(lines, from) is Ok ==> runs_forward(parse_blocks(lines, from)->Ok_0),
    decreases lines.len() - from,
{
    if from < 0 || from >= lines.len() {
    } else {
        match block_head(lines, from) {
            Some((index, start, end)) => {
                if start < end {
                    let stop = text_end(lines, from + 2);
                    lemma_text_end_bounds(lines, from + 2);
                    lemma_parsed_runs_forward(lines, stop);
                    if parse_blocks(lines, stop) is Ok {
                        let rest = parse_blocks(lines, stop)->Ok_0;
                        let all = parse_blocks(lines, from)->Ok_0;
                        assert forall|i: int| 0 <= i < all.len() implies (#[trigger] all[i]).start
                            < all[i].end by {
                            if i > 0 {
                                assert(all[i] == rest[i - 1]);
                            }
                        }
                    }
                }
            },
            None => {
                lemma_parsed_runs_forward(lines, from + 1);
            },
        }
    }
}

/// Whether `r` is the outcome `model` in executable form.
pub open spec fn track_outcome(
    r: Result<Vec<SubtitleEntry>, TimeError>,
    model: Result<Seq<Cue>, TimeError>,
) -> bool {
    match model {
        Ok(track) => r is Ok && cues(r->Ok_0@) == track,
        Err(e) => r == Err::<Vec<SubtitleEntry>, TimeError>(e),
    }
}

/// Reads a subtitle text.
///
/// The reading is lenient: whatever is not part of a block is passed over,
/// and so is an index line that no timing line follows. It fails, with
/// `InvalidInterval`, only on a block whose start is not before its end.
/// The numbers of the entries are those of the text.
#[verifier::rlimit(30)]
#[verifier::loop_isolation(false)]
pub fn parse_srt_content(content: &str) -> (r: Result<Vec<SubtitleEntry>, TimeError>)
    ensures
        track_outcome(r, parse_track(content@)),
        r is Ok ==> runs_forward(cues(r->Ok_0@)),
{
    proof {
        lemma_parsed_runs_forward(trimmed_lines(content@), 0);
    }
    let lines = read_lines(content);
    let ghost all = rows(lines@);
    let n = lines.len();
    let mut entries: Vec<SubtitleEntry> = Vec::new();
    let mut i: usize = 0;
    proof {
        assert(cues(entries@) + Seq::<Cue>::empty() =~= Seq::<Cue>::empty());
        match parse_blocks(all, 0) {
            Ok(t) => {
                assert(cues(entries@) + t =~= t);
            },
            Err(_) => {},
        }
    }
    while i < n
        invariant
            i <= n,
            parse_blocks(all, 0) == after_cues(cues(entries@), parse_blocks(all, i as int)),
        decreases n - i,
    {
        assert(all[i as int] == lines@[i as int]@);
        let head = read_index_line(&lines[i]);
        let mut timing: Option<(u64, u64)> = None;
        if head.is_some() && i + 1 < n {
            assert(all[i + 1] == lines@[i + 1]@);
            timing = read_timing_line(&lines[i + 1]);
        }
        match (head, timing) {
            (Some(index), Some((start, end))) => {
                assert(block_head(all, i as int) == Some((index as nat, start as nat, end as nat)));
                if start >= end {
                    return Err(TimeError::InvalidInterval);
                }
                let mut text: Vec<char> = Vec::new();
                let mut j: usize = i + 2;
                assert(all.subrange(i + 2, j as int) =~= Seq::<Seq<char>>::empty());
                while j < n && lines[j].len() > 0
                    invariant
                        i + 2 <= j <= n,
                        forall|k: int| i + 2 <= k < j ==> (#[trigger] all[k]).len() > 0,
                        text@ == join(all.subrange(i + 2, j as int), '\n'),
                    decreases n - j,
                {
                    proof {
                        assert(all[j as int] == lines@[j as int]@);
                        assert(all.subrange(i + 2, j + 1).drop_last() =~= all.subrange(
                            i + 2,
                            j as int,
                        ));
                    }
                    if j > i + 2 {
                        text.push('\n');
                    }
                    push_chars(&mut text, &lines[j]);
                    j += 1;
                }
                proof {
                    if j < n {
                        assert(all[j as int] == lines@[j as int]@);
                    }
                    lemma_text_end_is(all, i + 2, j as int);
                    let cue = Cue {
                        index: index as nat,
                        start: start as nat,
                        end: end as nat,
                        text: text@,
                    };
                    let rest = parse_blocks(all, j as int);
                    assert(parse_blocks(all, i as int) == after_cues(seq![cue], rest));
                    match rest {
                        Ok(more) => {
                            assert(cues(entries@) + (seq![cue] + more) =~= cues(entries@).push(cue)
                                + more);
                        },
                        Err(_) => {},
                    }
                }
                let entry = SubtitleEntry::new(index, start, end, string_of(&text));
                proof {
                    assert(cues(entries@.push(entry)) =~= cues(entries@).push(entry@));
                }
                entries.push(entry);
                i = j;
            },
            _ => {
                assert(block_head(all, i as int) is None);
                i += 1;
            },
        }
    }
    proof {
        assert(cues(entries@) + Seq::<Cue>::empty() =~= cues(entries@));
    }
    Ok(entries)
}

/// The track with its cues numbered 1, 2, 3, ... in their order.
pub open spec fn renumbered(track: Seq<Cue>) -> Seq<Cue> {
    Seq::new(track.len(), |i: int| Cue { index: (i + 1) as nat, ..track[i] })
}

/// Whether the cue at every position `i`, counted from zero, has the number
/// `i + 1`.
pub open spec fn numbered_from_one(track: Seq<Cue>) -> bool {
    forall|i: int| 0 <= i < track.len() ==> (#[trigger] track[i]).index == i + 1
}

/// Whether the cues come in ascending order of their start.
pub open spec fn ordered_by_start(track: Seq<Cue>) -> bool {
    forall|i: int, j: int| 0 <= i <= j < track.len() ==> track[i].start <= track[j].start
}

/// Whether every cue starts before it ends.
pub open spec fn runs_forward(track: Seq<Cue>) -> bool {
    forall|i: int| 0 <= i < track.len() ==> (#[trigger] track[i]).start < track[i].end
}

/// Whether the track is well formed: its cues are numbered from one, come
/// in ascending order of start, and each starts before it ends.
pub open spec fn well_formed(track: Seq<Cue>) -> bool {
    numbered_from_one(track) && ordered_by_start(track) && runs_forward(track)
}

/// Numbers the entries 1, 2, 3, ... in their order; nothing else changes.
pub fn reindex_subtitles(subtitles: &mut Vec<SubtitleEntry>)
    ensures
        cues(final(subtitles)@) == renumbered(cues(old(subtitles)@)),
        numbered_from_one(cues(final(subtitles)@)),
{
    let n = subtitles.len();
    let mut i: usize = 0;
    while i < n
        invariant
            i <= n == subtitles.len() == old(subtitles).len(),
            forall|k: int|
                0 <= k < i ==> (#[trigger] subtitles@[k])@ == renumbered(
                    cues(old(subtitles)@),
                )[k],
            forall|k: int| i <= k < n ==> subtitles@[k] == old(subtitles)@[k],
        decreases n - i,
    {
        subtitles[i].index = i + 1;
        i += 1;
    }
    assert(cues(subtitles@) =~= renumbered(cues(old(subtitles)@)));
}

/// The position of the first cue that starts after `start`, or the length
/// of the track where none does.
pub open spec fn insert_position(track: Seq<Cue>, start: nat) -> int
    decreases track.len(),
{
    if track.len() == 0 || track[0].start > start {
        0
    } else {
        1 + insert_position(track.skip(1), start)
    }
}

/// The track with `cue` put before the first cue that starts later than it,
/// or at the end where none does.
pub open spec fn with_inserted(track: Seq<Cue>, cue: Cue) -> Seq<Cue> {
    track.insert(insert_position(track, cue.start), cue)
}

/// The track with the cues of `new` put in one after the other.
pub open spec fn with_all_inserted(track: Seq<Cue>, new: Seq<Cue>) -> Seq<Cue>
    decreases new.len(),
{
    if new.len() == 0 {
        track
    } else {
        with_inserted(with_all_inserted(track, new.drop_last()), new.last())
    }
}

/// The cues of the track in ascending order of start, those with equal
/// starts in the order they had: each cue in turn is put behind the cues
/// that start no later than it.
pub open spec fn sorted_by_start(track: Seq<Cue>) -> Seq<Cue> {
    with_all_inserted(Seq::<Cue>::empty(), track)
}

/// Whether the cue lies wholly outside the window from `start` up to, not
/// including, `end`.
pub open spec fn outside_window(c: Cue, start: nat, end: nat) -> bool {
    c.end <= start || c.start >= end
}

/// The track without the cues that reach into the window.
pub open spec fn without_window(track: Seq<Cue>, start: nat, end: nat) -> Seq<Cue> {
    track.filter(|c: Cue| outside_window(c, start, end))
}

/// `insert_position` is in bounds; every cue before it starts no later than
/// `start`, and the cue at it, if any, starts later.
pub proof fn lemma_insert_position(track: Seq<Cue>, start: nat)
    ensures
        0 <= insert_position(track, start) <= track.len(),
        forall|k: int| 0 <= k < insert_position(track, start) ==> track[k].start <= start,
        insert_position(track, start) < track.len() ==> track[insert_position(track, start)].start
            > start,
    decreases track.len(),
{
    if track.len() == 0 || track[0].start > start {
    } else {
        lemma_insert_position(track.skip(1), start);
        assert forall|k: int| 0 <= k < insert_position(track, start) implies track[k].start
            <= start by {
            if k > 0 {
                assert(track[k] == track.skip(1)[k - 1]);
            }
        }
    }
}

/// The first position whose cue starts later than `start` is
/// `insert_position`.
pub proof fn lemma_insert_position_is(track: Seq<Cue>, start: nat, j: int)
    requires
        0 <= j <= track.len(),
        forall|k: int| 0 <= k < j ==> track[k].start <= start,
        j < track.len() ==> track[j].start > start,
    ensures
        insert_position(track, start) == j,
    decreases track.len(),
{
    if j > 0 {
        assert(track[0].start <= start);
        assert forall|k: int| 0 <= k < j - 1 implies track.skip(1)[k].start <= start by {
            assert(track.skip(1)[k] == track[k + 1]);
        }
        lemma_insert_position_is(track.skip(1), start, j - 1);
    }
}

/// Putting a cue into an ordered track leaves it ordered.
pub proof fn lemma_insert_keeps_order(track: Seq<Cue>, cue: Cue)
    requires
        ordered_by_start(track),
    ensures
        ordered_by_start(with_inserted(track, cue)),
{
    lemma_insert_position(track, cue.start);
    let p = insert_position(track, cue.start);
    let out = with_inserted(track, cue);
    assert forall|i: int, j: int| 0 <= i <= j < out.len() implies out[i].start
        <= out[j].start by {
        if i < p && j > p {
            assert(out[i] == track[i]);
            assert(out[j] == track[j - 1]);
        } else if i == p && j > p {
            assert(out[j] == track[j - 1]);
            assert(track[p].start <= track[j - 1].start);
        } else if i > p {
            assert(out[i] == track[i - 1]);
            assert(out[j] == track[j - 1]);
        }
    }
}

/// Putting cues into an ordered track one after the other leaves it
/// ordered.
pub proof fn lemma_insert_all_keeps_order(track: Seq<Cue>, new: Seq<Cue>)
    requires
        ordered_by_start(track),
    ensures
        ordered_by_start(with_all_inserted(track, new)),
        with_all_inserted(track, new).len() == track.len() + new.len(),
    decreases new.len(),
{
    if new.len() > 0 {
        lemma_insert_all_keeps_order(track, new.drop_last());
        lemma_insert_keeps_order(with_all_inserted(track, new.drop_last()), new.last());
        lemma_insert_position(with_all_inserted(track, new.drop_last()), new.last().start);
    }
}

/// A sorted track is ordered and as long as the track it came from.
pub proof fn lemma_sorted_is_ordered(track: Seq<Cue>)
    ensures
        ordered_by_start(sorted_by_start(track)),
        sorted_by_start(track).len() == track.len(),
{
    lemma_insert_all_keeps_order(Seq::<Cue>::empty(), track);
}

/// Puts `new_subtitle` before the first entry that starts later than it, or
/// at the end where none does. Numbers are left as they are, and nothing is
/// done about entries that overlap.
pub fn insert_subtitle(subtitles: &mut Vec<SubtitleEntry>, new_subtitle: SubtitleEntry)
    ensures
        cues(final(subtitles)@) == with_inserted(cues(old(subtitles)@), new_subtitle@),
{
    let key = new_subtitle.start_time;
    let mut pos: usize = 0;
    while pos < subtitles.len() && subtitles[pos].start_time <= key
        invariant
            pos <= subtitles.len(),
            subtitles@ == old(subtitles)@,
            forall|k: int| 0 <= k < pos ==> cues(subtitles@)[k].start <= key,
        decreases subtitles.len() - pos,
    {
        pos += 1;
    }
    proof {
        lemma_insert_position_is(cues(subtitles@), key as nat, pos as int);
        assert(cues(subtitles@.insert(pos as int, new_subtitle)) =~= cues(subtitles@).insert(
            pos as int,
            new_subtitle@,
        ));
    }
    subtitles.insert(pos, new_subtitle);
}

/// Puts the entries in ascending order of their start. Entries with equal
/// starts keep the order they had.
pub fn sort_subtitles_by_time(subtitles: &mut Vec<SubtitleEntry>)
    ensures
        cues(final(subtitles)@) == sorted_by_start(cues(old(subtitles)@)),
        ordered_by_start(cues(final(subtitles)@)),
{
    let n = subtitles.len();
    let ghost before = cues(old(subtitles)@);
    let mut i: usize = 0;
    proof {
        assert(before.take(0) =~= Seq::<Cue>::empty());
        assert(cues(subtitles@).take(0) =~= Seq::<Cue>::empty());
    }
    while i < n
        invariant
            i <= n == subtitles.len(),
            before == cues(old(subtitles)@),
            before.len() == n,
            cues(subtitles@).take(i as int) == sorted_by_start(before.take(i as int)),
            cues(subtitles@).skip(i as int) == before.skip(i as int),
        decreases n - i,
    {
        let ghost now = cues(subtitles@);
        let ghost head = now.take(i as int);
        let key = subtitles[i].start_time;
        proof {
            lemma_sorted_is_ordered(before.take(i as int));
            assert(now[i as int] == now.skip(i as int)[0]);
            assert(before[i as int] == before.skip(i as int)[0]);
        }
        let mut j: usize = i;
        while j > 0 && subtitles[j - 1].start_time > key
            invariant
                j <= i < n == subtitles.len(),
                now == cues(subtitles@),
                head == now.take(i as int),
                forall|k: int| j <= k < i ==> head[k].start > key,
            decreases j,
        {
            j -= 1;
        }
        proof {
            assert forall|k: int| 0 <= k < j implies head[k].start <= key by {
                assert(head[j - 1].start <= key);
                assert(head[k].start <= head[j - 1].start);
            }
            lemma_insert_position_is(head, key as nat, j as int);
            assert(before.take(i + 1).drop_last() =~= before.take(i as int));
            assert(before.take(i + 1).last() == now[i as int]);
            assert(sorted_by_start(before.take(i + 1)) == head.insert(j as int, now[i as int]));
        }
        if j < i {
            let entry = subtitles.remove(i);
            proof {
                assert(cues(subtitles@) =~= now.remove(i as int));
                assert(cues(subtitles@.insert(j as int, entry)) =~= now.remove(i as int).insert(
                    j as int,
                    entry@,
                ));
            }
            subtitles.insert(j, entry);
        }
        proof {
            let after = cues(subtitles@);
            assert(after.take(i + 1) =~= head.insert(j as int, now[i as int]));
            assert(after.skip(i + 1) =~= now.skip(i as int).skip(1));
            assert(before.skip(i + 1) =~= before.skip(i as int).skip(1));
        }
        i += 1;
    }
    proof {
        assert(cues(subtitles@).take(n as int) =~= cues(subtitles@));
        assert(before.take(n as int) =~= before);
        lemma_sorted_is_ordered(before);
    }
}

/// Whether no cue of the track reaches into the window from `start` up to,
/// not including, `end`.
pub open spec fn clear_of_window(track: Seq<Cue>, start: nat, end: nat) -> bool {
    forall|i: int|
        0 <= i < track.len() ==> !((#[trigger] track[i]).start < end && track[i].end > start)
}

/// After the cues that reach into a window are taken out, none of those
/// left reaches into it; this holds for every track and every window.
pub proof fn lemma_window_cleared(track: Seq<Cue>, start: nat, end: nat)
    ensures
        clear_of_window(without_window(track, start, end), start, end),
        without_window(track, start, end).len() <= track.len(),
{
    let keep = |c: Cue| outside_window(c, start, end);
    let out = track.filter(keep);
    track.lemma_filter_len(keep);
    assert forall|i: int| 0 <= i < out.len() implies !((#[trigger] out[i]).start < end
        && out[i].end > start) by {
        track.lemma_filter_pred(keep, i);
    }
}

/// Takes out every entry that reaches into the window from `start_time` up
/// to, not including, `end_time`: every entry but those that end at or
/// before `start_time` or start at or after `end_time`. The entries that
/// stay keep their order and their numbers.
pub fn remove_subtitles_in_range(subtitles: &mut Vec<SubtitleEntry>, start_time: u64, end_time: u64)
    ensures
        cues(final(subtitles)@) == without_window(
            cues(old(subtitles)@),
            start_time as nat,
            end_time as nat,
        ),
        clear_of_window(cues(final(subtitles)@), start_time as nat, end_time as nat),
        runs_forward(cues(old(subtitles)@)) ==> runs_forward(cues(final(subtitles)@)),
        ordered_by_start(cues(old(subtitles)@)) ==> ordered_by_start(cues(final(subtitles)@)),
{
    let ghost before = cues(old(subtitles)@);
    let ghost keep = |c: Cue| outside_window(c, start_time as nat, end_time as nat);
    let mut kept: Vec<SubtitleEntry> = Vec::new();
    while subtitles.len() > 0
        invariant
            keep == (|c: Cue| outside_window(c, start_time as nat, end_time as nat)),
            before.filter(keep) == cues(subtitles@).filter(keep) + cues(kept@).reverse(),
        decreases subtitles.len(),
    {
        let ghost now = cues(subtitles@);
        let ghost done = cues(kept@);
        let entry = subtitles.pop().unwrap();
        proof {
            assert(cues(subtitles@) =~= now.drop_last());
            assert(now.last() == entry@);
            reveal_with_fuel(Seq::filter, 2);
            if keep(entry@) {
                assert(cues(kept@.push(entry)) =~= done.push(entry@));
                let kept_before = now.drop_last().filter(keep);
                assert(kept_before.push(entry@) + done.reverse() =~= kept_before + done.push(
                    entry@,
                ).reverse());
            }
        }
        if entry.end_time <= start_time || entry.start_time >= end_time {
            kept.push(entry);
        }
    }
    proof {
        assert(cues(subtitles@) =~= Seq::<Cue>::empty());
        assert(cues(subtitles@).filter(keep) =~= Seq::<Cue>::empty());
        assert(before.filter(keep) =~= cues(subtitles@) + cues(kept@).reverse());
    }
    while kept.len() > 0
        invariant
            before.filter(keep) == cues(subtitles@) + cues(kept@).reverse(),
        decreases kept.len(),
    {
        let ghost now = cues(subtitles@);
        let ghost rest = cues(kept@);
        let entry = kept.pop().unwrap();
        proof {
            assert(cues(kept@) =~= rest.drop_last());
            assert(cues(subtitles@.push(entry)) =~= now.push(entry@));
            assert(now + rest.reverse() =~= now.push(entry@) + rest.drop_last().reverse());
        }
        subtitles.push(entry);
    }
    proof {
        assert(cues(kept@).reverse() =~= Seq::<Cue>::empty());
        assert(before.filter(keep) =~= cues(subtitles@));
        lemma_window_cleared(before, start_time as nat, end_time as nat);
        lemma_window_keeps_form(before, start_time as nat, end_time as nat);
    }
}

/// Taking cues out of a track leaves the others as they were and in their
/// order: cues that start before they end stay so, and an ordered track
/// stays ordered.
pub proof fn lemma_window_keeps_form(track: Seq<Cue>, start: nat, end: nat)
    ensures
        runs_forward(track) ==> runs_forward(without_window(track, start, end)),
        ordered_by_start(track) ==> ordered_by_start(without_window(track, start, end)),
    decreases track.len(),
{
    reveal(Seq::filter);
    let keep = |c: Cue| outside_window(c, start, end);
    if track.len() > 0 {
        let front = track.drop_last();
        lemma_window_keeps_form(front, start, end);
        let kept = without_window(front, start, end);
        let out = without_window(track, start, end);
        if runs_forward(track) {
            assert forall|i: int| 0 <= i < front.len() implies (#[trigger] front[i]).start
                < front[i].end by {
                assert(front[i] == track[i]);
            }
            assert forall|i: int| 0 <= i < out.len() implies (#[trigger] out[i]).start
                < out[i].end by {
                if i < kept.len() {
                    assert(out[i] == kept[i]);
                } else {
                    assert(out[i] == track[track.len() - 1]);
                }
            }
        }
        if ordered_by_start(track) {
            assert forall|i: int, j: int| 0 <= i <= j < front.len() implies front[i].start
                <= front[j].start by {
                assert(front[i] == track[i] && front[j] == track[j]);
            }
            assert forall|i: int, j: int| 0 <= i <= j < out.len() implies out[i].start
                <= out[j].start by {
                if j < kept.len() {
                    assert(out[i] == kept[i] && out[j] == kept[j]);
                } else if i < kept.len() {
                    assert(out[i] == kept[i]);
                    assert(front.filter(keep).contains(kept[i]));
                    front.lemma_filter_contains_rev(keep, kept[i]);
                    let k = choose|k: int| 0 <= k < front.len() && front[k] == kept[i];
                    assert(track[k].start <= track[track.len() - 1].start);
                }
            }
        }
    }
}

/// Puts every entry of `new_subtitles` into the track, then orders the
/// track by start and numbers it from one.
pub fn insert_subtitles(subtitles: &mut Vec<SubtitleEntry>, new_subtitles: Vec<SubtitleEntry>)
    ensures
        cues(final(subtitles)@) == renumbered(
            sorted_by_start(with_all_inserted(cues(old(subtitles)@), cues(new_subtitles@))),
        ),
        numbered_from_one(cues(final(subtitles)@)),
        ordered_by_start(cues(final(subtitles)@)),
        runs_forward(cues(old(subtitles)@)) && runs_forward(cues(new_subtitles@)) ==> well_formed(
            cues(final(subtitles)@),
        ),
        final(subtitles)@.len() == old(subtitles)@.len() + new_subtitles@.len(),
{
    let ghost before = cues(old(subtitles)@);
    let ghost new = cues(new_subtitles@);
    proof {
        assert(new.take(0) =~= Seq::<Cue>::empty());
    }
    for entry in it: new_subtitles
        invariant
            it.seq() == new_subtitles@,
            new == cues(new_subtitles@),
            cues(subtitles@) == with_all_inserted(before, new.take(it.index())),
    {
        proof {
            let k = it.index();
            assert(new.take(k + 1).drop_last() =~= new.take(k));
            assert(new.take(k + 1).last() == entry@);
        }
        insert_subtitle(subtitles, entry);
    }
    proof {
        assert(new.take(new.len() as int) =~= new);
    }
    sort_subtitles_by_time(subtitles);
    reindex_subtitles(subtitles);
    proof {
        let all = with_all_inserted(before, new);
        lemma_sorted_is_ordered(all);
        lemma_insert_all_len(before, new);
        lemma_renumbered_keeps_order(sorted_by_start(all));
        if runs_forward(before) && runs_forward(new) {
            lemma_insert_all_runs_forward(before, new);
            lemma_sorted_is_well_formed(all);
        }
    }
}

/// Putting cues in makes the track longer by their count.
pub proof fn lemma_insert_all_len(track: Seq<Cue>, new: Seq<Cue>)
    ensures
        with_all_inserted(track, new).len() == track.len() + new.len(),
    decreases new.len(),
{
    if new.len() > 0 {
        lemma_insert_all_len(track, new.drop_last());
        lemma_insert_position(with_all_inserted(track, new.drop_last()), new.last().start);
    }
}

/// Numbering a track changes neither its order nor its times.
pub proof fn lemma_renumbered_keeps_order(track: Seq<Cue>)
    ensures
        ordered_by_start(track) ==> ordered_by_start(renumbered(track)),
        numbered_from_one(renumbered(track)),
        renumbered(track).len() == track.len(),
{
}

/// The cues of the track that start at `start`, in their order.
pub open spec fn starting_at(track: Seq<Cue>, start: nat) -> Seq<Cue> {
    track.filter(|c: Cue| c.start == start)
}

/// Sorting moves cues about: it adds none, drops none and changes none.
pub proof fn lemma_sorted_permutes(track: Seq<Cue>)
    ensures
        sorted_by_start(track).to_multiset() == track.to_multiset(),
    decreases track.len(),
{
    broadcast use vstd::seq_lib::to_multiset_build, vstd::seq_lib::to_multiset_insert;

    if track.len() == 0 {
        assert(sorted_by_start(track) =~= track);
    } else {
        let front = track.drop_last();
        lemma_sorted_permutes(front);
        lemma_insert_position(sorted_by_start(front), track.last().start);
        assert(front.push(track.last()) =~= track);
    }
}

/// A predicate that holds of no element filters everything out.
proof fn lemma_filter_none(s: Seq<Cue>, pred: spec_fn(Cue) -> bool)
    requires
        forall|i: int| 0 <= i < s.len() ==> !pred(s[i]),
    ensures
        s.filter(pred) == Seq::<Cue>::empty(),
    decreases s.len(),
{
    reveal(Seq::filter);
    if s.len() > 0 {
        lemma_filter_none(s.drop_last(), pred);
    }
}

/// Sorting is stable: the cues that start at the same time keep the order
/// they had. With `lemma_sorted_is_ordered` this fixes the sorted track.
pub proof fn lemma_sorted_is_stable(track: Seq<Cue>, start: nat)
    ensures
        starting_at(sorted_by_start(track), start) == starting_at(track, start),
    decreases track.len(),
{
    let pred = |c: Cue| c.start == start;
    if track.len() == 0 {
        assert(sorted_by_start(track) =~= track);
    } else {
        let front = track.drop_last();
        let cue = track.last();
        let sorted = sorted_by_start(front);
        lemma_sorted_is_stable(front, start);
        lemma_sorted_is_ordered(front);
        lemma_insert_position(sorted, cue.start);
        let p = insert_position(sorted, cue.start);
        let head = sorted.take(p);
        let tail = sorted.skip(p);
        assert(sorted =~= head + tail);
        assert(with_inserted(sorted, cue) =~= head.push(cue) + tail);
        Seq::filter_distributes_over_add(head, tail, pred);
        Seq::filter_distributes_over_add(head.push(cue), tail, pred);
        head.lemma_filter_push(cue, pred);
        front.lemma_filter_push(cue, pred);
        assert(front.push(cue) =~= track);
        if cue.start == start {
            assert forall|i: int| 0 <= i < tail.len() implies !pred(tail[i]) by {
                assert(tail[i] == sorted[p + i]);
                assert(sorted[p].start <= sorted[p + i].start);
            }
            lemma_filter_none(tail, pred);
            assert(head.filter(pred) + Seq::<Cue>::empty() =~= head.filter(pred));
            assert(head.filter(pred).push(cue) + Seq::<Cue>::empty() =~= head.filter(pred).push(
                cue,
            ));
        }
    }
}

/// Sorting leaves a track that is in order as it is.
pub proof fn lemma_sorted_fixes_ordered(track: Seq<Cue>)
    requires
        ordered_by_start(track),
    ensures
        sorted_by_start(track) == track,
    decreases track.len(),
{
    if track.len() == 0 {
        assert(sorted_by_start(track) =~= track);
    } else {
        let front = track.drop_last();
        assert(ordered_by_start(front)) by {
            assert forall|i: int, j: int| 0 <= i <= j < front.len() implies front[i].start
                <= front[j].start by {
                assert(front[i] == track[i] && front[j] == track[j]);
            }
        }
        lemma_sorted_fixes_ordered(front);
        assert forall|k: int| 0 <= k < front.len() implies front[k].start
            <= track.last().start by {
            assert(front[k] == track[k]);
        }
        lemma_insert_position_is(front, track.last().start, front.len() as int);
        assert(front.insert(front.len() as int, track.last()) =~= track);
    }
}

/// The track with the numbers of its cues blanked out: what it shows and
/// when.
pub open spec fn unnumbered(track: Seq<Cue>) -> Seq<Cue> {
    track.map_values(|c: Cue| Cue { index: 0, ..c })
}

/// Whether two cues show the same text at the same time.
pub open spec fn same_but_number(a: Cue, b: Cue) -> bool {
    a.start == b.start && a.end == b.end && a.text == b.text
}

/// Every cue of a track that cues were put into was in the track or is one
/// of those put in.
pub proof fn lemma_insert_all_sources(track: Seq<Cue>, new: Seq<Cue>)
    ensures
        forall|i: int|
            0 <= i < with_all_inserted(track, new).len() ==> track.contains(
                #[trigger] with_all_inserted(track, new)[i],
            ) || new.contains(with_all_inserted(track, new)[i]),
    decreases new.len(),
{
    if new.len() > 0 {
        let front = new.drop_last();
        let before = with_all_inserted(track, front);
        lemma_insert_all_sources(track, front);
        lemma_insert_position(before, new.last().start);
        let p = insert_position(before, new.last().start);
        let out = with_all_inserted(track, new);
        assert forall|i: int| 0 <= i < out.len() implies track.contains(#[trigger] out[i])
            || new.contains(out[i]) by {
            if i == p {
                assert(new[new.len() - 1] == out[i]);
            } else {
                let k = if i < p {
                    i
                } else {
                    i - 1
                };
                assert(out[i] == before[k]);
                if front.contains(before[k]) {
                    let j = choose|j: int| 0 <= j < front.len() && front[j] == before[k];
                    assert(new[j] == before[k]);
                }
            }
        }
    }
}

/// Putting cues into a track adds what they show to what the track shows,
/// and nothing else: no cue is lost and none comes twice.
pub proof fn lemma_insert_all_contents(track: Seq<Cue>, new: Seq<Cue>)
    ensures
        unnumbered(with_all_inserted(track, new)).to_multiset() == unnumbered(
            track,
        ).to_multiset().add(unnumbered(new).to_multiset()),
    decreases new.len(),
{
    broadcast use vstd::seq_lib::to_multiset_build, vstd::seq_lib::to_multiset_insert;

    if new.len() == 0 {
        unnumbered(new).to_multiset_ensures();
        vstd::multiset::lemma_multiset_empty_len(unnumbered(new).to_multiset());
        assert(unnumbered(track).to_multiset().add(unnumbered(new).to_multiset()) =~= unnumbered(
            track,
        ).to_multiset());
    } else {
        let front = new.drop_last();
        let before = with_all_inserted(track, front);
        let blank = Cue { index: 0, ..new.last() };
        lemma_insert_all_contents(track, front);
        lemma_insert_position(before, new.last().start);
        let p = insert_position(before, new.last().start);
        assert(unnumbered(before.insert(p, new.last())) =~= unnumbered(before).insert(p, blank));
        assert(unnumbered(new) =~= unnumbered(front).push(blank));
        assert(unnumbered(track).to_multiset().add(unnumbered(front).to_multiset()).insert(blank)
            =~= unnumbered(track).to_multiset().add(
            unnumbered(front).to_multiset().insert(blank),
        ));
    }
}

/// A track that was sorted and numbered shows what it showed before: no cue
/// is lost and none comes twice.
pub proof fn lemma_sorted_contents(track: Seq<Cue>)
    ensures
        unnumbered(renumbered(sorted_by_start(track))).to_multiset() == unnumbered(
            track,
        ).to_multiset(),
{
    lemma_insert_all_contents(Seq::<Cue>::empty(), track);
    lemma_sorted_is_ordered(track);
    assert(unnumbered(renumbered(sorted_by_start(track))) =~= unnumbered(sorted_by_start(track)));
    unnumbered(Seq::<Cue>::empty()).to_multiset_ensures();
    vstd::multiset::lemma_multiset_empty_len(unnumbered(Seq::<Cue>::empty()).to_multiset());
    assert(unnumbered(Seq::<Cue>::empty()).to_multiset().add(unnumbered(track).to_multiset())
        =~= unnumbered(track).to_multiset());
}

/// Putting cues that start before they end into a track of such cues gives
/// a track of such cues.
pub proof fn lemma_insert_all_runs_forward(track: Seq<Cue>, new: Seq<Cue>)
    requires
        runs_forward(track),
        runs_forward(new),
    ensures
        runs_forward(with_all_inserted(track, new)),
{
    lemma_insert_all_sources(track, new);
    let out = with_all_inserted(track, new);
    assert forall|i: int| 0 <= i < out.len() implies (#[trigger] out[i]).start < out[i].end by {
        if track.contains(out[i]) {
            let k = choose|k: int| 0 <= k < track.len() && track[k] == out[i];
            assert(track[k].start < track[k].end);
        } else {
            let k = choose|k: int| 0 <= k < new.len() && new[k] == out[i];
            assert(new[k].start < new[k].end);
        }
    }
}

/// Sorting and numbering a track of cues that start before they end gives a
/// well-formed track.
pub proof fn lemma_sorted_is_well_formed(track: Seq<Cue>)
    requires
        runs_forward(track),
    ensures
        well_formed(renumbered(sorted_by_start(track))),
{
    lemma_insert_all_runs_forward(Seq::<Cue>::empty(), track);
    lemma_sorted_is_ordered(track);
    lemma_renumbered_keeps_order(sorted_by_start(track));
    let sorted = sorted_by_start(track);
    assert forall|i: int| 0 <= i < renumbered(sorted).len() implies (#[trigger] renumbered(
        sorted,
    )[i]).start < renumbered(sorted)[i].end by {
        assert(sorted[i].start < sorted[i].end);
    }
}

} // verus!
