//! Reading back what was written: the subtitle text of a track holds the
//! track.

use crate::subtitle::{
    after_cues, arrow, block_head, cue_text, index_line_value, lemma_text_end_bounds,
    lemma_text_end_is, parse_blocks, parse_track, text_end, timing_line_value, track_text, Cue,
};
use crate::text::{
    decimal_text, free_of, index_of, is_digit, is_space, join, lemma_decimal_text_value,
    lemma_index_of_is, lemma_join_split, lemma_leading_spaces_is, lemma_split_clean,
    lemma_split_concat, lemma_split_first, lemma_split_join, lemma_trailing_spaces_is,
    lemma_trim_ends, lemma_trim_fixed, lemma_zero_padded, split, trim, trimmed_lines, zero_padded,
};
use crate::time::{clock_text, lemma_srt_time_round_trip, srt_time_text, TimeError};
use vstd::prelude::*;

verus! {

/// Whether a text is made of lines of which none is empty and none begins
/// or ends with white space; the empty text counts as such.
pub open spec fn tidy_text(text: Seq<char>) -> bool {
    text.len() == 0 || forall|j: int|
        0 <= j < split(text, '\n').len() ==> {
            let line = #[trigger] split(text, '\n')[j];
            line.len() > 0 && !is_space(line[0]) && !is_space(line.last())
        }
}

/// Whether what a cue shows can be written so that it reads back: it
/// starts before it ends, its times fit in 64 bits, and its text is tidy.
pub open spec fn legible(c: Cue) -> bool {
    c.start < c.end <= u64::MAX && tidy_text(c.text)
}

/// Whether a cue can be written so that it reads back: what it shows is
/// legible and its number fits the machine's index type.
pub open spec fn readable(c: Cue) -> bool {
    c.index <= usize::MAX && legible(c)
}

/// The timing line for the times `start` and `end`.
pub open spec fn timing_text(start: nat, end: nat) -> Seq<char> {
    srt_time_text(start) + arrow() + srt_time_text(end)
}

/// The lines of the block of a cue: its number, its timing line, the lines
/// of its text, and an empty line.
pub open spec fn block_lines(c: Cue) -> Seq<Seq<char>> {
    seq![decimal_text(c.index), timing_text(c.start, c.end)] + split(c.text, '\n') + seq![
        Seq::<char>::empty(),
    ]
}

/// The lines of the blocks of a track.
pub open spec fn all_lines(track: Seq<Cue>) -> Seq<Seq<char>>
    decreases track.len(),
{
    if track.len() == 0 {
        Seq::<Seq<char>>::empty()
    } else {
        all_lines(track.drop_last()) + block_lines(track.last())
    }
}

/// A clock notation begins and ends with a digit and holds digits, colons
/// and its mark only.
proof fn lemma_clock_chars(ms: nat, mark: char)
    ensures
        clock_text(ms, mark).len() > 0,
        is_digit(clock_text(ms, mark)[0]),
        is_digit(clock_text(ms, mark).last()),
        forall|i: int|
            0 <= i < clock_text(ms, mark).len() ==> is_digit(#[trigger] clock_text(ms, mark)[i])
                || clock_text(ms, mark)[i] == ':' || clock_text(ms, mark)[i] == mark,
{
    let h = zero_padded(ms / 3_600_000, 2);
    let m = zero_padded((ms / 60_000) % 60, 2);
    let s = zero_padded((ms / 1000) % 60, 2);
    let f = zero_padded(ms % 1000, 3);
    lemma_zero_padded(ms / 3_600_000, 2);
    lemma_zero_padded((ms / 60_000) % 60, 2);
    lemma_zero_padded((ms / 1000) % 60, 2);
    lemma_zero_padded(ms % 1000, 3);
    let t = clock_text(ms, mark);
    assert(t[0] == h[0]);
    assert(t.last() == f.last());
    assert forall|i: int| 0 <= i < t.len() implies is_digit(#[trigger] t[i]) || t[i] == ':' || t[i]
        == mark by {
        if i < h.len() {
            assert(t[i] == h[i]);
        } else if i == h.len() {
        } else if i < h.len() + 1 + m.len() {
            assert(t[i] == m[i - h.len() - 1]);
        } else if i == h.len() + 1 + m.len() {
        } else if i < h.len() + m.len() + 2 + s.len() {
            assert(t[i] == s[i - h.len() - m.len() - 2]);
        } else if i == h.len() + m.len() + 2 + s.len() {
        } else {
            assert(t[i] == f[i - h.len() - m.len() - s.len() - 3]);
        }
    }
}

/// A timing line that was written reads back as its two times.
#[verifier::rlimit(30)]
proof fn lemma_timing_line(start: nat, end: nat)
    requires
        start <= u64::MAX,
        end <= u64::MAX,
    ensures
        timing_line_value(timing_text(start, end)) == Some((start, end)),
        timing_text(start, end).len() > 0,
        is_digit(timing_text(start, end)[0]),
        is_digit(timing_text(start, end).last()),
        forall|i: int|
            0 <= i < timing_text(start, end).len() ==> (#[trigger] timing_text(start, end)[i])
                != '\n',
{
    let a = srt_time_text(start);
    let b = srt_time_text(end);
    let line = timing_text(start, end);
    lemma_clock_chars(start, ',');
    lemma_clock_chars(end, ',');
    lemma_srt_time_round_trip(start);
    lemma_srt_time_round_trip(end);
    let k = a.len() as int + 1;
    assert(line[0] == a[0]);
    assert(line.last() == b.last());
    assert forall|i: int| 0 <= i < line.len() implies (#[trigger] line[i]) != '\n' by {
        if i < a.len() {
            assert(line[i] == a[i]);
        } else if i < a.len() + 5 {
            assert(line[i] == arrow()[i - a.len()]);
        } else {
            assert(line[i] == b[i - a.len() - 5]);
        }
    }
    assert forall|j: int| 0 <= j < k implies line[j] != '-' by {
        if j < a.len() {
            assert(line[j] == a[j]);
        } else {
            assert(line[j] == arrow()[0]);
        }
    }
    assert(line[k] == arrow()[1]);
    assert(line[k + 1] == arrow()[2]);
    assert(line[k + 2] == arrow()[3]);
    lemma_index_of_is(line, '-', k);
    let left = line.take(k);
    let right = line.skip(k + 3);
    assert(left =~= a.push(' '));
    assert(right =~= seq![' '] + b);
    assert(trim(left) == a) by {
        assert(left[0] == a[0]);
        lemma_leading_spaces_is(left, 0);
        assert(left.skip(0) =~= left);
        assert(left[a.len() - 1] == a.last());
        lemma_trailing_spaces_is(left, a.len() as int);
        assert(left.take(left.len() - 1) =~= a);
    }
    assert(trim(right) == b) by {
        assert(right[1] == b[0]);
        lemma_leading_spaces_is(right, 1);
        assert(right.skip(1) =~= b);
        lemma_trailing_spaces_is(b, b.len() as int);
        assert(b.take(b.len() as int) =~= b);
    }
}

/// The block of a cue in front of a text, piece by piece.
#[verifier::rlimit(30)]
proof fn lemma_block_shape(c: Cue, rest: Seq<char>)
    ensures
        cue_text(c) + rest == decimal_text(c.index) + seq!['\n'] + (timing_text(c.start, c.end)
            + seq!['\n'] + (c.text + seq!['\n'] + (Seq::<char>::empty() + seq!['\n'] + rest))),
{
    let a = decimal_text(c.index);
    let b = timing_text(c.start, c.end);
    let nl = seq!['\n'];
    let tail3 = Seq::<char>::empty() + nl + rest;
    assert(tail3 =~= nl + rest);
    let tail2 = c.text + nl + tail3;
    let tail1 = b + nl + tail2;
    assert(seq!['\n', '\n'] + rest =~= nl + tail3);
    assert(cue_text(c) =~= a + nl + b + nl + c.text + seq!['\n', '\n']);
    assert(a + nl + b + nl + c.text + seq!['\n', '\n'] + rest =~= a + nl + tail1);
}

/// The lines of a block in front of a text are the lines of the block and
/// then those of the text.
proof fn lemma_block_split(c: Cue, rest: Seq<char>)
    requires
        c.start <= u64::MAX,
        c.end <= u64::MAX,
    ensures
        split(cue_text(c) + rest, '\n') == block_lines(c) + split(rest, '\n'),
{
    let a = decimal_text(c.index);
    let b = timing_text(c.start, c.end);
    let nl = seq!['\n'];
    let empty = Seq::<char>::empty();
    let tail3 = empty + nl + rest;
    let tail2 = c.text + nl + tail3;
    let tail1 = b + nl + tail2;
    lemma_block_shape(c, rest);
    assert(free_of(a, '\n')) by {
        lemma_decimal_text_value(c.index);
        assert forall|i: int| 0 <= i < a.len() implies a[i] != '\n' by {
            assert(is_digit(a[i]));
        }
    }
    assert(free_of(b, '\n')) by {
        lemma_timing_line(c.start, c.end);
    }
    lemma_split_first(a, tail1, '\n');
    lemma_split_first(b, tail2, '\n');
    lemma_split_concat(c.text, tail3, '\n');
    lemma_split_first(empty, rest, '\n');
    let lines = split(c.text, '\n');
    let after = split(rest, '\n');
    assert(split(tail3, '\n') == seq![empty] + after);
    assert(split(tail2, '\n') == lines + (seq![empty] + after));
    assert(split(tail1, '\n') == seq![b] + (lines + (seq![empty] + after)));
    assert(seq![a] + (seq![b] + (lines + (seq![empty] + after))) =~= seq![a, b] + lines + seq![
        empty,
    ] + after);
}

/// The lines of the text of a track in front of another text are the lines
/// of its blocks and then those of the other text.
proof fn lemma_track_split(track: Seq<Cue>, rest: Seq<char>)
    requires
        forall|i: int| 0 <= i < track.len() ==> #[trigger] readable(track[i]),
    ensures
        split(track_text(track) + rest, '\n') == all_lines(track) + split(rest, '\n'),
    decreases track.len(),
{
    if track.len() == 0 {
        assert(track_text(track) + rest =~= rest);
        assert(all_lines(track) + split(rest, '\n') =~= split(rest, '\n'));
    } else {
        let front = track.drop_last();
        let last = track.last();
        assert(readable(track[track.len() - 1]));
        assert forall|i: int| 0 <= i < front.len() implies #[trigger] readable(front[i]) by {
            assert(front[i] == track[i]);
        }
        assert(track_text(track) + rest =~= track_text(front) + (cue_text(last) + rest));
        lemma_track_split(front, cue_text(last) + rest);
        lemma_block_split(last, rest);
        assert(all_lines(front) + (block_lines(last) + split(rest, '\n')) =~= all_lines(track)
            + split(rest, '\n'));
    }
}

/// Reading from a line on sees the lines from there on only.
proof fn lemma_parse_shift(x: Seq<Seq<char>>, r: Seq<Seq<char>>, i: int)
    requires
        0 <= i,
    ensures
        parse_blocks(x + r, x.len() + i) == parse_blocks(r, i),
    decreases r.len() - i,
{
    let l = x + r;
    let n = x.len() as int;
    if i >= r.len() {
    } else {
        assert(l[n + i] == r[i]);
        if i + 1 < r.len() {
            assert(l[n + i + 1] == r[i + 1]);
        }
        assert(block_head(l, n + i) == block_head(r, i));
        match block_head(r, i) {
            Some((index, start, end)) => {
                if start < end {
                    lemma_text_end_shift(x, r, i + 2);
                    lemma_text_end_bounds(r, i + 2);
                    let stop = text_end(r, i + 2);
                    assert(l.subrange(n + i + 2, n + stop) =~= r.subrange(i + 2, stop));
                    lemma_parse_shift(x, r, stop);
                }
            },
            None => {
                lemma_parse_shift(x, r, i + 1);
            },
        }
    }
}

/// The end of a text is found from the lines from its start on only.
proof fn lemma_text_end_shift(x: Seq<Seq<char>>, r: Seq<Seq<char>>, j: int)
    requires
        0 <= j <= r.len(),
    ensures
        text_end(x + r, x.len() + j) == x.len() + text_end(r, j),
    decreases r.len() - j,
{
    if j < r.len() {
        assert((x + r)[x.len() + j] == r[j]);
        if r[j].len() > 0 {
            lemma_text_end_shift(x, r, j + 1);
        }
    }
}

/// An empty text has one line, which is empty.
proof fn lemma_split_empty(text: Seq<char>)
    requires
        text.len() == 0,
    ensures
        split(text, '\n') == seq![Seq::<char>::empty()],
{
    assert(index_of(text, '\n') == 0);
    assert(text =~= Seq::<char>::empty());
}

/// Where the lines of a block stand in front of other lines.
proof fn lemma_block_layout(c: Cue, r: Seq<Seq<char>>)
    ensures
        block_lines(c).len() == split(c.text, '\n').len() + 3,
        (block_lines(c) + r)[0] == decimal_text(c.index),
        (block_lines(c) + r)[1] == timing_text(c.start, c.end),
        forall|j: int|
            0 <= j < split(c.text, '\n').len() ==> (block_lines(c) + r)[2 + j] == split(
                c.text,
                '\n',
            )[j],
        (block_lines(c) + r)[2 + split(c.text, '\n').len() as int] == Seq::<char>::empty(),
{
    let block = block_lines(c);
    let lines = split(c.text, '\n');
    assert forall|j: int| 0 <= j < lines.len() implies (block + r)[2 + j] == lines[j] by {
        assert(block[2 + j] == lines[j]);
    }
    assert(block[2 + lines.len() as int] == Seq::<char>::empty());
}

/// The block of a readable cue begins with its number and its times.
proof fn lemma_block_head(c: Cue, r: Seq<Seq<char>>)
    requires
        readable(c),
    ensures
        block_head(block_lines(c) + r, 0) == Some((c.index, c.start, c.end)),
{
    lemma_block_layout(c, r);
    lemma_decimal_text_value(c.index);
    lemma_timing_line(c.start, c.end);
    let l = block_lines(c) + r;
    assert(index_line_value(l[0]) == Some(c.index));
    assert(timing_line_value(l[1]) == Some((c.start, c.end)));
}

/// The text of the block of a readable cue ends where its lines end, is
/// the text of the cue, and the reading goes on behind the block.
proof fn lemma_block_text(c: Cue, r: Seq<Seq<char>>)
    requires
        readable(c),
    ensures
        2 <= text_end(block_lines(c) + r, 2) <= block_lines(c).len(),
        join((block_lines(c) + r).subrange(2, text_end(block_lines(c) + r, 2)), '\n') == c.text,
        parse_blocks(block_lines(c) + r, text_end(block_lines(c) + r, 2)) == parse_blocks(r, 0),
{
    let block = block_lines(c);
    let lines = split(c.text, '\n');
    let l = block + r;
    let empty = Seq::<char>::empty();
    let count = lines.len() as int;
    lemma_block_layout(c, r);
    lemma_join_split(c.text, '\n');
    assert(index_line_value(empty) is None);
    assert(l[2 + count] == empty);
    assert(block_head(l, 2 + count) is None);
    assert(parse_blocks(l, 2 + count) == parse_blocks(l, 3 + count));
    lemma_parse_shift(block, r, 0);
    if c.text.len() == 0 {
        lemma_split_empty(c.text);
        assert(l[2] == lines[0]);
        lemma_text_end_is(l, 2, 2);
        assert(l.subrange(2, 2) =~= Seq::<Seq<char>>::empty());
        assert(join(l.subrange(2, 2), '\n') =~= c.text);
        assert(block_head(l, 2) is None);
        assert(parse_blocks(l, 2) == parse_blocks(l, 3));
    } else {
        assert forall|j: int| 2 <= j < 2 + count implies (#[trigger] l[j]).len() > 0 by {
            assert(l[j] == lines[j - 2]);
        }
        lemma_text_end_is(l, 2, 2 + count);
        assert(l.subrange(2, 2 + count) =~= lines);
    }
}

/// The lines of the block of a readable cue read back as the cue, and the
/// reading goes on behind them.
proof fn lemma_parse_block(c: Cue, r: Seq<Seq<char>>)
    requires
        readable(c),
    ensures
        parse_blocks(block_lines(c) + r, 0) == after_cues(seq![c], parse_blocks(r, 0)),
{
    let l = block_lines(c) + r;
    lemma_block_head(c, r);
    lemma_block_text(c, r);
    let stop = text_end(l, 2);
    let cue = Cue {
        index: c.index,
        start: c.start,
        end: c.end,
        text: join(l.subrange(2, stop), '\n'),
    };
    assert(cue == c);
}

/// The lines of the blocks of readable cues read back as the cues, and the
/// reading goes on behind them.
#[verifier::rlimit(30)]
proof fn lemma_parse_lines(track: Seq<Cue>, r: Seq<Seq<char>>)
    requires
        forall|i: int| 0 <= i < track.len() ==> #[trigger] readable(track[i]),
    ensures
        parse_blocks(all_lines(track) + r, 0) == after_cues(track, parse_blocks(r, 0)),
    decreases track.len(),
{
    if track.len() == 0 {
        assert(all_lines(track) + r =~= r);
        match parse_blocks(r, 0) {
            Ok(more) => {
                assert(track + more =~= more);
            },
            Err(_) => {},
        }
    } else {
        let front = track.drop_last();
        let last = track.last();
        assert(readable(track[track.len() - 1]));
        assert forall|i: int| 0 <= i < front.len() implies #[trigger] readable(front[i]) by {
            assert(front[i] == track[i]);
        }
        assert(all_lines(track) + r =~= all_lines(front) + (block_lines(last) + r));
        lemma_parse_lines(front, block_lines(last) + r);
        lemma_parse_block(last, r);
        match parse_blocks(r, 0) {
            Ok(more) => {
                assert(front + (seq![last] + more) =~= track + more);
            },
            Err(_) => {},
        }
    }
}

/// Every line of the blocks of readable cues is its own trimmed form.
proof fn lemma_lines_trimmed(track: Seq<Cue>)
    requires
        forall|i: int| 0 <= i < track.len() ==> #[trigger] readable(track[i]),
    ensures
        forall|i: int|
            0 <= i < all_lines(track).len() ==> trim(#[trigger] all_lines(track)[i]) == all_lines(
                track,
            )[i],
    decreases track.len(),
{
    if track.len() > 0 {
        let front = track.drop_last();
        let c = track.last();
        assert(readable(track[track.len() - 1]));
        assert forall|i: int| 0 <= i < front.len() implies #[trigger] readable(front[i]) by {
            assert(front[i] == track[i]);
        }
        lemma_lines_trimmed(front);
        let block = block_lines(c);
        let lines = split(c.text, '\n');
        let all = all_lines(track);
        lemma_decimal_text_value(c.index);
        lemma_timing_line(c.start, c.end);
        assert forall|i: int| 0 <= i < all.len() implies trim(#[trigger] all[i]) == all[i] by {
            let k = i - all_lines(front).len();
            if k < 0 {
                assert(all[i] == all_lines(front)[i]);
            } else if k == 0 {
                assert(all[i] == decimal_text(c.index));
                assert(is_digit(all[i][0]));
                assert(is_digit(all[i].last()));
                lemma_trim_fixed(all[i]);
            } else if k == 1 {
                assert(all[i] == timing_text(c.start, c.end));
                lemma_trim_fixed(all[i]);
            } else if k < 2 + lines.len() {
                assert(all[i] == block[k]);
                assert(block[k] == lines[k - 2]);
                if c.text.len() == 0 {
                    lemma_split_empty(c.text);
                }
                lemma_trim_fixed(all[i]);
            } else {
                assert(all[i] == block[k]);
                lemma_trim_fixed(all[i]);
            }
        }
    }
}

/// Reading back the subtitle text of a track of readable cues gives the
/// track.
pub proof fn lemma_written_track_reads_back(track: Seq<Cue>)
    requires
        forall|i: int| 0 <= i < track.len() ==> #[trigger] readable(track[i]),
    ensures
        parse_track(track_text(track)) == Ok::<Seq<Cue>, TimeError>(track),
{
    let text = track_text(track);
    let empty = Seq::<char>::empty();
    let last_line = seq![empty];
    lemma_track_split(track, empty);
    assert(text + empty =~= text);
    assert(index_of(empty, '\n') == 0);
    assert(split(empty, '\n') =~= last_line);
    let raw = all_lines(track) + last_line;
    assert(split(text, '\n') == raw);
    lemma_lines_trimmed(track);
    lemma_trim_fixed(empty);
    assert(trimmed_lines(text) =~= raw) by {
        assert forall|i: int| 0 <= i < raw.len() implies trimmed_lines(text)[i] == raw[i] by {
            if i < all_lines(track).len() {
                assert(raw[i] == all_lines(track)[i]);
            } else {
                assert(raw[i] == empty);
            }
        }
    }
    lemma_parse_lines(track, last_line);
    assert(index_line_value(last_line[0]) is None);
    assert(block_head(last_line, 0) is None);
    assert(parse_blocks(last_line, 1) == Ok::<Seq<Cue>, TimeError>(
        Seq::<Cue>::empty(),
    ));
    assert(parse_blocks(last_line, 0) == Ok::<Seq<Cue>, TimeError>(
        Seq::<Cue>::empty(),
    ));
    assert(track + Seq::<Cue>::empty() =~= track);
}

/// Whether every line is free of line feeds and neither begins nor ends
/// with white space.
pub open spec fn clean_lines(lines: Seq<Seq<char>>) -> bool {
    forall|i: int|
        0 <= i < lines.len() ==> {
            let line = #[trigger] lines[i];
            free_of(line, '\n') && (line.len() == 0 || (!is_space(line[0]) && !is_space(
                line.last(),
            )))
        }
}

/// The trimmed lines of a text are clean.
proof fn lemma_trimmed_lines_clean(content: Seq<char>)
    ensures
        clean_lines(trimmed_lines(content)),
{
    let raw = split(content, '\n');
    let lines = trimmed_lines(content);
    lemma_split_clean(content, '\n');
    assert forall|i: int| 0 <= i < lines.len() implies {
        let line = #[trigger] lines[i];
        free_of(line, '\n') && (line.len() == 0 || (!is_space(line[0]) && !is_space(line.last())))
    } by {
        assert(lines[i] == trim(raw[i]));
        assert(free_of(raw[i], '\n'));
        lemma_trim_ends(raw[i], '\n');
    }
}

/// Every cue read from clean lines is readable.
proof fn lemma_parsed_readable(lines: Seq<Seq<char>>, from: int)
    requires
        clean_lines(lines),
    ensures
        parse_blocks(lines, from) is Ok ==> forall|i: int|
            0 <= i < parse_blocks(lines, from)->Ok_0.len() ==> readable(
                #[trigger] parse_blocks(lines, from)->Ok_0[i],
            ),
    decreases lines.len() - from,
{
    if from < 0 || from >= lines.len() {
    } else {
        match block_head(lines, from) {
            Some((index, start, end)) => {
                if start < end {
                    let stop = text_end(lines, from + 2);
                    lemma_text_end_bounds(lines, from + 2);
                    lemma_parsed_readable(lines, stop);
                    if parse_blocks(lines, stop) is Ok {
                        let rest = parse_blocks(lines, stop)->Ok_0;
                        let all = parse_blocks(lines, from)->Ok_0;
                        let sub = lines.subrange(from + 2, stop);
                        let text = join(sub, '\n');
                        assert(all[0].text == text);
                        assert(tidy_text(text)) by {
                            if sub.len() > 0 {
                                assert forall|j: int| 0 <= j < sub.len() implies free_of(
                                    #[trigger] sub[j],
                                    '\n',
                                ) by {
                                    assert(sub[j] == lines[from + 2 + j]);
                                }
                                lemma_split_join(sub, '\n');
                                assert forall|j: int| 0 <= j < split(text, '\n').len() implies {
                                    let line = #[trigger] split(text, '\n')[j];
                                    line.len() > 0 && !is_space(line[0]) && !is_space(line.last())
                                } by {
                                    assert(sub[j] == lines[from + 2 + j]);
                                    assert(lines[from + 2 + j].len() > 0);
                                }
                            }
                        }
                        assert(readable(all[0]));
                        assert forall|i: int| 0 <= i < all.len() implies readable(
                            #[trigger] all[i],
                        ) by {
                            if i > 0 {
                                assert(all[i] == rest[i - 1]);
                            }
                        }
                    }
                }
            },
            None => {
                lemma_parsed_readable(lines, from + 1);
            },
        }
    }
}

/// Every cue of a track that was read is readable.
pub proof fn lemma_read_track_is_readable(content: Seq<char>)
    ensures
        parse_track(content) is Ok ==> forall|i: int|
            0 <= i < parse_track(content)->Ok_0.len() ==> readable(
                #[trigger] parse_track(content)->Ok_0[i],
            ),
{
    lemma_trimmed_lines_clean(content);
    lemma_parsed_readable(trimmed_lines(content), 0);
}

/// Reading is stable: a track that was read, written and read again is the
/// track that was read.
pub proof fn lemma_reading_is_stable(content: Seq<char>)
    requires
        parse_track(content) is Ok,
    ensures
        parse_track(track_text(parse_track(content)->Ok_0)) == parse_track(content),
{
    lemma_read_track_is_readable(content);
    lemma_written_track_reads_back(parse_track(content)->Ok_0);
}

} // verus!
