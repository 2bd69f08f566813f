//! What is made of the output of the recognition engine: the plain text of
//! a fragment, and the lines of the engine that are worth showing.

use crate::text::{
    chars_of, contains_text, decimal_text, decimal_value, has_text, is_number,
    lemma_decimal_text_value, parse_number, push_chars, push_padded, push_str_chars, read_lines,
    rows, string_of, trim, trim_chars, trimmed_lines,
};
use vstd::prelude::*;

verus! {

/// Whether a trimmed line of a subtitle text is spoken text: it is not
/// empty, is no number of up to 32 bits, and holds no arrow.
pub open spec fn is_spoken_line(line: Seq<char>) -> bool {
    &&& line.len() > 0
    &&& !(is_number(line) && decimal_value(line) <= u32::MAX)
    &&& !contains_text(line, "-->"@)
}

/// The spoken lines among the first `count` lines, joined by single spaces.
pub open spec fn spoken_up_to(lines: Seq<Seq<char>>, count: int) -> Seq<char>
    decreases count,
{
    if count <= 0 {
        Seq::<char>::empty()
    } else if !is_spoken_line(lines[count - 1]) {
        spoken_up_to(lines, count - 1)
    } else if spoken_seen(lines, count - 1) {
        spoken_up_to(lines, count - 1) + seq![' '] + lines[count - 1]
    } else {
        lines[count - 1]
    }
}

/// Whether there is a spoken line among the first `count` lines.
pub open spec fn spoken_seen(lines: Seq<Seq<char>>, count: int) -> bool {
    exists|k: int| 0 <= k < count && is_spoken_line(#[trigger] lines[k])
}

/// Before the first spoken line there is no spoken text.
proof fn lemma_nothing_spoken(lines: Seq<Seq<char>>, count: int)
    requires
        !spoken_seen(lines, count),
    ensures
        spoken_up_to(lines, count) == Seq::<char>::empty(),
    decreases count,
{
    if count > 0 {
        assert(!is_spoken_line(lines[count - 1]));
        assert(!spoken_seen(lines, count - 1)) by {
            if spoken_seen(lines, count - 1) {
                let k = choose|k: int| 0 <= k < count - 1 && is_spoken_line(#[trigger] lines[k]);
                assert(0 <= k < count && is_spoken_line(lines[k]));
            }
        }
        lemma_nothing_spoken(lines, count - 1);
    }
}

/// The spoken text of a subtitle text: its lines, trimmed, without the
/// empty ones, the numbers and the timing lines, joined by single spaces.
pub open spec fn spoken_text(content: Seq<char>) -> Seq<char> {
    spoken_up_to(trimmed_lines(content), trimmed_lines(content).len() as int)
}

/// The plain text of a fragment, for showing what was recognised.
pub fn extract_text_from_srt(content: &str) -> (r: String)
    ensures
        r@ == spoken_text(content@),
{
    let lines = read_lines(content);
    let ghost all = rows(lines@);
    let mut out: Vec<char> = Vec::new();
    let mut seen = false;
    let mut i: usize = 0;
    while i < lines.len()
        invariant
            i <= lines.len(),
            all == rows(lines@),
            out@ == spoken_up_to(all, i as int),
            seen == spoken_seen(all, i as int),
        decreases lines.len() - i,
    {
        let line = &lines[i];
        assert(all[i as int] == line@);
        assert(line@.subrange(0, line@.len() as int) =~= line@);
        let number = match parse_number(line, 0, line.len()) {
            Some(n) => n <= u32::MAX as u64,
            None => false,
        };
        let spoken = line.len() > 0 && !number && !has_text(line, "-->");
        assert(spoken == is_spoken_line(all[i as int]));
        proof {
            if !seen {
                lemma_nothing_spoken(all, i as int);
            }
        }
        if spoken {
            if seen {
                out.push(' ');
            }
            push_chars(&mut out, line);
        }
        proof {
            if spoken || seen {
                let k = if spoken {
                    i as int
                } else {
                    choose|k: int| 0 <= k < i && is_spoken_line(#[trigger] all[k])
                };
                assert(0 <= k < i + 1 && is_spoken_line(all[k]));
            } else {
                assert forall|k: int| 0 <= k < i + 1 implies !is_spoken_line(
                    #[trigger] all[k],
                ) by {}
            }
        }
        seen = seen || spoken;
        i += 1;
    }
    string_of(&out)
}

/// What is shown of a line that the recognition engine wrote while it
/// worked on segment `current` of `total`: lines that hold a `[` or tell of
/// the detection of the language are shown, trimmed, behind the numbers of
/// the segment; empty lines and all others are not shown.
pub open spec fn shown_line(line: Seq<char>, current: nat, total: nat) -> Option<Seq<char>> {
    if trim(line).len() > 0 && (contains_text(line, "["@) || contains_text(
        line,
        "Detecting language"@,
    )) {
        Some(
            "["@ + decimal_text(current) + "/"@ + decimal_text(total) + "] "@ + trim(line),
        )
    } else {
        None
    }
}

/// Whether `r` is the line `shown`.
pub open spec fn is_line(r: Option<String>, shown: Option<Seq<char>>) -> bool {
    match shown {
        Some(text) => r is Some && r->Some_0@ == text,
        None => r is None,
    }
}

/// Picks what to show of a line of output of the recognition engine.
pub fn realtime_output(line: &str, current: usize, total: usize) -> (r: Option<String>)
    ensures
        is_line(r, shown_line(line@, current as nat, total as nat)),
{
    let raw = chars_of(line);
    let trimmed = trim_chars(&raw);
    if trimmed.len() == 0 {
        return None;
    }
    if !(has_text(&raw, "[") || has_text(&raw, "Detecting language")) {
        return None;
    }
    let mut out: Vec<char> = Vec::new();
    push_str_chars(&mut out, "[");
    proof {
        lemma_decimal_text_value(current as nat);
        lemma_decimal_text_value(total as nat);
    }
    push_padded(&mut out, current as u64, 1);
    push_str_chars(&mut out, "/");
    push_padded(&mut out, total as u64, 1);
    push_str_chars(&mut out, "] ");
    push_chars(&mut out, &trimmed);
    assert(out@ =~= "["@ + decimal_text(current as nat) + "/"@ + decimal_text(total as nat) + "] "@
        + trim(line@));
    Some(string_of(&out))
}

} // verus!
