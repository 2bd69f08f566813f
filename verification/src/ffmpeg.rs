//! What the media transcoder is told: the names of the files of the
//! segments, and times in seconds.

use crate::text::{
    char_of_digit, decimal_text, lemma_decimal_text_value, lemma_three_digits, push_padded,
    push_str_chars, string_of, zero_padded,
};
use vstd::prelude::*;

verus! {

/// The name of the file of segment `index`, counted from zero, of a sound
/// file with the given stem and extension: the stem, an underscore, the
/// index in at least three digits, a point and the extension.
pub open spec fn segment_name(stem: Seq<char>, index: nat, extension: Seq<char>) -> Seq<char> {
    stem + seq!['_'] + zero_padded(index, 3) + seq!['.'] + extension
}

/// The name of the file of a segment.
pub fn segment_file_name(stem: &str, index: usize, extension: &str) -> (r: String)
    ensures
        r@ == segment_name(stem@, index as nat, extension@),
{
    let mut out: Vec<char> = Vec::new();
    push_str_chars(&mut out, stem);
    out.push('_');
    push_padded(&mut out, index as u64, 3);
    out.push('.');
    push_str_chars(&mut out, extension);
    assert(out@ =~= segment_name(stem@, index as nat, extension@));
    string_of(&out)
}

/// The digits after the point for `frac` thousandths, where `frac` is
/// between 1 and 999: three digits without the zeros at the end.
pub open spec fn fraction_text(frac: nat) -> Seq<char> {
    let digits = zero_padded(frac, 3);
    if frac % 10 != 0 {
        digits
    } else if frac % 100 != 0 {
        digits.take(2)
    } else {
        digits.take(1)
    }
}

/// `ms` milliseconds written in seconds, as short as can be: whole seconds
/// without a point, others with up to three digits after it.
pub open spec fn seconds_text(ms: nat) -> Seq<char> {
    if ms % 1000 == 0 {
        decimal_text(ms / 1000)
    } else {
        decimal_text(ms / 1000) + seq!['.'] + fraction_text(ms % 1000)
    }
}

/// Writes a time in seconds for the transcoder.
pub fn format_seconds(ms: u64) -> (r: String)
    ensures
        r@ == seconds_text(ms as nat),
{
    let mut out: Vec<char> = Vec::new();
    proof {
        lemma_decimal_text_value((ms / 1000) as nat);
    }
    push_padded(&mut out, ms / 1000, 1);
    let frac = ms % 1000;
    if frac != 0 {
        proof {
            lemma_three_digits(frac as nat);
        }
        let ghost digits = zero_padded(frac as nat, 3);
        out.push('.');
        out.push(char_of_digit(frac / 100));
        if frac % 100 != 0 {
            out.push(char_of_digit((frac / 10) % 10));
        }
        if frac % 10 != 0 {
            out.push(char_of_digit(frac % 10));
        }
        assert(out@ =~= decimal_text((ms / 1000) as nat) + seq!['.'] + fraction_text(frac as nat));
    }
    string_of(&out)
}

} // verus!
