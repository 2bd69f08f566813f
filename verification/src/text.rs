//! Character-level building blocks: decimal numbers, trimming and splitting
//! of character sequences, and conversions between strings and characters.

use vstd::prelude::*;

verus! {

/// The characters of `s`, in order.
pub(crate) fn chars_of(s: &str) -> (v: Vec<char>)
    ensures
        v@ == s@,
{
    let mut v: Vec<char> = Vec::new();
    for c in it: s.chars()
        invariant
            it.seq() == s@,
            v@ == s@.take(it.index()),
    {
        v.push(c);
    }
    v
}

/// `String::from_iter` over borrowed characters: the string that consists of
/// exactly the characters of `chars`, in order.
#[verifier::external_body]
pub(crate) fn string_of(chars: &Vec<char>) -> (s: String)
    ensures
        s@ == chars@,
{
    String::from_iter(chars.iter())
}

/// Whether `c` is one of the ASCII digits `0` to `9`.
pub open spec fn is_digit(c: char) -> bool {
    '0' <= c <= '9'
}

/// The number that the ASCII digit `c` stands for.
pub open spec fn digit_value(c: char) -> nat {
    (c as nat - '0' as nat) as nat
}

/// The ASCII digit for `d`, where `d < 10`.
pub open spec fn digit_char(d: nat) -> char {
    (d + '0' as nat) as char
}

/// Whether every character of `s` is an ASCII digit.
pub open spec fn all_digits(s: Seq<char>) -> bool {
    forall|i: int| 0 <= i < s.len() ==> is_digit(#[trigger] s[i])
}

/// Whether `s` is a non-empty run of ASCII digits.
pub open spec fn is_number(s: Seq<char>) -> bool {
    s.len() > 0 && all_digits(s)
}

/// The value of a run of digits read as a decimal number; leading zeros are
/// allowed and the empty run counts as zero.
pub open spec fn decimal_value(s: Seq<char>) -> nat
    decreases s.len(),
{
    if s.len() == 0 {
        0
    } else {
        decimal_value(s.drop_last()) * 10 + digit_value(s.last())
    }
}

/// The shortest decimal notation of `n`.
pub open spec fn decimal_text(n: nat) -> Seq<char>
    decreases n,
{
    if n < 10 {
        seq![digit_char(n)]
    } else {
        decimal_text(n / 10).push(digit_char(n % 10))
    }
}

/// A run of `count` zeros.
pub open spec fn zeros(count: nat) -> Seq<char> {
    Seq::new(count, |i: int| '0')
}

/// The decimal notation of `n`, filled with zeros on the left up to `width`
/// characters; longer numbers are not cut.
pub open spec fn zero_padded(n: nat, width: nat) -> Seq<char> {
    let digits = decimal_text(n);
    if digits.len() >= width {
        digits
    } else {
        zeros((width - digits.len()) as nat) + digits
    }
}

/// Whether `c` is an ASCII digit.
pub(crate) fn is_digit_char(c: char) -> (b: bool)
    ensures
        b == is_digit(c),
{
    c >= '0' && c <= '9'
}

/// The number that the digit `c` stands for.
pub(crate) fn digit_of(c: char) -> (d: u64)
    requires
        is_digit(c),
    ensures
        d == digit_value(c),
        d < 10,
{
    (c as u32 - 48) as u64
}

/// The digit for `d`.
pub(crate) fn char_of_digit(d: u64) -> (c: char)
    requires
        d < 10,
    ensures
        c == digit_char(d as nat),
        is_digit(c),
{
    (d as u8 + 48) as char
}

/// The value of a non-empty run of digits, where it fits in 64 bits.
pub open spec fn bounded_number(s: Seq<char>) -> Option<u64> {
    if is_number(s) && decimal_value(s) <= u64::MAX {
        Some(decimal_value(s) as u64)
    } else {
        None
    }
}

/// Reading more digits never makes the number smaller.
pub proof fn lemma_decimal_value_grows(s: Seq<char>, k: int)
    requires
        0 <= k <= s.len(),
    ensures
        decimal_value(s.take(k)) <= decimal_value(s),
    decreases s.len(),
{
    if k == s.len() {
        assert(s.take(k) =~= s);
    } else {
        assert(s.drop_last().take(k) =~= s.take(k));
        lemma_decimal_value_grows(s.drop_last(), k);
    }
}

/// The shortest notation of `n` consists of digits and reads back as `n`.
pub proof fn lemma_decimal_text_value(n: nat)
    ensures
        is_number(decimal_text(n)),
        decimal_value(decimal_text(n)) == n,
    decreases n,
{
    if n < 10 {
        let t = decimal_text(n);
        assert(t.drop_last() =~= Seq::<char>::empty());
        assert(decimal_value(t.drop_last()) == 0);
    } else {
        lemma_decimal_text_value(n / 10);
        let t = decimal_text(n);
        assert(t.drop_last() =~= decimal_text(n / 10));
    }
}

/// Zeros in front of a run of digits do not change its value.
pub proof fn lemma_leading_zeros(count: nat, s: Seq<char>)
    ensures
        decimal_value(zeros(count) + s) == decimal_value(s),
        all_digits(s) ==> all_digits(zeros(count) + s),
    decreases s.len(), count,
{
    let t = zeros(count) + s;
    if s.len() == 0 {
        assert(t =~= zeros(count));
        if count > 0 {
            assert(t.drop_last() =~= zeros((count - 1) as nat) + s);
            lemma_leading_zeros((count - 1) as nat, s);
        }
    } else {
        assert(t.drop_last() =~= zeros(count) + s.drop_last());
        lemma_leading_zeros(count, s.drop_last());
    }
}

/// A padded number consists of digits, has at least the asked width and
/// reads back as the number.
pub proof fn lemma_zero_padded(n: nat, width: nat)
    ensures
        is_number(zero_padded(n, width)),
        zero_padded(n, width).len() >= width,
        decimal_value(zero_padded(n, width)) == n,
{
    lemma_decimal_text_value(n);
    let digits = decimal_text(n);
    if digits.len() < width {
        lemma_leading_zeros((width - digits.len()) as nat, digits);
    }
}

/// Reads the characters `v[from..to]` as a decimal number.
pub(crate) fn parse_number(v: &Vec<char>, from: usize, to: usize) -> (r: Option<u64>)
    requires
        from <= to <= v.len(),
    ensures
        r == bounded_number(v@.subrange(from as int, to as int)),
{
    let ghost s = v@.subrange(from as int, to as int);
    if from == to {
        return None;
    }
    let mut acc: u64 = 0;
    let mut i: usize = from;
    while i < to
        invariant
            from <= i <= to <= v.len(),
            s == v@.subrange(from as int, to as int),
            all_digits(s.take(i - from)),
            acc == decimal_value(s.take(i - from)),
        decreases to - i,
    {
        let c = v[i];
        let ghost before = s.take(i - from);
        let ghost after = s.take(i + 1 - from);
        proof {
            assert(after.drop_last() =~= before);
            assert(after.last() == c);
            lemma_decimal_value_grows(s, i + 1 - from);
        }
        if !is_digit_char(c) {
            assert(!is_digit(s[i - from]));
            return None;
        }
        let d = digit_of(c);
        if acc > (u64::MAX - d) / 10 {
            return None;
        }
        acc = acc * 10 + d;
        i += 1;
    }
    assert(s.take(to - from) =~= s);
    Some(acc)
}

/// Appends the decimal notation of `n` to `out`, filled with zeros on the
/// left up to `width` characters.
pub(crate) fn push_padded(out: &mut Vec<char>, n: u64, width: usize)
    ensures
        final(out)@ == old(out)@ + zero_padded(n as nat, width as nat),
{
    let mut reversed: Vec<char> = Vec::new();
    let mut m: u64 = n;
    while m >= 10
        invariant
            decimal_text(n as nat) == decimal_text(m as nat) + reversed@.reverse(),
        decreases m,
    {
        let d = char_of_digit(m % 10);
        proof {
            let r = reversed@;
            assert(decimal_text(m as nat) == decimal_text((m / 10) as nat).push(d));
            assert(decimal_text((m / 10) as nat).push(d) + r.reverse() =~= decimal_text(
                (m / 10) as nat,
            ) + r.push(d).reverse());
        }
        reversed.push(d);
        m = m / 10;
    }
    let last = char_of_digit(m);
    proof {
        let r = reversed@;
        assert(seq![last] + r.reverse() =~= r.push(last).reverse());
    }
    reversed.push(last);
    let ghost digits = decimal_text(n as nat);
    assert(digits == reversed@.reverse());
    let mut k: usize = reversed.len();
    while k < width
        invariant
            reversed.len() <= k,
            k <= width || k == reversed.len(),
            out@ == old(out)@ + zeros((k - reversed.len()) as nat),
        decreases width - k,
    {
        proof {
            assert(zeros((k - reversed.len()) as nat).push('0') =~= zeros(
                (k + 1 - reversed.len()) as nat,
            ));
        }
        out.push('0');
        k += 1;
    }
    let ghost padding = zeros((k - reversed.len()) as nat);
    let mut i: usize = reversed.len();
    while i > 0
        invariant
            i <= reversed.len(),
            digits == reversed@.reverse(),
            out@ == old(out)@ + padding + digits.take(reversed.len() - i),
        decreases i,
    {
        i -= 1;
        proof {
            let done = digits.take(reversed.len() - i - 1);
            assert(done.push(reversed@[i as int]) =~= digits.take(reversed.len() - i));
        }
        out.push(reversed[i]);
    }
    proof {
        assert(digits.take(reversed.len() as int) =~= digits);
        assert(old(out)@ + padding + digits =~= old(out)@ + (padding + digits));
        if digits.len() >= width {
            assert(padding =~= Seq::<char>::empty());
            assert(padding + digits =~= digits);
        }
    }
}

/// Position of the first `c` in `s`, or `s.len()` where `s` holds none.
pub open spec fn index_of(s: Seq<char>, c: char) -> int
    decreases s.len(),
{
    if s.len() == 0 || s[0] == c {
        0
    } else {
        1 + index_of(s.skip(1), c)
    }
}

/// `index_of` is within bounds, nothing before it is `c`, and `c` stands at
/// it unless it is the length.
pub proof fn lemma_index_of(s: Seq<char>, c: char)
    ensures
        0 <= index_of(s, c) <= s.len(),
        forall|j: int| 0 <= j < index_of(s, c) ==> s[j] != c,
        index_of(s, c) < s.len() ==> s[index_of(s, c)] == c,
    decreases s.len(),
{
    if s.len() == 0 || s[0] == c {
    } else {
        lemma_index_of(s.skip(1), c);
        assert forall|j: int| 0 <= j < index_of(s, c) implies s[j] != c by {
            if j > 0 {
                assert(s[j] == s.skip(1)[j - 1]);
            }
        }
    }
}

/// The position that has `c` for the first time is `index_of`.
pub proof fn lemma_index_of_is(s: Seq<char>, c: char, k: int)
    requires
        0 <= k <= s.len(),
        forall|j: int| 0 <= j < k ==> s[j] != c,
        k < s.len() ==> s[k] == c,
    ensures
        index_of(s, c) == k,
    decreases s.len(),
{
    if k == 0 {
    } else {
        assert(s[0] != c);
        assert forall|j: int| 0 <= j < k - 1 implies s.skip(1)[j] != c by {
            assert(s.skip(1)[j] == s[j + 1]);
        }
        lemma_index_of_is(s.skip(1), c, k - 1);
    }
}

/// Finds the first `c` in `v`.
pub(crate) fn find_char(v: &Vec<char>, c: char) -> (k: usize)
    ensures
        k == index_of(v@, c),
        k <= v.len(),
{
    let mut k: usize = 0;
    while k < v.len() && v[k] != c
        invariant
            k <= v.len(),
            forall|j: int| 0 <= j < k ==> v@[j] != c,
        decreases v.len() - k,
    {
        k += 1;
    }
    proof {
        lemma_index_of_is(v@, c, k as int);
    }
    k
}

/// The pieces of `s` between occurrences of `sep`. There is always at least
/// one piece; a separator at either end gives an empty piece there.
pub open spec fn split(s: Seq<char>, sep: char) -> Seq<Seq<char>>
    decreases s.len(),
{
    let i = index_of(s, sep);
    if 0 <= i < s.len() {
        seq![s.take(i)] + split(s.skip(i + 1), sep)
    } else {
        seq![s]
    }
}

/// A sequence without `sep` is its own single piece.
pub proof fn lemma_split_single(a: Seq<char>, sep: char)
    requires
        forall|i: int| 0 <= i < a.len() ==> a[i] != sep,
    ensures
        split(a, sep) == seq![a],
{
    lemma_index_of_is(a, sep, a.len() as int);
}

/// Where `a` holds no `sep`, the pieces of `a`, `sep`, `b` are `a` and then
/// the pieces of `b`.
pub proof fn lemma_split_first(a: Seq<char>, b: Seq<char>, sep: char)
    requires
        forall|i: int| 0 <= i < a.len() ==> a[i] != sep,
    ensures
        split(a + seq![sep] + b, sep) == seq![a] + split(b, sep),
{
    let s = a + seq![sep] + b;
    assert forall|j: int| 0 <= j < a.len() implies s[j] != sep by {
        assert(s[j] == a[j]);
    }
    assert(s[a.len() as int] == sep);
    lemma_index_of_is(s, sep, a.len() as int);
    assert(s.take(a.len() as int) =~= a);
    assert(s.skip(a.len() as int + 1) =~= b);
}

/// The character sequences that a vector of character vectors holds.
pub open spec fn rows(parts: Seq<Vec<char>>) -> Seq<Seq<char>> {
    parts.map_values(|p: Vec<char>| p@)
}

/// Cuts `v` at every `sep`.
pub(crate) fn split_chars(v: &Vec<char>, sep: char) -> (parts: Vec<Vec<char>>)
    ensures
        rows(parts@) == split(v@, sep),
{
    let ghost s = v@;
    let mut parts: Vec<Vec<char>> = Vec::new();
    let mut piece: Vec<char> = Vec::new();
    let ghost mut start: int = 0;
    let mut i: usize = 0;
    proof {
        assert(s.skip(0) =~= s);
        assert(rows(parts@) + split(s, sep) =~= split(s, sep));
    }
    while i < v.len()
        invariant
            0 <= start <= i <= v.len(),
            s == v@,
            piece@ == s.subrange(start, i as int),
            forall|j: int| start <= j < i ==> s[j] != sep,
            split(s, sep) == rows(parts@) + split(s.skip(start), sep),
        decreases v.len() - i,
    {
        let c = v[i];
        if c == sep {
            proof {
                let rest = s.skip(start);
                assert forall|j: int| 0 <= j < i - start implies rest[j] != sep by {
                    assert(rest[j] == s[start + j]);
                }
                lemma_index_of_is(rest, sep, i - start);
                assert(rest.take(i - start) =~= piece@);
                assert(rest.skip(i - start + 1) =~= s.skip(i + 1));
                assert(rows(parts@.push(piece)) =~= rows(parts@).push(piece@));
                assert(rows(parts@) + (seq![piece@] + split(s.skip(i + 1), sep)) =~= rows(
                    parts@,
                ).push(piece@) + split(s.skip(i + 1), sep));
                start = i + 1;
            }
            parts.push(piece);
            piece = Vec::new();
        } else {
            proof {
                assert(s.subrange(start, i as int).push(c) =~= s.subrange(start, i + 1));
            }
            piece.push(c);
        }
        i += 1;
    }
    proof {
        let rest = s.skip(start);
        assert forall|j: int| 0 <= j < rest.len() implies rest[j] != sep by {
            assert(rest[j] == s[start + j]);
        }
        lemma_index_of_is(rest, sep, rest.len() as int);
        assert(rest =~= piece@);
        assert(rows(parts@.push(piece)) =~= rows(parts@).push(piece@));
        assert(rows(parts@) + seq![piece@] =~= rows(parts@).push(piece@));
    }
    parts.push(piece);
    parts
}

/// Whether `c` is white space: the characters that Unicode gives the
/// property `White_Space`.
pub open spec fn is_space(c: char) -> bool {
    ||| c == ' '
    ||| '\t' <= c <= '\r'
    ||| c == '\u{85}'
    ||| c == '\u{A0}'
    ||| c == '\u{1680}'
    ||| '\u{2000}' <= c <= '\u{200A}'
    ||| c == '\u{2028}'
    ||| c == '\u{2029}'
    ||| c == '\u{202F}'
    ||| c == '\u{205F}'
    ||| c == '\u{3000}'
}

/// Whether `c` is white space.
pub(crate) fn is_space_char(c: char) -> (b: bool)
    ensures
        b == is_space(c),
{
    c == ' ' || (c >= '\t' && c <= '\r') || c == '\u{85}' || c == '\u{A0}' || c == '\u{1680}' || (c
        >= '\u{2000}' && c <= '\u{200A}') || c == '\u{2028}' || c == '\u{2029}' || c == '\u{202F}'
        || c == '\u{205F}' || c == '\u{3000}'
}

/// How many white-space characters stand at the start of `s`.
pub open spec fn leading_spaces(s: Seq<char>) -> nat
    decreases s.len(),
{
    if s.len() > 0 && is_space(s[0]) {
        1 + leading_spaces(s.skip(1))
    } else {
        0
    }
}

/// How many white-space characters stand at the end of `s`.
pub open spec fn trailing_spaces(s: Seq<char>) -> nat
    decreases s.len(),
{
    if s.len() > 0 && is_space(s.last()) {
        1 + trailing_spaces(s.drop_last())
    } else {
        0
    }
}

/// `s` without the white space at its start and at its end.
pub open spec fn trim(s: Seq<char>) -> Seq<char> {
    let t = s.skip(leading_spaces(s) as int);
    t.take(t.len() - trailing_spaces(t))
}

/// The run of white space at the start of `s` ends at `k`.
pub proof fn lemma_leading_spaces_is(s: Seq<char>, k: int)
    requires
        0 <= k <= s.len(),
        forall|j: int| 0 <= j < k ==> is_space(s[j]),
        k < s.len() ==> !is_space(s[k]),
    ensures
        leading_spaces(s) == k,
    decreases s.len(),
{
    if k > 0 {
        assert(is_space(s[0]));
        assert forall|j: int| 0 <= j < k - 1 implies is_space(s.skip(1)[j]) by {
            assert(s.skip(1)[j] == s[j + 1]);
        }
        lemma_leading_spaces_is(s.skip(1), k - 1);
    }
}

/// The run of white space at the end of `s` starts at `k`.
pub proof fn lemma_trailing_spaces_is(s: Seq<char>, k: int)
    requires
        0 <= k <= s.len(),
        forall|j: int| k <= j < s.len() ==> is_space(s[j]),
        k > 0 ==> !is_space(s[k - 1]),
    ensures
        trailing_spaces(s) == s.len() - k,
    decreases s.len(),
{
    if k < s.len() {
        assert(is_space(s.last()));
        lemma_trailing_spaces_is(s.drop_last(), k);
    }
}

/// A copy of `v` without the white space at its start and at its end.
pub(crate) fn trim_chars(v: &Vec<char>) -> (r: Vec<char>)
    ensures
        r@ == trim(v@),
{
    let n = v.len();
    let mut a: usize = 0;
    while a < n && is_space_char(v[a])
        invariant
            a <= n == v.len(),
            forall|j: int| 0 <= j < a ==> is_space(v@[j]),
        decreases n - a,
    {
        a += 1;
    }
    let mut b: usize = n;
    while b > a && is_space_char(v[b - 1])
        invariant
            a <= b <= n == v.len(),
            forall|j: int| b <= j < n ==> is_space(v@[j]),
        decreases b,
    {
        b -= 1;
    }
    let ghost t = v@.skip(a as int);
    proof {
        lemma_leading_spaces_is(v@, a as int);
        assert forall|j: int| b - a <= j < t.len() implies is_space(t[j]) by {
            assert(t[j] == v@[a + j]);
        }
        if b > a {
            assert(t[b - a - 1] == v@[b - 1]);
        }
        lemma_trailing_spaces_is(t, b - a);
    }
    let mut r: Vec<char> = Vec::new();
    let mut i: usize = a;
    while i < b
        invariant
            a <= i <= b <= v.len(),
            r@ == v@.subrange(a as int, i as int),
        decreases b - i,
    {
        proof {
            assert(v@.subrange(a as int, i as int).push(v@[i as int]) =~= v@.subrange(
                a as int,
                i + 1,
            ));
        }
        r.push(v[i]);
        i += 1;
    }
    assert(v@.subrange(a as int, b as int) =~= t.take(t.len() - trailing_spaces(t)));
    r
}

/// Appends the characters of `s` to `out`.
pub(crate) fn push_str_chars(out: &mut Vec<char>, s: &str)
    ensures
        final(out)@ == old(out)@ + s@,
{
    for c in it: s.chars()
        invariant
            it.seq() == s@,
            out@ == old(out)@ + s@.take(it.index()),
    {
        proof {
            assert(old(out)@ + s@.take(it.index() + 1) =~= (old(out)@ + s@.take(it.index())).push(
                c,
            ));
        }
        out.push(c);
    }
    assert(s@.take(s@.len() as int) =~= s@);
}

/// A copy of the characters `v[from..to]`.
pub(crate) fn copy_range(v: &Vec<char>, from: usize, to: usize) -> (r: Vec<char>)
    requires
        from <= to <= v.len(),
    ensures
        r@ == v@.subrange(from as int, to as int),
{
    let mut r: Vec<char> = Vec::new();
    let mut i: usize = from;
    while i < to
        invariant
            from <= i <= to <= v.len(),
            r@ == v@.subrange(from as int, i as int),
        decreases to - i,
    {
        proof {
            assert(v@.subrange(from as int, i as int).push(v@[i as int]) =~= v@.subrange(
                from as int,
                i + 1,
            ));
        }
        r.push(v[i]);
        i += 1;
    }
    r
}

/// Appends the characters of `src` to `out`.
pub(crate) fn push_chars(out: &mut Vec<char>, src: &Vec<char>)
    ensures
        final(out)@ == old(out)@ + src@,
{
    let mut i: usize = 0;
    while i < src.len()
        invariant
            i <= src.len(),
            out@ == old(out)@ + src@.take(i as int),
        decreases src.len() - i,
    {
        proof {
            assert((old(out)@ + src@.take(i as int)).push(src@[i as int]) =~= old(out)@
                + src@.take(i + 1));
        }
        out.push(src[i]);
        i += 1;
    }
    assert(src@.take(src.len() as int) =~= src@);
}

/// The texts that a list of strings holds.
pub open spec fn texts(contents: Seq<String>) -> Seq<Seq<char>> {
    contents.map_values(|c: String| c@)
}

/// The lines of `content`, each without the white space around it. Lines
/// end at a line feed; a carriage return before it goes with the white
/// space.
pub open spec fn trimmed_lines(content: Seq<char>) -> Seq<Seq<char>> {
    split(content, '\n').map_values(|line: Seq<char>| trim(line))
}

/// Cuts `content` into lines and trims each.
pub(crate) fn read_lines(content: &str) -> (lines: Vec<Vec<char>>)
    ensures
        rows(lines@) == trimmed_lines(content@),
{
    let v = chars_of(content);
    let raw = split_chars(&v, '\n');
    let mut lines: Vec<Vec<char>> = Vec::new();
    let mut i: usize = 0;
    while i < raw.len()
        invariant
            i <= raw.len(),
            lines.len() == i,
            forall|j: int| 0 <= j < i ==> (#[trigger] lines@[j])@ == trim(raw@[j]@),
        decreases raw.len() - i,
    {
        let line = trim_chars(&raw[i]);
        lines.push(line);
        i += 1;
    }
    proof {
        let want = trimmed_lines(content@);
        assert(rows(raw@) == split(content@, '\n'));
        assert(rows(lines@).len() == want.len());
        assert forall|j: int| 0 <= j < want.len() implies rows(lines@)[j] == want[j] by {
            assert(rows(raw@)[j] == raw@[j]@);
            assert(rows(lines@)[j] == lines@[j]@);
        }
        assert(rows(lines@) =~= want);
    }
    lines
}

/// The pieces joined, with `sep` between each two.
pub open spec fn join(pieces: Seq<Seq<char>>, sep: char) -> Seq<char>
    decreases pieces.len(),
{
    if pieces.len() == 0 {
        Seq::<char>::empty()
    } else if pieces.len() == 1 {
        pieces[0]
    } else {
        join(pieces.drop_last(), sep) + seq![sep] + pieces.last()
    }
}

/// Whether `needle` stands in `hay` at position `k`.
pub open spec fn occurs_at(hay: Seq<char>, needle: Seq<char>, k: int) -> bool {
    0 <= k && k + needle.len() <= hay.len() && hay.subrange(k, k + needle.len()) == needle
}

/// Whether `needle` stands somewhere in `hay`.
pub open spec fn contains_text(hay: Seq<char>, needle: Seq<char>) -> bool {
    exists|k: int| occurs_at(hay, needle, k)
}

/// Tells whether `needle` stands in `hay` at position `k`.
fn matches_at(hay: &Vec<char>, needle: &Vec<char>, k: usize) -> (m: bool)
    requires
        k + needle.len() <= hay.len(),
    ensures
        m == occurs_at(hay@, needle@, k as int),
{
    let mut i: usize = 0;
    while i < needle.len()
        invariant
            i <= needle.len(),
            k + needle.len() <= hay.len(),
            forall|j: int| 0 <= j < i ==> hay@[k + j] == needle@[j],
        decreases needle.len() - i,
    {
        if hay[k + i] != needle[i] {
            assert(hay@.subrange(k as int, k + needle.len())[i as int] != needle@[i as int]);
            return false;
        }
        i += 1;
    }
    assert(hay@.subrange(k as int, k + needle.len()) =~= needle@);
    true
}

/// Tells whether `needle` stands somewhere in `hay`.
pub(crate) fn has_text(hay: &Vec<char>, needle: &str) -> (found: bool)
    ensures
        found == contains_text(hay@, needle@),
{
    let n = chars_of(needle);
    if n.len() > hay.len() {
        return false;
    }
    let last = hay.len() - n.len();
    let mut k: usize = 0;
    loop
        invariant
            k <= last,
            last == hay.len() - n.len(),
            n.len() <= hay.len(),
            n@ == needle@,
            forall|j: int| 0 <= j < k ==> !occurs_at(hay@, n@, j),
        decreases last - k,
    {
        if matches_at(hay, &n, k) {
            return true;
        }
        if k == last {
            return false;
        }
        k += 1;
    }
}

/// A padded number of up to three digits, digit by digit.
pub proof fn lemma_three_digits(n: nat)
    requires
        n < 1000,
    ensures
        zero_padded(n, 3) == seq![
            digit_char(n / 100),
            digit_char((n / 10) % 10),
            digit_char(n % 10),
        ],
{
    reveal_with_fuel(decimal_text, 3);
    let want = seq![digit_char(n / 100), digit_char((n / 10) % 10), digit_char(n % 10)];
    if n < 10 {
        assert(zeros(2) + decimal_text(n) =~= want);
    } else if n < 100 {
        assert(decimal_text(n) =~= seq![digit_char(n / 10), digit_char(n % 10)]);
        assert(zeros(1) + decimal_text(n) =~= want);
    } else {
        assert(decimal_text(n) =~= want);
    }
}

/// The pieces of `x`, `sep`, `y` are the pieces of `x` and then those of
/// `y`.
pub proof fn lemma_split_concat(x: Seq<char>, y: Seq<char>, sep: char)
    ensures
        split(x + seq![sep] + y, sep) == split(x, sep) + split(y, sep),
    decreases x.len(),
{
    lemma_index_of(x, sep);
    let i = index_of(x, sep);
    if i < x.len() {
        let head = x.take(i);
        let rest = x.skip(i + 1);
        assert(x =~= head + seq![sep] + rest);
        assert(x + seq![sep] + y =~= head + seq![sep] + (rest + seq![sep] + y));
        assert forall|j: int| 0 <= j < head.len() implies head[j] != sep by {
            assert(head[j] == x[j]);
        }
        lemma_split_first(head, rest + seq![sep] + y, sep);
        lemma_split_concat(rest, y, sep);
        assert(seq![head] + (split(rest, sep) + split(y, sep)) =~= (seq![head] + split(rest, sep))
            + split(y, sep));
    } else {
        lemma_split_first(x, y, sep);
    }
}

/// Joining a piece in front of others puts a separator behind it.
pub proof fn lemma_join_prepend(first: Seq<char>, others: Seq<Seq<char>>, sep: char)
    requires
        others.len() > 0,
    ensures
        join(seq![first] + others, sep) == first + seq![sep] + join(others, sep),
    decreases others.len(),
{
    let all = seq![first] + others;
    assert(all.drop_last() =~= seq![first] + others.drop_last());
    assert(all.last() == others.last());
    if others.len() == 1 {
        assert(all.drop_last() =~= seq![first]);
        assert(join(all.drop_last(), sep) == first);
        assert(join(others, sep) == others[0]);
    } else {
        lemma_join_prepend(first, others.drop_last(), sep);
        assert(first + seq![sep] + join(others.drop_last(), sep) + seq![sep] + others.last()
            =~= first + seq![sep] + (join(others.drop_last(), sep) + seq![sep] + others.last()));
    }
}

/// Splitting and joining again gives back what was split.
pub proof fn lemma_join_split(s: Seq<char>, sep: char)
    ensures
        split(s, sep).len() > 0,
        join(split(s, sep), sep) == s,
    decreases s.len(),
{
    lemma_index_of(s, sep);
    let i = index_of(s, sep);
    if i < s.len() {
        lemma_join_split(s.skip(i + 1), sep);
        lemma_join_prepend(s.take(i), split(s.skip(i + 1), sep), sep);
        assert(s.take(i) + seq![sep] + s.skip(i + 1) =~= s);
    }
}

/// A sequence that neither begins nor ends with white space is its own
/// trimmed form.
pub proof fn lemma_trim_fixed(s: Seq<char>)
    requires
        s.len() == 0 || (!is_space(s[0]) && !is_space(s.last())),
    ensures
        trim(s) == s,
{
    assert(s.skip(0) =~= s);
    assert(s.take(s.len() as int) =~= s);
}

/// Whether `s` holds no `c`.
pub open spec fn free_of(s: Seq<char>, c: char) -> bool {
    forall|k: int| 0 <= k < s.len() ==> s[k] != c
}

/// No piece holds the separator.
pub proof fn lemma_split_clean(s: Seq<char>, sep: char)
    ensures
        split(s, sep).len() > 0,
        forall|j: int| 0 <= j < split(s, sep).len() ==> free_of(#[trigger] split(s, sep)[j], sep),
    decreases s.len(),
{
    lemma_index_of(s, sep);
    let i = index_of(s, sep);
    if i < s.len() {
        lemma_split_clean(s.skip(i + 1), sep);
        let head = s.take(i);
        let tail = split(s.skip(i + 1), sep);
        assert forall|j: int| 0 <= j < split(s, sep).len() implies free_of(
            #[trigger] split(s, sep)[j],
            sep,
        ) by {
            if j == 0 {
                assert forall|k: int| 0 <= k < head.len() implies head[k] != sep by {
                    assert(head[k] == s[k]);
                }
            } else {
                assert(split(s, sep)[j] == tail[j - 1]);
            }
        }
    }
}

/// Pieces that hold no separator, joined and split again, are the pieces.
pub proof fn lemma_split_join(pieces: Seq<Seq<char>>, sep: char)
    requires
        pieces.len() > 0,
        forall|j: int| 0 <= j < pieces.len() ==> free_of(#[trigger] pieces[j], sep),
    ensures
        split(join(pieces, sep), sep) == pieces,
    decreases pieces.len(),
{
    assert(free_of(pieces[pieces.len() - 1], sep));
    lemma_split_single(pieces.last(), sep);
    if pieces.len() > 1 {
        let front = pieces.drop_last();
        assert forall|j: int| 0 <= j < front.len() implies free_of(#[trigger] front[j], sep) by {
            assert(front[j] == pieces[j]);
        }
        lemma_split_join(front, sep);
        lemma_split_concat(join(front, sep), pieces.last(), sep);
        assert(front + seq![pieces.last()] =~= pieces);
    } else {
        assert(seq![pieces[0]] =~= pieces);
    }
}

/// The run of white space at the start of `s` is in bounds and ends before
/// a character that is none.
pub proof fn lemma_leading_spaces(s: Seq<char>)
    ensures
        leading_spaces(s) <= s.len(),
        leading_spaces(s) < s.len() ==> !is_space(s[leading_spaces(s) as int]),
    decreases s.len(),
{
    if s.len() > 0 && is_space(s[0]) {
        lemma_leading_spaces(s.skip(1));
        if leading_spaces(s) < s.len() {
            assert(s[leading_spaces(s) as int] == s.skip(1)[leading_spaces(s.skip(1)) as int]);
        }
    }
}

/// The run of white space at the end of `s` is in bounds and begins behind
/// a character that is none.
pub proof fn lemma_trailing_spaces(s: Seq<char>)
    ensures
        trailing_spaces(s) <= s.len(),
        trailing_spaces(s) < s.len() ==> !is_space(s[s.len() - trailing_spaces(s) - 1]),
    decreases s.len(),
{
    if s.len() > 0 && is_space(s.last()) {
        lemma_trailing_spaces(s.drop_last());
    }
}

/// A trimmed sequence neither begins nor ends with white space, and holds
/// no character that the sequence did not hold.
pub proof fn lemma_trim_ends(s: Seq<char>, c: char)
    ensures
        trim(s).len() > 0 ==> !is_space(trim(s)[0]) && !is_space(trim(s).last()),
        free_of(s, c) ==> free_of(trim(s), c),
{
    lemma_leading_spaces(s);
    let a = leading_spaces(s) as int;
    let t = s.skip(a);
    lemma_trailing_spaces(t);
    let r = trim(s);
    if r.len() > 0 {
        assert(r[0] == t[0]);
        assert(t[0] == s[a]);
        assert(r.last() == t[t.len() - trailing_spaces(t) - 1]);
    }
    if free_of(s, c) {
        assert forall|k: int| 0 <= k < r.len() implies r[k] != c by {
            assert(r[k] == s[a + k]);
        }
    }
}

} // verus!
