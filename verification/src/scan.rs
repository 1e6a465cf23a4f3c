//! Byte-level scanning: locating a literal marker in free-form text and
//! reading the decimal number that follows it.
//!
//! Everything here is stated over `Seq<u8>`, the bytes of the text in UTF-8.
//! The executable functions walk a slice once and are proved to compute
//! exactly what the spec functions describe.
//!
//! Whitespace is every character with the Unicode property White_Space: the
//! six of ASCII, and nineteen more that take two or three bytes. Digits are
//! the ten of ASCII.
use vstd::prelude::*;

verus! {

/// ASCII whitespace: space, tab, line feed, vertical tab, form feed, carriage return.
pub open spec fn is_space(b: u8) -> bool {
    b == 0x20 || (0x09 <= b && b <= 0x0d)
}

/// The two bytes are a whitespace character: next line (U+0085) or no-break
/// space (U+00A0).
pub open spec fn is_wide_space2(b0: u8, b1: u8) -> bool {
    b0 == 0xc2 && (b1 == 0x85 || b1 == 0xa0)
}

/// The three bytes are a whitespace character: ogham space mark (U+1680),
/// one of the spaces U+2000 to U+200A, line separator (U+2028), paragraph
/// separator (U+2029), narrow no-break space (U+202F), medium mathematical
/// space (U+205F) or ideographic space (U+3000).
pub open spec fn is_wide_space3(b0: u8, b1: u8, b2: u8) -> bool {
    ||| b0 == 0xe1 && b1 == 0x9a && b2 == 0x80
    ||| b0 == 0xe2 && b1 == 0x80 && ((0x80 <= b2 && b2 <= 0x8a) || b2 == 0xa8 || b2 == 0xa9 || b2
        == 0xaf)
    ||| b0 == 0xe2 && b1 == 0x81 && b2 == 0x9f
    ||| b0 == 0xe3 && b1 == 0x80 && b2 == 0x80
}

/// The number of bytes of the whitespace character that begins at `i`, or
/// zero where none begins there.
pub open spec fn space_width(text: Seq<u8>, i: int) -> int {
    if 0 <= i < text.len() && is_space(text[i]) {
        1
    } else if 0 <= i && i + 1 < text.len() && is_wide_space2(text[i], text[i + 1]) {
        2
    } else if 0 <= i && i + 2 < text.len() && is_wide_space3(text[i], text[i + 1], text[i + 2]) {
        3
    } else {
        0
    }
}

/// The end of the whitespace that begins at `start`.
pub open spec fn spaces_end(text: Seq<u8>, start: int) -> int
    decreases text.len() - start,
{
    if space_width(text, start) > 0 {
        spaces_end(text, start + space_width(text, start))
    } else {
        start
    }
}

/// An ASCII decimal digit.
pub open spec fn is_digit(b: u8) -> bool {
    0x30 <= b && b <= 0x39
}

/// The class of digit bytes.
pub open spec fn digits() -> spec_fn(u8) -> bool {
    |b: u8| is_digit(b)
}

/// `pat` stands in `text` at offset `i`.
pub open spec fn occurs_at(text: Seq<u8>, pat: Seq<u8>, i: int) -> bool {
    &&& 0 <= i
    &&& i + pat.len() <= text.len()
    &&& text.subrange(i, i + pat.len()) == pat
}

/// `i` is the leftmost offset at which `pat` stands in `text`.
pub open spec fn is_first_occurrence(text: Seq<u8>, pat: Seq<u8>, i: int) -> bool {
    &&& occurs_at(text, pat, i)
    &&& forall|j: int| 0 <= j < i ==> !occurs_at(text, pat, j)
}

/// The leftmost offset at which `pat` stands in `text`, if it occurs at all.
pub open spec fn first_occurrence(text: Seq<u8>, pat: Seq<u8>) -> Option<int> {
    if exists|i: int| occurs_at(text, pat, i) {
        Some(choose|i: int| is_first_occurrence(text, pat, i))
    } else {
        None
    }
}

/// The end of the longest run of bytes satisfying `class` that begins at `start`.
pub open spec fn run_end(text: Seq<u8>, start: int, class: spec_fn(u8) -> bool) -> int
    decreases text.len() - start,
{
    if 0 <= start < text.len() && class(text[start]) {
        run_end(text, start + 1, class)
    } else {
        start
    }
}

/// The number that a sequence of decimal digits denotes. The empty sequence denotes zero.
pub open spec fn decimal_value(digits: Seq<u8>) -> nat
    decreases digits.len(),
{
    if digits.len() == 0 {
        0
    } else {
        decimal_value(digits.drop_last()) * 10 + (digits.last() - 0x30) as nat
    }
}

/// The unsigned number that starts at `start`: a non-empty run of digits whose
/// value fits in 64 bits. `None` when there is no digit or the value is too large.
pub open spec fn unsigned_at(text: Seq<u8>, start: int) -> Option<u64> {
    let end = run_end(text, start, digits());
    if 0 <= start < end && decimal_value(text.subrange(start, end)) <= u64::MAX {
        Some(decimal_value(text.subrange(start, end)) as u64)
    } else {
        None
    }
}

/// The signed number that starts at `start`: an optional minus sign, then a
/// non-empty run of digits, the whole within the range of `i64`.
pub open spec fn signed_at(text: Seq<u8>, start: int) -> Option<i64> {
    let negative = 0 <= start < text.len() && text[start] == 0x2d;
    let from = if negative { start + 1 } else { start };
    let end = run_end(text, from, digits());
    if !(0 <= from < end) {
        None
    } else if negative {
        if decimal_value(text.subrange(from, end)) <= 0x8000_0000_0000_0000 {
            Some((-decimal_value(text.subrange(from, end))) as i64)
        } else {
            None
        }
    } else {
        if decimal_value(text.subrange(from, end)) <= i64::MAX {
            Some(decimal_value(text.subrange(from, end)) as i64)
        } else {
            None
        }
    }
}

/// The offset at which the value of a labeled field begins: just past the
/// first occurrence of `marker` and any whitespace after it.
pub open spec fn value_start(text: Seq<u8>, marker: Seq<u8>) -> Option<int> {
    match first_occurrence(text, marker) {
        Some(at) => Some(spaces_end(text, at + marker.len())),
        None => None,
    }
}

/// A text has at most one leftmost occurrence of a pattern.
pub proof fn lemma_first_occurrence_is(text: Seq<u8>, pat: Seq<u8>, i: int)
    requires
        is_first_occurrence(text, pat, i),
    ensures
        first_occurrence(text, pat) == Some(i),
{
    let k = choose|k: int| is_first_occurrence(text, pat, k);
    assert(occurs_at(text, pat, i));
    if k < i {
        assert(!occurs_at(text, pat, k));
    } else if i < k {
        assert(!occurs_at(text, pat, i));
    }
}

/// Appending a digit multiplies the value by ten and adds the digit.
pub proof fn lemma_decimal_value_step(text: Seq<u8>, start: int, end: int)
    requires
        0 <= start <= end < text.len(),
    ensures
        decimal_value(text.subrange(start, end + 1)) == decimal_value(text.subrange(start, end))
            * 10 + (text[end] - 0x30) as nat,
{
    let longer = text.subrange(start, end + 1);
    assert(longer.drop_last() =~= text.subrange(start, end));
    assert(longer.last() == text[end]);
}

/// Tells whether a byte is ASCII whitespace.
pub fn byte_is_space(b: u8) -> (r: bool)
    ensures
        r == is_space(b),
{
    b == 0x20 || (0x09 <= b && b <= 0x0d)
}

/// Tells whether a byte is an ASCII decimal digit.
pub fn byte_is_digit(b: u8) -> (r: bool)
    ensures
        r == is_digit(b),
{
    0x30 <= b && b <= 0x39
}

/// Tells whether `pat` stands in `text` at offset `at`.
pub fn matches_at(text: &[u8], pat: &[u8], at: usize) -> (r: bool)
    ensures
        r == occurs_at(text@, pat@, at as int),
{
    if at > text.len() || pat.len() > text.len() - at {
        return false;
    }
    let mut k: usize = 0;
    while k < pat.len()
        invariant
            k <= pat.len(),
            at + pat.len() <= text.len(),
            forall|j: int| 0 <= j < k ==> text@[at + j] == pat@[j],
        decreases pat.len() - k,
    {
        if text[at + k] != pat[k] {
            proof {
                let window = text@.subrange(at as int, at + pat.len());
                assert(window[k as int] == text@[at + k]);
            }
            return false;
        }
        k += 1;
    }
    assert(text@.subrange(at as int, at + pat.len()) =~= pat@);
    true
}

/// Finds the leftmost occurrence of `pat` in `text`.
pub fn find_first(text: &[u8], pat: &[u8]) -> (r: Option<usize>)
    ensures
        match r {
            Some(i) => first_occurrence(text@, pat@) == Some(i as int),
            None => first_occurrence(text@, pat@).is_none(),
        },
{
    if pat.len() > text.len() {
        return None;
    }
    let last: usize = text.len() - pat.len();
    let mut i: usize = 0;
    loop
        invariant
            last == text.len() - pat.len(),
            i <= last,
            forall|j: int| 0 <= j < i ==> !occurs_at(text@, pat@, j),
        decreases last - i,
    {
        if matches_at(text, pat, i) {
            proof {
                lemma_first_occurrence_is(text@, pat@, i as int);
            }
            return Some(i);
        }
        if i == last {
            return None;
        }
        i += 1;
    }
}

/// Tells how many bytes the whitespace character at offset `i` takes, or
/// zero where there is none.
pub fn space_width_at(text: &[u8], i: usize) -> (w: usize)
    ensures
        w == space_width(text@, i as int),
        i + w <= text.len() || w == 0,
{
    let n = text.len();
    if i >= n {
        return 0;
    }
    let b0 = text[i];
    if byte_is_space(b0) {
        return 1;
    }
    if n - i < 2 {
        return 0;
    }
    let b1 = text[i + 1];
    if b0 == 0xc2 && (b1 == 0x85 || b1 == 0xa0) {
        return 2;
    }
    if n - i < 3 {
        return 0;
    }
    let b2 = text[i + 2];
    if (b0 == 0xe1 && b1 == 0x9a && b2 == 0x80) || (b0 == 0xe2 && b1 == 0x80 && ((0x80 <= b2 && b2
        <= 0x8a) || b2 == 0xa8 || b2 == 0xa9 || b2 == 0xaf)) || (b0 == 0xe2 && b1 == 0x81 && b2
        == 0x9f) || (b0 == 0xe3 && b1 == 0x80 && b2 == 0x80) {
        return 3;
    }
    0
}

/// Skips the whitespace that begins at `start` and returns where it ends.
pub fn skip_spaces(text: &[u8], start: usize) -> (end: usize)
    ensures
        end == spaces_end(text@, start as int),
        start <= end,
        start <= text.len() ==> end <= text.len(),
{
    let mut i: usize = start;
    loop
        invariant
            start <= i,
            start <= text.len() ==> i <= text.len(),
            spaces_end(text@, start as int) == spaces_end(text@, i as int),
        ensures
            i == spaces_end(text@, start as int),
        decreases text.len() - i,
    {
        let w = space_width_at(text, i);
        if w == 0 {
            break ;
        }
        i += w;
    }
    i
}

/// Reads the run of digits that begins at `start`. Returns where the run ends
/// and the value of its digits, or `None` for the value when it exceeds
/// `u64::MAX`. An empty run has the value zero; past the end of the text
/// there is only the empty run.
pub fn read_digits(text: &[u8], start: usize) -> (r: (usize, Option<u64>))
    ensures
        r.0 == run_end(text@, start as int, digits()),
        start <= r.0,
        start <= text.len() ==> r.0 <= text.len() && match r.1 {
            Some(v) => v == decimal_value(text@.subrange(start as int, r.0 as int)),
            None => decimal_value(text@.subrange(start as int, r.0 as int)) > u64::MAX,
        },
        start > text.len() ==> r.1 == Some(0u64),
{
    if start > text.len() {
        return (start, Some(0));
    }
    assert(text@.subrange(start as int, start as int) =~= Seq::<u8>::empty());
    let mut i: usize = start;
    let mut value: u64 = 0;
    let mut fits: bool = true;
    while i < text.len() && byte_is_digit(text[i])
        invariant
            start <= i <= text.len(),
            run_end(text@, start as int, digits()) == run_end(text@, i as int, digits()),
            fits ==> value == decimal_value(text@.subrange(start as int, i as int)),
            !fits ==> decimal_value(text@.subrange(start as int, i as int)) > u64::MAX,
        decreases text.len() - i,
    {
        let digit: u64 = (text[i] - 0x30) as u64;
        proof {
            lemma_decimal_value_step(text@, start as int, i as int);
        }
        if fits {
            if value > (u64::MAX - digit) / 10 {
                fits = false;
            } else {
                value = value * 10 + digit;
            }
        }
        i += 1;
    }
    if fits {
        (i, Some(value))
    } else {
        (i, None)
    }
}

/// Reads the unsigned number that begins at `start`.
pub fn read_unsigned(text: &[u8], start: usize) -> (r: Option<u64>)
    ensures
        r == unsigned_at(text@, start as int),
{
    let (end, value) = read_digits(text, start);
    if end == start {
        None
    } else {
        value
    }
}

/// Reads the signed number that begins at `start`.
pub fn read_signed(text: &[u8], start: usize) -> (r: Option<i64>)
    ensures
        r == signed_at(text@, start as int),
{
    let negative = start < text.len() && text[start] == 0x2d;
    let from: usize = if negative { start + 1 } else { start };
    let (end, value) = read_digits(text, from);
    if end == from {
        return None;
    }
    match value {
        None => None,
        Some(magnitude) => {
            if negative {
                if magnitude > 0x8000_0000_0000_0000 {
                    None
                } else if magnitude == 0x8000_0000_0000_0000 {
                    Some(i64::MIN)
                } else {
                    Some(-(magnitude as i64))
                }
            } else {
                if magnitude > 0x7fff_ffff_ffff_ffff {
                    None
                } else {
                    Some(magnitude as i64)
                }
            }
        },
    }
}

/// Finds where the value of the field labeled `marker` begins.
pub fn find_value(text: &[u8], marker: &[u8]) -> (r: Option<usize>)
    ensures
        match r {
            Some(i) => value_start(text@, marker@) == Some(i as int) && i <= text.len(),
            None => value_start(text@, marker@).is_none(),
        },
{
    match find_first(text, marker) {
        None => None,
        Some(at) => {
            proof {
                lemma_first_occurrence_is_occurrence(text@, marker@);
            }
            assert(at + marker@.len() <= text.len());
            Some(skip_spaces(text, at + marker.len()))
        },
    }
}

/// Where a first occurrence is reported, the pattern stands there.
pub proof fn lemma_first_occurrence_is_occurrence(text: Seq<u8>, pat: Seq<u8>)
    ensures
        match first_occurrence(text, pat) {
            Some(i) => is_first_occurrence(text, pat, i),
            None => forall|j: int| !occurs_at(text, pat, j),
        },
{
    if exists|i: int| occurs_at(text, pat, i) {
        let w = choose|i: int| occurs_at(text, pat, i);
        lemma_leftmost_exists(text, pat, w);
    }
}

/// If the pattern occurs at all, it has a leftmost occurrence.
proof fn lemma_leftmost_exists(text: Seq<u8>, pat: Seq<u8>, w: int)
    requires
        occurs_at(text, pat, w),
    ensures
        exists|i: int| is_first_occurrence(text, pat, i),
    decreases w,
{
    if forall|j: int| 0 <= j < w ==> !occurs_at(text, pat, j) {
        assert(is_first_occurrence(text, pat, w));
    } else {
        let j = choose|j: int| 0 <= j < w && occurs_at(text, pat, j);
        lemma_leftmost_exists(text, pat, j);
    }
}

} // verus!
