//! The form of a report, and that the parser reads it back.
//!
//! A report in its plain form has one line for each field: the label, one
//! space, the number in decimal, a line feed. The timings come first, the
//! result last, if there is one. The law of this module says that the parser
//! reads every such report back as the values that it was written from.
use crate::metrics::{
    compute_marker, parse_outcome, result_marker, startup_marker, timing_field, ParseError,
    TimingField,
};
use crate::scan::{
    decimal_value, digits, is_digit, is_first_occurrence, lemma_first_occurrence_is, occurs_at,
    run_end, signed_at, space_width, spaces_end, unsigned_at, value_start,
};
use vstd::prelude::*;
use vstd::string::*;

verus! {

/// A number in decimal, as bytes, without leading zeros.
pub open spec fn decimal_bytes(n: nat) -> Seq<u8>
    decreases n,
{
    if n < 10 {
        seq![(0x30 + n) as u8]
    } else {
        decimal_bytes(n / 10).push((0x30 + n % 10) as u8)
    }
}

/// A signed number in decimal, as bytes: a minus sign where it is negative.
pub open spec fn signed_bytes(v: int) -> Seq<u8> {
    if v < 0 {
        seq![0x2du8] + decimal_bytes((-v) as nat)
    } else {
        decimal_bytes(v as nat)
    }
}

/// One line of a report: the label, a space, the value, a line feed.
pub open spec fn field_line(marker: Seq<u8>, value: Seq<u8>) -> Seq<u8> {
    marker + seq![0x20u8] + value + seq![0x0au8]
}

/// The plain form of a report.
pub open spec fn report_text(startup: u64, compute: u64, result: Option<i64>) -> Seq<u8> {
    field_line(startup_marker(), decimal_bytes(startup as nat)) + field_line(
        compute_marker(),
        decimal_bytes(compute as nat),
    ) + match result {
        Some(v) => field_line(result_marker(), signed_bytes(v as int)),
        None => Seq::<u8>::empty(),
    }
}

/// The decimal form of a number is made of digits, and denotes the number.
pub proof fn lemma_decimal_bytes(n: nat)
    ensures
        decimal_bytes(n).len() >= 1,
        forall|i: int| 0 <= i < decimal_bytes(n).len() ==> is_digit(#[trigger] decimal_bytes(n)[i]),
        decimal_value(decimal_bytes(n)) == n,
    decreases n,
{
    reveal_with_fuel(decimal_value, 2);
    if n < 10 {
        let d = decimal_bytes(n);
        assert(d.drop_last() =~= Seq::<u8>::empty());
    } else {
        lemma_decimal_bytes(n / 10);
        let front = decimal_bytes(n / 10);
        let d = decimal_bytes(n);
        assert(d.drop_last() =~= front);
        assert(d.last() == (0x30 + n % 10) as u8);
    }
}

/// A run that is known to hold from `start` to `end`, and to stop there,
/// ends at `end`.
pub proof fn lemma_run_end_is(text: Seq<u8>, start: int, end: int, class: spec_fn(u8) -> bool)
    requires
        0 <= start <= end <= text.len(),
        forall|i: int| start <= i < end ==> class(#[trigger] text[i]),
        end == text.len() || !class(text[end]),
    ensures
        run_end(text, start, class) == end,
    decreases end - start,
{
    if start < end {
        lemma_run_end_is(text, start + 1, end, class);
    }
}

/// One space with a digit or a minus sign behind it is all the whitespace
/// there is.
proof fn lemma_one_space(text: Seq<u8>, at: int)
    requires
        0 <= at,
        at + 1 < text.len(),
        text[at] == 0x20,
        is_digit(text[at + 1]) || text[at + 1] == 0x2d,
    ensures
        spaces_end(text, at) == at + 1,
{
    reveal_with_fuel(spaces_end, 2);
    assert(space_width(text, at) == 1);
    assert(space_width(text, at + 1) == 0);
}

/// The bytes of the three labels.
pub proof fn lemma_marker_bytes()
    ensures
        startup_marker() =~= seq![
            0x53u8, 0x54, 0x41, 0x52, 0x54, 0x55, 0x50, 0x5f, 0x54, 0x49, 0x4d, 0x45, 0x5f, 0x55,
            0x53, 0x3a,
        ],
        compute_marker() =~= seq![
            0x43u8, 0x4f, 0x4d, 0x50, 0x55, 0x54, 0x45, 0x5f, 0x54, 0x49, 0x4d, 0x45, 0x5f, 0x55,
            0x53, 0x3a,
        ],
        result_marker() =~= seq![0x52u8, 0x45, 0x53, 0x55, 0x4c, 0x54, 0x3a],
{
    reveal_strlit("STARTUP_TIME_US:");
    reveal_strlit("COMPUTE_TIME_US:");
    reveal_strlit("RESULT:");
    assert("STARTUP_TIME_US:".is_ascii());
    assert("COMPUTE_TIME_US:".is_ascii());
    assert("RESULT:".is_ascii());
    is_ascii_spec_bytes("STARTUP_TIME_US:");
    is_ascii_spec_bytes("COMPUTE_TIME_US:");
    is_ascii_spec_bytes("RESULT:");
}

/// No byte of `text` is `b`.
pub open spec fn avoids(text: Seq<u8>, b: u8) -> bool {
    forall|i: int| 0 <= i < text.len() ==> #[trigger] text[i] != b
}

/// A line avoids every byte that its label and its value avoid, but for the
/// space and the line feed.
proof fn lemma_line_avoids(marker: Seq<u8>, value: Seq<u8>, b: u8)
    requires
        avoids(marker, b),
        avoids(value, b),
        b != 0x20,
        b != 0x0a,
    ensures
        avoids(field_line(marker, value), b),
{
    let line = field_line(marker, value);
    assert forall|i: int| 0 <= i < line.len() implies #[trigger] line[i] != b by {
        if i < marker.len() {
            assert(line[i] == marker[i]);
        } else if i == marker.len() {
        } else if i < marker.len() + 1 + value.len() {
            assert(line[i] == value[i - marker.len() - 1]);
        } else {
        }
    }
}

/// The decimal form of a number avoids every byte that is no digit.
proof fn lemma_decimal_avoids(n: nat, b: u8)
    requires
        !is_digit(b),
    ensures
        avoids(decimal_bytes(n), b),
{
    lemma_decimal_bytes(n);
    assert forall|i: int| 0 <= i < decimal_bytes(n).len() implies #[trigger] decimal_bytes(n)[i]
        != b by {
        assert(is_digit(decimal_bytes(n)[i]));
    }
}

/// A label does not stand where the text has another byte than its first.
proof fn lemma_no_occurrence_without_first_byte(text: Seq<u8>, marker: Seq<u8>, j: int)
    requires
        marker.len() > 0,
        0 <= j < text.len() ==> text[j] != marker[0],
    ensures
        !occurs_at(text, marker, j),
{
    if occurs_at(text, marker, j) {
        assert(text.subrange(j, j + marker.len())[0] == marker[0]);
    }
}

/// Nor where the text has another byte than its second behind its first.
proof fn lemma_no_occurrence_without_second_byte(text: Seq<u8>, marker: Seq<u8>, j: int)
    requires
        marker.len() > 1,
        0 <= j && j + 1 < text.len() ==> text[j + 1] != marker[1],
    ensures
        !occurs_at(text, marker, j),
{
    if occurs_at(text, marker, j) {
        assert(text.subrange(j, j + marker.len())[1] == marker[1]);
    }
}

/// Behind a label that stands at `at` and nowhere before it come a space,
/// the decimal form of `n` and a line feed. Then the field has the value `n`.
proof fn lemma_unsigned_line_is_read(text: Seq<u8>, marker: Seq<u8>, at: int, n: nat)
    requires
        is_first_occurrence(text, marker, at),
        at + field_line(marker, decimal_bytes(n)).len() <= text.len(),
        text.subrange(at, at + field_line(marker, decimal_bytes(n)).len()) == field_line(
            marker,
            decimal_bytes(n),
        ),
        n <= u64::MAX,
    ensures
        value_start(text, marker) == Some(at + marker.len() + 1),
        unsigned_at(text, at + marker.len() + 1) == Some(n as u64),
{
    let value = decimal_bytes(n);
    let line = field_line(marker, value);
    let from = at + marker.len() + 1;
    let end = from + value.len();
    lemma_decimal_bytes(n);
    assert forall|i: int| 0 <= i < line.len() implies #[trigger] text[at + i] == line[i] by {
        assert(text.subrange(at, at + line.len())[i] == text[at + i]);
    }
    assert(text[from - 1] == 0x20) by {
        assert(text[at + marker.len()] == line[marker.len() as int]);
    }
    assert(text[end] == 0x0a) by {
        assert(text[at + (end - at)] == line[end - at]);
    }
    assert forall|i: int| from <= i < end implies is_digit(#[trigger] text[i]) by {
        assert(text[at + (i - at)] == line[i - at]);
        assert(line[i - at] == value[i - from]);
    }
    lemma_first_occurrence_is(text, marker, at);
    assert(is_digit(text[from]));
    lemma_one_space(text, from - 1);
    lemma_run_end_is(text, from, end, digits());
    assert(text.subrange(from, end) =~= value) by {
        assert forall|i: int| 0 <= i < value.len() implies text.subrange(from, end)[i]
            == value[i] by {
            assert(text[at + (from - at + i)] == line[from - at + i]);
            assert(line[from - at + i] == value[i]);
        }
    }
}

/// The same for a signed value.
proof fn lemma_signed_line_is_read(text: Seq<u8>, marker: Seq<u8>, at: int, v: i64)
    requires
        is_first_occurrence(text, marker, at),
        at + field_line(marker, signed_bytes(v as int)).len() <= text.len(),
        text.subrange(at, at + field_line(marker, signed_bytes(v as int)).len()) == field_line(
            marker,
            signed_bytes(v as int),
        ),
    ensures
        value_start(text, marker) == Some(at + marker.len() + 1),
        signed_at(text, at + marker.len() + 1) == Some(v),
{
    let value = signed_bytes(v as int);
    let line = field_line(marker, value);
    let from = at + marker.len() + 1;
    let end = from + value.len();
    let magnitude: nat = if v < 0 {
        (-v) as nat
    } else {
        v as nat
    };
    let sign: int = if v < 0 {
        1
    } else {
        0
    };
    let d = decimal_bytes(magnitude);
    lemma_decimal_bytes(magnitude);
    assert(value.len() == d.len() + sign);
    assert forall|i: int| 0 <= i < d.len() implies #[trigger] value[sign + i] == d[i] by {}
    assert forall|i: int| 0 <= i < line.len() implies #[trigger] text[at + i] == line[i] by {
        assert(text.subrange(at, at + line.len())[i] == text[at + i]);
    }
    assert(text[from - 1] == 0x20) by {
        assert(text[at + marker.len()] == line[marker.len() as int]);
    }
    assert(text[end] == 0x0a) by {
        assert(text[at + (end - at)] == line[end - at]);
    }
    assert forall|i: int| 0 <= i < value.len() implies #[trigger] text[from + i] == value[i] by {
        assert(text[at + (from - at + i)] == line[from - at + i]);
        assert(line[from - at + i] == value[i]);
    }
    assert forall|i: int| from + sign <= i < end implies is_digit(#[trigger] text[i]) by {
        assert(text[from + (i - from)] == value[i - from]);
        assert(value[sign + (i - from - sign)] == d[i - from - sign]);
    }
    assert(text[from] == value[0]) by {
        assert(text[from + 0] == value[0]);
    }
    if v < 0 {
        assert(value[0] == 0x2d);
    } else {
        assert(value[sign + 0] == d[0]);
        assert(is_digit(d[0]));
    }
    lemma_first_occurrence_is(text, marker, at);
    lemma_one_space(text, from - 1);
    lemma_run_end_is(text, from + sign, end, digits());
    assert(text.subrange(from + sign, end) =~= d) by {
        assert forall|i: int| 0 <= i < d.len() implies text.subrange(from + sign, end)[i]
            == d[i] by {
            assert(text[from + (sign + i)] == value[sign + i]);
        }
    }
}

/// What the proofs below need to know of the bytes of the three labels.
proof fn lemma_marker_facts()
    ensures
        startup_marker().len() == 16,
        compute_marker().len() == 16,
        result_marker().len() == 7,
        compute_marker()[0] == 0x43,
        result_marker()[0] == 0x52,
        result_marker()[1] == 0x45,
        avoids(startup_marker(), 0x43),
        avoids(compute_marker(), 0x52),
        startup_marker()[4] == 0x54,
        forall|j: int|
            0 <= j < 16 && #[trigger] startup_marker()[j] == 0x52 ==> j == 3,
{
    lemma_marker_bytes();
}

/// A line behind which anything may follow, and before which the label does
/// not stand, gives the field its value.
proof fn lemma_unsigned_line_in_text(
    before: Seq<u8>,
    marker: Seq<u8>,
    n: nat,
    rest: Seq<u8>,
)
    requires
        n <= u64::MAX,
        forall|j: int|
            0 <= j < before.len() ==> !occurs_at(
                before + field_line(marker, decimal_bytes(n)) + rest,
                marker,
                j,
            ),
    ensures
        value_start(before + field_line(marker, decimal_bytes(n)) + rest, marker) == Some(
            (before.len() + marker.len() + 1) as int,
        ),
        unsigned_at(
            before + field_line(marker, decimal_bytes(n)) + rest,
            (before.len() + marker.len() + 1) as int,
        ) == Some(n as u64),
{
    let line = field_line(marker, decimal_bytes(n));
    let text = before + line + rest;
    let at = before.len() as int;
    assert(text.subrange(at, at + line.len()) =~= line);
    assert(text.subrange(at, at + marker.len()) =~= marker);
    lemma_unsigned_line_is_read(text, marker, at, n);
}

/// The same for a signed value.
proof fn lemma_signed_line_in_text(before: Seq<u8>, marker: Seq<u8>, v: i64, rest: Seq<u8>)
    requires
        forall|j: int|
            0 <= j < before.len() ==> !occurs_at(
                before + field_line(marker, signed_bytes(v as int)) + rest,
                marker,
                j,
            ),
    ensures
        value_start(before + field_line(marker, signed_bytes(v as int)) + rest, marker) == Some(
            (before.len() + marker.len() + 1) as int,
        ),
        signed_at(
            before + field_line(marker, signed_bytes(v as int)) + rest,
            (before.len() + marker.len() + 1) as int,
        ) == Some(v),
{
    let line = field_line(marker, signed_bytes(v as int));
    let text = before + line + rest;
    let at = before.len() as int;
    assert(text.subrange(at, at + line.len()) =~= line);
    assert(text.subrange(at, at + marker.len()) =~= marker);
    lemma_signed_line_is_read(text, marker, at, v);
}

/// The line of the startup timing.
pub open spec fn startup_line(startup: u64) -> Seq<u8> {
    field_line(startup_marker(), decimal_bytes(startup as nat))
}

/// The line of the compute timing.
pub open spec fn compute_line(compute: u64) -> Seq<u8> {
    field_line(compute_marker(), decimal_bytes(compute as nat))
}

/// The label of the compute timing does not stand in the line of the
/// startup timing, whatever follows that line.
proof fn lemma_no_compute_in_startup_line(startup: u64, rest: Seq<u8>, j: int)
    requires
        0 <= j < startup_line(startup).len(),
    ensures
        !occurs_at(startup_line(startup) + rest, compute_marker(), j),
{
    let line = startup_line(startup);
    lemma_marker_facts();
    lemma_decimal_avoids(startup as nat, 0x43);
    lemma_line_avoids(startup_marker(), decimal_bytes(startup as nat), 0x43);
    assert((line + rest)[j] == line[j]);
    lemma_no_occurrence_without_first_byte(line + rest, compute_marker(), j);
}

/// The label of the result does not stand in the line of the startup
/// timing, whatever follows that line.
proof fn lemma_no_result_in_startup_line(startup: u64, rest: Seq<u8>, j: int)
    requires
        0 <= j < startup_line(startup).len(),
    ensures
        !occurs_at(startup_line(startup) + rest, result_marker(), j),
{
    let sm = startup_marker();
    let value = decimal_bytes(startup as nat);
    let line = startup_line(startup);
    let text = line + rest;
    lemma_marker_facts();
    lemma_decimal_bytes(startup as nat);
    assert(text[j] == line[j]);
    if j == 3 {
        // The `R` of the startup label has a `T` behind it.
        assert(text[4] == line[4]);
        assert(line[4] == sm[4]);
        lemma_no_occurrence_without_second_byte(text, result_marker(), j);
    } else {
        if j < 16 {
            assert(line[j] == sm[j]);
        } else if j == 16 {
        } else if j < 17 + value.len() {
            assert(line[j] == value[j - 17]);
            assert(is_digit(value[j - 17]));
        } else {
        }
        lemma_no_occurrence_without_first_byte(text, result_marker(), j);
    }
}

/// The label of the result does not stand in the line of the compute
/// timing, whatever stands around that line.
proof fn lemma_no_result_in_compute_line(before: Seq<u8>, compute: u64, rest: Seq<u8>, j: int)
    requires
        before.len() <= j < before.len() + compute_line(compute).len(),
    ensures
        !occurs_at(before + compute_line(compute) + rest, result_marker(), j),
{
    let line = compute_line(compute);
    let text = before + line + rest;
    lemma_marker_facts();
    lemma_decimal_avoids(compute as nat, 0x52);
    lemma_line_avoids(compute_marker(), decimal_bytes(compute as nat), 0x52);
    assert(text[j] == line[j - before.len()]);
    lemma_no_occurrence_without_first_byte(text, result_marker(), j);
}

/// Whatever follows the two lines of the timings, the startup timing is
/// read from the first.
proof fn lemma_startup_is_read_back(startup: u64, rest: Seq<u8>)
    ensures
        timing_field(startup_line(startup) + rest, TimingField::Startup) == Ok::<u64, ParseError>(
            startup,
        ),
{
    let before = Seq::<u8>::empty();
    assert(before + startup_line(startup) + rest =~= startup_line(startup) + rest);
    lemma_unsigned_line_in_text(before, startup_marker(), startup as nat, rest);
}

/// Whatever follows the two lines of the timings, the compute timing is
/// read from the second.
proof fn lemma_compute_is_read_back(startup: u64, compute: u64, rest: Seq<u8>)
    ensures
        timing_field(
            startup_line(startup) + compute_line(compute) + rest,
            TimingField::Compute,
        ) == Ok::<u64, ParseError>(compute),
{
    let before = startup_line(startup);
    let text = before + compute_line(compute) + rest;
    assert forall|j: int| 0 <= j < before.len() implies !occurs_at(text, compute_marker(), j) by {
        assert(text =~= before + (compute_line(compute) + rest));
        lemma_no_compute_in_startup_line(startup, compute_line(compute) + rest, j);
    }
    lemma_unsigned_line_in_text(before, compute_marker(), compute as nat, rest);
}

/// The label of the result stands nowhere in the two lines of the timings,
/// whatever follows them.
proof fn lemma_no_result_in_timings(startup: u64, compute: u64, rest: Seq<u8>, j: int)
    requires
        0 <= j < startup_line(startup).len() + compute_line(compute).len(),
    ensures
        !occurs_at(startup_line(startup) + compute_line(compute) + rest, result_marker(), j),
{
    let before = startup_line(startup);
    let text = before + compute_line(compute) + rest;
    if j < before.len() {
        assert(text =~= before + (compute_line(compute) + rest));
        lemma_no_result_in_startup_line(startup, compute_line(compute) + rest, j);
    } else {
        lemma_no_result_in_compute_line(before, compute, rest, j);
    }
}

/// A report without a result is read back as the values that it was written
/// from.
proof fn lemma_report_without_result(startup: u64, compute: u64)
    ensures
        parse_outcome(report_text(startup, compute, None)) == Ok::<_, ParseError>(
            (startup, compute, None::<i64>),
        ),
{
    let rest = Seq::<u8>::empty();
    let text = report_text(startup, compute, None);
    let lines = startup_line(startup) + compute_line(compute);
    assert(text =~= lines + rest);
    assert(text =~= startup_line(startup) + (compute_line(compute) + rest));
    lemma_startup_is_read_back(startup, compute_line(compute) + rest);
    lemma_compute_is_read_back(startup, compute, rest);
    assert forall|j: int| !occurs_at(text, result_marker(), j) by {
        lemma_marker_facts();
        if 0 <= j < lines.len() {
            lemma_no_result_in_timings(startup, compute, rest, j);
        }
    }
}

/// A report with a result is read back as the values that it was written
/// from.
proof fn lemma_report_with_result(startup: u64, compute: u64, v: i64)
    ensures
        parse_outcome(report_text(startup, compute, Some(v))) == Ok::<_, ParseError>(
            (startup, compute, Some(v)),
        ),
{
    let rm = result_marker();
    let rest = field_line(rm, signed_bytes(v as int));
    let text = report_text(startup, compute, Some(v));
    let lines = startup_line(startup) + compute_line(compute);
    assert(text =~= lines + rest);
    assert(text =~= startup_line(startup) + (compute_line(compute) + rest));
    lemma_startup_is_read_back(startup, compute_line(compute) + rest);
    lemma_compute_is_read_back(startup, compute, rest);
    let after = Seq::<u8>::empty();
    assert(text =~= lines + rest + after);
    assert forall|j: int| 0 <= j < lines.len() implies !occurs_at(lines + rest + after, rm, j) by {
        lemma_no_result_in_timings(startup, compute, rest, j);
    }
    lemma_signed_line_in_text(lines, rm, v, after);
}

/// Every report in the plain form is read back as the values that it was
/// written from.
pub proof fn lemma_report_is_read_back(startup: u64, compute: u64, result: Option<i64>)
    ensures
        parse_outcome(report_text(startup, compute, result)) == Ok::<_, ParseError>(
            (startup, compute, result),
        ),
{
    match result {
        None => lemma_report_without_result(startup, compute),
        Some(v) => lemma_report_with_result(startup, compute, v),
    }
}

} // verus!
