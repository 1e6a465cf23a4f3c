//! Measurement records and the parser that reads them from a program's output.
//!
//! A benchmarked program prints three labeled lines somewhere in its output:
//!
//! ```text
//! STARTUP_TIME_US: 8234
//! COMPUTE_TIME_US: 23891
//! RESULT: 9227465
//! ```
//!
//! The two timings are required; the result is optional. Each label is looked
//! up on its own, at its leftmost occurrence, so the lines may come in any
//! order and between any other text.
use crate::scan::{find_value, read_signed, read_unsigned, signed_at, unsigned_at, value_start};
use vstd::prelude::*;
use vstd::string::*;

verus! {

/// One of the two timings that every report must carry.
#[derive(Clone, Copy, Debug, PartialEq, Eq, Structural)]
pub enum TimingField {
    Startup,
    Compute,
}

/// Why a report could not be read.
#[derive(Clone, Copy, Debug, PartialEq, Eq, Structural)]
pub enum ParseError {
    /// The label of a required timing occurs nowhere in the text.
    MissingField(TimingField),
    /// The label of a required timing is there, but what follows it is not a
    /// number that fits in 64 bits.
    InvalidNumber(TimingField),
}

/// The outcome of one execution of one implementation of a benchmark.
#[derive(Clone, Debug, PartialEq, Eq)]
pub struct BenchmarkResult {
    /// Benchmark name, an opaque label.
    pub benchmark_name: String,
    /// Implementation identifier, an opaque label.
    pub language: String,
    /// Time from process start to readiness, in microseconds.
    pub startup_time_us: u64,
    /// Time spent in the measured computation, in microseconds.
    pub compute_time_us: u64,
    /// Startup plus compute, clamped to `u64::MAX`.
    pub total_time_us: u64,
    /// What the program computed, when it printed a well-formed integer.
    pub result_value: Option<i64>,
}

/// The mathematical content of a [`BenchmarkResult`].
pub ghost struct Measurement {
    pub benchmark_name: Seq<char>,
    pub language: Seq<char>,
    pub startup_time_us: u64,
    pub compute_time_us: u64,
    pub total_time_us: u64,
    pub result_value: Option<i64>,
}

impl View for BenchmarkResult {
    type V = Measurement;

    open spec fn view(&self) -> Measurement {
        Measurement {
            benchmark_name: self.benchmark_name@,
            language: self.language@,
            startup_time_us: self.startup_time_us,
            compute_time_us: self.compute_time_us,
            total_time_us: self.total_time_us,
            result_value: self.result_value,
        }
    }
}

impl BenchmarkResult {
    /// The total is the saturating sum of the two timings. The parser
    /// establishes this; a record built by hand has it if its author saw to it.
    pub open spec fn well_formed(&self) -> bool {
        self.total_time_us == saturating_sum(self.startup_time_us, self.compute_time_us)
    }

    /// In a well-formed record the total is no less than either timing.
    pub proof fn lemma_total_bounds(&self)
        requires
            self.well_formed(),
        ensures
            self.total_time_us >= self.startup_time_us,
            self.total_time_us >= self.compute_time_us,
    {
    }

    /// A copy of the record, field for field.
    pub fn duplicate(&self) -> (copy: BenchmarkResult)
        ensures
            copy == *self,
    {
        BenchmarkResult {
            benchmark_name: self.benchmark_name.clone(),
            language: self.language.clone(),
            startup_time_us: self.startup_time_us,
            compute_time_us: self.compute_time_us,
            total_time_us: self.total_time_us,
            result_value: self.result_value,
        }
    }
}

/// The sum of two durations, clamped to the largest representable value.
pub open spec fn saturating_sum(a: u64, b: u64) -> u64 {
    if a + b > u64::MAX {
        u64::MAX
    } else {
        (a + b) as u64
    }
}

/// The label of the startup timing, as bytes.
pub open spec fn startup_marker() -> Seq<u8> {
    "STARTUP_TIME_US:".spec_bytes()
}

/// The label of the compute timing, as bytes.
pub open spec fn compute_marker() -> Seq<u8> {
    "COMPUTE_TIME_US:".spec_bytes()
}

/// The label of the result, as bytes.
pub open spec fn result_marker() -> Seq<u8> {
    "RESULT:".spec_bytes()
}

impl TimingField {
    /// The label that introduces this timing in a report.
    pub open spec fn marker(self) -> Seq<u8> {
        match self {
            TimingField::Startup => startup_marker(),
            TimingField::Compute => compute_marker(),
        }
    }

    /// The label of this timing without its colon.
    pub fn name(&self) -> (r: &'static str)
        ensures
            r@ == match *self {
                TimingField::Startup => "STARTUP_TIME_US"@,
                TimingField::Compute => "COMPUTE_TIME_US"@,
            },
    {
        match self {
            TimingField::Startup => "STARTUP_TIME_US",
            TimingField::Compute => "COMPUTE_TIME_US",
        }
    }
}

impl ParseError {
    /// The timing that the error is about.
    pub open spec fn spec_field(self) -> TimingField {
        match self {
            ParseError::MissingField(f) => f,
            ParseError::InvalidNumber(f) => f,
        }
    }

    /// The timing that the error is about.
    #[verifier::when_used_as_spec(spec_field)]
    pub fn field(self) -> (f: TimingField)
        ensures
            f == self.spec_field(),
    {
        match self {
            ParseError::MissingField(f) => f,
            ParseError::InvalidNumber(f) => f,
        }
    }

    /// A sentence for the error, which names the field. Both kinds of error
    /// read alike: the field is missing or invalid.
    pub fn message(&self) -> (r: String)
        ensures
            r@ == "Missing or invalid "@ + match self.spec_field() {
                TimingField::Startup => "STARTUP_TIME_US"@,
                TimingField::Compute => "COMPUTE_TIME_US"@,
            } + " field"@,
    {
        let field = self.field();
        let mut r = String::from_str("Missing or invalid ");
        r.append(field.name());
        r.append(" field");
        r
    }
}

/// What a text says about a required timing: its value, or why it has none.
pub open spec fn timing_field(text: Seq<u8>, field: TimingField) -> Result<u64, ParseError> {
    match value_start(text, field.marker()) {
        None => Err(ParseError::MissingField(field)),
        Some(at) => match unsigned_at(text, at) {
            Some(v) => Ok(v),
            None => Err(ParseError::InvalidNumber(field)),
        },
    }
}

/// What a text says about the result: a value only where the label is there
/// and a well-formed signed integer follows it.
pub open spec fn result_field(text: Seq<u8>) -> Option<i64> {
    match value_start(text, result_marker()) {
        None => None,
        Some(at) => signed_at(text, at),
    }
}

/// What a text yields as a whole. The startup timing is examined first: when
/// both timings are at fault, the error names the startup timing.
pub open spec fn parse_outcome(text: Seq<u8>) -> Result<(u64, u64, Option<i64>), ParseError> {
    match timing_field(text, TimingField::Startup) {
        Err(e) => Err(e),
        Ok(startup) => match timing_field(text, TimingField::Compute) {
            Err(e) => Err(e),
            Ok(compute) => Ok((startup, compute, result_field(text))),
        },
    }
}

/// Adds two durations without wrapping: a sum beyond the range is `u64::MAX`.
pub fn total_duration(startup: u64, compute: u64) -> (total: u64)
    ensures
        total == saturating_sum(startup, compute),
{
    if startup > u64::MAX - compute {
        u64::MAX
    } else {
        startup + compute
    }
}

/// Reads one required timing from the text.
pub fn read_timing(text: &[u8], field: TimingField) -> (r: Result<u64, ParseError>)
    ensures
        r == timing_field(text@, field),
{
    let marker = match field {
        TimingField::Startup => "STARTUP_TIME_US:".as_bytes(),
        TimingField::Compute => "COMPUTE_TIME_US:".as_bytes(),
    };
    match find_value(text, marker) {
        None => Err(ParseError::MissingField(field)),
        Some(at) => match read_unsigned(text, at) {
            Some(v) => Ok(v),
            None => Err(ParseError::InvalidNumber(field)),
        },
    }
}

/// Reads the optional result from the text.
pub fn read_result(text: &[u8]) -> (r: Option<i64>)
    ensures
        r == result_field(text@),
{
    match find_value(text, "RESULT:".as_bytes()) {
        None => None,
        Some(at) => read_signed(text, at),
    }
}

/// Reads the report that a benchmarked program printed.
///
/// Succeeds exactly when both timings are present and well-formed. The two
/// labels are passed through as they are. The total is the saturating sum of
/// the two timings. A missing or malformed result is no error: the record
/// then carries no result.
pub fn parse_benchmark_output(output: &str, benchmark_name: &str, language: &str) -> (r: Result<
    BenchmarkResult,
    ParseError,
>)
    ensures
        match r {
            Ok(record) => {
                &&& parse_outcome(output.spec_bytes()) == Ok::<_, ParseError>(
                    (record.startup_time_us, record.compute_time_us, record.result_value),
                )
                &&& record.well_formed()
                &&& record.benchmark_name@ == benchmark_name@
                &&& record.language@ == language@
            },
            Err(e) => parse_outcome(output.spec_bytes()) == Err::<(u64, u64, Option<i64>), _>(e),
        },
{
    let text = output.as_bytes();
    let startup_time_us = match read_timing(text, TimingField::Startup) {
        Ok(v) => v,
        Err(e) => {
            return Err(e);
        },
    };
    let compute_time_us = match read_timing(text, TimingField::Compute) {
        Ok(v) => v,
        Err(e) => {
            return Err(e);
        },
    };
    let result_value = read_result(text);
    Ok(
        BenchmarkResult {
            benchmark_name: String::from_str(benchmark_name),
            language: String::from_str(language),
            startup_time_us,
            compute_time_us,
            total_time_us: total_duration(startup_time_us, compute_time_us),
            result_value,
        },
    )
}

} // verus!
