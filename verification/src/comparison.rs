//! Comparing the implementations of one benchmark against a baseline.
//!
//! The speedup of an implementation is the baseline's total duration divided
//! by its own. It is kept as the exact ratio of the two durations: nothing is
//! lost to rounding, and whether a factor is one can be told exactly.
use crate::metrics::{BenchmarkResult, Measurement};
use crate::reporter::{
    comparison_markdown, render_comparison, row_texts, ComparisonRow, MetricsSummary, RecordTexts,
    RowText,
};
use vstd::prelude::*;
use vstd::string::*;

verus! {

/// A speedup factor: `baseline_time_us / language_time_us`, unreduced.
#[derive(Clone, Copy, Debug, PartialEq, Eq, Structural)]
pub struct Speedup {
    /// Total duration of the baseline, the numerator.
    pub baseline_time_us: u64,
    /// Total duration of the implementation, the denominator.
    pub language_time_us: u64,
}

impl Speedup {
    /// The factor is exactly one: equal durations, and not zero over zero.
    pub open spec fn is_one(self) -> bool {
        self.baseline_time_us == self.language_time_us && self.language_time_us > 0
    }

    /// The factor is a positive number: neither duration is zero.
    pub open spec fn is_defined(self) -> bool {
        self.baseline_time_us > 0 && self.language_time_us > 0
    }

    /// Tells whether the factor is a positive number.
    pub fn is_positive(&self) -> (r: bool)
        ensures
            r == self.is_defined(),
    {
        self.baseline_time_us > 0 && self.language_time_us > 0
    }

    /// Tells whether the factor is exactly one.
    pub fn is_unity(&self) -> (r: bool)
        ensures
            r == self.is_one(),
    {
        self.baseline_time_us == self.language_time_us && self.language_time_us > 0
    }
}

/// The speedup of one implementation.
#[derive(Clone, Debug, PartialEq, Eq)]
pub struct SpeedupEntry {
    pub language: String,
    pub speedup: Speedup,
}

/// Why a comparison could not be built.
#[derive(Clone, Debug, PartialEq, Eq)]
pub enum ComparisonError {
    /// There is no record to compare.
    EmptyInput,
    /// No record is of the baseline implementation, which the error names.
    BaselineNotFound(String),
}

impl ComparisonError {
    /// A sentence for the error. A missing baseline is named in quotes.
    pub fn message(&self) -> (r: String)
        ensures
            r@ == match *self {
                ComparisonError::EmptyInput => "Cannot create comparison from empty results"@,
                ComparisonError::BaselineNotFound(name) => "Baseline language '"@ + name@
                    + "' not found"@,
            },
    {
        match self {
            ComparisonError::EmptyInput => String::from_str(
                "Cannot create comparison from empty results",
            ),
            ComparisonError::BaselineNotFound(name) => {
                let mut r = String::from_str("Baseline language '");
                r.append(name.as_str());
                r.append("' not found");
                r
            },
        }
    }
}

/// Some record is of the implementation `language`.
pub open spec fn has_language(records: Seq<Measurement>, language: Seq<char>) -> bool {
    exists|k: int| 0 <= k < records.len() && (#[trigger] records[k]).language == language
}

/// Record `k` is the first of the implementation `language`.
pub open spec fn is_first_of(records: Seq<Measurement>, language: Seq<char>, k: int) -> bool {
    &&& 0 <= k < records.len()
    &&& records[k].language == language
    &&& forall|j: int| 0 <= j < k ==> (#[trigger] records[j]).language != language
}

/// Record `k` is the last of the implementation `language`.
pub open spec fn is_last_of(records: Seq<Measurement>, language: Seq<char>, k: int) -> bool {
    &&& 0 <= k < records.len()
    &&& records[k].language == language
    &&& forall|j: int| k < j < records.len() ==> (#[trigger] records[j]).language != language
}

/// The position of the first record of `language`.
pub open spec fn first_of(records: Seq<Measurement>, language: Seq<char>) -> int {
    choose|k: int| is_first_of(records, language, k)
}

/// The position of the last record of `language`.
pub open spec fn last_of(records: Seq<Measurement>, language: Seq<char>) -> int {
    choose|k: int| is_last_of(records, language, k)
}

/// The record whose duration counts for `language`: for the baseline its
/// first record, for every other implementation its last.
pub open spec fn counted_record(
    records: Seq<Measurement>,
    baseline: Seq<char>,
    language: Seq<char>,
) -> int {
    if language == baseline {
        first_of(records, baseline)
    } else {
        last_of(records, language)
    }
}

/// The speedups of a list of records against `baseline`.
///
/// There is one factor for each implementation that has a record. The
/// baseline's duration is that of its first record, for the numerator of
/// every factor and for the denominator of its own. Where another
/// implementation has several records, its last one counts.
pub open spec fn speedups_of(records: Seq<Measurement>, baseline: Seq<char>) -> Map<
    Seq<char>,
    Speedup,
> {
    Map::new(
        |language: Seq<char>| has_language(records, language),
        |language: Seq<char>|
            Speedup {
                baseline_time_us: records[first_of(records, baseline)].total_time_us,
                language_time_us: records[counted_record(
                    records,
                    baseline,
                    language,
                )].total_time_us,
            },
    )
}

/// The views of a list of records.
pub open spec fn measurements(records: Seq<BenchmarkResult>) -> Seq<Measurement> {
    records.map_values(|r: BenchmarkResult| r@)
}

/// The mathematical content of a [`ComparisonReport`].
pub ghost struct Comparison {
    pub benchmark_name: Seq<char>,
    pub baseline_language: Seq<char>,
    pub speedups: Map<Seq<char>, Speedup>,
    pub results: Seq<Measurement>,
}

/// What comparing `records` against `baseline` yields, where it yields anything.
pub open spec fn comparison_of(records: Seq<Measurement>, baseline: Seq<char>) -> Comparison
    recommends
        has_language(records, baseline),
{
    Comparison {
        benchmark_name: records[0].benchmark_name,
        baseline_language: baseline,
        speedups: speedups_of(records, baseline),
        results: records,
    }
}

/// A language has at most one first record.
pub proof fn lemma_first_of(records: Seq<Measurement>, language: Seq<char>, k: int)
    requires
        is_first_of(records, language, k),
    ensures
        first_of(records, language) == k,
{
    let c = first_of(records, language);
    assert(is_first_of(records, language, c));
    if c < k {
        assert(records[c].language != language);
    } else if k < c {
        assert(records[k].language != language);
    }
}

/// A language has at most one last record.
pub proof fn lemma_last_of(records: Seq<Measurement>, language: Seq<char>, k: int)
    requires
        is_last_of(records, language, k),
    ensures
        last_of(records, language) == k,
{
    let c = last_of(records, language);
    assert(is_last_of(records, language, c));
    if c < k {
        assert(records[k].language != language);
    } else if k < c {
        assert(records[c].language != language);
    }
}

/// The baseline's own speedup is exactly one, wherever the baseline has a
/// record and its duration is not zero. (Zero over zero is no number.)
pub proof fn lemma_baseline_speedup_is_one(records: Seq<Measurement>, baseline: Seq<char>)
    requires
        has_language(records, baseline),
        records[first_of(records, baseline)].total_time_us > 0,
    ensures
        speedups_of(records, baseline).contains_key(baseline),
        speedups_of(records, baseline)[baseline].is_one(),
{
}

/// The baseline's own speedup always has one duration above and below.
pub proof fn lemma_baseline_speedup_is_of_one_duration(
    records: Seq<Measurement>,
    baseline: Seq<char>,
)
    requires
        has_language(records, baseline),
    ensures
        speedups_of(records, baseline).contains_key(baseline),
        speedups_of(records, baseline)[baseline].baseline_time_us == speedups_of(
            records,
            baseline,
        )[baseline].language_time_us,
{
}

/// The implementations that have a speedup are those that have a record.
pub proof fn lemma_speedup_keys(records: Seq<Measurement>, baseline: Seq<char>)
    ensures
        forall|language: Seq<char>|
            speedups_of(records, baseline).contains_key(language) <==> has_language(
                records,
                language,
            ),
        forall|k: int|
            0 <= k < records.len() ==> speedups_of(records, baseline).contains_key(
                (#[trigger] records[k]).language,
            ),
{
}

/// The rows of a comparison table: one for each record, with the record's
/// implementation and duration and the numbers that `texts` holds for it.
pub open spec fn report_rows(records: Seq<Measurement>, texts: Seq<RecordTexts>) -> Seq<RowText> {
    Seq::new(
        records.len(),
        |i: int|
            RowText {
                language: records[i].language,
                total_time_us: records[i].total_time_us,
                total_ms: texts[i].total_ms@,
                speedup: texts[i].speedup@,
                image_size_mb: texts[i].image_size_mb@,
            },
    )
}

/// The speedups that a list of entries holds. Where a language occurs twice,
/// the later entry counts.
pub open spec fn entries_map(entries: Seq<SpeedupEntry>) -> Map<Seq<char>, Speedup>
    decreases entries.len(),
{
    if entries.len() == 0 {
        Map::empty()
    } else {
        entries_map(entries.drop_last()).insert(entries.last().language@, entries.last().speedup)
    }
}

/// No two entries are of one language.
pub open spec fn distinct_languages(entries: Seq<SpeedupEntry>) -> bool {
    forall|i: int, j: int|
        0 <= i < j < entries.len() ==> (#[trigger] entries[i]).language@ != (
        #[trigger] entries[j]).language@
}

/// Entry `i` is the last of the language `language`.
pub open spec fn is_last_entry(entries: Seq<SpeedupEntry>, language: Seq<char>, i: int) -> bool {
    &&& 0 <= i < entries.len()
    &&& entries[i].language@ == language
    &&& forall|j: int| i < j < entries.len() ==> (#[trigger] entries[j]).language@ != language
}

/// Some entry is of the language `language`.
pub open spec fn has_entry(entries: Seq<SpeedupEntry>, language: Seq<char>) -> bool {
    exists|e: int| 0 <= e < entries.len() && (#[trigger] entries[e]).language@ == language
}

/// The entry is of a language that has a record, and says what the records
/// say of it against `baseline`, whose duration is `baseline_time_us`.
pub open spec fn entry_is_from(
    records: Seq<Measurement>,
    baseline: Seq<char>,
    baseline_time_us: u64,
    entry: SpeedupEntry,
) -> bool {
    &&& has_language(records, entry.language@)
    &&& entry.speedup.baseline_time_us == baseline_time_us
    &&& entry.speedup.language_time_us == if entry.language@ == baseline {
        baseline_time_us
    } else {
        records[last_of(records, entry.language@)].total_time_us
    }
}

/// What a list of entries holds for a language is what its last entry of
/// that language says, and it holds nothing for a language without an entry.
pub proof fn lemma_entries_map(entries: Seq<SpeedupEntry>, language: Seq<char>)
    ensures
        entries_map(entries).contains_key(language) <==> exists|i: int|
            0 <= i < entries.len() && (#[trigger] entries[i]).language@ == language,
        forall|i: int|
            is_last_entry(entries, language, i) ==> entries_map(entries)[language]
                == entries[i].speedup,
    decreases entries.len(),
{
    if entries.len() > 0 {
        let front = entries.drop_last();
        lemma_entries_map(front, language);
        if entries.last().language@ == language {
            assert(entries[entries.len() - 1].language@ == language);
        } else {
            if entries_map(entries).contains_key(language) {
                let i = choose|i: int|
                    0 <= i < front.len() && (#[trigger] front[i]).language@ == language;
                assert(entries[i].language@ == language);
            }
            if exists|i: int|
                0 <= i < entries.len() && (#[trigger] entries[i]).language@ == language {
                let i = choose|i: int|
                    0 <= i < entries.len() && (#[trigger] entries[i]).language@ == language;
                assert(front[i].language@ == language);
            }
            assert forall|i: int| is_last_entry(entries, language, i) implies entries_map(
                entries,
            )[language] == entries[i].speedup by {
                assert(is_last_entry(front, language, i)) by {
                    assert forall|j: int| i < j < front.len() implies (
                    #[trigger] front[j]).language@ != language by {
                        assert(entries[j].language@ != language);
                    }
                }
            }
        }
    }
}

/// The comparison of the implementations of one benchmark against a baseline.
///
/// It holds one speedup for each implementation, the records it was built
/// from, and the names of the benchmark and of the baseline.
#[derive(Debug)]
pub struct ComparisonReport {
    benchmark_name: String,
    baseline_language: String,
    speedups: Vec<SpeedupEntry>,
    results: Vec<BenchmarkResult>,
}

impl View for ComparisonReport {
    type V = Comparison;

    closed spec fn view(&self) -> Comparison {
        Comparison {
            benchmark_name: self.benchmark_name@,
            baseline_language: self.baseline_language@,
            speedups: entries_map(self.speedups@),
            results: measurements(self.results@),
        }
    }
}

/// Tells whether two texts are equal.
fn same_text(a: &String, b: &String) -> (r: bool)
    ensures
        r == (a@ == b@),
{
    *a == *b
}

/// Copies a list of records.
fn copy_records(results: &[BenchmarkResult]) -> (copies: Vec<BenchmarkResult>)
    ensures
        copies@ == results@,
{
    let mut copies: Vec<BenchmarkResult> = Vec::new();
    let mut c: usize = 0;
    while c < results.len()
        invariant
            c <= results.len(),
            copies@ == results@.take(c as int),
        decreases results.len() - c,
    {
        copies.push(results[c].duplicate());
        assert(copies@ =~= results@.take(c + 1));
        c += 1;
    }
    assert(copies@ =~= results@);
    copies
}

/// Copies a list of entries.
fn copy_entries(entries: &Vec<SpeedupEntry>) -> (copies: Vec<SpeedupEntry>)
    ensures
        copies@ == entries@,
{
    let mut copies: Vec<SpeedupEntry> = Vec::new();
    let mut c: usize = 0;
    while c < entries.len()
        invariant
            c <= entries.len(),
            copies@ == entries@.take(c as int),
        decreases entries.len() - c,
    {
        let entry = &entries[c];
        copies.push(SpeedupEntry { language: entry.language.clone(), speedup: entry.speedup });
        assert(copies@ =~= entries@.take(c + 1));
        c += 1;
    }
    assert(copies@ =~= entries@);
    copies
}

impl Clone for ComparisonReport {
    /// A copy of the report, field for field.
    fn clone(&self) -> (copy: Self)
        ensures
            copy@ == self@,
    {
        proof {
            use_type_invariant(self);
        }
        ComparisonReport {
            benchmark_name: self.benchmark_name.clone(),
            baseline_language: self.baseline_language.clone(),
            speedups: copy_entries(&self.speedups),
            results: copy_records(self.results.as_slice()),
        }
    }
}

/// Finds the first record of the implementation `language`.
fn first_record_of(results: &[BenchmarkResult], language: &String) -> (r: Option<usize>)
    ensures
        match r {
            Some(k) => is_first_of(measurements(results@), language@, k as int),
            None => !has_language(measurements(results@), language@),
        },
{
    let mut k: usize = 0;
    while k < results.len()
        invariant
            k <= results.len(),
            forall|j: int|
                0 <= j < k ==> (#[trigger] measurements(results@)[j]).language != language@,
        decreases results.len() - k,
    {
        if same_text(&results[k].language, language) {
            return Some(k);
        }
        k += 1;
    }
    None
}

/// Finds the last entry of the language `language`.
fn last_entry_of(entries: &Vec<SpeedupEntry>, language: &String) -> (r: Option<usize>)
    ensures
        match r {
            Some(i) => is_last_entry(entries@, language@, i as int),
            None => forall|j: int|
                0 <= j < entries.len() ==> (#[trigger] entries@[j]).language@ != language@,
        },
{
    let mut i: usize = entries.len();
    while i > 0
        invariant
            i <= entries.len(),
            forall|j: int|
                i <= j < entries.len() ==> (#[trigger] entries@[j]).language@ != language@,
        decreases i,
    {
        i -= 1;
        if same_text(&entries[i].language, language) {
            return Some(i);
        }
    }
    None
}

impl ComparisonReport {
    #[verifier::type_invariant]
    spec fn well_formed(self) -> bool {
        &&& distinct_languages(self.speedups@)
        &&& has_language(measurements(self.results@), self.baseline_language@)
        &&& entries_map(self.speedups@) == speedups_of(
            measurements(self.results@),
            self.baseline_language@,
        )
    }

    /// Builds the comparison of `results` against the implementation
    /// `baseline_language`.
    ///
    /// Fails on an empty list, and on a list without a record of the
    /// baseline. The benchmark's name is that of the first record; that the
    /// other records are of the same benchmark is up to the caller.
    pub fn from_results(results: &[BenchmarkResult], baseline_language: &str) -> (r: Result<
        ComparisonReport,
        ComparisonError,
    >)
        ensures
            match r {
                Ok(report) => {
                    &&& results@.len() > 0
                    &&& has_language(measurements(results@), baseline_language@)
                    &&& report@ == comparison_of(measurements(results@), baseline_language@)
                },
                Err(ComparisonError::EmptyInput) => results@.len() == 0,
                Err(ComparisonError::BaselineNotFound(name)) => {
                    &&& results@.len() > 0
                    &&& !has_language(measurements(results@), baseline_language@)
                    &&& name@ == baseline_language@
                },
            },
    {
        if results.len() == 0 {
            return Err(ComparisonError::EmptyInput);
        }
        let baseline = String::from_str(baseline_language);
        let found = match first_record_of(results, &baseline) {
            Some(k) => k,
            None => {
                return Err(ComparisonError::BaselineNotFound(baseline));
            },
        };
        let baseline_time_us = results[found].total_time_us;
        let ghost records = measurements(results@);
        proof {
            lemma_first_of(records, baseline@, found as int);
        }

        let mut speedups: Vec<SpeedupEntry> = Vec::new();
        let mut i: usize = results.len();
        while i > 0
            invariant
                i <= results.len(),
                records == measurements(results@),
                distinct_languages(speedups@),
                forall|e: int|
                    0 <= e < speedups.len() ==> entry_is_from(
                        records,
                        baseline@,
                        baseline_time_us,
                        #[trigger] speedups@[e],
                    ),
                forall|k: int|
                    i <= k < records.len() ==> has_entry(
                        speedups@,
                        (#[trigger] records[k]).language,
                    ),
            decreases i,
        {
            i -= 1;
            let record = &results[i];
            assert(record@ == records[i as int]);
            match last_entry_of(&speedups, &record.language) {
                Some(e) => {
                    assert(speedups@[e as int].language@ == records[i as int].language);
                    assert(has_entry(speedups@, records[i as int].language));
                },
                None => {
                    proof {
                        assert forall|j: int| i < j < records.len() implies (
                        #[trigger] records[j]).language != record.language@ by {
                            assert(has_entry(speedups@, records[j].language));
                        }
                        assert(is_last_of(records, record.language@, i as int));
                        lemma_last_of(records, record.language@, i as int);
                    }
                    let ghost before = speedups@;
                    // The baseline is measured against itself.
                    let language_time_us = if same_text(&record.language, &baseline) {
                        baseline_time_us
                    } else {
                        record.total_time_us
                    };
                    speedups.push(
                        SpeedupEntry {
                            language: record.language.clone(),
                            speedup: Speedup { baseline_time_us, language_time_us },
                        },
                    );
                    proof {
                        let last = before.len() as int;
                        assert forall|e: int| 0 <= e < speedups.len() implies entry_is_from(
                            records,
                            baseline@,
                            baseline_time_us,
                            #[trigger] speedups@[e],
                        ) by {
                            if e < last {
                                assert(speedups@[e] == before[e]);
                            } else {
                                assert(records[i as int].language == speedups@[e].language@);
                            }
                        }
                        assert forall|k: int| i <= k < records.len() implies has_entry(
                            speedups@,
                            (#[trigger] records[k]).language,
                        ) by {
                            if k == i {
                                assert(speedups@[last].language@ == records[k].language);
                            } else {
                                assert(has_entry(before, records[k].language));
                                let e = choose|e: int|
                                    0 <= e < before.len() && (#[trigger] before[e]).language@
                                        == records[k].language;
                                assert(speedups@[e].language@ == records[k].language);
                            }
                        }
                    }
                },
            }
        }

        let copies = copy_records(results);

        proof {
            let built = entries_map(speedups@);
            let wanted = speedups_of(records, baseline_language@);
            assert forall|language: Seq<char>| built.contains_key(language) == wanted.contains_key(
                language,
            ) by {
                lemma_entries_map(speedups@, language);
                if built.contains_key(language) {
                    let e = choose|e: int|
                        0 <= e < speedups.len() && (#[trigger] speedups@[e]).language@ == language;
                    assert(entry_is_from(records, baseline@, baseline_time_us, speedups@[e]));
                }
                if has_language(records, language) {
                    let k = choose|k: int|
                        0 <= k < records.len() && (#[trigger] records[k]).language == language;
                    assert(has_entry(speedups@, records[k].language));
                }
            }
            assert forall|language: Seq<char>| built.contains_key(language) implies built[language]
                == wanted[language] by {
                lemma_entries_map(speedups@, language);
                let e = choose|e: int|
                    0 <= e < speedups.len() && (#[trigger] speedups@[e]).language@ == language;
                assert(is_last_entry(speedups@, language, e));
                assert(entry_is_from(records, baseline@, baseline_time_us, speedups@[e]));
            }
            assert(built =~= wanted);
        }
        let report = ComparisonReport {
            benchmark_name: results[0].benchmark_name.clone(),
            baseline_language: baseline,
            speedups,
            results: copies,
        };
        assert(records[0] == results@[0]@);
        Ok(report)
    }

    /// The speedup of the implementation `language`, if it has one.
    pub fn get_speedup(&self, language: &str) -> (r: Option<Speedup>)
        ensures
            r == (if self@.speedups.contains_key(language@) {
                Some(self@.speedups[language@])
            } else {
                None
            }),
    {
        let wanted = String::from_str(language);
        proof {
            lemma_entries_map(self.speedups@, language@);
        }
        match last_entry_of(&self.speedups, &wanted) {
            Some(i) => Some(self.speedups[i].speedup),
            None => None,
        }
    }

    /// The speedup of each record's implementation, in the order of the
    /// records. Every record has one.
    pub fn record_speedups(&self) -> (r: Vec<Speedup>)
        ensures
            r@.len() == self@.results.len(),
            forall|i: int|
                0 <= i < r@.len() ==> self@.speedups.contains_key(
                    (#[trigger] self@.results[i]).language,
                ) && r@[i] == self@.speedups[self@.results[i].language],
    {
        proof {
            use_type_invariant(self);
        }
        let ghost records = measurements(self.results@);
        let mut factors: Vec<Speedup> = Vec::new();
        let mut i: usize = 0;
        while i < self.results.len()
            invariant
                i <= self.results.len(),
                records == measurements(self.results@),
                entries_map(self.speedups@) == speedups_of(records, self.baseline_language@),
                factors@.len() == i,
                forall|j: int|
                    0 <= j < i ==> entries_map(self.speedups@).contains_key(
                        (#[trigger] records[j]).language,
                    ) && factors@[j] == entries_map(self.speedups@)[records[j].language],
            decreases self.results.len() - i,
        {
            let record = &self.results[i];
            proof {
                assert(records[i as int].language == record.language@);
                lemma_entries_map(self.speedups@, record.language@);
            }
            match last_entry_of(&self.speedups, &record.language) {
                Some(e) => {
                    factors.push(self.speedups[e].speedup);
                },
                None => {
                    proof {
                        assert(has_language(records, record.language@));
                        assert(false);
                    }
                    factors.push(Speedup { baseline_time_us: 0, language_time_us: 0 });
                },
            }
            i += 1;
        }
        factors
    }

    /// Tells whether every speedup is a positive number, that is, whether no
    /// duration that counts is zero. Only then can the speedups be summarized.
    pub fn has_defined_factors(&self) -> (r: bool)
        ensures
            r == forall|language: Seq<char>|
                self@.speedups.contains_key(language) ==> (
                #[trigger] self@.speedups[language]).is_defined(),
    {
        proof {
            use_type_invariant(self);
        }
        let mut e: usize = 0;
        while e < self.speedups.len()
            invariant
                e <= self.speedups.len(),
                distinct_languages(self.speedups@),
                forall|j: int| 0 <= j < e ==> (#[trigger] self.speedups@[j]).speedup.is_defined(),
            decreases self.speedups.len() - e,
        {
            if !self.speedups[e].speedup.is_positive() {
                proof {
                    let language = self.speedups@[e as int].language@;
                    lemma_entries_map(self.speedups@, language);
                    assert(is_last_entry(self.speedups@, language, e as int));
                    assert(entries_map(self.speedups@).contains_key(language));
                    assert(!entries_map(self.speedups@)[language].is_defined());
                    assert(self@.speedups.contains_key(language));
                }
                return false;
            }
            e += 1;
        }
        proof {
            assert forall|language: Seq<char>|
                entries_map(self.speedups@).contains_key(language) implies (#[trigger] entries_map(
                self.speedups@,
            )[language]).is_defined() by {
                lemma_entries_map(self.speedups@, language);
                let j = choose|j: int|
                    0 <= j < self.speedups.len() && (#[trigger] self.speedups@[j]).language@
                        == language;
                assert(is_last_entry(self.speedups@, language, j));
            }
        }
        true
    }

    /// Writes the comparison as a Markdown document.
    ///
    /// The table has one row for each record of the report, the fastest
    /// first. A row shows the record's implementation and the three numbers
    /// that `texts` holds for it; `texts` therefore has one entry for each
    /// record, in the order of the records.
    pub fn to_markdown(&self, texts: &[RecordTexts], summary: Option<&MetricsSummary>) -> (r:
        String)
        requires
            texts@.len() == self@.results.len(),
        ensures
            r@ == comparison_markdown(
                self@.benchmark_name,
                self@.baseline_language,
                report_rows(self@.results, texts@),
                match summary {
                    Some(s) => Some(*s),
                    None => None,
                },
            ),
    {
        let ghost records = measurements(self.results@);
        let ghost wanted = report_rows(records, texts@);
        let mut rows: Vec<ComparisonRow> = Vec::new();
        let mut i: usize = 0;
        while i < self.results.len()
            invariant
                i <= self.results.len(),
                texts@.len() == self.results.len(),
                records == measurements(self.results@),
                wanted == report_rows(records, texts@),
                rows@.len() == i,
                forall|j: int| 0 <= j < i ==> (#[trigger] rows@[j])@ == wanted[j],
            decreases self.results.len() - i,
        {
            let record = &self.results[i];
            let text = &texts[i];
            assert(records[i as int] == record@);
            rows.push(
                ComparisonRow {
                    language: record.language.clone(),
                    total_time_us: record.total_time_us,
                    total_ms: text.total_ms.clone(),
                    speedup: text.speedup.clone(),
                    image_size_mb: text.image_size_mb.clone(),
                },
            );
            i += 1;
        }
        assert(row_texts(rows@) =~= wanted);
        render_comparison(
            self.benchmark_name.as_str(),
            self.baseline_language.as_str(),
            rows.as_slice(),
            summary,
        )
    }

    /// The name of the benchmark.
    pub fn benchmark_name(&self) -> (r: &String)
        ensures
            r@ == self@.benchmark_name,
    {
        &self.benchmark_name
    }

    /// The name of the baseline implementation.
    pub fn baseline_language(&self) -> (r: &String)
        ensures
            r@ == self@.baseline_language,
    {
        &self.baseline_language
    }

    /// The records that the comparison was built from, in their order.
    pub fn results(&self) -> (r: &Vec<BenchmarkResult>)
        ensures
            measurements(r@) == self@.results,
    {
        &self.results
    }

    /// The speedups, one entry for each implementation. In every report
    /// they are the speedups of its own records against its own baseline,
    /// which has a record among them.
    pub fn speedups(&self) -> (r: &Vec<SpeedupEntry>)
        ensures
            distinct_languages(r@),
            entries_map(r@) == self@.speedups,
            has_language(self@.results, self@.baseline_language),
            self@.speedups == speedups_of(self@.results, self@.baseline_language),
    {
        proof {
            use_type_invariant(self);
        }
        &self.speedups
    }
}

} // verus!
