//! Report text: headings and tables.
//!
//! Numbers reach this module already rendered as text, so that what is
//! decided here is the layout alone: which lines a report has, and in which
//! order.
pub use crate::comparison::{ComparisonError, ComparisonReport, Speedup, SpeedupEntry};
use crate::ranking::{fastest_first, ranking};
use vstd::prelude::*;
use vstd::string::*;

verus! {

/// The uppercase mapping of a character: one character or more, as the
/// standard library's `char::to_uppercase` yields them. A character without
/// an uppercase mapping maps to itself.
pub uninterp spec fn uppercase_of(c: char) -> Seq<char>;

/// Calls `char::to_uppercase` and collects what it yields. The contract only
/// gives the result its name, [`uppercase_of`]; nothing is proved of it.
#[verifier::external_body]
fn to_upper(c: char) -> (r: String)
    ensures
        r@ == uppercase_of(c),
{
    c.to_uppercase().collect()
}

/// A text with its first character replaced by `replacement`. The empty text
/// stays empty.
pub open spec fn with_first_replaced(s: Seq<char>, replacement: Seq<char>) -> Seq<char> {
    if s.len() == 0 {
        s
    } else {
        replacement + s.subrange(1, s.len() as int)
    }
}

/// A text with its first character in uppercase.
pub open spec fn capitalized(s: Seq<char>) -> Seq<char> {
    if s.len() == 0 {
        s
    } else {
        with_first_replaced(s, uppercase_of(s[0]))
    }
}

/// Replaces the first character of `s` by `replacement`.
pub fn replace_first(s: &str, replacement: &str) -> (r: String)
    ensures
        r@ == with_first_replaced(s@, replacement@),
{
    let len = s.unicode_len();
    if len == 0 {
        assert(s@ =~= Seq::<char>::empty());
        String::new()
    } else {
        String::from_str(replacement).concat(s.substring_char(1, len))
    }
}

/// Puts the first character of `s` in uppercase and leaves the rest as it is.
pub fn capitalize_first(s: &str) -> (r: String)
    ensures
        r@ == capitalized(s@),
{
    if s.unicode_len() == 0 {
        assert(s@ =~= Seq::<char>::empty());
        String::new()
    } else {
        let upper = to_upper(s.get_char(0));
        replace_first(s, upper.as_str())
    }
}

/// The character of a decimal digit.
pub open spec fn digit_char(d: nat) -> char
    recommends
        d < 10,
{
    if d == 0 {
        '0'
    } else if d == 1 {
        '1'
    } else if d == 2 {
        '2'
    } else if d == 3 {
        '3'
    } else if d == 4 {
        '4'
    } else if d == 5 {
        '5'
    } else if d == 6 {
        '6'
    } else if d == 7 {
        '7'
    } else if d == 8 {
        '8'
    } else {
        '9'
    }
}

/// A number in decimal, without leading zeros.
pub open spec fn decimal_text(n: nat) -> Seq<char>
    decreases n,
{
    if n < 10 {
        seq![digit_char(n)]
    } else {
        decimal_text(n / 10).push(digit_char(n % 10))
    }
}

/// The text of one decimal digit.
fn digit_text(d: usize) -> (r: &'static str)
    requires
        d < 10,
    ensures
        r@ == seq![digit_char(d as nat)],
{
    proof {
        reveal_strlit("0");
        reveal_strlit("1");
        reveal_strlit("2");
        reveal_strlit("3");
        reveal_strlit("4");
        reveal_strlit("5");
        reveal_strlit("6");
        reveal_strlit("7");
        reveal_strlit("8");
        reveal_strlit("9");
    }
    let r = if d == 0 {
        "0"
    } else if d == 1 {
        "1"
    } else if d == 2 {
        "2"
    } else if d == 3 {
        "3"
    } else if d == 4 {
        "4"
    } else if d == 5 {
        "5"
    } else if d == 6 {
        "6"
    } else if d == 7 {
        "7"
    } else if d == 8 {
        "8"
    } else {
        "9"
    };
    assert(r@ =~= seq![digit_char(d as nat)]);
    r
}

/// Writes a count in decimal.
pub fn render_count(n: usize) -> (r: String)
    ensures
        r@ == decimal_text(n as nat),
    decreases n,
{
    if n < 10 {
        String::from_str(digit_text(n))
    } else {
        let r = render_count(n / 10).concat(digit_text(n % 10));
        assert(r@ =~= decimal_text(n as nat));
        r
    }
}

/// One row of the results table: an implementation and its numbers, each
/// already written out.
#[derive(Clone, Debug, PartialEq, Eq)]
pub struct ResultRow {
    pub language: String,
    pub startup_ms: String,
    pub compute_ms: String,
    pub total_ms: String,
    pub image_size_mb: String,
    pub memory_mb: String,
}

/// The line of the results table for one row.
pub open spec fn result_line(row: ResultRow) -> Seq<char> {
    "| "@ + row.language@ + " | "@ + row.startup_ms@ + " | "@ + row.compute_ms@ + " | "@
        + row.total_ms@ + " | "@ + row.image_size_mb@ + " | "@ + row.memory_mb@ + " |\n"@
}

/// The lines of the results table, in the order of the rows.
pub open spec fn result_lines(rows: Seq<ResultRow>) -> Seq<char>
    decreases rows.len(),
{
    if rows.len() == 0 {
        Seq::empty()
    } else {
        result_lines(rows.drop_last()) + result_line(rows.last())
    }
}

/// The two lines that head the results table.
pub open spec fn result_table_head() -> Seq<char> {
    "| Language | Startup (ms) | Compute (ms) | Total (ms) | Image Size (MB) | Memory (MB) |\n"@
        + "|----------|--------------|--------------|------------|-----------------|-------------|\n"@
}

/// The results of one benchmark as a Markdown document.
///
/// Without rows the document is a heading and a note that there are no
/// results; the heading then shows the name as it was given. With rows the
/// heading shows the name capitalized and a table follows, one line for each
/// row in the order given.
pub open spec fn markdown_table(rows: Seq<ResultRow>, benchmark_name: Seq<char>) -> Seq<char> {
    if rows.len() == 0 {
        "# "@ + benchmark_name + " Benchmark\n\nNo results available.\n"@
    } else {
        "# "@ + capitalized(benchmark_name) + " Benchmark\n\n"@ + result_table_head()
            + result_lines(rows) + "\n"@
    }
}

/// Writes the line of the results table for one row.
fn render_result_row(row: &ResultRow) -> (line: String)
    ensures
        line@ == result_line(*row),
{
    let mut line = String::from_str("| ");
    line.append(row.language.as_str());
    line.append(" | ");
    line.append(row.startup_ms.as_str());
    line.append(" | ");
    line.append(row.compute_ms.as_str());
    line.append(" | ");
    line.append(row.total_ms.as_str());
    line.append(" | ");
    line.append(row.image_size_mb.as_str());
    line.append(" | ");
    line.append(row.memory_mb.as_str());
    line.append(" |\n");
    line
}

/// Writes the results of one benchmark as a Markdown document.
pub fn generate_markdown_table(rows: &[ResultRow], benchmark_name: &str) -> (r: String)
    ensures
        r@ == markdown_table(rows@, benchmark_name@),
{
    let mut out = String::from_str("# ");
    if rows.len() == 0 {
        out.append(benchmark_name);
        out.append(" Benchmark\n\nNo results available.\n");
        return out;
    }
    let title = capitalize_first(benchmark_name);
    out.append(title.as_str());
    out.append(" Benchmark\n\n");
    let mut head = String::from_str(
        "| Language | Startup (ms) | Compute (ms) | Total (ms) | Image Size (MB) | Memory (MB) |\n",
    );
    head.append(
        "|----------|--------------|--------------|------------|-----------------|-------------|\n",
    );
    out.append(head.as_str());
    let ghost top = out@;
    let mut i: usize = 0;
    assert(rows@.take(0) =~= Seq::<ResultRow>::empty());
    assert(out@ =~= top + result_lines(rows@.take(0)));
    while i < rows.len()
        invariant
            i <= rows.len(),
            out@ == top + result_lines(rows@.take(i as int)),
        decreases rows.len() - i,
    {
        let line = render_result_row(&rows[i]);
        out.append(line.as_str());
        proof {
            let upto = rows@.take(i + 1);
            assert(upto.drop_last() =~= rows@.take(i as int));
            assert(upto.last() == rows@[i as int]);
            assert(out@ =~= top + result_lines(upto));
        }
        i += 1;
    }
    assert(rows@.take(rows.len() as int) =~= rows@);
    out.append("\n");
    out
}

/// One row of the comparison table: an implementation, its total duration,
/// by which the rows are ranked, and its numbers, each already written out.
#[derive(Clone, Debug, PartialEq, Eq)]
pub struct ComparisonRow {
    pub language: String,
    pub total_time_us: u64,
    pub total_ms: String,
    pub speedup: String,
    pub image_size_mb: String,
}

/// The summary of the speedups, each mean already written out.
#[derive(Clone, Debug, PartialEq, Eq)]
pub struct MetricsSummary {
    pub geometric_mean: String,
    pub arithmetic_mean: String,
    pub harmonic_mean: String,
    /// How many speedups were flagged as outliers.
    pub outlier_count: usize,
}

/// The mathematical content of a [`ComparisonRow`].
pub ghost struct RowText {
    pub language: Seq<char>,
    pub total_time_us: u64,
    pub total_ms: Seq<char>,
    pub speedup: Seq<char>,
    pub image_size_mb: Seq<char>,
}

impl View for ComparisonRow {
    type V = RowText;

    open spec fn view(&self) -> RowText {
        RowText {
            language: self.language@,
            total_time_us: self.total_time_us,
            total_ms: self.total_ms@,
            speedup: self.speedup@,
            image_size_mb: self.image_size_mb@,
        }
    }
}

/// The views of a list of rows.
pub open spec fn row_texts(rows: Seq<ComparisonRow>) -> Seq<RowText> {
    rows.map_values(|row: ComparisonRow| row@)
}

/// The numbers of one record of a comparison, each already written out:
/// its total duration in milliseconds, its speedup, and the size of its image
/// in megabytes.
#[derive(Clone, Debug, PartialEq, Eq)]
pub struct RecordTexts {
    pub total_ms: String,
    pub speedup: String,
    pub image_size_mb: String,
}

/// The line of the comparison table for one row.
pub open spec fn comparison_line(row: RowText) -> Seq<char> {
    "| "@ + row.language + " | "@ + row.total_ms + " | "@ + row.speedup + "x | "@
        + row.image_size_mb + " |\n"@
}

/// The lines of the comparison table for the rows at the positions `order`.
pub open spec fn comparison_lines(rows: Seq<RowText>, order: Seq<usize>) -> Seq<char>
    decreases order.len(),
{
    if order.len() == 0 {
        Seq::empty()
    } else {
        comparison_lines(rows, order.drop_last()) + comparison_line(rows[order.last() as int])
    }
}

/// The total durations of the rows.
pub open spec fn row_durations(rows: Seq<RowText>) -> Seq<u64> {
    rows.map_values(|row: RowText| row.total_time_us)
}

/// The two lines that head the comparison table.
pub open spec fn comparison_table_head() -> Seq<char> {
    "| Language | Total Time (ms) | Speedup | Image Size (MB) |\n"@
        + "|----------|-----------------|---------|----------------|\n"@
}

/// The section on the summary of the speedups. The line on outliers is there
/// only when some were flagged.
pub open spec fn metrics_section(summary: MetricsSummary) -> Seq<char> {
    "\n## Aggregation Metrics\n\n"@ + "- **Geometric Mean Speedup**: "@ + summary.geometric_mean@
        + "x\n"@ + "- **Arithmetic Mean Speedup**: "@ + summary.arithmetic_mean@ + "x\n"@
        + "- **Harmonic Mean Speedup**: "@ + summary.harmonic_mean@ + "x\n"@ + if summary.outlier_count
        > 0 {
        "\n\u{26a0}\u{fe0f}  **Outliers detected**: "@ + decimal_text(summary.outlier_count as nat)
            + " measurement(s)\n"@
    } else {
        Seq::<char>::empty()
    }
}

/// A comparison as a Markdown document: a heading that names the benchmark
/// and the baseline, the table with the fastest implementation first, and
/// the summary of the speedups where there is one.
pub open spec fn comparison_markdown(
    benchmark_name: Seq<char>,
    baseline_language: Seq<char>,
    rows: Seq<RowText>,
    summary: Option<MetricsSummary>,
) -> Seq<char> {
    "# "@ + capitalized(benchmark_name) + " Benchmark - Comparison (baseline: "@ + baseline_language
        + ")\n\n"@ + comparison_table_head() + comparison_lines(rows, ranking(row_durations(rows)))
        + match summary {
        Some(s) => metrics_section(s),
        None => Seq::<char>::empty(),
    } + "\n"@
}

/// Writes the line of the comparison table for one row.
fn render_comparison_row(row: &ComparisonRow) -> (line: String)
    ensures
        line@ == comparison_line(row@),
{
    let mut line = String::from_str("| ");
    line.append(row.language.as_str());
    line.append(" | ");
    line.append(row.total_ms.as_str());
    line.append(" | ");
    line.append(row.speedup.as_str());
    line.append("x | ");
    line.append(row.image_size_mb.as_str());
    line.append(" |\n");
    line
}

/// Writes the section on the summary of the speedups.
fn render_metrics(summary: &MetricsSummary) -> (section: String)
    ensures
        section@ == metrics_section(*summary),
{
    let mut section = String::from_str("\n## Aggregation Metrics\n\n");
    section.append("- **Geometric Mean Speedup**: ");
    section.append(summary.geometric_mean.as_str());
    section.append("x\n");
    section.append("- **Arithmetic Mean Speedup**: ");
    section.append(summary.arithmetic_mean.as_str());
    section.append("x\n");
    section.append("- **Harmonic Mean Speedup**: ");
    section.append(summary.harmonic_mean.as_str());
    section.append("x\n");
    if summary.outlier_count > 0 {
        let mut warning = String::from_str("\n\u{26a0}\u{fe0f}  **Outliers detected**: ");
        warning.append(render_count(summary.outlier_count).as_str());
        warning.append(" measurement(s)\n");
        section.append(warning.as_str());
    } else {
        assert(section@ + Seq::<char>::empty() =~= section@);
    }
    section
}

/// Collects the total durations of the rows.
fn durations_of(rows: &[ComparisonRow]) -> (durations: Vec<u64>)
    ensures
        durations@ == row_durations(row_texts(rows@)),
{
    let mut durations: Vec<u64> = Vec::new();
    let mut i: usize = 0;
    while i < rows.len()
        invariant
            i <= rows.len(),
            durations@ == row_durations(row_texts(rows@.take(i as int))),
        decreases rows.len() - i,
    {
        durations.push(rows[i].total_time_us);
        assert(durations@ =~= row_durations(row_texts(rows@.take(i + 1))));
        i += 1;
    }
    assert(rows@.take(rows.len() as int) =~= rows@);
    durations
}

/// Writes a comparison as a Markdown document.
pub fn render_comparison(
    benchmark_name: &str,
    baseline_language: &str,
    rows: &[ComparisonRow],
    summary: Option<&MetricsSummary>,
) -> (r: String)
    ensures
        r@ == comparison_markdown(
            benchmark_name@,
            baseline_language@,
            row_texts(rows@),
            match summary {
                Some(s) => Some(*s),
                None => None,
            },
        ),
{
    let mut out = String::from_str("# ");
    let title = capitalize_first(benchmark_name);
    out.append(title.as_str());
    out.append(" Benchmark - Comparison (baseline: ");
    out.append(baseline_language);
    out.append(")\n\n");
    let mut head = String::from_str("| Language | Total Time (ms) | Speedup | Image Size (MB) |\n");
    head.append("|----------|-----------------|---------|----------------|\n");
    out.append(head.as_str());

    let durations = durations_of(rows);
    let order = fastest_first(durations.as_slice());
    let ghost top = out@;
    let mut i: usize = 0;
    assert(order@.take(0) =~= Seq::<usize>::empty());
    let ghost texts = row_texts(rows@);
    assert(out@ =~= top + comparison_lines(texts, order@.take(0)));
    while i < order.len()
        invariant
            i <= order.len(),
            order.len() == rows.len(),
            forall|j: int| 0 <= j < order.len() ==> 0 <= #[trigger] order@[j] < rows.len(),
            texts == row_texts(rows@),
            out@ == top + comparison_lines(texts, order@.take(i as int)),
        decreases order.len() - i,
    {
        let line = render_comparison_row(&rows[order[i]]);
        out.append(line.as_str());
        proof {
            let upto = order@.take(i + 1);
            assert(upto.drop_last() =~= order@.take(i as int));
            assert(upto.last() == order@[i as int]);
            assert(texts[order@[i as int] as int] == rows@[order@[i as int] as int]@);
            assert(out@ =~= top + comparison_lines(texts, upto));
        }
        i += 1;
    }
    assert(order@.take(order.len() as int) =~= order@);
    match summary {
        Some(s) => {
            let section = render_metrics(s);
            out.append(section.as_str());
        },
        None => {
            assert(out@ + Seq::<char>::empty() =~= out@);
        },
    }
    out.append("\n");
    out
}

} // verus!
