// Reports: headings, tables and comparisons against a baseline.
use ruchy_docker::metrics::BenchmarkResult;
use ruchy_docker::reporter::{
    capitalize_first, generate_markdown_table, render_comparison, render_count, replace_first,
    ComparisonError, ComparisonReport, ComparisonRow, MetricsSummary, RecordTexts, ResultRow,
    Speedup,
};

/// A record and the two sizes that go with it in a table.
struct Measured {
    record: BenchmarkResult,
    image_size_mb: f64,
    memory_usage_mb: f64,
}

fn measured(
    language: &str,
    startup_time_us: u64,
    compute_time_us: u64,
    image_size_mb: f64,
    memory_usage_mb: f64,
) -> Measured {
    Measured {
        record: BenchmarkResult {
            benchmark_name: "fibonacci".to_string(),
            language: language.to_string(),
            startup_time_us,
            compute_time_us,
            total_time_us: startup_time_us + compute_time_us,
            result_value: Some(9227465),
        },
        image_size_mb,
        memory_usage_mb,
    }
}

fn millis(us: u64) -> String {
    format!("{:.2}", us as f64 / 1000.0)
}

fn factor(speedup: Speedup) -> f64 {
    speedup.baseline_time_us as f64 / speedup.language_time_us as f64
}

fn result_rows(results: &[Measured]) -> Vec<ResultRow> {
    results
        .iter()
        .map(|m| ResultRow {
            language: m.record.language.clone(),
            startup_ms: millis(m.record.startup_time_us),
            compute_ms: millis(m.record.compute_time_us),
            total_ms: millis(m.record.total_time_us),
            image_size_mb: format!("{:.2}", m.image_size_mb),
            memory_mb: format!("{:.2}", m.memory_usage_mb),
        })
        .collect()
}

fn records(results: &[Measured]) -> Vec<BenchmarkResult> {
    results.iter().map(|m| m.record.clone()).collect()
}

/// The numbers of each record of the report, written out with two decimals.
fn record_texts(report: &ComparisonReport, results: &[Measured]) -> Vec<RecordTexts> {
    let factors = report.record_speedups();
    assert_eq!(factors.len(), results.len());
    results
        .iter()
        .zip(factors)
        .map(|(m, speedup)| RecordTexts {
            total_ms: millis(m.record.total_time_us),
            speedup: format!("{:.2}", factor(speedup)),
            image_size_mb: format!("{:.2}", m.image_size_mb),
        })
        .collect()
}

#[test]
fn test_capitalize_first() {
    assert_eq!(capitalize_first("hello"), "Hello");
    assert_eq!(capitalize_first("fibonacci"), "Fibonacci");
    assert_eq!(capitalize_first(""), "");
}

#[test]
fn test_capitalize_first_beyond_ascii() {
    assert_eq!(capitalize_first("élan"), "Élan");
    assert_eq!(capitalize_first("ßtraße"), "SStraße");
    assert_eq!(capitalize_first("ǆemal"), "Ǆemal");
    assert_eq!(capitalize_first("Already"), "Already");
    assert_eq!(capitalize_first("9 lives"), "9 lives");
    assert_eq!(capitalize_first("x"), "X");
    assert_eq!(capitalize_first("日本"), "日本");
}

#[test]
fn test_replace_first() {
    assert_eq!(replace_first("hello", "J"), "Jello");
    assert_eq!(replace_first("hello", ""), "ello");
    assert_eq!(replace_first("hello", "sh"), "shello");
    assert_eq!(replace_first("", "X"), "");
    assert_eq!(replace_first("éa", "E"), "Ea");
}

#[test]
fn test_render_count() {
    assert_eq!(render_count(0), "0");
    assert_eq!(render_count(7), "7");
    assert_eq!(render_count(10), "10");
    assert_eq!(render_count(99), "99");
    assert_eq!(render_count(100), "100");
    assert_eq!(render_count(1234567890), "1234567890");
    assert_eq!(render_count(usize::MAX), usize::MAX.to_string());
}

#[test]
fn test_markdown_table_empty() {
    let results: Vec<ResultRow> = vec![];
    let markdown = generate_markdown_table(&results, "test");
    assert!(markdown.contains("No results"));
}

#[test]
fn test_markdown_table_empty_exact() {
    let results: Vec<ResultRow> = vec![];
    assert_eq!(
        generate_markdown_table(&results, "test"),
        "# test Benchmark\n\nNo results available.\n"
    );
}

#[test]
fn test_speedup_calculation() {
    // Baseline: 100ms
    // Other: 200ms
    // Speedup: 100/200 = 0.5
    let results = vec![
        BenchmarkResult {
            benchmark_name: "test".to_string(),
            language: "baseline".to_string(),
            startup_time_us: 0,
            compute_time_us: 100000,
            total_time_us: 100000,
            result_value: None,
        },
        BenchmarkResult {
            benchmark_name: "test".to_string(),
            language: "slow".to_string(),
            startup_time_us: 0,
            compute_time_us: 200000,
            total_time_us: 200000,
            result_value: None,
        },
    ];

    let comparison = ComparisonReport::from_results(&results, "baseline").unwrap();

    assert_eq!(comparison.get_speedup("baseline").map(factor), Some(1.0));
    assert_eq!(comparison.get_speedup("slow").map(factor), Some(0.5));
    assert_eq!(
        comparison.get_speedup("slow"),
        Some(Speedup { baseline_time_us: 100000, language_time_us: 200000 })
    );
}

/// Test Markdown table generation
#[test]
fn test_markdown_table_generation() {
    let results = vec![
        measured("rust", 100, 19400, 2.51, 8.5),
        measured("python", 50000, 800000, 52.3, 45.6),
    ];

    let markdown = generate_markdown_table(&result_rows(&results), "fibonacci");

    // Verify Markdown table structure
    assert!(markdown.contains("# Fibonacci Benchmark"));
    assert!(markdown.contains("| Language"));
    assert!(markdown.contains("| rust"));
    assert!(markdown.contains("| python"));
    assert!(markdown.contains("19.50")); // Total time in ms
    assert!(markdown.contains("850.00")); // Python time in ms
}

/// Test Markdown table formatting with proper alignment
#[test]
fn test_markdown_table_formatting() {
    let results = vec![measured("rust", 100, 20000, 2.51, 8.5)];

    let markdown = generate_markdown_table(&result_rows(&results), "fibonacci");

    // Verify table has header separator
    assert!(markdown.contains("|---"));
    // Verify time conversions to milliseconds
    assert!(markdown.contains("ms"));
    assert!(markdown.contains("MB"));
}

#[test]
fn test_markdown_table_exact() {
    let results = vec![
        measured("rust", 100, 19400, 2.51, 8.5),
        measured("python", 50000, 800000, 52.3, 45.6),
    ];
    let expected = "# Fibonacci Benchmark\n\n\
| Language | Startup (ms) | Compute (ms) | Total (ms) | Image Size (MB) | Memory (MB) |\n\
|----------|--------------|--------------|------------|-----------------|-------------|\n\
| rust | 0.10 | 19.40 | 19.50 | 2.51 | 8.50 |\n\
| python | 50.00 | 800.00 | 850.00 | 52.30 | 45.60 |\n\
\n";
    assert_eq!(generate_markdown_table(&result_rows(&results), "fibonacci"), expected);
}

/// Test comparison report with speedup calculations
#[test]
fn test_comparison_report_speedups() {
    let results = vec![
        measured("rust", 0, 20000, 2.51, 8.5),
        measured("python", 50000, 800000, 52.3, 45.6),
    ];

    let comparison = ComparisonReport::from_results(&records(&results), "rust")
        .expect("Should create comparison");

    // Speedup = baseline_time / language_time = 20000 / 850000 = 0.0235
    let python_speedup = comparison
        .get_speedup("python")
        .map(factor)
        .expect("Should have speedup");
    assert!(
        (python_speedup - 0.0235).abs() < 0.01,
        "Python speedup should be ~0.024 (42.5x slower)"
    );

    // Rust baseline should have speedup of 1.0
    let rust_speedup = comparison
        .get_speedup("rust")
        .map(factor)
        .expect("Should have speedup");
    assert!((rust_speedup - 1.0).abs() < 0.01, "Baseline should be 1.0x");
}

/// Test comparison report Markdown output
#[test]
fn test_comparison_report_markdown() {
    let results = vec![
        measured("rust", 0, 20000, 2.51, 8.5),
        measured("c", 0, 18000, 2.1, 5.2),
    ];

    let comparison = ComparisonReport::from_results(&records(&results), "rust")
        .expect("Should create comparison");
    let markdown = comparison.to_markdown(&record_texts(&comparison, &results), None);

    // Verify speedup column
    assert!(markdown.contains("Speedup"));
    assert!(markdown.contains("1.00x")); // Rust baseline
    assert!(markdown.contains("1.11x")); // C is faster (speedup = 20000/18000 = 1.11)
}

/// Test empty results handling
#[test]
fn test_empty_results() {
    let results: Vec<ResultRow> = vec![];

    let markdown = generate_markdown_table(&results, "test");
    assert!(markdown.contains("No results"));
}

#[test]
fn test_comparison_markdown_exact() {
    let results = vec![
        measured("rust", 0, 20000, 2.51, 8.5),
        measured("python", 50000, 800000, 52.3, 45.6),
        measured("c", 0, 18000, 2.1, 5.2),
    ];
    let comparison = ComparisonReport::from_results(&records(&results), "rust").unwrap();
    let summary = MetricsSummary {
        geometric_mean: "0.30".to_string(),
        arithmetic_mean: "0.71".to_string(),
        harmonic_mean: "0.07".to_string(),
        outlier_count: 0,
    };
    let markdown =
        comparison.to_markdown(&record_texts(&comparison, &results), Some(&summary));
    let expected = "# Fibonacci Benchmark - Comparison (baseline: rust)\n\n\
| Language | Total Time (ms) | Speedup | Image Size (MB) |\n\
|----------|-----------------|---------|----------------|\n\
| c | 18.00 | 1.11x | 2.10 |\n\
| rust | 20.00 | 1.00x | 2.51 |\n\
| python | 850.00 | 0.02x | 52.30 |\n\
\n## Aggregation Metrics\n\n\
- **Geometric Mean Speedup**: 0.30x\n\
- **Arithmetic Mean Speedup**: 0.71x\n\
- **Harmonic Mean Speedup**: 0.07x\n\
\n";
    assert_eq!(markdown, expected);
}

#[test]
fn test_comparison_markdown_with_outliers() {
    let rows = vec![
        ComparisonRow {
            language: "b".to_string(),
            total_time_us: 5,
            total_ms: "0.01".to_string(),
            speedup: "1.00".to_string(),
            image_size_mb: "0.00".to_string(),
        },
        ComparisonRow {
            language: "a".to_string(),
            total_time_us: 5,
            total_ms: "0.01".to_string(),
            speedup: "1.00".to_string(),
            image_size_mb: "0.00".to_string(),
        },
    ];
    let summary = MetricsSummary {
        geometric_mean: "1.00".to_string(),
        arithmetic_mean: "1.00".to_string(),
        harmonic_mean: "1.00".to_string(),
        outlier_count: 12,
    };
    let markdown = render_comparison("primes", "b", &rows, Some(&summary));
    let expected = "# Primes Benchmark - Comparison (baseline: b)\n\n\
| Language | Total Time (ms) | Speedup | Image Size (MB) |\n\
|----------|-----------------|---------|----------------|\n\
| b | 0.01 | 1.00x | 0.00 |\n\
| a | 0.01 | 1.00x | 0.00 |\n\
\n## Aggregation Metrics\n\n\
- **Geometric Mean Speedup**: 1.00x\n\
- **Arithmetic Mean Speedup**: 1.00x\n\
- **Harmonic Mean Speedup**: 1.00x\n\
\n\u{26a0}\u{fe0f}  **Outliers detected**: 12 measurement(s)\n\
\n";
    assert_eq!(markdown, expected);
}

#[test]
fn test_comparison_markdown_without_rows() {
    let rows: Vec<ComparisonRow> = vec![];
    assert_eq!(
        render_comparison("", "rust", &rows, None),
        "#  Benchmark - Comparison (baseline: rust)\n\n\
| Language | Total Time (ms) | Speedup | Image Size (MB) |\n\
|----------|-----------------|---------|----------------|\n\
\n"
    );
}

#[test]
fn test_comparison_empty_input() {
    let results: Vec<BenchmarkResult> = vec![];
    assert_eq!(
        ComparisonReport::from_results(&results, "rust").err(),
        Some(ComparisonError::EmptyInput)
    );
}

#[test]
fn test_comparison_baseline_not_found() {
    let results =
        records(&[measured("go", 1, 2, 0.0, 0.0), measured("python", 3, 4, 0.0, 0.0)]);
    assert_eq!(
        ComparisonReport::from_results(&results, "rust").err(),
        Some(ComparisonError::BaselineNotFound("rust".to_string()))
    );
    // Labels are compared as they are: case counts.
    assert_eq!(
        ComparisonReport::from_results(&results, "Go").err(),
        Some(ComparisonError::BaselineNotFound("Go".to_string()))
    );
}

#[test]
fn test_comparison_baseline_is_exactly_one() {
    let results = records(&[
        measured("go", 5000, 40000, 0.0, 0.0),
        measured("rust", 0, 20000, 0.0, 0.0),
        measured("python", 50000, 800000, 0.0, 0.0),
    ]);
    let comparison = ComparisonReport::from_results(&results, "rust").unwrap();
    let own = comparison.get_speedup("rust").unwrap();
    assert!(own.is_unity());
    assert_eq!(factor(own), 1.0);
    assert_eq!(own, Speedup { baseline_time_us: 20000, language_time_us: 20000 });
    assert!(!comparison.get_speedup("go").unwrap().is_unity());
}

#[test]
fn test_comparison_accessors() {
    let results = records(&[
        measured("go", 5000, 40000, 0.0, 0.0),
        measured("rust", 0, 20000, 0.0, 0.0),
    ]);
    let comparison = ComparisonReport::from_results(&results, "rust").unwrap();
    assert_eq!(comparison.benchmark_name(), "fibonacci");
    assert_eq!(comparison.baseline_language(), "rust");
    assert_eq!(comparison.results(), &results);
    assert_eq!(comparison.get_speedup("c"), None);
    assert_eq!(comparison.get_speedup(""), None);
    let mut languages: Vec<String> =
        comparison.speedups().iter().map(|e| e.language.clone()).collect();
    languages.sort();
    assert_eq!(languages, vec!["go".to_string(), "rust".to_string()]);
}

#[test]
fn test_comparison_benchmark_name_is_first_records() {
    let mut results = records(&[
        measured("go", 5000, 40000, 0.0, 0.0),
        measured("rust", 0, 20000, 0.0, 0.0),
    ]);
    results[0].benchmark_name = "primes".to_string();
    let comparison = ComparisonReport::from_results(&results, "rust").unwrap();
    assert_eq!(comparison.benchmark_name(), "primes");
}

#[test]
fn test_comparison_with_repeated_languages() {
    // The baseline's duration is that of its first record, above and below
    // its own factor; for every other implementation the last record counts.
    let results = records(&[
        measured("go", 0, 10, 0.0, 0.0),
        measured("rust", 0, 100, 0.0, 0.0),
        measured("go", 0, 30, 0.0, 0.0),
        measured("rust", 0, 400, 0.0, 0.0),
    ]);
    let comparison = ComparisonReport::from_results(&results, "rust").unwrap();
    assert_eq!(comparison.speedups().len(), 2);
    assert_eq!(
        comparison.get_speedup("go"),
        Some(Speedup { baseline_time_us: 100, language_time_us: 30 })
    );
    assert_eq!(
        comparison.get_speedup("rust"),
        Some(Speedup { baseline_time_us: 100, language_time_us: 100 })
    );
    assert!(comparison.get_speedup("rust").unwrap().is_unity());
    assert_eq!(comparison.results().len(), 4);
    assert_eq!(
        comparison.record_speedups(),
        vec![
            Speedup { baseline_time_us: 100, language_time_us: 30 },
            Speedup { baseline_time_us: 100, language_time_us: 100 },
            Speedup { baseline_time_us: 100, language_time_us: 30 },
            Speedup { baseline_time_us: 100, language_time_us: 100 },
        ]
    );
}

#[test]
fn test_comparison_with_zero_durations() {
    let results =
        records(&[measured("rust", 0, 0, 0.0, 0.0), measured("go", 0, 7, 0.0, 0.0)]);
    let comparison = ComparisonReport::from_results(&results, "rust").unwrap();
    let own = comparison.get_speedup("rust").unwrap();
    assert_eq!(own, Speedup { baseline_time_us: 0, language_time_us: 0 });
    assert!(!own.is_unity());
    assert_eq!(
        comparison.get_speedup("go"),
        Some(Speedup { baseline_time_us: 0, language_time_us: 7 })
    );
}

#[test]
fn test_comparison_error_messages() {
    assert_eq!(
        ComparisonError::EmptyInput.message(),
        "Cannot create comparison from empty results"
    );
    assert_eq!(
        ComparisonError::BaselineNotFound("rust".to_string()).message(),
        "Baseline language 'rust' not found"
    );
    assert_eq!(
        ComparisonError::BaselineNotFound(String::new()).message(),
        "Baseline language '' not found"
    );
}

#[test]
fn test_comparison_table_has_a_row_for_each_record() {
    let results = vec![
        measured("go", 0, 30, 6.2, 0.0),
        measured("rust", 0, 100, 2.51, 0.0),
        measured("go", 0, 10, 6.2, 0.0),
    ];
    let comparison = ComparisonReport::from_results(&records(&results), "rust").unwrap();
    let markdown = comparison.to_markdown(&record_texts(&comparison, &results), None);
    let expected = "# Fibonacci Benchmark - Comparison (baseline: rust)\n\n\
| Language | Total Time (ms) | Speedup | Image Size (MB) |\n\
|----------|-----------------|---------|----------------|\n\
| go | 0.01 | 10.00x | 6.20 |\n\
| go | 0.03 | 10.00x | 6.20 |\n\
| rust | 0.10 | 1.00x | 2.51 |\n\
\n";
    assert_eq!(markdown, expected);
}

#[test]
fn test_comparison_copy() {
    let results = records(&[
        measured("go", 5000, 40000, 0.0, 0.0),
        measured("rust", 0, 20000, 0.0, 0.0),
    ]);
    let comparison = ComparisonReport::from_results(&results, "rust").unwrap();
    let copy = comparison.clone();
    assert_eq!(copy.benchmark_name(), comparison.benchmark_name());
    assert_eq!(copy.baseline_language(), comparison.baseline_language());
    assert_eq!(copy.results(), comparison.results());
    assert_eq!(copy.speedups(), comparison.speedups());
}

#[test]
fn test_comparison_factors_defined() {
    let defined = records(&[
        measured("go", 5000, 40000, 0.0, 0.0),
        measured("rust", 0, 20000, 0.0, 0.0),
    ]);
    assert!(ComparisonReport::from_results(&defined, "rust").unwrap().has_defined_factors());

    // A language that took no time has no finite factor.
    let zero_language =
        records(&[measured("go", 0, 0, 0.0, 0.0), measured("rust", 0, 20000, 0.0, 0.0)]);
    assert!(!ComparisonReport::from_results(&zero_language, "rust")
        .unwrap()
        .has_defined_factors());

    // A baseline that took no time makes every factor zero or undefined.
    let zero_baseline =
        records(&[measured("go", 0, 7, 0.0, 0.0), measured("rust", 0, 0, 0.0, 0.0)]);
    assert!(!ComparisonReport::from_results(&zero_baseline, "rust")
        .unwrap()
        .has_defined_factors());

    assert!(Speedup { baseline_time_us: 1, language_time_us: 1 }.is_positive());
    assert!(!Speedup { baseline_time_us: 0, language_time_us: 1 }.is_positive());
    assert!(!Speedup { baseline_time_us: 1, language_time_us: 0 }.is_positive());
}
