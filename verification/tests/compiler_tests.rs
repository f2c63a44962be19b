use buscaluso_bench::BenchResult;
use buscaluso_bench::BenchResultCompiler;
use buscaluso_bench::ScoreDifference;
use buscaluso_bench::ValueRange;

const SECOND: u64 = 1_000_000_000;

fn found(index: u64, elapsed: u64) -> BenchResult {
    BenchResult::success(index, elapsed)
}

fn not_found(elapsed: u64) -> BenchResult {
    BenchResult {
        found_index: Ok(None),
        elapsed,
    }
}

fn errored(message: &str, elapsed: u64) -> BenchResult {
    BenchResult {
        found_index: Err(message.to_string()),
        elapsed,
    }
}

#[test]
fn test_resultcompiler_drop_fraction_elapsed() {
    assert_eq!(
        BenchResultCompiler::new(0, 1, 2)
            .compile(&vec![
                found(0, 1 * SECOND),
                found(0, 2 * SECOND),
                found(0, 3 * SECOND),
                found(0, 4 * SECOND),
                found(0, 5 * SECOND),
            ])
            .elapsed,
        Some(ValueRange {
            start: 2 * SECOND,
            end: 4 * SECOND
        })
    );
    assert_eq!(
        BenchResultCompiler::new(0, 1, 2)
            .compile(&vec![
                found(0, 10 * SECOND),
                found(0, 11 * SECOND),
                found(0, 12 * SECOND),
                found(0, 13 * SECOND),
            ])
            .elapsed,
        Some(ValueRange {
            start: 11 * SECOND,
            end: 12 * SECOND
        })
    );
    assert_eq!(
        BenchResultCompiler::new(0, 1, 2)
            .compile(&vec![
                found(0, 0),
                found(0, 1 * SECOND),
                found(0, 2 * SECOND),
            ])
            .elapsed,
        Some(ValueRange {
            start: 0,
            end: 2 * SECOND
        })
    );
}

#[test]
fn test_resultcompiler_drop_fraction_found_index() {
    assert_eq!(
        BenchResultCompiler::new(2 * SECOND, 1, 2)
            .compile(&vec![
                found(1, 0),
                found(2, 0),
                found(3, 0),
                found(4, 0),
                found(5, 0),
            ])
            .found_index,
        Some(ValueRange { start: 2, end: 4 })
    );
    assert_eq!(
        BenchResultCompiler::new(2 * SECOND, 1, 2)
            .compile(&vec![found(10, 0), found(11, 0), found(12, 0), found(13, 0)])
            .found_index,
        Some(ValueRange { start: 11, end: 12 })
    );
    assert_eq!(
        BenchResultCompiler::new(2 * SECOND, 1, 2)
            .compile(&vec![found(0, 0), found(1, 0), found(2, 0)])
            .found_index,
        Some(ValueRange { start: 0, end: 2 })
    );
}

#[test]
fn test_resultcompiler_drop_fraction_score() {
    assert_eq!(
        BenchResultCompiler::new(2 * SECOND, 3, 5)
            .compile(&vec![
                found(1, SECOND / 10),
                found(2, 1 * SECOND),
                found(3, SECOND / 2),
                found(5, 2 * SECOND + 3 * SECOND / 10),
            ])
            .score,
        Some(5 * SECOND + 3 * SECOND / 4)
    );
}

#[test]
fn test_score_rank_step_exact() {
    let compiler = BenchResultCompiler::new(250, 0, 1);
    let low = compiler.score(&found(7, 13)).unwrap();
    let high = compiler.score(&found(8, 13)).unwrap();
    assert_eq!(high - low, 250);
}

#[test]
fn test_score_finite_iff_found() {
    let compiler = BenchResultCompiler::new(250, 0, 1);
    assert_eq!(compiler.score(&found(3, 10)), Some(3 * 250 + 10));
    assert_eq!(compiler.score(&not_found(10)), None);
    assert_eq!(compiler.score(&errored("engine gone", 10)), None);
}

#[test]
fn test_compile_keeps_trimmed_errors() {
    let compiler = BenchResultCompiler::new(0, 3, 5);
    let compiled = compiler.compile(&vec![
        errored("late", 9 * SECOND),
        found(0, 1 * SECOND),
        errored("early", 1 * SECOND),
        found(0, 2 * SECOND),
        found(0, 3 * SECOND),
    ]);
    // Both messages survive even though the trim drops entries; they come
    // out in the sorted order: elapsed first.
    assert_eq!(compiled.errors, vec!["early".to_string(), "late".to_string()]);
    assert_eq!(compiled.score, None);
}

#[test]
fn test_compile_error_order_message_tiebreak() {
    let compiler = BenchResultCompiler::new(0, 0, 1);
    let compiled = compiler.compile(&vec![errored("b", SECOND), errored("a", SECOND)]);
    assert_eq!(compiled.errors, vec!["a".to_string(), "b".to_string()]);
    assert_eq!(compiled.found_index, None);
    assert_eq!(compiled.elapsed, None);
    assert_eq!(compiled.score, None);
}

#[test]
fn test_compile_all_found_no_drop_ranges() {
    let compiler = BenchResultCompiler::new(SECOND, 0, 1);
    let compiled = compiler.compile(&vec![found(4, 7), found(1, 9), found(2, 3)]);
    assert_eq!(compiled.errors, Vec::<String>::new());
    assert_eq!(compiled.found_index, Some(ValueRange { start: 1, end: 4 }));
    assert_eq!(compiled.elapsed, Some(ValueRange { start: 3, end: 9 }));
    // The mean score, rounded down to whole nanoseconds.
    assert_eq!(compiled.score, Some((7 * SECOND + 19) / 3));
}

#[test]
fn test_is_better_than_and_difference() {
    let compiler = BenchResultCompiler::new(0, 0, 1);
    let fast = compiler.compile(&vec![found(0, 1 * SECOND)]);
    let slow = compiler.compile(&vec![found(0, 3 * SECOND)]);
    let lost = compiler.compile(&vec![not_found(9 * SECOND)]);

    assert!(fast.is_better_than(&slow));
    assert!(!slow.is_better_than(&fast));
    assert!(!fast.is_better_than(&fast));
    assert!(slow.is_better_than(&lost));
    assert!(!lost.is_better_than(&slow));
    assert!(!lost.is_better_than(&lost));

    assert_eq!(
        fast.difference(&slow),
        ScoreDifference::Finite(-(2 * SECOND as i128))
    );
    assert_eq!(
        slow.difference(&fast),
        ScoreDifference::Finite(2 * SECOND as i128)
    );
    assert_eq!(fast.difference(&lost), ScoreDifference::NegativeInfinite);
    assert_eq!(lost.difference(&fast), ScoreDifference::PositiveInfinite);
    assert_eq!(lost.difference(&lost), ScoreDifference::Finite(0));
}

#[test]
fn test_outcome_order_found_before_not_found_before_errored() {
    // Sorting by score puts Found first whatever the elapsed values: a
    // Found trial with a huge elapsed still beats NotFound and Errored.
    let compiler = BenchResultCompiler::new(0, 0, 1);
    let compiled = compiler.compile(&vec![
        errored("x", 1),
        found(5, 100 * SECOND),
        not_found(1),
    ]);
    // Only the Found outcome is finite, so ranges come from it alone.
    assert_eq!(compiled.found_index, Some(ValueRange { start: 5, end: 5 }));
    assert_eq!(
        compiled.elapsed,
        Some(ValueRange {
            start: 100 * SECOND,
            end: 100 * SECOND
        })
    );
    assert_eq!(compiled.score, None);
}

#[test]
fn test_bench_result_is_found_cases() {
    assert!(found(0, 5).is_found());
    assert!(!not_found(5).is_found());
    assert!(!errored("nope", 5).is_found());
}
