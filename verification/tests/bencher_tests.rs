use buscaluso_bench::BenchError;
use buscaluso_bench::BenchResult;
use buscaluso_bench::BenchRunner;
use buscaluso_bench::Bencher;
use buscaluso_bench::set_bench_name;
use buscaluso_bench::set_unaccented;
use buscaluso_bench::bencher::canonical_group;

fn words(ws: &[&str]) -> Vec<String> {
    ws.iter().map(|w| w.to_string()).collect()
}

#[test]
fn test_bench_runner_is_done() {
    let mut runner = BenchRunner::new();
    assert!(runner.is_done());
    runner.add_targets(&words(&["s"]));
    assert!(!runner.is_done());
}

#[test]
fn test_bench_runner_on_word_found_empty() {
    let word = "word";
    let hits = BenchRunner::new().on_word_found(word);
    assert!(hits.is_empty());
}

#[test]
fn test_bench_runner_on_word_found_different() {
    let mut runner = BenchRunner::new();
    runner.add_targets(&words(&["s"]));
    let word = "word";
    let hits = BenchRunner::new().on_word_found(word);
    assert!(hits.is_empty());
}

#[test]
fn test_bench_runner_on_word_found() {
    let mut runner = BenchRunner::new();
    runner.add_targets(&words(&["word"]));
    runner.on_word_found("word");
    assert!(runner.is_done());
}

#[test]
fn test_bench_runner_group_closes_on_first_member() {
    // A target-group closes on whichever of its words comes first in the
    // candidate stream; unrelated words leave it pending.
    let mut runner = BenchRunner::new();
    runner.add_targets(&words(&["a", "b"]));
    assert!(runner.on_word_found("x").is_empty());
    assert!(!runner.is_done());
    let hits = runner.on_word_found("b");
    assert_eq!(hits, vec![words(&["a", "b"])]);
    assert!(runner.is_done());
    assert!(runner.on_word_found("a").is_empty());
}

#[test]
fn test_bench_runner_one_word_closes_several_groups() {
    let mut runner = BenchRunner::new();
    runner.add_targets(&words(&["a", "b"]));
    runner.add_targets(&words(&["b", "c"]));
    runner.add_targets(&words(&["d"]));
    let hits = runner.on_word_found("b");
    assert_eq!(hits, vec![words(&["a", "b"]), words(&["b", "c"])]);
    assert!(!runner.is_done());
}

#[test]
fn test_set_unaccented_already_unaccented() {
    let mut unaccented = String::new();
    let word = "simple";
    set_unaccented(word, &mut unaccented);
    assert_eq!(unaccented, word);
}

#[test]
fn test_set_unaccented() {
    let mut unaccented = String::new();
    set_unaccented("âéïõù", &mut unaccented);
    assert_eq!(unaccented, "aeiou");
}

#[test]
fn test_set_bench_name() {
    let mut bench_name = String::new();
    set_bench_name(&mut bench_name, "word", &words(&["target"]));
    assert_eq!(bench_name, "word = target");
    set_bench_name(&mut bench_name, "x", &words(&["a", "b"]));
    assert_eq!(bench_name, "x = a | b");
    set_bench_name(&mut bench_name, "y", &words(&["a", "b", "c"]));
    assert_eq!(bench_name, "y = a | b | c");
}

#[test]
fn test_set_bench_name_canonical_order() {
    let mut bench_name1 = String::new();
    let mut bench_name2 = String::new();
    set_bench_name(
        &mut bench_name1,
        "does",
        &canonical_group(&words(&["this", "work"])),
    );
    set_bench_name(
        &mut bench_name2,
        "does",
        &canonical_group(&words(&["work", "this"])),
    );
    assert_eq!(bench_name1, bench_name2);
}

#[test]
fn test_add_bench_rejects_empty_group() {
    let mut bencher = Bencher::new();
    assert_eq!(
        bencher.add_bench("x", &Vec::new()),
        Err(BenchError::EmptyTargets)
    );
    assert!(bencher.get_results().is_empty());
}

#[test]
fn test_add_bench_idempotent() {
    let mut bencher = Bencher::new();
    bencher.add_bench("x", &words(&["b", "a"])).unwrap();
    bencher.add_bench("x", &words(&["a", "b", "a"])).unwrap();
    bencher.record_not_found("x", &words(&["a", "b"]), 7);
    let rows = bencher.get_results();
    assert_eq!(rows.len(), 1);
    assert_eq!(rows[0].0, "x = a | b");
}

#[test]
fn test_record_success_and_clear_successes() {
    let mut bencher = Bencher::new();
    bencher.add_bench("one", &words(&["three", "two"])).unwrap();
    bencher.record_success("one", &words(&["three", "two"]), 4, 11);
    bencher.record_not_found("one", &words(&["two", "three"]), 22);
    let rows = bencher.get_results();
    assert_eq!(rows.len(), 2);
    assert_eq!(rows[0].0, "one = three | two");
    assert_eq!(rows[0].1, BenchResult::success(4, 11));

    bencher.clear_successes();
    let rows = bencher.get_results();
    assert_eq!(rows.len(), 1);
    assert_eq!(
        rows[0].1,
        BenchResult {
            found_index: Ok(None),
            elapsed: 22
        }
    );

    bencher.clear_results();
    assert!(bencher.get_results().is_empty());
}

#[test]
fn test_engine_failure_hits_every_registered_group() {
    // Two target-groups are registered under the start word; the engine
    // failure is recorded for both, even though only one was scheduled.
    let mut bencher = Bencher::new();
    bencher.add_bench("x", &words(&["a"])).unwrap();
    bencher.add_bench("x", &words(&["b"])).unwrap();
    // Give the first group enough failures that the skip heuristic drops it.
    bencher.record_not_found("x", &words(&["a"]), 1);
    let runner = bencher.runner_for_word("x", 1);
    assert!(!runner.is_done());
    assert_eq!(runner.remaining_targets, vec![words(&["b"])]);

    bencher.record_engine_failure("x", "engine refused the word", 9);
    let rows = bencher.get_results();
    assert_eq!(rows.len(), 3);
    let errored: Vec<&(String, BenchResult)> = rows
        .iter()
        .filter(|row| row.1.found_index == Err("engine refused the word".to_string()))
        .collect();
    assert_eq!(errored.len(), 2);
    assert_eq!(errored[0].0, "x = a");
    assert_eq!(errored[1].0, "x = b");
    assert_eq!(errored[0].1.elapsed, 9);
}

#[test]
fn test_skip_heuristic() {
    let mut bencher = Bencher::new();
    bencher.add_bench("w", &words(&["lost"])).unwrap();
    bencher.add_bench("w", &words(&["won"])).unwrap();
    // Two failures each; "won" also has one success.
    bencher.record_not_found("w", &words(&["lost"]), 1);
    bencher.record_not_found("w", &words(&["lost"]), 2);
    bencher.record_not_found("w", &words(&["won"]), 1);
    bencher.record_success("w", &words(&["won"]), 0, 2);

    // Threshold 2: "lost" is hopeless, "won" keeps being scheduled.
    let runner = bencher.runner_for_word("w", 2);
    assert_eq!(runner.remaining_targets, vec![words(&["won"])]);
    // Threshold 3: both still qualify.
    let runner = bencher.runner_for_word("w", 3);
    assert_eq!(
        runner.remaining_targets,
        vec![words(&["lost"]), words(&["won"])]
    );
    // An unknown word schedules nothing.
    let runner = bencher.runner_for_word("other", 3);
    assert!(runner.is_done());
}

#[test]
fn test_load_benches_registers_unaccented_variant() {
    let mut bencher = Bencher::new();
    bencher
        .load_benches(&vec!["café = x".to_string()])
        .unwrap();
    assert!(!bencher.runner_for_word("café", 1).is_done());
    assert!(!bencher.runner_for_word("cafe", 1).is_done());
    let rows_before = bencher.get_results();
    assert!(rows_before.is_empty());
    bencher.record_not_found("cafe", &words(&["x"]), 3);
    assert_eq!(bencher.get_results().len(), 1);
}

#[test]
fn test_load_benches_parse_error_line_number() {
    let mut bencher = Bencher::new();
    let lines = vec![
        "a = b".to_string(),
        "; fine".to_string(),
        "broken line!".to_string(),
    ];
    assert_eq!(
        bencher.load_benches(&lines),
        Err(BenchError::ParseErr {
            line_no: 3,
            text: "broken line!".to_string()
        })
    );
    // The first line is already registered.
    assert!(!bencher.runner_for_word("a", 1).is_done());
}

#[test]
fn test_shuffled_start_words_is_permutation() {
    let mut bencher = Bencher::new();
    bencher.add_bench("x", &words(&["a"])).unwrap();
    bencher.add_bench("y", &words(&["a"])).unwrap();
    bencher.add_bench("z", &words(&["a"])).unwrap();
    let mut shuffled = bencher.shuffled_start_words();
    shuffled.sort();
    assert_eq!(shuffled, words(&["x", "y", "z"]));
}
