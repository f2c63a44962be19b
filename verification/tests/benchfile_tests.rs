use buscaluso_bench::bench_line;

fn words(ws: &[&str]) -> Vec<String> {
    ws.iter().map(|w| w.to_string()).collect()
}

#[test]
fn test_simple() {
    assert_eq!(
        bench_line("bulacha = bolacha"),
        Ok(Some((words(&["bulacha"]), vec![words(&["bolacha"])])))
    );
}

#[test]
fn test_unicode() {
    assert_eq!(
        bench_line("assõ = ação"),
        Ok(Some((words(&["assõ"]), vec![words(&["ação"])])))
    );
}

#[test]
fn test_multiple_starting_words() {
    assert_eq!(
        bench_line("abc, def , ghi = xyz"),
        Ok(Some((words(&["abc", "def", "ghi"]), vec![words(&["xyz"])])))
    );
}

#[test]
fn test_target_options() {
    assert_eq!(
        bench_line("start = one | two"),
        Ok(Some((words(&["start"]), vec![words(&["one", "two"])])))
    );
}

#[test]
fn test_multiple_targets() {
    assert_eq!(
        bench_line("start = one, two"),
        Ok(Some((
            words(&["start"]),
            vec![words(&["one"]), words(&["two"])]
        )))
    );
}

#[test]
fn test_multiple_targets_with_options() {
    assert_eq!(
        bench_line("start = one, two | three"),
        Ok(Some((
            words(&["start"]),
            vec![words(&["one"]), words(&["two", "three"])]
        )))
    );
}

#[test]
fn test_blank_lines() {
    for line in ["", " ", "   "] {
        assert_eq!(bench_line(line), Ok(None));
    }
}

#[test]
fn test_comment_line() {
    for line in [";", ";comment", " ; yep  "] {
        assert_eq!(bench_line(line), Ok(None));
    }
}

#[test]
fn test_comment_after_content() {
    assert_eq!(
        bench_line("start = one, two ;, three | four"),
        Ok(Some((
            words(&["start"]),
            vec![words(&["one"]), words(&["two"])]
        )))
    );
}

#[test]
fn test_malformed_lines() {
    assert!(bench_line("just a word").is_err());
    assert!(bench_line("a =").is_err());
    assert!(bench_line("= b").is_err());
    assert!(bench_line("a = b,").is_err());
    assert!(bench_line("a = b | ").is_err());
}

#[test]
fn test_tabs_around_separators() {
    assert_eq!(
        bench_line("\ta ,b\t= c\t|\td ; done"),
        Ok(Some((words(&["a", "b"]), vec![words(&["c", "d"])])))
    );
}
