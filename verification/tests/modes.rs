use charfreq::count::create_counter;
use charfreq::order::order_entries;
use charfreq::order::resolve_sort_key;
use charfreq::order::SortKey;
use charfreq::pipeline::run_pipeline;
use charfreq::present::select_mode;
use charfreq::present::DisplayMode;

#[test]
fn whitespace_is_excluded_from_output() {
    let lines = run_pipeline("a b c", SortKey::ByChar, DisplayMode::Plain);
    assert_eq!(lines, vec!["a: 1".to_string(), "b: 1".to_string(), "c: 1".to_string()]);
}

#[test]
fn by_count_orders_hello_world() {
    let lines = run_pipeline("hello world", SortKey::ByCount, DisplayMode::Plain);
    let expected = vec![
        "l: 3".to_string(),
        "o: 2".to_string(),
        "d: 1".to_string(),
        "e: 1".to_string(),
        "h: 1".to_string(),
        "r: 1".to_string(),
        "w: 1".to_string(),
    ];
    assert_eq!(lines, expected);
}

#[test]
fn empty_input_yields_no_lines() {
    let lines = run_pipeline("", SortKey::ByChar, DisplayMode::Plain);
    assert!(lines.is_empty());
}

#[test]
fn top_one_of_aaa() {
    let lines = run_pipeline("aaa", SortKey::ByChar, DisplayMode::TopN(1));
    assert_eq!(lines, vec!["a: 3".to_string()]);
}

#[test]
fn top_zero_emits_nothing() {
    let lines = run_pipeline("abc", SortKey::ByChar, DisplayMode::TopN(0));
    assert!(lines.is_empty());
}

#[test]
fn top_n_is_capped_by_distinct_count() {
    let lines = run_pipeline("abc", SortKey::ByChar, DisplayMode::TopN(10));
    assert_eq!(lines.len(), 3);
}

#[test]
fn unicode_scalars_count_separately() {
    let lines = run_pipeline(
        "\u{e9}\u{2615}",
        SortKey::ByChar,
        DisplayMode::Plain,
    );
    assert_eq!(lines, vec!["\u{e9}: 1".to_string(), "\u{2615}: 1".to_string()]);
}

#[test]
fn percentage_of_three_quarters() {
    let lines = run_pipeline("aaab", SortKey::ByChar, DisplayMode::Percentage);
    assert_eq!(lines, vec!["a: 75.00".to_string(), "b: 25.00".to_string()]);
}

#[test]
fn percentage_of_hello_world_sums_to_hundred() {
    let lines = run_pipeline("hello world", SortKey::ByCount, DisplayMode::Percentage);
    let expected = vec![
        "l: 30.00".to_string(),
        "o: 20.00".to_string(),
        "d: 10.00".to_string(),
        "e: 10.00".to_string(),
        "h: 10.00".to_string(),
        "r: 10.00".to_string(),
        "w: 10.00".to_string(),
    ];
    assert_eq!(lines, expected);
}

#[test]
fn percentage_of_thirds_rounds_down() {
    let lines = run_pipeline("abc", SortKey::ByChar, DisplayMode::Percentage);
    assert_eq!(
        lines,
        vec!["a: 33.33".to_string(), "b: 33.33".to_string(), "c: 33.33".to_string()]
    );
}

#[test]
fn percentage_of_empty_input_is_empty() {
    let lines = run_pipeline("", SortKey::ByChar, DisplayMode::Percentage);
    assert!(lines.is_empty());
}

#[test]
fn thresholds_partition_the_entries() {
    let text = "aabbbc";
    let more = run_pipeline(text, SortKey::ByChar, DisplayMode::MoreThan(2));
    let less = run_pipeline(text, SortKey::ByChar, DisplayMode::LessThan(2));
    let exact = run_pipeline(text, SortKey::ByChar, DisplayMode::ExactlyN(2));
    assert_eq!(more, vec!["b: 3".to_string()]);
    assert_eq!(less, vec!["c: 1".to_string()]);
    assert_eq!(exact, vec!["a: 2".to_string()]);
    let all = run_pipeline(text, SortKey::ByChar, DisplayMode::Plain);
    assert_eq!(more.len() + less.len() + exact.len(), all.len());
}

#[test]
fn more_than_zero_keeps_everything() {
    let lines = run_pipeline("abc", SortKey::ByChar, DisplayMode::MoreThan(0));
    assert_eq!(lines.len(), 3);
}

#[test]
fn counting_twice_gives_identical_maps() {
    let first = create_counter("mississippi");
    let second = create_counter("mississippi");
    assert_eq!(first.entries(), second.entries());
}

#[test]
fn by_char_ordering_is_strictly_ascending() {
    let m = create_counter("the quick brown fox");
    let entries = order_entries(&m, SortKey::ByChar);
    for w in entries.windows(2) {
        assert!((w[0].0 as u32) < (w[1].0 as u32));
    }
}

#[test]
fn by_count_ordering_is_non_increasing() {
    let m = create_counter("abracadabra");
    let entries = order_entries(&m, SortKey::ByCount);
    for w in entries.windows(2) {
        assert!(w[0].1 >= w[1].1);
    }
    assert_eq!(entries[0], ('a', 5));
}

#[test]
fn counts_sum_to_non_whitespace_length() {
    let text = "ab ba\tc\nc";
    let m = create_counter(text);
    let total: usize = order_entries(&m, SortKey::ByChar).iter().map(|e| e.1).sum();
    let non_ws = text.chars().filter(|c| !c.is_whitespace()).count();
    assert_eq!(total, non_ws);
}

#[test]
fn missing_sort_key_defaults_to_by_char() {
    assert_eq!(resolve_sort_key(None), SortKey::ByChar);
    assert_eq!(resolve_sort_key(Some(SortKey::ByCount)), SortKey::ByCount);
    assert_eq!(resolve_sort_key(Some(SortKey::ByChar)), SortKey::ByChar);
}

#[test]
fn mode_selection_follows_precedence() {
    assert_eq!(
        select_mode(true, Some(3), Some(1), None, None),
        DisplayMode::Percentage
    );
    assert_eq!(
        select_mode(false, Some(2), Some(1), Some(4), Some(5)),
        DisplayMode::TopN(2)
    );
    assert_eq!(
        select_mode(false, None, Some(1), Some(4), Some(5)),
        DisplayMode::MoreThan(1)
    );
    assert_eq!(
        select_mode(false, None, None, Some(4), Some(5)),
        DisplayMode::LessThan(4)
    );
    assert_eq!(select_mode(false, None, None, None, Some(5)), DisplayMode::ExactlyN(5));
    assert_eq!(select_mode(false, None, None, None, None), DisplayMode::Plain);
}
