use hn_stat::freq::{compute_distinct, count_entries, FreqTable};
use hn_stat::rank::compute_top;
use hn_stat::record::{parse_line, parse_lines};
use hn_stat::window::{filter_window, Window};

fn lines_of(raw: &[&str]) -> Vec<String> {
    raw.iter().map(|s| s.to_string()).collect()
}

fn no_window() -> Window {
    Window { from: None, to: None }
}

fn table_for(raw: &[&str], w: &Window) -> FreqTable {
    count_entries(&lines_of(raw), w)
}

const SAMPLE: [&str; 4] = ["10\tA", "20\tB", "20\tA", "30\tC"];

#[test]
fn sample_distinct_no_window() {
    let table = table_for(&SAMPLE, &no_window());
    assert_eq!(compute_distinct(&table), 3);
}

#[test]
fn sample_top_two_no_window() {
    let table = table_for(&SAMPLE, &no_window());
    let top = compute_top(table, 2);
    assert_eq!(top.len(), 2);
    assert_eq!(top[0].url, "A");
    assert_eq!(top[0].count, 2);
    assert_eq!(top[1].url, "C");
    assert_eq!(top[1].count, 1);
}

#[test]
fn sample_windowed_distinct() {
    let w = Window { from: Some(15), to: Some(25) };
    let table = table_for(&SAMPLE, &w);
    assert_eq!(compute_distinct(&table), 2);
}

#[test]
fn sample_windowed_top_five() {
    let w = Window { from: Some(15), to: Some(25) };
    let table = table_for(&SAMPLE, &w);
    let top = compute_top(table, 5);
    assert_eq!(top.len(), 2);
    assert_eq!(top[0].url, "B");
    assert_eq!(top[0].count, 1);
    assert_eq!(top[1].url, "A");
    assert_eq!(top[1].count, 1);
}

#[test]
fn boundaries_are_inclusive() {
    let raw = ["9\ta", "10\tb", "20\tc", "21\td"];
    let w = Window { from: Some(10), to: Some(20) };
    let table = table_for(&raw, &w);
    assert_eq!(compute_distinct(&table), 2);
    let top = compute_top(table, 10);
    let urls: Vec<&str> = top.iter().map(|e| e.url.as_str()).collect();
    assert!(urls.contains(&"b"));
    assert!(urls.contains(&"c"));
    assert!(!urls.contains(&"a"));
    assert!(!urls.contains(&"d"));
}

#[test]
fn point_window_keeps_exact_timestamp() {
    let raw = ["19\ta", "20\tb", "21\tc"];
    let w = Window { from: Some(20), to: Some(20) };
    let table = table_for(&raw, &w);
    assert_eq!(compute_distinct(&table), 1);
    let top = compute_top(table, 3);
    assert_eq!(top.len(), 1);
    assert_eq!(top[0].url, "b");
}

#[test]
fn empty_input_yields_zero_and_empty() {
    let table = count_entries(&Vec::new(), &no_window());
    assert_eq!(compute_distinct(&table), 0);
    let table = count_entries(&Vec::new(), &no_window());
    assert_eq!(compute_top(table, 7).len(), 0);
}

#[test]
fn malformed_lines_are_skipped() {
    let raw = [
        "notanumber\tA",
        "10 A",
        "",
        "-3\tB",
        "18446744073709551616\tB",
        "18446744073709551615\tC",
        "+7\tD",
        "12\tE\textra\tfields",
    ];
    let table = table_for(&raw, &no_window());
    assert_eq!(compute_distinct(&table), 3);
    let top = compute_top(table, 10);
    let urls: Vec<&str> = top.iter().map(|e| e.url.as_str()).collect();
    assert!(urls.contains(&"C"));
    assert!(urls.contains(&"D"));
    assert!(urls.contains(&"E"));
}

#[test]
fn ties_break_reverse_lexicographically() {
    let raw = ["1\talpha", "2\tbeta", "3\tgamma"];
    let table = table_for(&raw, &no_window());
    let top = compute_top(table, 3);
    assert_eq!(top[0].url, "gamma");
    assert_eq!(top[1].url, "beta");
    assert_eq!(top[2].url, "alpha");
}

#[test]
fn counts_rank_before_tie_break() {
    let raw = ["1\tzz", "2\taa", "3\taa"];
    let table = table_for(&raw, &no_window());
    let top = compute_top(table, 2);
    assert_eq!(top[0].url, "aa");
    assert_eq!(top[0].count, 2);
    assert_eq!(top[1].url, "zz");
    assert_eq!(top[1].count, 1);
}

#[test]
fn top_zero_is_empty() {
    let table = table_for(&SAMPLE, &no_window());
    assert_eq!(compute_top(table, 0).len(), 0);
}

#[test]
fn top_larger_than_table_returns_all() {
    let table = table_for(&SAMPLE, &no_window());
    let top = compute_top(table, 100);
    assert_eq!(top.len(), 3);
}

#[test]
fn inverted_window_admits_nothing() {
    let w = Window { from: Some(25), to: Some(15) };
    let table = table_for(&SAMPLE, &w);
    assert_eq!(compute_distinct(&table), 0);
}

#[test]
fn parse_line_accepts_valid_record() {
    let rec = parse_line("10\thttp://example.com/a?b=1").expect("valid line");
    assert_eq!(rec.ts, 10);
    assert_eq!(rec.url, "http://example.com/a?b=1");
}

#[test]
fn parse_line_takes_second_field_only() {
    let rec = parse_line("7\tB\tignored").expect("valid line");
    assert_eq!(rec.ts, 7);
    assert_eq!(rec.url, "B");
}

#[test]
fn parse_line_keeps_url_verbatim() {
    let rec = parse_line("5\tcaf\u{e9}/\u{2615}").expect("valid line");
    assert_eq!(rec.ts, 5);
    assert_eq!(rec.url, "caf\u{e9}/\u{2615}");
}

#[test]
fn parse_line_allows_empty_url() {
    let rec = parse_line("3\t").expect("valid line");
    assert_eq!(rec.ts, 3);
    assert_eq!(rec.url, "");
}

#[test]
fn parse_line_rejects_missing_tab() {
    assert!(parse_line("10").is_none());
    assert!(parse_line("10 A").is_none());
}

#[test]
fn parse_line_rejects_bad_timestamp() {
    assert!(parse_line("\tA").is_none());
    assert!(parse_line("x\tA").is_none());
    assert!(parse_line("-1\tA").is_none());
    assert!(parse_line("1.5\tA").is_none());
    assert!(parse_line("+\tA").is_none());
    assert!(parse_line("18446744073709551616\tA").is_none());
}

#[test]
fn parse_line_accepts_extreme_timestamps() {
    assert_eq!(parse_line("0\tA").expect("valid").ts, 0);
    assert_eq!(parse_line("18446744073709551615\tA").expect("valid").ts, u64::MAX);
    assert_eq!(parse_line("+42\tA").expect("valid").ts, 42);
    assert_eq!(parse_line("007\tA").expect("valid").ts, 7);
}

#[test]
fn filter_then_aggregate_matches_counts() {
    let recs = parse_lines(&lines_of(&["1\ta", "2\ta", "3\tb", "4\ta"]));
    let w = Window { from: Some(2), to: None };
    let kept = filter_window(recs, &w);
    assert_eq!(kept.len(), 3);
    let table = count_entries(&lines_of(&["1\ta", "2\ta", "3\tb", "4\ta"]), &w);
    let top = compute_top(table, 10);
    assert_eq!(top[0].url, "a");
    assert_eq!(top[0].count, 2);
    assert_eq!(top[1].url, "b");
    assert_eq!(top[1].count, 1);
}

#[test]
fn same_input_twice_gives_identical_results() {
    let w = Window { from: Some(15), to: None };
    let t1 = table_for(&SAMPLE, &w);
    let t2 = table_for(&SAMPLE, &w);
    assert_eq!(compute_distinct(&t1), compute_distinct(&t2));
    let top1 = compute_top(t1, 3);
    let top2 = compute_top(t2, 3);
    assert_eq!(top1.len(), top2.len());
    for (a, b) in top1.iter().zip(top2.iter()) {
        assert_eq!(a.url, b.url);
        assert_eq!(a.count, b.count);
    }
}

#[test]
fn unbounded_window_admits_everything() {
    let w = Window::unbounded();
    assert!(w.admits(0));
    assert!(w.admits(u64::MAX));
    let w = Window { from: Some(0), to: Some(u64::MAX) };
    assert!(w.admits(0));
    assert!(w.admits(u64::MAX));
}
