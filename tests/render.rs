use std::collections::VecDeque;

use metrics_observer_text::key::{key_to_parts, MetricKey};
use metrics_observer_text::observer::{hist_to_values, same_key, single_value_to_values, TextObserver};
use metrics_observer_text::text::{format_i64, format_u64, indent};
use metrics_observer_text::tree::{compare_text, MetricsTree, SortEntry};

fn key(name: &str) -> MetricKey {
    MetricKey { name: name.to_string(), labels: Vec::new() }
}

fn tagged(name: &str, tags: &[(&str, &str)]) -> MetricKey {
    MetricKey {
        name: name.to_string(),
        labels: tags.iter().map(|(k, v)| (k.to_string(), v.to_string())).collect(),
    }
}

fn default_observer() -> TextObserver {
    TextObserver::new(metrics_util::parse_quantiles(&[0.0, 0.5, 0.9, 0.95, 0.99, 0.999, 1.0]))
}

#[test]
fn nested_counters_render_under_their_segment() {
    let mut o = default_observer();
    o.observe_counter(key("server.msgs_received"), 42);
    o.observe_counter(key("server.msgs_sent"), 13);
    assert_eq!(o.drain(), "server:\n  msgs_received: 42\n  msgs_sent: 13\n");
}

#[test]
fn root_counter_sorts_among_segments() {
    let mut o = default_observer();
    o.observe_counter(key("server.msgs_received"), 42);
    o.observe_counter(key("server.msgs_sent"), 13);
    o.observe_counter(key("configuration_reloads"), 2);
    assert_eq!(
        o.drain(),
        "configuration_reloads: 2\nserver:\n  msgs_received: 42\n  msgs_sent: 13\n"
    );
}

#[test]
fn histogram_lines_follow_quantile_order() {
    let labels: Vec<String> = ["min", "p50", "p90", "p95", "p99", "p999", "max"]
        .iter()
        .map(|l| l.to_string())
        .collect();
    let lines = hist_to_values(&"connect_time".to_string(), 6, &labels, &vec![1334, 1934, 5330, 5330, 139389, 139389, 139389]);
    let heads: Vec<&str> = lines.iter().map(|l| l.split(':').next().unwrap()).collect();
    assert_eq!(
        heads,
        vec![
            "connect_time count",
            "connect_time min",
            "connect_time p50",
            "connect_time p90",
            "connect_time p95",
            "connect_time p99",
            "connect_time p999",
            "connect_time max",
        ]
    );

    let mut o = default_observer();
    assert!(o.observe_histogram(key("connect_time"), &[1334, 1500, 1934, 2200, 5330, 139389]));
    let out = o.drain();
    let rendered: Vec<&str> = out.lines().map(|l| l.split(':').next().unwrap()).collect();
    // Rendering sorts the lines of a level by their text.
    assert_eq!(
        rendered,
        vec![
            "connect_time count",
            "connect_time max",
            "connect_time min",
            "connect_time p50",
            "connect_time p90",
            "connect_time p95",
            "connect_time p999",
            "connect_time p99",
        ]
    );
    assert!(out.starts_with("connect_time count: 6\n"));
    assert!(out.contains("\nconnect_time min: 1334\n"));
}

#[test]
fn histogram_observations_merge_per_identity() {
    let mut o = TextObserver::new(metrics_util::parse_quantiles(&[0.0]));
    assert!(o.observe_histogram(key("db.query"), &[5, 7]));
    assert!(o.observe_histogram(key("db.query"), &[3]));
    assert_eq!(o.histos.len(), 1);
    assert_eq!(o.drain(), "db:\n  query count: 3\n  query min: 3\n");
}

#[test]
fn tagged_metrics_stay_distinct() {
    let mut o = default_observer();
    o.observe_counter(tagged("requests", &[("method", "GET")]), 5);
    o.observe_counter(tagged("requests", &[("method", "POST")]), 2);
    assert_eq!(
        o.drain(),
        "requests{method=\"GET\"}: 5\nrequests{method=\"POST\"}: 2\n"
    );
}

#[test]
fn second_drain_is_empty() {
    let mut o = default_observer();
    o.observe_counter(key("a.b"), 1);
    assert!(o.observe_histogram(key("h"), &[10]));
    assert!(!o.drain().is_empty());
    assert_eq!(o.drain(), "");
}

#[test]
fn empty_observer_renders_nothing() {
    let mut o = default_observer();
    assert_eq!(o.drain(), "");
}

#[test]
fn repeated_counter_appends_lines() {
    let mut o = default_observer();
    o.observe_counter(key("hits"), 1);
    o.observe_counter(key("hits"), 2);
    assert_eq!(o.drain(), "hits: 1\nhits: 2\n");
}

#[test]
fn negative_gauge_keeps_sign() {
    let mut o = default_observer();
    o.observe_gauge(key("pool.free"), -5);
    o.observe_gauge(key("pool.used"), 7);
    assert_eq!(o.drain(), "pool:\n  free: -5\n  used: 7\n");
}

#[test]
fn deep_paths_indent_two_spaces_per_level() {
    let mut o = default_observer();
    o.observe_counter(key("a.b.c.d"), 9);
    o.observe_counter(key("a.x"), 1);
    // A line keeps its indentation in its sort key, so it precedes segment names.
    assert_eq!(o.drain(), "a:\n  x: 1\n  b:\n    c:\n      d: 9\n");
}

#[test]
fn key_parts_split_path_and_tags() {
    let (parts, name) = key_to_parts(tagged("a.b.leaf", &[("k1", "v1"), ("k2", "v2")]));
    assert_eq!(parts, VecDeque::from(vec!["a".to_string(), "b".to_string()]));
    assert_eq!(name, "leaf{k1=\"v1\",k2=\"v2\"}");
    let (parts, name) = key_to_parts(key("plain"));
    assert!(parts.is_empty());
    assert_eq!(name, "plain");
    let (parts, name) = key_to_parts(key("a..b."));
    assert_eq!(parts, VecDeque::from(vec!["a".to_string(), String::new(), "b".to_string()]));
    assert_eq!(name, "");
}

#[test]
fn decimal_formatting() {
    assert_eq!(format_u64(0), "0");
    assert_eq!(format_u64(139389), "139389");
    assert_eq!(format_u64(u64::MAX), "18446744073709551615");
    assert_eq!(format_i64(-42), "-42");
    assert_eq!(format_i64(i64::MIN), "-9223372036854775808");
    assert_eq!(indent(3), "      ");
    assert_eq!(indent(0), "");
}

#[test]
fn text_comparison_orders_by_code_point() {
    assert!(compare_text("abc", "abd") < 0);
    assert!(compare_text("ab", "abc") < 0);
    assert!(compare_text("b", "abc") > 0);
    assert_eq!(compare_text("same", "same"), 0);
    assert!(compare_text("Z", "a") < 0);
}

#[test]
fn formatted_lines() {
    assert_eq!(single_value_to_values("x".to_string(), "7".to_string()), vec!["x: 7".to_string()]);
    let lines = hist_to_values(
        &"lat".to_string(),
        4,
        &vec!["min".to_string(), "p50".to_string()],
        &vec![1, 20],
    );
    assert_eq!(lines, vec!["lat count: 4", "lat min: 1", "lat p50: 20"]);
}

#[test]
fn identities_compare_name_and_tags() {
    assert!(same_key(&tagged("a", &[("k", "v")]), &tagged("a", &[("k", "v")])));
    assert!(!same_key(&tagged("a", &[("k", "v")]), &tagged("a", &[("k", "w")])));
    assert!(!same_key(&key("a"), &tagged("a", &[("k", "v")])));
    assert!(!same_key(&key("a"), &key("b")));
}

#[test]
fn tree_insert_and_render() {
    let mut t = MetricsTree::with_level(0);
    let mut vals = vec!["z: 1".to_string(), "a: 2".to_string()];
    t.insert(VecDeque::new(), &mut vals);
    t.insert(VecDeque::from(vec!["m".to_string()]), &mut vec!["k: 3".to_string()]);
    assert_eq!(vals, vec!["z: 1".to_string(), "a: 2".to_string()]);
    assert_eq!(t.current, vec!["z: 1".to_string(), "a: 2".to_string()]);
    assert_eq!(t.next.len(), 1);
    assert_eq!(t.next[0].1.current, vec!["  k: 3".to_string()]);
    assert_eq!(t.render(), "a: 2\nm:\n  k: 3\nz: 1\n");
    assert!(t.current.is_empty() && t.next.is_empty());
    assert_eq!(t.render(), "");
}

#[test]
fn line_sorts_before_segment_of_same_name() {
    let mut t = MetricsTree::with_level(0);
    t.insert(VecDeque::from(vec!["b".to_string()]), &mut vec!["c: 1".to_string()]);
    t.insert(VecDeque::new(), &mut vec!["b".to_string()]);
    assert_eq!(t.render(), "b\nb:\n  c: 1\n");
}

#[test]
fn sort_entry_names() {
    assert_eq!(SortEntry::Inline("x: 1".to_string()).name(), "x: 1");
    assert_eq!(SortEntry::Nested("seg".to_string(), MetricsTree::with_level(1)).name(), "seg");
}

#[test]
fn quantile_labels_from_fractions() {
    let qs = metrics_util::parse_quantiles(&[0.0, 1.0, 0.5, 0.95, 0.99, 0.999]);
    let labels: Vec<&str> = qs.iter().map(|q| q.label()).collect();
    assert_eq!(labels, vec!["min", "max", "p50", "p95", "p99", "p999"]);
}

#[test]
fn histogram_lines_inserted_under_path() {
    let mut o = TextObserver::new(Vec::new());
    o.insert_histogram_lines(
        tagged("net.rtt", &[("peer", "a")]),
        2,
        &vec!["min".to_string(), "max".to_string()],
        &vec![3, 9],
    );
    assert_eq!(
        o.drain(),
        "net:\n  rtt{peer=\"a\"} count: 2\n  rtt{peer=\"a\"} max: 9\n  rtt{peer=\"a\"} min: 3\n"
    );
}

#[test]
fn two_observations_of_one_histogram_give_one_count() {
    let mut o = TextObserver::new(metrics_util::parse_quantiles(&[]));
    assert!(o.observe_histogram(key("h"), &[1, 2]));
    assert!(o.observe_histogram(key("h"), &[3]));
    assert_eq!(o.drain(), "h count: 3\n");
}

#[test]
fn other_histograms_keep_their_samples() {
    let mut o = TextObserver::new(metrics_util::parse_quantiles(&[1.0]));
    assert!(o.observe_histogram(key("a"), &[4]));
    assert!(o.observe_histogram(key("b"), &[]));
    assert!(o.observe_histogram(key("a"), &[6]));
    assert_eq!(o.histos.len(), 2);
    assert_eq!(o.drain(), "a count: 2\na max: 6\nb count: 0\nb max: 0\n");
}
