use dragonfly_bench::args::{find_value, format_args, format_pairs, resolve_pairs};
use dragonfly_bench::text::{decimal_string, join_path, strip_root_marker};

fn pairs(items: &[(&str, &str)]) -> Vec<(String, String)> {
    items.iter().map(|(k, v)| (k.to_string(), v.to_string())).collect()
}

#[test]
fn format_args_with_value() {
    let k = "port".to_string();
    let v = "6379".to_string();
    assert_eq!(format_args((&k, &v)), "--port=6379");
}

#[test]
fn format_args_without_value() {
    let k = "cache_mode".to_string();
    let v = String::new();
    assert_eq!(format_args((&k, &v)), "--cache_mode");
}

#[test]
fn format_pairs_keeps_order() {
    let m = pairs(&[("a", "1"), ("flag", ""), ("b", "x=y")]);
    assert_eq!(format_pairs(&m), vec!["--a=1", "--flag", "--b=x=y"]);
}

#[test]
fn join_relative_and_absolute() {
    assert_eq!(join_path("/data/runs", "0"), "/data/runs/0");
    assert_eq!(join_path("/data/runs/", "0"), "/data/runs/0");
    assert_eq!(join_path("", "x"), "x");
    assert_eq!(join_path("/data", "/abs/file"), "/abs/file");
    assert_eq!(join_path("rel", ""), "rel/");
}

#[test]
fn decimal_numerals() {
    assert_eq!(decimal_string(0), "0");
    assert_eq!(decimal_string(7), "7");
    assert_eq!(decimal_string(10), "10");
    assert_eq!(decimal_string(907), "907");
    assert_eq!(decimal_string(u64::MAX), u64::MAX.to_string());
}

#[test]
fn root_marker_is_stripped() {
    assert_eq!(strip_root_marker("ROOT+data/dir"), Some("data/dir"));
    assert_eq!(strip_root_marker("ROOT+"), Some(""));
    assert_eq!(strip_root_marker("ROOT"), None);
    assert_eq!(strip_root_marker("/ROOT+x"), None);
    assert_eq!(strip_root_marker("root+x"), None);
}

#[test]
fn resolve_only_marked_values() {
    let m = pairs(&[("dir", "ROOT+data"), ("port", "6379"), ("log", "ROOT+/var/log/x")]);
    let r = resolve_pairs(&m, "/runs/b/d");
    assert_eq!(r, pairs(&[("dir", "/runs/b/d/data"), ("port", "6379"), ("log", "/var/log/x")]));
}

#[test]
fn resolving_twice_changes_nothing() {
    let m = pairs(&[("dir", "ROOT+data"), ("port", "6379")]);
    let once = resolve_pairs(&m, "/runs/b/d");
    let twice = resolve_pairs(&once, "/runs/b/d");
    assert_eq!(once, twice);
}

#[test]
fn find_value_first_match() {
    let m = pairs(&[("dir", "/d"), ("port", "1"), ("port", "2")]);
    assert_eq!(find_value(&m, "port").map(|s| s.as_str()), Some("1"));
    assert_eq!(find_value(&m, "dir").map(|s| s.as_str()), Some("/d"));
    assert_eq!(find_value(&m, "missing"), None);
}
