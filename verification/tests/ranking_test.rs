use kimun_deps::model::{DepEntry, DepResult};
use kimun_deps::ranking::{plan_output, DepsOutput, listing, output_format, select_entries, sort_entries, sort_key, OutputFormat, SortKey};

fn e(path: &str, fan_in: usize, fan_out: usize, in_cycle: bool) -> DepEntry {
    DepEntry {
        path: path.to_string(),
        language: "Rust".to_string(),
        fan_in,
        fan_out,
        in_cycle,
    }
}

fn paths(v: &[DepEntry]) -> Vec<&str> {
    v.iter().map(|x| x.path.as_str()).collect()
}

fn sample() -> Vec<DepEntry> {
    vec![
        e("a", 1, 2, false),
        e("b", 3, 2, true),
        e("c", 0, 5, false),
        e("d", 3, 0, true),
        e("f", 1, 2, false),
    ]
}

#[test]
fn sort_key_names() {
    assert_eq!(sort_key("fan-in"), SortKey::FanIn);
    assert_eq!(sort_key("fan-out"), SortKey::FanOut);
    assert_eq!(sort_key("default"), SortKey::Combined);
    assert_eq!(sort_key("Fan-In"), SortKey::Combined);
    assert_eq!(sort_key(""), SortKey::Combined);
}

#[test]
fn sort_by_fan_in_is_stable() {
    let mut v = sample();
    sort_entries(&mut v, SortKey::FanIn);
    assert_eq!(paths(&v), vec!["b", "d", "a", "f", "c"]);
}

#[test]
fn sort_by_fan_out_is_stable() {
    let mut v = sample();
    sort_entries(&mut v, SortKey::FanOut);
    assert_eq!(paths(&v), vec!["c", "a", "b", "f", "d"]);
}

#[test]
fn sort_combined_breaks_ties_by_fan_in() {
    let mut v = sample();
    sort_entries(&mut v, SortKey::Combined);
    assert_eq!(paths(&v), vec!["c", "b", "a", "f", "d"]);
}

#[test]
fn sort_matches_std_stable_sort() {
    let mut v = sample();
    let mut w = sample();
    sort_entries(&mut v, SortKey::Combined);
    w.sort_by(|a, b| b.fan_out.cmp(&a.fan_out).then_with(|| b.fan_in.cmp(&a.fan_in)));
    assert_eq!(paths(&v), paths(&w));
}

#[test]
fn sort_twice_changes_nothing() {
    let mut v = sample();
    sort_entries(&mut v, SortKey::FanIn);
    let once: Vec<String> = v.iter().map(|x| x.path.clone()).collect();
    sort_entries(&mut v, SortKey::FanIn);
    let twice: Vec<String> = v.iter().map(|x| x.path.clone()).collect();
    assert_eq!(once, twice);
}

#[test]
fn sort_empty() {
    let mut v: Vec<DepEntry> = vec![];
    sort_entries(&mut v, SortKey::Combined);
    assert!(v.is_empty());
}

#[test]
fn select_top() {
    let v = sample();
    assert_eq!(paths(&select_entries(&v, false, 2)), vec!["a", "b"]);
    assert_eq!(paths(&select_entries(&v, false, 20)), vec!["a", "b", "c", "d", "f"]);
    assert!(select_entries(&v, false, 0).is_empty());
}

#[test]
fn select_cycles_only_ignores_top() {
    let v = sample();
    assert_eq!(paths(&select_entries(&v, true, 1)), vec!["b", "d"]);
}

#[test]
fn listing_keeps_all_cycles() {
    let result = DepResult {
        entries: sample(),
        cycles: vec![vec!["b".to_string(), "d".to_string()]],
    };
    let l = listing(&result, false, 1);
    assert_eq!(paths(&l.entries), vec!["a"]);
    assert_eq!(l.cycles, vec![vec!["b".to_string(), "d".to_string()]]);
}

#[test]
fn output_format_choice() {
    assert_eq!(output_format(Some("dot"), true), OutputFormat::Dot);
    assert_eq!(output_format(Some("dot"), false), OutputFormat::Dot);
    assert_eq!(output_format(None, true), OutputFormat::Json);
    assert_eq!(output_format(Some("svg"), true), OutputFormat::Json);
    assert_eq!(output_format(None, false), OutputFormat::Table);
}

fn result() -> DepResult {
    DepResult {
        entries: sample(),
        cycles: vec![vec!["b".to_string(), "d".to_string()]],
    }
}

#[test]
fn plan_dot_gets_whole_sorted_result() {
    match plan_output(result(), true, true, "fan-in", 1, Some("dot")) {
        DepsOutput::Dot { sorted } => {
            assert_eq!(paths(&sorted.entries), vec!["b", "d", "a", "f", "c"]);
            assert_eq!(sorted.cycles.len(), 1);
        }
        _ => panic!("dot expected"),
    }
}

#[test]
fn plan_json_gets_listing() {
    match plan_output(result(), true, false, "default", 2, None) {
        DepsOutput::Json { listed } => {
            assert_eq!(paths(&listed.entries), vec!["c", "b"]);
            assert_eq!(listed.cycles, vec![vec!["b".to_string(), "d".to_string()]]);
        }
        _ => panic!("json expected"),
    }
}

#[test]
fn plan_table_gets_selection_and_all_cycles() {
    match plan_output(result(), false, true, "fan-out", 20, None) {
        DepsOutput::Table { entries, sorted } => {
            assert_eq!(paths(&entries), vec!["b", "d"]);
            assert_eq!(paths(&sorted.entries), vec!["c", "a", "b", "f", "d"]);
            assert_eq!(sorted.cycles.len(), 1);
        }
        _ => panic!("table expected"),
    }
}
