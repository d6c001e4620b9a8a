use kimun_deps::dot::build_dot;
use kimun_deps::edges::EdgeList;
use kimun_deps::model::{DepEntry, DepResult};

fn make_entry(path: &str, language: &str, fan_in: usize, fan_out: usize, in_cycle: bool) -> DepEntry {
    DepEntry {
        path: path.to_string(),
        language: language.to_string(),
        fan_in,
        fan_out,
        in_cycle,
    }
}

fn make_result(entries: Vec<DepEntry>, cycles: Vec<Vec<String>>) -> DepResult {
    DepResult { entries, cycles }
}

fn make_edges(pairs: &[(&str, &[&str])]) -> EdgeList {
    let mut edges = EdgeList::new();
    for (k, vs) in pairs {
        edges.insert(k.to_string(), vs.iter().map(|v| v.to_string()).collect());
    }
    edges
}

#[test]
fn build_dot_starts_with_digraph() {
    let result = make_result(vec![], vec![]);
    let edges = make_edges(&[]);
    let dot = build_dot(&result, &edges);
    assert!(dot.starts_with("digraph deps {"));
}

#[test]
fn build_dot_ends_with_closing_brace() {
    let result = make_result(vec![], vec![]);
    let edges = make_edges(&[]);
    let dot = build_dot(&result, &edges);
    assert!(dot.trim_end().ends_with('}'));
}

#[test]
fn build_dot_cycle_node_gets_lightsalmon() {
    let entries = vec![make_entry("src/a.rs", "Rust", 1, 1, true)];
    let result = make_result(entries, vec![]);
    let edges = make_edges(&[("src/a.rs", &[])]);
    let dot = build_dot(&result, &edges);
    assert!(
        dot.contains("fillcolor=lightsalmon"),
        "cycle node must be lightsalmon"
    );
}

#[test]
fn build_dot_stable_leaf_gets_lightgreen() {
    // fan_out=0, fan_in>0 → stable leaf
    let entries = vec![make_entry("src/util.rs", "Rust", 3, 0, false)];
    let result = make_result(entries, vec![]);
    let edges = make_edges(&[("src/util.rs", &[])]);
    let dot = build_dot(&result, &edges);
    assert!(
        dot.contains("fillcolor=lightgreen"),
        "stable leaf must be lightgreen"
    );
}

#[test]
fn build_dot_default_node_gets_lightblue() {
    let entries = vec![make_entry("src/main.rs", "Rust", 0, 2, false)];
    let result = make_result(entries, vec![]);
    let edges = make_edges(&[("src/main.rs", &[])]);
    let dot = build_dot(&result, &edges);
    assert!(
        dot.contains("fillcolor=lightblue"),
        "default node must be lightblue"
    );
}

#[test]
fn build_dot_emits_edge_between_known_nodes() {
    let entries = vec![
        make_entry("src/main.rs", "Rust", 0, 1, false),
        make_entry("src/lib.rs", "Rust", 1, 0, false),
    ];
    let result = make_result(entries, vec![]);
    let edges = make_edges(&[("src/main.rs", &["src/lib.rs"]), ("src/lib.rs", &[])]);
    let dot = build_dot(&result, &edges);
    assert!(
        dot.contains("\"src/main.rs\" -> \"src/lib.rs\""),
        "edge from main to lib must be present"
    );
}

#[test]
fn build_dot_skips_edge_to_unknown_node() {
    let entries = vec![make_entry("src/main.rs", "Rust", 0, 1, false)];
    let result = make_result(entries, vec![]);
    // "src/external.rs" is not in entries
    let edges = make_edges(&[("src/main.rs", &["src/external.rs"])]);
    let dot = build_dot(&result, &edges);
    assert!(
        !dot.contains("external.rs"),
        "edges to unknown nodes must be omitted"
    );
}

#[test]
fn build_dot_includes_legend() {
    let result = make_result(vec![], vec![]);
    let edges = make_edges(&[]);
    let dot = build_dot(&result, &edges);
    assert!(
        dot.contains("cluster_legend"),
        "legend subgraph must be present"
    );
    assert!(
        dot.contains("lightsalmon"),
        "legend must mention lightsalmon"
    );
    assert!(dot.contains("lightgreen"), "legend must mention lightgreen");
}

#[test]
fn build_dot_node_label_uses_filename_not_full_path() {
    let entries = vec![make_entry("src/foo/bar.rs", "Rust", 0, 0, false)];
    let result = make_result(entries, vec![]);
    let edges = make_edges(&[("src/foo/bar.rs", &[])]);
    let dot = build_dot(&result, &edges);
    assert!(
        dot.contains("label=\"bar.rs\""),
        "node label must be filename only, not full path"
    );
}

// ── exact output ─────────────────────────────────────────────────────────────

const LEGEND: &str = "    // Legend\n    subgraph cluster_legend {\n        label=\"Legend\"; style=dashed; fontsize=9;\n        l_cycle [label=\"in cycle\", fillcolor=lightsalmon, style=filled, shape=box, fontsize=9];\n        l_leaf  [label=\"stable leaf\", fillcolor=lightgreen, style=filled, shape=box, fontsize=9];\n        l_def   [label=\"default\", fillcolor=lightblue, style=filled, shape=box, fontsize=9];\n    }\n";

#[test]
fn build_dot_whole_document() {
    let entries = vec![
        make_entry("src/main.rs", "Rust", 0, 1, false),
        make_entry("src/lib.rs", "Rust", 12, 0, false),
    ];
    let result = make_result(entries, vec![]);
    let edges = make_edges(&[
        ("src/main.rs", &["src/lib.rs", "src/gone.rs"]),
        ("src/gone.rs", &["src/lib.rs"]),
        ("src/lib.rs", &[]),
    ]);
    let dot = build_dot(&result, &edges);
    let expected = format!(
        "digraph deps {{\n    rankdir=LR;\n    node [fontname=\"Helvetica\", fontsize=10, shape=box];\n\n\
         \x20   \"src/main.rs\" [label=\"main.rs\", fillcolor=lightblue, style=filled, tooltip=\"src/main.rs\\nfi=0 fo=1\"];\n\
         \x20   \"src/lib.rs\" [label=\"lib.rs\", fillcolor=lightgreen, style=filled, tooltip=\"src/lib.rs\\nfi=12 fo=0\"];\n\
         \n\
         \x20   \"src/main.rs\" -> \"src/lib.rs\";\n\
         \n{}}}\n",
        LEGEND
    );
    assert_eq!(dot, expected);
}

#[test]
fn build_dot_empty_graph_is_header_and_legend() {
    let dot = build_dot(&make_result(vec![], vec![]), &make_edges(&[]));
    let expected = format!(
        "digraph deps {{\n    rankdir=LR;\n    node [fontname=\"Helvetica\", fontsize=10, shape=box];\n\n\n\n{}}}\n",
        LEGEND
    );
    assert_eq!(dot, expected);
}

#[test]
fn build_dot_skips_edges_from_unknown_source() {
    let entries = vec![make_entry("a.rs", "Rust", 1, 0, false)];
    let result = make_result(entries, vec![]);
    let edges = make_edges(&[("b.rs", &["a.rs"])]);
    let dot = build_dot(&result, &edges);
    assert!(!dot.contains("->"));
}

#[test]
fn build_dot_keeps_edge_order() {
    let entries = vec![
        make_entry("a", "Go", 0, 2, false),
        make_entry("b", "Go", 1, 0, false),
        make_entry("c", "Go", 1, 0, false),
    ];
    let result = make_result(entries, vec![]);
    let edges = make_edges(&[("a", &["c", "b"])]);
    let dot = build_dot(&result, &edges);
    let first = dot.find("\"a\" -> \"c\"").unwrap();
    let second = dot.find("\"a\" -> \"b\"").unwrap();
    assert!(first < second);
}

#[test]
fn build_dot_matches_paths_not_spellings() {
    let entries = vec![make_entry("a", "Go", 1, 1, false), make_entry("b/c", "Go", 1, 1, false)];
    let result = make_result(entries, vec![]);
    let edges = make_edges(&[("a/", &["b//c"]), ("./b/c", &["a"])]);
    let dot = build_dot(&result, &edges);
    assert!(dot.contains("    \"a/\" -> \"b//c\";\n"));
    // "./b/c" is not the path "b/c": a leading "." is a component of its own
    assert!(!dot.contains("\"./b/c\" ->"));
}

#[test]
fn build_dot_edge_lines_do_not_depend_on_source_order() {
    let entries = vec![
        make_entry("a", "Go", 1, 1, false),
        make_entry("b", "Go", 1, 1, false),
    ];
    let d1 = build_dot(&make_result(entries, vec![]), &make_edges(&[("a", &["b"]), ("b", &["a"])]));
    let entries = vec![
        make_entry("a", "Go", 1, 1, false),
        make_entry("b", "Go", 1, 1, false),
    ];
    let d2 = build_dot(&make_result(entries, vec![]), &make_edges(&[("b", &["a"]), ("a", &["b"])]));
    let mut l1: Vec<&str> = d1.lines().collect();
    let mut l2: Vec<&str> = d2.lines().collect();
    assert_ne!(l1, l2);
    l1.sort();
    l2.sort();
    assert_eq!(l1, l2);
}
