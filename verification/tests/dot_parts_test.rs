use kimun_deps::dot::{dot_edge_lines, dot_id, dot_legend, dot_node_line, node_fillcolor};
use kimun_deps::model::DepEntry;
use kimun_deps::imports::path_key_of;
use kimun_deps::text::{chars_of, file_name_range};

fn entry(path: &str, fan_in: usize, fan_out: usize, in_cycle: bool) -> DepEntry {
    DepEntry {
        path: path.to_string(),
        language: "Rust".to_string(),
        fan_in,
        fan_out,
        in_cycle,
    }
}

fn file_name(p: &str) -> Option<String> {
    let v = chars_of(p);
    file_name_range(&v).map(|(a, b)| v[a..b].iter().collect())
}

#[test]
fn dot_id_quotes_and_escapes() {
    assert_eq!(dot_id("src/a.rs"), "\"src/a.rs\"");
    assert_eq!(dot_id("we\"ird\".rs"), "\"we\\\"ird\\\".rs\"");
    assert_eq!(dot_id(""), "\"\"");
    assert_eq!(dot_id("a\\"), "\"a\\\\\"");
    assert_eq!(dot_id("x\\\"y"), "\"x\\\\\\\"y\"");
}

#[test]
fn dot_id_distinct_for_distinct_paths() {
    assert_ne!(dot_id("a\"b"), dot_id("a\\\"b"));
}

#[test]
fn node_fillcolor_classification() {
    assert_eq!(node_fillcolor(&entry("a", 1, 1, true)), "lightsalmon");
    // a cycle member that is also a leaf is still lightsalmon
    assert_eq!(node_fillcolor(&entry("a", 2, 0, true)), "lightsalmon");
    assert_eq!(node_fillcolor(&entry("a", 2, 0, false)), "lightgreen");
    // isolated file: no fan-in, no fan-out
    assert_eq!(node_fillcolor(&entry("a", 0, 0, false)), "lightblue");
    assert_eq!(node_fillcolor(&entry("a", 0, 3, false)), "lightblue");
}

#[test]
fn dot_node_line_exact() {
    assert_eq!(
        dot_node_line(&entry("src/foo/bar.rs", 3, 10, false)),
        "    \"src/foo/bar.rs\" [label=\"bar.rs\", fillcolor=lightblue, style=filled, tooltip=\"src/foo/bar.rs\\nfi=3 fo=10\"];\n"
    );
}

#[test]
fn dot_node_line_label_falls_back_to_path() {
    let line = dot_node_line(&entry("..", 0, 0, false));
    assert!(line.contains("label=\"..\""));
}

#[test]
fn file_name_rules() {
    assert_eq!(file_name("src/foo/bar.rs"), Some("bar.rs".to_string()));
    assert_eq!(file_name("bar.rs"), Some("bar.rs".to_string()));
    assert_eq!(file_name("src/foo/"), Some("foo".to_string()));
    assert_eq!(file_name("src/foo/."), Some("foo".to_string()));
    assert_eq!(file_name("src//foo//"), Some("foo".to_string()));
    assert_eq!(file_name("src/.."), None);
    assert_eq!(file_name("/"), None);
    assert_eq!(file_name("."), None);
    assert_eq!(file_name(""), None);
    assert_eq!(file_name(".hidden"), Some(".hidden".to_string()));
    assert_eq!(file_name("a/..b"), Some("..b".to_string()));
}

#[test]
fn file_name_agrees_with_std_path() {
    for p in ["src/foo/bar.rs", "src/foo/", "src/foo/.", "a/..", "/", ".", "", "./x", "a/./b", "..", "a//b/"] {
        let expected = std::path::Path::new(p)
            .file_name()
            .map(|f| f.to_string_lossy().into_owned());
        assert_eq!(file_name(p), expected, "path {:?}", p);
    }
}

#[test]
fn dot_edge_lines_filters_unknown() {
    let set = vec![path_key_of("a"), path_key_of("b")];
    let dsts = vec!["b".to_string(), "x".to_string(), "a".to_string()];
    assert_eq!(
        dot_edge_lines("a", &dsts, &set),
        "    \"a\" -> \"b\";\n    \"a\" -> \"a\";\n"
    );
    assert_eq!(dot_edge_lines("x", &dsts, &set), "");
    assert_eq!(dot_edge_lines("a", &vec![], &set), "");
}

#[test]
fn dot_legend_lists_three_colours() {
    let legend = dot_legend();
    assert!(legend.starts_with("    // Legend\n    subgraph cluster_legend {\n"));
    assert!(legend.contains("fillcolor=lightsalmon"));
    assert!(legend.contains("fillcolor=lightgreen"));
    assert!(legend.contains("fillcolor=lightblue"));
    assert!(legend.ends_with("    }\n"));
}

#[test]
fn dot_edge_lines_uses_path_equality() {
    let set = vec![path_key_of("a")];
    let dsts = vec!["a".to_string(), "a//".to_string(), "./a".to_string()];
    assert_eq!(
        dot_edge_lines("a/", &dsts, &set),
        "    \"a/\" -> \"a\";\n    \"a/\" -> \"a//\";\n"
    );
}

#[test]
fn dot_id_backslash_does_not_escape_closing_quote() {
    let id = dot_id("dir\\");
    assert!(id.ends_with("\\\\\""));
    assert_ne!(dot_id("a\\"), dot_id("a\\\\"));
}
