use kimun_deps::edges::{complete_edges, EdgeList};
use kimun_deps::model::DepEntry;
use kimun_deps::report::report_lines;

fn e(path: &str, language: &str, fan_in: usize, fan_out: usize, in_cycle: bool) -> DepEntry {
    DepEntry {
        path: path.to_string(),
        language: language.to_string(),
        fan_in,
        fan_out,
        in_cycle,
    }
}

#[test]
fn report_empty_entries() {
    assert_eq!(
        report_lines(&vec![], &vec![]),
        vec!["No source files found for dependency analysis.".to_string()]
    );
}

#[test]
fn report_no_cycles() {
    let entries = vec![e("src/main.rs", "Rust", 0, 2, false), e("src/lib.rs", "Rust", 2, 0, false)];
    let lines = report_lines(&entries, &vec![]);
    let sep = "─".repeat(72);
    assert_eq!(lines.len(), 8);
    assert_eq!(lines[0], "Dependency Graph");
    assert_eq!(lines[1], sep);
    assert_eq!(
        lines[2],
        format!(" {:<11}  {:>10} {:>6} {:>7} {:>5} {:>11}", "File", "Language", "Fan-In", "Fan-Out", "Cycle", "Coupling")
    );
    assert_eq!(lines[3], sep);
    assert_eq!(lines[4], " src/main.rs        Rust      0       2    no     default");
    assert_eq!(lines[5], " src/lib.rs         Rust      2       0    no stable leaf");
    assert_eq!(lines[6], sep);
    assert_eq!(lines[7], "No dependency cycles detected.");
}

#[test]
fn report_with_cycles() {
    let entries = vec![e("src/a.rs", "Rust", 1, 1, true), e("src/b.rs", "Rust", 1, 1, true)];
    let cycles = vec![vec!["src/a.rs".to_string(), "src/b.rs".to_string()]];
    let lines = report_lines(&entries, &cycles);
    let tail: Vec<&str> = lines[7..].iter().map(|s| s.as_str()).collect();
    assert_eq!(
        tail,
        vec!["", "Dependency cycles: 1", "  Cycle 1 (2 files):", "    src/a.rs", "    src/b.rs"]
    );
    assert!(lines[4].ends_with("  yes    in cycle"));
}

#[test]
fn report_wide_path_widens_rule() {
    let long = "x".repeat(50);
    let entries = vec![e(&long, "Rust", 0, 0, false)];
    let lines = report_lines(&entries, &vec![]);
    assert_eq!(lines[1].chars().count(), 97);
    assert_eq!(
        lines[4],
        format!(" {:<50}  {:>10} {:>6} {:>7} {:>5} {:>11}", long, "Rust", 0, 0, "no", "default")
    );
}

#[test]
fn report_rows_match_std_format() {
    let entries = vec![
        e("src/deep/nested/module.rs", "TypeScript", 123, 4567, true),
        e("é.rs", "Elixir", 1234567, 0, false),
    ];
    let lines = report_lines(&entries, &vec![]);
    let w = 25;
    for (i, x) in entries.iter().enumerate() {
        assert_eq!(
            lines[4 + i],
            format!(
                " {:<pw$}  {:>10} {:>6} {:>7} {:>5} {:>11}",
                x.path,
                x.language,
                x.fan_in,
                x.fan_out,
                if x.in_cycle { "yes" } else { "no" },
                if x.in_cycle { "in cycle" } else if x.fan_out == 0 && x.fan_in > 0 { "stable leaf" } else { "default" },
                pw = w
            )
        );
    }
}

#[test]
fn complete_edges_adds_missing_files_once() {
    let mut edges = EdgeList::new();
    edges.insert("a".to_string(), vec!["b".to_string()]);
    let files = vec!["a/".to_string(), "b".to_string(), "c".to_string(), "b".to_string(), "./c".to_string()];
    complete_edges(&mut edges, &files);
    assert_eq!(
        edges.pairs(),
        &vec![
            ("a".to_string(), vec!["b".to_string()]),
            ("b".to_string(), vec![]),
            ("c".to_string(), vec![]),
            ("./c".to_string(), vec![]),
        ]
    );
}

#[test]
fn edge_list_insert_replaces_by_path() {
    let mut edges = EdgeList::new();
    edges.insert("src/a.rs".to_string(), vec!["x".to_string()]);
    edges.insert("src//a.rs".to_string(), vec!["y".to_string()]);
    edges.insert("src/b.rs".to_string(), vec![]);
    assert_eq!(
        edges.pairs(),
        &vec![
            ("src/a.rs".to_string(), vec!["y".to_string()]),
            ("src/b.rs".to_string(), vec![]),
        ]
    );
    edges.ensure_source("src/b.rs/".to_string());
    assert_eq!(edges.pairs().len(), 2);
}

fn make_entry(path: &str, language: &str, fan_in: usize, fan_out: usize, in_cycle: bool) -> DepEntry {
    e(path, language, fan_in, fan_out, in_cycle)
}

#[test]
fn print_report_empty_entries() {
    let lines = report_lines(&vec![], &vec![]);
    assert_eq!(lines, vec!["No source files found for dependency analysis.".to_string()]);
}

#[test]
fn print_report_no_cycles() {
    let entries = vec![
        make_entry("src/main.rs", "Rust", 0, 2, false),
        make_entry("src/lib.rs", "Rust", 2, 0, false),
    ];
    let lines = report_lines(&entries, &vec![]);
    assert_eq!(lines.last().unwrap(), "No dependency cycles detected.");
}

#[test]
fn print_report_with_cycles() {
    let entries = vec![
        make_entry("src/a.rs", "Rust", 1, 1, true),
        make_entry("src/b.rs", "Rust", 1, 1, true),
    ];
    let cycle = vec!["src/a.rs".to_string(), "src/b.rs".to_string()];
    let lines = report_lines(&entries, &vec![cycle]);
    assert!(lines.contains(&"Dependency cycles: 1".to_string()));
    assert!(lines.contains(&"  Cycle 1 (2 files):".to_string()));
}

#[test]
fn print_report_mixed_cycle_and_clean() {
    let entries = vec![
        make_entry("src/clean.rs", "Rust", 0, 1, false),
        make_entry("src/cycle_a.rs", "Rust", 1, 1, true),
        make_entry("src/cycle_b.rs", "Rust", 1, 1, true),
    ];
    let cycle = vec!["src/cycle_a.rs".to_string(), "src/cycle_b.rs".to_string()];
    let lines = report_lines(&entries, &vec![cycle]);
    assert!(lines[4].ends_with("   no     default"));
    assert!(lines[5].ends_with("  yes    in cycle"));
    assert!(lines.contains(&"    src/cycle_b.rs".to_string()));
}
