use std::path::PathBuf;

use kimun_deps::imports::{path_key_of, sorted_unique_paths};

fn std_sorted_unique(paths: &[&str]) -> Vec<String> {
    let mut v: Vec<PathBuf> = paths.iter().map(PathBuf::from).collect();
    v.sort();
    v.dedup();
    v.iter().map(|p| p.to_string_lossy().into_owned()).collect()
}

fn ours(paths: &[&str]) -> Vec<String> {
    sorted_unique_paths(&paths.iter().map(|s| s.to_string()).collect())
}

#[test]
fn sorted_unique_simple() {
    assert_eq!(
        ours(&["src/b.rs", "src/a.rs", "src/b.rs", "lib.rs"]),
        vec!["lib.rs".to_string(), "src/a.rs".to_string(), "src/b.rs".to_string()]
    );
}

#[test]
fn sorted_unique_empty() {
    assert!(ours(&[]).is_empty());
}

#[test]
fn sorted_unique_keeps_first_spelling() {
    assert_eq!(ours(&["a//b", "a/b", "a/b/"]), vec!["a//b".to_string()]);
}

#[test]
fn components_order_not_text_order() {
    // '-' sorts before '/' as text, but "a" sorts before "a-b" as a component
    assert_eq!(ours(&["a-b", "a/b"]), vec!["a/b".to_string(), "a-b".to_string()]);
}

#[test]
fn sorted_unique_agrees_with_std() {
    let cases: Vec<Vec<&str>> = vec![
        vec!["src/b.rs", "src/a.rs", "src/b.rs", "lib.rs"],
        vec!["a-b", "a/b", "a.b", "a", "a/", "a//"],
        vec!["./a", "a", ".", "./", "..", "../a", "/a", "/", "a/./b", "a/b", "a/../b"],
        vec!["/x/y", "x/y", "/x", "//x", "/./x", "x/.", "x/.."],
        vec!["é/a", "e/a", "z", "Z", "b/c/d", "b/c", "b"],
    ];
    for c in cases {
        assert_eq!(ours(&c), std_sorted_unique(&c), "input {:?}", c);
    }
}

#[test]
fn path_keys_compare_like_paths() {
    let ps = ["a", "a/b", "a-b", "/a", ".", "..", "./a", "a/..", "b", "a/b/c"];
    for x in ps {
        for y in ps {
            let kx = path_key_of(x);
            let ky = path_key_of(y);
            assert_eq!(kx.cmp(&ky), PathBuf::from(x).cmp(&PathBuf::from(y)), "{:?} vs {:?}", x, y);
        }
    }
}
