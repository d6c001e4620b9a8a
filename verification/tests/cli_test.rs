use kimun_deps::cli::{CommonArgs, ExcludeArgs, ExcludeFilter};

fn args(only: &[&str], exclude_ext: &[&str], dirs: &[&str], globs: &[&str], list: bool) -> ExcludeArgs {
    let v = |xs: &[&str]| xs.iter().map(|s| s.to_string()).collect::<Vec<_>>();
    ExcludeArgs {
        include_ext: v(only),
        exclude_ext: v(exclude_ext),
        exclude_dir: v(dirs),
        exclude: v(globs),
        list_excluded: list,
    }
}

#[test]
fn exclude_args_empty() {
    assert!(args(&[], &[], &[], &[], true).is_empty());
    assert!(!args(&["rs"], &[], &[], &[], false).is_empty());
    assert!(!args(&[], &["js"], &[], &[], false).is_empty());
    assert!(!args(&[], &[], &["vendor"], &[], false).is_empty());
    assert!(!args(&[], &[], &[], &["*.min.js"], false).is_empty());
}

#[test]
fn exclude_filter_copies_flags() {
    let a = args(&["rs", ".toml"], &[], &["vendor"], &["generated/**"], false);
    let f = a.exclude_filter();
    assert_eq!(f.include_ext, vec!["rs".to_string(), ".toml".to_string()]);
    assert!(f.exclude_ext.is_empty());
    assert_eq!(f.exclude_dir, vec!["vendor".to_string()]);
    assert_eq!(f.exclude, vec!["generated/**".to_string()]);
}

#[test]
fn common_args_delegate() {
    let c = CommonArgs {
        path: None,
        json: false,
        include_tests: false,
        exclude_args: args(&[], &["js"], &[], &[], true),
    };
    assert!(c.list_excluded());
    assert_eq!(c.exclude_filter().exclude_ext, vec!["js".to_string()]);
}

#[test]
fn default_filter_excludes_nothing() {
    let f = ExcludeFilter::default();
    assert!(f.include_ext.is_empty() && f.exclude_ext.is_empty());
    assert!(f.exclude_dir.is_empty() && f.exclude.is_empty());
}
