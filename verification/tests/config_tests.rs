use tmexclude::get_paths;
use tmexclude::get_root;
use tmexclude::max_common_path;
use tmexclude::resolve_directory_rules;
use tmexclude::resolve_walk_config;
use tmexclude::AbsPath;
use tmexclude::ConfigError;
use tmexclude::Directory;
use tmexclude::PathLookup;
use tmexclude::PreDirectory;
use tmexclude::PreRule;
use tmexclude::Rule;
use tmexclude::SkipChain;
use tmexclude::WalkConfig;

fn path_of(s: &str) -> AbsPath {
    let segs: Vec<String> = s.split('/').filter(|t| !t.is_empty()).map(|t| t.to_string()).collect();
    AbsPath::from_segs(segs)
}

fn dir_of(s: &str) -> Directory {
    Directory { path: path_of(s), rules: Vec::new() }
}

fn concrete(name: &str, excludes: &[&str]) -> (String, PreRule) {
    (
        name.to_string(),
        PreRule::Concrete(Rule {
            excludes: excludes.iter().map(|e| e.to_string()).collect(),
            if_exists: Vec::new(),
        }),
    )
}

fn union(name: &str, refs: &[&str]) -> (String, PreRule) {
    (name.to_string(), PreRule::Union(refs.iter().map(|r| r.to_string()).collect()))
}

fn names(ns: &[&str]) -> Vec<String> {
    ns.iter().map(|n| n.to_string()).collect()
}

fn exclude_heads(rules: &[Rule]) -> Vec<String> {
    let mut out: Vec<String> = Vec::new();
    for r in rules {
        let head = r.excludes[0].clone();
        if !out.contains(&head) {
            out.push(head);
        }
    }
    out.sort();
    out
}

#[test]
fn config_must_get_directory_root() {
    assert_eq!(
        get_root(&vec![dir_of("/a/b/c/d"), dir_of("/a/b/c")]),
        Some(path_of("/a/b/c"))
    );
    assert_eq!(
        get_root(&vec![dir_of("/a/e/a"), dir_of("/a/c"), dir_of("/a/c/d")]),
        Some(path_of("/a"))
    );
    assert_eq!(get_root(&vec![dir_of("/a"), dir_of("/b")]), Some(path_of("/")));
}

#[test]
fn must_get_directory_root() {
    assert_eq!(
        get_root(&vec![dir_of("/a/b/c/d"), dir_of("/a/b/c")]),
        Some(path_of("/a/b/c"))
    );
    assert_eq!(
        get_root(&vec![dir_of("/a/e/a"), dir_of("/a/c"), dir_of("/a/c/d")]),
        Some(path_of("/a"))
    );
    assert_eq!(get_root(&vec![dir_of("/a"), dir_of("/b")]), Some(path_of("/")));
}

#[test]
fn config_must_get_squashed_paths() {
    let squash = |dirs: Vec<Directory>| -> Vec<AbsPath> { get_paths(&dirs) };

    let one = squash(vec![dir_of("/a/b/c"), dir_of("/a/b"), dir_of("/a/b/d")]);
    assert_eq!(one.len(), 1);
    assert!(one.contains(&path_of("/a/b")));

    let three = squash(vec![dir_of("/a/b/c"), dir_of("/a/e"), dir_of("/a/b/d")]);
    assert_eq!(three.len(), 3);
    assert!(three.contains(&path_of("/a/b/c")));
    assert!(three.contains(&path_of("/a/b/d")));
    assert!(three.contains(&path_of("/a/e")));

    let four = squash(vec![
        dir_of("/e"),
        dir_of("/a/b/c"),
        dir_of("/a/e"),
        dir_of("/a/b/d"),
        dir_of("/a/b/d/e"),
    ]);
    assert_eq!(four.len(), 4);
    assert!(four.contains(&path_of("/a/b/c")));
    assert!(four.contains(&path_of("/a/b/d")));
    assert!(four.contains(&path_of("/a/e")));
    assert!(four.contains(&path_of("/e")));
}

#[test]
fn config_must_test_inherit_rule() {
    let rules = vec![
        concrete("a", &["a"]),
        concrete("c", &["c"]),
        concrete("d", &["d"]),
        concrete("e", &["e"]),
        union("cd", &["c", "d"]),
        union("u", &["a", "cd"]),
    ];
    let first = resolve_directory_rules(&mut Vec::new(), &rules, &names(&["u"])).expect("must resolve");
    assert_eq!(exclude_heads(&first), vec!["a".to_string(), "c".to_string(), "d".to_string()]);
    let second = resolve_directory_rules(&mut Vec::new(), &rules, &names(&["u", "e"])).expect("must resolve");
    assert_eq!(
        exclude_heads(&second),
        vec!["a".to_string(), "c".to_string(), "d".to_string(), "e".to_string()]
    );
}

#[test]
fn config_must_fail_inherit_rule_loop() {
    let rules = vec![union("a", &["b"]), union("b", &["a"])];
    let error = resolve_directory_rules(&mut Vec::new(), &rules, &names(&["a"])).expect_err("must fail");
    match error {
        ConfigError::Loop(name) => assert_eq!(name, "a"),
        _ => panic!("Error type mismatch"),
    }
}

#[test]
fn config_must_fail_broken_rule() {
    let rules: Vec<(String, PreRule)> = Vec::new();
    let error = resolve_directory_rules(&mut Vec::new(), &rules, &names(&["a"])).expect_err("must fail");
    match error {
        ConfigError::Rule(name) => assert_eq!(name, "a"),
        _ => panic!("Error type mismatch"),
    }
}

#[test]
fn config_must_fail_broken_dir() {
    let dirs = vec![PreDirectory { path: "tests/mock_dirs/some_file".to_string(), rules: Vec::new() }];
    let probes = vec![PathLookup::Canonical {
        path: path_of("/work/tests/mock_dirs/some_file"),
        is_dir: false,
    }];
    let rules: Vec<(String, PreRule)> = Vec::new();
    let error = resolve_walk_config(&dirs, &probes, &rules, Vec::new()).expect_err("must fail");
    match error {
        ConfigError::InvalidPath { path, cause } => {
            assert_eq!(path, "tests/mock_dirs/some_file");
            assert_eq!(cause, "not a directory");
        }
        _ => panic!("Error type mismatch"),
    }
}

#[test]
fn config_must_fail_missing_dir() {
    let dirs = vec![PreDirectory { path: "tests/mock_dirs/non_exist".to_string(), rules: Vec::new() }];
    let probes = vec![PathLookup::Failed { cause: "No such file or directory (os error 2)".to_string() }];
    let rules: Vec<(String, PreRule)> = Vec::new();
    let error = resolve_walk_config(&dirs, &probes, &rules, Vec::new()).expect_err("must fail");
    match error {
        ConfigError::InvalidPath { path, cause } => {
            assert_eq!(path, "tests/mock_dirs/non_exist");
            assert_eq!(cause, "No such file or directory (os error 2)");
        }
        _ => panic!("Error type mismatch"),
    }
}

#[test]
fn config_must_allow_missing_skip_dir() {
    // A skip that names nothing on disk still enters the skip set.
    let mut chain = SkipChain::start(path_of("/work/tests/mock_dirs/non_exist"));
    chain.advance(None);
    let skips = chain.into_paths();
    assert_eq!(skips, vec![path_of("/work/tests/mock_dirs/non_exist")]);

    let dirs = vec![PreDirectory { path: "tests/mock_dirs/path_a".to_string(), rules: Vec::new() }];
    let probes = vec![PathLookup::Canonical { path: path_of("/work/tests/mock_dirs/path_a"), is_dir: true }];
    let rules: Vec<(String, PreRule)> = Vec::new();
    let config = resolve_walk_config(&dirs, &probes, &rules, skips).expect("must resolve");
    assert_eq!(config.skips, vec![path_of("/work/tests/mock_dirs/non_exist")]);
}

fn follow(start: &str, links: &[(&str, &str)]) -> Vec<AbsPath> {
    let mut chain = SkipChain::start(path_of(start));
    loop {
        let target: Option<AbsPath>;
        match chain.current() {
            None => break,
            Some(cur) => {
                target = links
                    .iter()
                    .find(|(from, _)| path_of(from) == *cur)
                    .map(|(_, to)| path_of(to));
            }
        }
        chain.advance(target);
    }
    chain.into_paths()
}

#[test]
fn config_must_canonicalize_rule_follow_skip() {
    let links = [
        ("/work/tests/symlinks/one", "/work/tests/symlinks/concrete"),
        ("/work/tests/symlinks/three", "/work/tests/symlinks/two"),
        ("/work/tests/symlinks/two", "/work/tests/symlinks/one"),
        ("/work/tests/symlinks/invalid", "/work/tests/symlinks/missing"),
        ("/work/tests/symlinks/cyclic_a", "/work/tests/symlinks/cyclic_b"),
        ("/work/tests/symlinks/cyclic_b", "/work/tests/symlinks/cyclic_a"),
    ];
    let mut skips: Vec<AbsPath> = Vec::new();
    for declared in ["/work/tests/symlinks/three", "/work/tests/symlinks/invalid", "/work/tests/symlinks/cyclic_a"] {
        skips.extend(follow(declared, &links));
    }
    let expected = [
        "/work/tests/symlinks/three",
        "/work/tests/symlinks/two",
        "/work/tests/symlinks/one",
        "/work/tests/symlinks/concrete",
        "/work/tests/symlinks/invalid",
        "/work/tests/symlinks/missing",
        "/work/tests/symlinks/cyclic_a",
        "/work/tests/symlinks/cyclic_b",
    ];
    assert_eq!(skips.len(), expected.len());
    for e in expected {
        assert!(skips.contains(&path_of(e)));
    }
}

#[test]
fn root_of_empty_config_fails() {
    let config = WalkConfig { directories: Vec::new(), skips: Vec::new() };
    match config.root() {
        Err(ConfigError::NoDirectory) => {}
        _ => panic!("expected NoDirectory"),
    }
}

#[test]
fn walk_config_root_and_paths() {
    let config = WalkConfig {
        directories: vec![dir_of("/a/b/c"), dir_of("/a/b"), dir_of("/a/b/d")],
        skips: Vec::new(),
    };
    assert_eq!(config.root().expect("must have root"), path_of("/a/b"));
    let squashed = config.paths();
    assert_eq!(squashed, vec![path_of("/a/b")]);
}

#[test]
fn max_common_path_meets_at_nearest_ancestor() {
    assert_eq!(
        max_common_path(&path_of("/a/b/c"), &path_of("/a/b/d")),
        path_of("/a/b")
    );
    assert_eq!(max_common_path(&path_of("/a"), &path_of("/b")), AbsPath::fs_root());
    assert_eq!(
        max_common_path(&path_of("/a/b"), &path_of("/a/b/c")),
        path_of("/a/b")
    );
}

#[test]
fn paths_are_ordered_by_prefix() {
    assert!(path_of("/a/b/c").starts_with(&path_of("/a/b")));
    assert!(path_of("/a/b").starts_with(&path_of("/a/b")));
    assert!(!path_of("/a/b").starts_with(&path_of("/a/b/c")));
    assert!(!path_of("/a/x").starts_with(&path_of("/a/y")));
    assert_eq!(path_of("/a/b").join(&"c".to_string()), path_of("/a/b/c"));
    assert_eq!(path_of("/a/b/c").parent(), path_of("/a/b"));
    assert_eq!(path_of("/a/b").depth(), 2);
}

#[test]
fn union_of_shared_rules_keeps_one_of_each() {
    // A diamond: both branches pull in the same leaf.
    let rules = vec![
        concrete("leaf", &["x"]),
        union("left", &["leaf"]),
        union("right", &["leaf"]),
        union("top", &["left", "right"]),
    ];
    let resolved = resolve_directory_rules(&mut Vec::new(), &rules, &names(&["top"])).expect("must resolve");
    assert_eq!(exclude_heads(&resolved), vec!["x".to_string()]);
}
