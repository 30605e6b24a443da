use tmexclude::action_when_appear;
use tmexclude::generate_diff;
use tmexclude::match_rule;
use tmexclude::ExclusionAction;
use tmexclude::FsEventKind;
use tmexclude::process_event_batch;
use tmexclude::prune_config;
use tmexclude::scan_forest;
use tmexclude::scan_step;
use tmexclude::walk_non_recursive_precheck;
use tmexclude::walk_non_recursive_scan;
use tmexclude::AbsPath;
use tmexclude::Directory;
use tmexclude::FsNode;
use tmexclude::Metrics;
use tmexclude::Rule;
use tmexclude::SkipCache;
use tmexclude::WalkConfig;

fn path_of(s: &str) -> AbsPath {
    let segs: Vec<String> = s.split('/').filter(|t| !t.is_empty()).map(|t| t.to_string()).collect();
    AbsPath::from_segs(segs)
}

fn file(name: &str) -> FsNode {
    FsNode { name: name.to_string(), excluded: false, is_dir: false, children: Vec::new() }
}

fn dir(name: &str, excluded: bool, children: Vec<FsNode>) -> FsNode {
    FsNode { name: name.to_string(), excluded, is_dir: true, children }
}

fn rule(excludes: &[&str], if_exists: &[&str]) -> Rule {
    Rule {
        excludes: excludes.iter().map(|e| e.to_string()).collect(),
        if_exists: if_exists.iter().map(|e| e.to_string()).collect(),
    }
}

fn config_with(root: &str, r: Rule) -> WalkConfig {
    WalkConfig {
        directories: vec![Directory { path: path_of(root), rules: vec![r] }],
        skips: Vec::new(),
    }
}

#[test]
fn simple_exclude_adds_target() {
    // One directory watches /R with "exclude target beside Cargo.toml".
    let config = config_with("/R", rule(&["target"], &["Cargo.toml"]));
    let tree = vec![dir("proj", false, vec![file("Cargo.toml"), dir("target", false, Vec::new())])];
    let batch = scan_forest(&path_of("/R"), &tree, &config);
    assert_eq!(batch.add, vec![path_of("/R/proj/target")]);
    assert!(batch.remove.is_empty());
}

#[test]
fn if_exists_gates_exclusion() {
    let config = config_with("/R", rule(&["target"], &["Cargo.toml"]));
    let tree = vec![dir("other", false, vec![dir("target", false, Vec::new())])];
    let batch = scan_forest(&path_of("/R"), &tree, &config);
    assert!(batch.add.is_empty());
    assert!(batch.remove.is_empty());
}

#[test]
fn undo_external_exclusion() {
    let config = config_with("/R", rule(&["build"], &["pom.xml"]));
    let tree = vec![dir("p", false, vec![dir("build", true, Vec::new())])];
    let batch = scan_forest(&path_of("/R"), &tree, &config);
    assert!(batch.add.is_empty());
    assert_eq!(batch.remove, vec![path_of("/R/p/build")]);

    // With no_include, the removal is never applied.
    let kept = process_event_batch(batch, true);
    assert!(kept.remove.is_empty());
    let mut metrics = Metrics::new();
    tmexclude::record_event_metrics(&kept, &mut metrics, 77);
    assert_eq!(metrics.files_included, 0);
}

#[test]
fn satisfied_subtrees_are_not_entered() {
    // The excluded subtree holds a nested match; a settled tree would not,
    // and the scanner does not look inside.
    let config = config_with("/R", rule(&["target"], &["Cargo.toml"]));
    let nested = vec![file("Cargo.toml"), dir("target", false, Vec::new())];
    let tree = vec![dir(
        "proj",
        false,
        vec![file("Cargo.toml"), dir("target", true, nested)],
    )];
    let batch = scan_forest(&path_of("/R"), &tree, &config);
    assert!(batch.add.is_empty());
    assert!(batch.remove.is_empty());
}

#[test]
fn skipped_children_contribute_nothing() {
    let mut config = config_with("/R", rule(&["target"], &["Cargo.toml"]));
    config.skips.push(path_of("/R/proj/target"));
    let tree = vec![dir("proj", false, vec![file("Cargo.toml"), dir("target", false, Vec::new())])];
    let batch = scan_forest(&path_of("/R"), &tree, &config);
    assert!(batch.add.is_empty());
    assert!(batch.remove.is_empty());
}

#[test]
fn diff_is_idempotent_on_applied_listing() {
    let config = config_with("/R", rule(&["target"], &["Cargo.toml"]));
    let cwd = path_of("/R/proj");
    let before = vec![("Cargo.toml".to_string(), false), ("target".to_string(), false)];
    let first = generate_diff(&cwd, &before, &config.directories);
    assert_eq!(first.add, vec![path_of("/R/proj/target")]);
    assert!(first.remove.is_empty());

    // Apply the diff to the listing and diff again: nothing is left to do.
    let after = vec![("Cargo.toml".to_string(), false), ("target".to_string(), true)];
    let second = generate_diff(&cwd, &after, &config.directories);
    assert!(second.add.is_empty());
    assert!(second.remove.is_empty());
}

#[test]
fn diff_ignores_rule_order_and_multiplicity() {
    let r1 = rule(&["target"], &["Cargo.toml"]);
    let r2 = rule(&["build"], &[]);
    let cwd = path_of("/R/proj");
    let listing = vec![
        ("Cargo.toml".to_string(), false),
        ("target".to_string(), false),
        ("build".to_string(), false),
    ];
    let one = WalkConfig {
        directories: vec![Directory { path: path_of("/R"), rules: vec![r1.clone(), r2.clone()] }],
        skips: Vec::new(),
    };
    let two = WalkConfig {
        directories: vec![
            Directory { path: path_of("/R"), rules: vec![r2.clone(), r1.clone()] },
            Directory { path: path_of("/R"), rules: vec![r1.clone()] },
        ],
        skips: Vec::new(),
    };
    let a = generate_diff(&cwd, &listing, &one.directories);
    let b = generate_diff(&cwd, &listing, &two.directories);
    assert_eq!(a.add.len(), b.add.len());
    for p in &a.add {
        assert!(b.add.contains(p));
    }
    assert!(a.remove.is_empty() && b.remove.is_empty());
}

#[test]
fn scan_step_reports_descent_and_pruned_config() {
    let mut config = config_with("/R", rule(&["target"], &["Cargo.toml"]));
    config.directories.push(Directory { path: path_of("/Elsewhere"), rules: Vec::new() });
    config.skips.push(path_of("/R/skipme"));
    config.skips.push(path_of("/Elsewhere/skip"));

    let entries = vec![
        file("Cargo.toml"),
        dir("target", false, Vec::new()),
        dir("src", false, Vec::new()),
        dir("skipme", false, Vec::new()),
    ];
    let (batch, descend, pruned) = scan_step(&path_of("/R"), &entries, &config);
    assert_eq!(batch.add, vec![path_of("/R/target")]);
    assert!(batch.remove.is_empty());
    // No descent into a plain file, a freshly excluded child, or a skip.
    assert_eq!(descend, vec![false, false, true, false]);
    // The entry and skip that cannot matter under /R are gone.
    assert_eq!(pruned.directories.len(), 1);
    assert_eq!(pruned.skips, vec![path_of("/R/skipme")]);
}

#[test]
fn prune_config_drops_only_inapplicable_entries() {
    let config = WalkConfig {
        directories: vec![
            Directory { path: path_of("/R/deep"), rules: Vec::new() },
            Directory { path: path_of("/R"), rules: Vec::new() },
            Directory { path: path_of("/Q"), rules: Vec::new() },
        ],
        skips: vec![path_of("/R/a"), path_of("/Q/b")],
    };
    let pruned = prune_config(&path_of("/R"), &config);
    assert_eq!(pruned.directories.len(), 2);
    assert_eq!(pruned.skips, vec![path_of("/R/a")]);
}

#[test]
fn inapplicable_root_scans_to_nothing() {
    let config = config_with("/R", rule(&["target"], &[]));
    let tree = vec![dir("target", false, Vec::new())];
    let batch = scan_forest(&path_of("/Q"), &tree, &config);
    assert!(batch.add.is_empty());
    assert!(batch.remove.is_empty());
}

#[test]
fn watcher_rescan_updates_metrics_and_last_excluded() {
    let config = config_with("/R", rule(&["target"], &["Cargo.toml"]));
    let tree = vec![dir("proj", false, vec![file("Cargo.toml"), dir("target", false, Vec::new())])];
    let batch = scan_forest(&path_of("/R"), &tree, &config);

    // The apply succeeded; the bookkeeping follows it.
    let mut metrics = Metrics::new();
    let kept = process_event_batch(batch, false);
    assert_eq!(kept.add, vec![path_of("/R/proj/target")]);
    tmexclude::record_event_metrics(&kept, &mut metrics, 1234);
    assert_eq!(metrics.files_excluded, 1);
    assert_eq!(metrics.files_included, 0);
    assert_eq!(metrics.last_excluded, Some(path_of("/R/proj/target")));
    assert_eq!(metrics.last_excluded_time, 1234);
}

#[test]
fn failed_apply_leaves_metrics_untouched() {
    // Nothing exists under this root, so the apply fails and no counter
    // moves.
    let config = config_with("/R", rule(&["target"], &["Cargo.toml"]));
    let tree = vec![dir("proj", false, vec![file("Cargo.toml"), dir("target", false, Vec::new())])];
    let batch = scan_forest(&path_of("/R"), &tree, &config);

    let mut metrics = Metrics::new();
    let outcome = tmexclude::handle_event_batch(batch, false, &mut metrics, 1234);
    let errors = outcome.expect_err("nothing exists to write to");
    assert_eq!(errors.len(), 1);
    assert_eq!(errors[0].0, path_of("/R/proj/target"));
    assert_eq!(metrics.files_excluded, 0);
    assert_eq!(metrics.last_excluded, None);
}

#[test]
fn precheck_caches_paths_that_need_no_work() {
    let config = config_with("/R", rule(&["target"], &[]));
    let mut cache = SkipCache::default();
    // No configured directory applies under /Q.
    assert!(!walk_non_recursive_precheck(&path_of("/Q/x"), &config, &mut cache));
    // Asking again is answered the same way, now from the cache.
    assert!(!walk_non_recursive_precheck(&path_of("/Q/x"), &config, &mut cache));
}

#[test]
fn precheck_turns_skipped_paths_away() {
    let mut config = config_with("/R", rule(&["target"], &[]));
    config.skips.push(path_of("/R/vendor"));
    let mut cache = SkipCache::default();
    assert!(!walk_non_recursive_precheck(&path_of("/R/vendor/pkg"), &config, &mut cache));
}

#[test]
fn precheck_lets_applicable_paths_through() {
    let config = config_with("/R", rule(&["target"], &[]));
    let mut cache = SkipCache::default();
    // The path does not exist, so no ancestor carries the attribute.
    assert!(walk_non_recursive_precheck(&path_of("/R/somewhere"), &config, &mut cache));
}

#[test]
fn appearing_indicator_excludes_present_candidates() {
    // Cargo.toml appears beside an existing target: the target is excluded.
    let config = config_with("/R", rule(&["target"], &["Cargo.toml"]));
    let actions = action_when_appear(
        &config.directories,
        &path_of("/R/proj/Cargo.toml"),
        &vec!["target".to_string(), "src".to_string()],
    );
    assert_eq!(actions.len(), 1);
    match &actions[0] {
        ExclusionAction::Add(p) => assert_eq!(*p, path_of("/R/proj/target")),
        _ => panic!("expected an addition"),
    }
}

#[test]
fn appearing_candidate_needs_an_indicator() {
    let config = config_with("/R", rule(&["target"], &["Cargo.toml"]));
    // target appears, Cargo.toml is already there: excluded.
    let with = action_when_appear(
        &config.directories,
        &path_of("/R/proj/target"),
        &vec!["Cargo.toml".to_string()],
    );
    assert_eq!(with.len(), 1);
    match &with[0] {
        ExclusionAction::Add(p) => assert_eq!(*p, path_of("/R/proj/target")),
        _ => panic!("expected an addition"),
    }
    // target appears alone: nothing happens.
    let without = action_when_appear(&config.directories, &path_of("/R/proj/target"), &vec![]);
    assert!(without.is_empty());
    // One indicator of several present is enough.
    let config2 = config_with("/R", rule(&["build"], &["pom.xml", "build.gradle"]));
    let one_of_two = action_when_appear(
        &config2.directories,
        &path_of("/R/proj/build"),
        &vec!["pom.xml".to_string()],
    );
    assert_eq!(one_of_two.len(), 1);
    match &one_of_two[0] {
        ExclusionAction::Add(p) => assert_eq!(*p, path_of("/R/proj/build")),
        _ => panic!("expected an addition"),
    }
}

#[test]
fn deepest_directory_entry_wins() {
    let outer = Directory { path: path_of("/R"), rules: vec![rule(&["out"], &[])] };
    let inner = Directory { path: path_of("/R/nested"), rules: vec![rule(&["target"], &[])] };
    let dirs = vec![outer, inner];
    let actions = action_when_appear(&dirs, &path_of("/R/nested/target"), &vec![]);
    assert_eq!(actions.len(), 1);
    match &actions[0] {
        ExclusionAction::Add(p) => assert_eq!(*p, path_of("/R/nested/target")),
        _ => panic!("expected an addition"),
    }
}

#[test]
fn removal_events_turn_the_actions_around() {
    let config = config_with("/R", rule(&["target"], &["Cargo.toml"]));
    let removed = match_rule(
        &config.directories,
        FsEventKind::Remove,
        &path_of("/R/proj/target"),
        &vec!["Cargo.toml".to_string()],
    );
    assert_eq!(removed.len(), 1);
    match &removed[0] {
        ExclusionAction::Remove(p) => assert_eq!(*p, path_of("/R/proj/target")),
        _ => panic!("expected a removal"),
    }
    let nothing = match_rule(
        &config.directories,
        FsEventKind::Other,
        &path_of("/R/proj/target"),
        &vec![],
    );
    assert!(nothing.is_empty());
}

#[test]
fn unreadable_children_scan_to_nothing() {
    // None of these children exist on disk, so none of their states can be
    // read, and the observable listing is empty.
    let config = config_with("/R", rule(&["target"], &["Cargo.toml"]));
    let names = vec!["Cargo.toml".to_string(), "target".to_string()];
    let batch = walk_non_recursive_scan(&path_of("/R/proj"), &names, &config);
    assert!(batch.add.is_empty());
    assert!(batch.remove.is_empty());
}
