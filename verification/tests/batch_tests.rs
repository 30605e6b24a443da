use tmexclude::ensure_uds_path;
use tmexclude::AbsPath;
use tmexclude::ApplyErrors;
use tmexclude::ApplyMode;
use tmexclude::Body;
use tmexclude::ClientArgs;
use tmexclude::ClientCommand;
use tmexclude::Config;
use tmexclude::ConfigError;
use tmexclude::ExclusionAction;
use tmexclude::ExclusionActionBatch;
use tmexclude::Metrics;
use tmexclude::MissionState;
use tmexclude::Request;
use tmexclude::ScanStatus;
use tmexclude::SerializedError;
use tmexclude::SkipCache;
use tmexclude::WalkConfig;

fn path_of(s: &str) -> AbsPath {
    let segs: Vec<String> = s.split('/').filter(|t| !t.is_empty()).map(|t| t.to_string()).collect();
    AbsPath::from_segs(segs)
}

fn empty_config(no_include: bool) -> Config {
    Config { no_include, walk: WalkConfig { directories: Vec::new(), skips: Vec::new() } }
}

#[test]
fn batch_counts_and_merges() {
    let mut batch = ExclusionActionBatch::new();
    assert!(batch.is_empty());
    batch.push(ExclusionAction::Add(path_of("/a")));
    batch.push(ExclusionAction::Remove(path_of("/b")));
    assert!(!batch.is_empty());
    assert_eq!(batch.count(), 2);

    let mut other = ExclusionActionBatch::new();
    other.push(ExclusionAction::Add(path_of("/c")));
    batch.merge(other);
    assert_eq!(batch.add, vec![path_of("/a"), path_of("/c")]);
    assert_eq!(batch.remove, vec![path_of("/b")]);
}

#[test]
fn filter_by_mode_narrows_the_batch() {
    let mut batch = ExclusionActionBatch::new();
    batch.push(ExclusionAction::Add(path_of("/a")));
    batch.push(ExclusionAction::Remove(path_of("/b")));

    let dry = batch.clone().filter_by_mode(ApplyMode::DryRun);
    assert!(dry.is_empty());

    let add_only = batch.clone().filter_by_mode(ApplyMode::AddOnly);
    assert_eq!(add_only.add, vec![path_of("/a")]);
    assert!(add_only.remove.is_empty());

    let all = batch.clone().filter_by_mode(ApplyMode::All);
    assert_eq!(all.add, vec![path_of("/a")]);
    assert_eq!(all.remove, vec![path_of("/b")]);
}

#[test]
fn flip_reverses_an_action() {
    match ExclusionAction::Add(path_of("/a")).flip() {
        ExclusionAction::Remove(p) => assert_eq!(p, path_of("/a")),
        _ => panic!("expected a removal"),
    }
    match ExclusionAction::Remove(path_of("/a")).flip() {
        ExclusionAction::Add(p) => assert_eq!(p, path_of("/a")),
        _ => panic!("expected an addition"),
    }
}

#[test]
fn empty_batch_applies_cleanly() {
    let batch = ExclusionActionBatch::new();
    assert!(batch.apply().is_ok());
}

#[test]
fn failed_paths_are_reported_each_on_its_own() {
    // Nothing exists at these paths, so both actions fail — and both
    // failures are reported.
    let mut batch = ExclusionActionBatch::new();
    batch.push(ExclusionAction::Add(path_of("/surely/not/here/one")));
    batch.push(ExclusionAction::Add(path_of("/surely/not/here/two")));
    let errors = batch.apply().expect_err("must fail");
    assert_eq!(errors.len(), 2);
    assert_eq!(errors[0].0, path_of("/surely/not/here/one"));
    assert_eq!(errors[1].0, path_of("/surely/not/here/two"));

    let aggregated = ApplyErrors::from(Err(errors)).expect_err("must stay an error");
    assert_eq!(aggregated.errors.len(), 2);
    assert!(aggregated.errors[0].1.starts_with("Failed to apply rule: "));
}

#[test]
fn metrics_only_grow() {
    let mut metrics = Metrics::new();
    metrics.inc_excluded(3);
    metrics.inc_included(1);
    assert_eq!(metrics.files_excluded, 3);
    assert_eq!(metrics.files_included, 1);
    metrics.inc_excluded(0);
    assert_eq!(metrics.files_excluded, 3);
    metrics.inc_excluded(u64::MAX);
    assert_eq!(metrics.files_excluded, u64::MAX);
    metrics.inc_excluded(7);
    assert_eq!(metrics.files_excluded, u64::MAX);
    metrics.set_last_excluded(path_of("/a/b"), 99);
    assert_eq!(metrics.last_excluded, Some(path_of("/a/b")));
    assert_eq!(metrics.last_excluded_time, 99);
}

#[test]
fn mission_swaps_config_wholesale() {
    let mut mission = MissionState::new(empty_config(false));
    let mut cache = SkipCache::default();

    let ok = mission.set_config(Ok(empty_config(true)), &mut cache);
    assert!(ok.is_ok());
    assert!(mission.config.no_include);

    let err = mission.set_config(Err(ConfigError::NoDirectory), &mut cache);
    assert!(err.is_err());
    // The failed candidate left the previous configuration active.
    assert!(mission.config.no_include);
}

#[test]
fn mission_scan_status_round_trip() {
    let mut mission = MissionState::new(empty_config(false));
    assert!(matches!(mission.scan_status(), ScanStatus::Idle));
    mission.set_scan_status(ScanStatus::Scanning { current_path: path_of("/a"), found: 4 });
    match mission.scan_status() {
        ScanStatus::Scanning { current_path, found } => {
            assert_eq!(*current_path, path_of("/a"));
            assert_eq!(*found, 4);
        }
        _ => panic!("expected a running scan"),
    }
    mission.stop_full_scan();
    assert!(matches!(mission.scan_status(), ScanStatus::Idle));
}

#[test]
fn body_reports_success() {
    assert!(Body::Empty.success());
    let error = Body::Error(SerializedError::from_error("boom".to_string()));
    assert!(!error.success());
}

#[test]
fn client_commands_map_to_requests() {
    let args = || ClientArgs { uds: None };
    assert_eq!(Request::from(&ClientCommand::Pause(args())), Request::Pause);
    assert_eq!(Request::from(&ClientCommand::Reload(args())), Request::Reload);
    assert_eq!(Request::from(&ClientCommand::Restart(args())), Request::Restart);
    assert_eq!(Request::from(&ClientCommand::Shutdown(args())), Request::Shutdown);
    assert!(ClientCommand::Pause(ClientArgs { uds: Some(path_of("/s")) }).args().uds.is_some());
}

#[test]
fn defaults_for_mode_and_intervals() {
    assert_eq!(ApplyMode::default(), ApplyMode::AddOnly);
    let interval = tmexclude::Interval::default();
    assert_eq!(interval.watch, 30);
    assert_eq!(interval.rescan, 86400);
    assert_eq!(tmexclude::watcher_interval_default(), 30);
    assert_eq!(tmexclude::rescan_interval_default(), 86400);
}

#[test]
fn uds_path_falls_back_to_state_dir() {
    let picked = ensure_uds_path(None, path_of("/state"), true).expect("parent exists");
    assert_eq!(picked, path_of("/state/daemon.sock"));

    let explicit = ensure_uds_path(Some(path_of("/tmp/sock")), path_of("/state"), true)
        .expect("parent exists");
    assert_eq!(explicit, path_of("/tmp/sock"));

    assert!(ensure_uds_path(Some(path_of("/nowhere/sock")), path_of("/state"), false).is_err());
}
