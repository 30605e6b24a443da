//! A library that maintains backup-exclusion attributes on files and
//! directories: named rules describe which children of a directory should be
//! excluded from backups, a scanner turns an observed directory state into a
//! batch of add/remove actions, and a watcher-facing rescan keeps the
//! attributes up to date as the filesystem changes.

mod args;
mod config;
mod metrics;
mod mission;
mod path;
mod resolve;
mod rpc;
mod scan;
mod skip_cache;
mod symlink;
mod tmutil;
mod walker;
mod watcher;

pub use args::Arg;
pub use args::ClientArgs;
pub use args::ClientCommand;
pub use args::Command;
pub use args::DaemonArgs;
pub use args::ScanArgs;
pub use config::get_paths;
pub use config::get_root;
pub use config::rescan_interval_default;
pub use config::watcher_interval_default;
pub use config::ApplyMode;
pub use config::Config;
pub use config::ConfigError;
pub use config::Directory;
pub use config::Interval;
pub use config::Rule;
pub use config::WalkConfig;
pub use metrics::Metrics;
pub use mission::handle_event_batch;
pub use mission::process_event_batch;
pub use mission::record_event_metrics;
pub use mission::MissionState;
pub use mission::ScanStatus;
pub use path::max_common_path;
pub use path::AbsPath;
pub use resolve::dfs_union_rules;
pub use resolve::resolve_config;
pub use resolve::resolve_directory_rules;
pub use resolve::resolve_walk_config;
pub use resolve::PathLookup;
pub use resolve::PreConfig;
pub use resolve::PreDirectory;
pub use resolve::PreRule;
pub use rpc::ensure_uds_path;
pub use rpc::Body;
pub use rpc::Request;
pub use rpc::Response;
pub use rpc::SerializedError;
pub use rpc::PROTOCOL_VERSION;
pub use scan::progress_tick;
pub use scan::prune_config;
pub use scan::scan_forest;
pub use scan::scan_step;
pub use scan::FsNode;
pub use skip_cache::SkipCache;
pub use symlink::SkipChain;
pub use tmutil::is_excluded;
pub use tmutil::ApplyError;
pub use tmutil::ApplyErrors;
pub use tmutil::ExclusionAction;
pub use tmutil::ExclusionActionBatch;
pub use walker::generate_diff;
pub use walker::walk_non_recursive_precheck;
pub use walker::walk_non_recursive_scan;
pub use watcher::action_when_appear;
pub use watcher::match_rule;
pub use watcher::FsEventKind;
