//! Tests around the run orchestrator's decisions: argument handling,
//! configuration resolution, package selection, run summaries and the
//! final report numbers.

use cargo_feature_combinations::args::cargo_subcommand;
use cargo_feature_combinations::args::is_truthy;
use cargo_feature_combinations::args::Args;
use cargo_feature_combinations::args::ArgumentParser;
use cargo_feature_combinations::args::CargoSubcommand;
use cargo_feature_combinations::config::Config;
use cargo_feature_combinations::config::ConfigWarning;
use cargo_feature_combinations::config::DeprecatedConfig;
use cargo_feature_combinations::config::WorkspaceConfig;
use cargo_feature_combinations::features::manifest_parent;
use cargo_feature_combinations::features::optional_dependencies;
use cargo_feature_combinations::features::Dependency;
use cargo_feature_combinations::features::DependencyInfo;
use cargo_feature_combinations::fset::FeatureSet;
use cargo_feature_combinations::runner::build_command_args;
use cargo_feature_combinations::runner::final_exit_code;
use cargo_feature_combinations::runner::make_summary;
use cargo_feature_combinations::runner::prepare_cargo_args;
use cargo_feature_combinations::runner::run_status;
use cargo_feature_combinations::runner::summary_stats;
use cargo_feature_combinations::runner::RunStatus;
use cargo_feature_combinations::runner::Summary;
use cargo_feature_combinations::workspace::packages_for_fc;

fn strings(names: &[&str]) -> Vec<String> {
    names.iter().map(|n| (*n).to_string()).collect()
}

#[test]
fn argument_parser_contains_both_flag_forms() {
    let args = strings(&["build", "--color=never", "--pedantic"]);
    assert!(ArgumentParser::contains(&args, "--color"));
    assert!(ArgumentParser::contains(&args, "--pedantic"));
    assert!(!ArgumentParser::contains(&args, "--silent"));
}

#[test]
fn argument_parser_get_all_yields_values_last_first() {
    let args = strings(&["--package", "a", "x", "--package=b"]);
    let matches = args.get_all("--package", true);
    assert_eq!(matches.len(), 2);
    // Last occurrence first, so spans can be drained without shifting.
    assert_eq!(matches[0], (3, 3, "b".to_string()));
    assert_eq!(matches[1], (0, 1, "a".to_string()));
}

#[test]
fn argument_parser_get_all_matches_bare_flags() {
    let args = strings(&["--fail-fast", "build", "--fail-fast"]);
    let matches = args.get_all("--fail-fast", false);
    assert_eq!(matches.len(), 2);
    assert_eq!(matches[0], (2, 2, "--fail-fast".to_string()));
    assert_eq!(matches[1], (0, 0, "--fail-fast".to_string()));
}

#[test]
fn argument_values_drop_every_repeated_flag_prefix() {
    let args = strings(&["--p=--p=x"]);
    let matches = args.get_all("--p", true);
    assert_eq!(matches, vec![(0, 0, "x".to_string())]);
}

#[test]
fn args_get_returns_the_first_occurrence() {
    let args = Args(strings(&["check", "--manifest-path", "a/Cargo.toml", "--manifest-path=b"]));
    assert_eq!(
        args.get("--manifest-path", true),
        Some((1, 2, "a/Cargo.toml".to_string()))
    );
    assert_eq!(args.get("--pretty", false), None);
    assert!(args.contains("--manifest-path"));
}

#[test]
fn subcommand_detection_covers_aliases() {
    assert_eq!(cargo_subcommand(&strings(&["build"])), CargoSubcommand::Build);
    assert_eq!(cargo_subcommand(&strings(&["b"])), CargoSubcommand::Build);
    assert_eq!(cargo_subcommand(&strings(&["clippy"])), CargoSubcommand::Check);
    assert_eq!(cargo_subcommand(&strings(&["t"])), CargoSubcommand::Test);
    assert_eq!(cargo_subcommand(&strings(&["doc"])), CargoSubcommand::Doc);
    assert_eq!(cargo_subcommand(&strings(&["run"])), CargoSubcommand::Run);
    assert_eq!(
        cargo_subcommand(&strings(&["--version"])),
        CargoSubcommand::Other
    );
}

#[test]
fn truthy_words_are_recognized_in_any_case() {
    assert!(is_truthy("yes"));
    assert!(is_truthy("TRUE"));
    assert!(is_truthy("Y"));
    assert!(is_truthy("t"));
    assert!(!is_truthy("no"));
    assert!(!is_truthy(""));
    assert!(!is_truthy("yess"));
}

#[test]
fn resolve_config_merges_deprecated_fields() {
    let raw = Config {
        exclude_features: strings(&["full"]),
        exclude_feature_sets: vec![strings(&["a", "b"])],
        deprecated: DeprecatedConfig {
            skip_feature_sets: vec![strings(&["c", "d"])],
            denylist: strings(&["default"]),
            exact_combinations: vec![strings(&["e"])],
        },
        ..Config::default()
    };
    let (resolved, warnings) = cargo_feature_combinations::config::resolve_config(raw);
    assert_eq!(
        resolved.exclude_feature_sets,
        vec![strings(&["a", "b"]), strings(&["c", "d"])]
    );
    assert_eq!(resolved.exclude_features, strings(&["full", "default"]));
    assert_eq!(resolved.include_feature_sets, vec![strings(&["e"])]);
    assert!(resolved.deprecated.skip_feature_sets.is_empty());
    assert!(resolved.deprecated.denylist.is_empty());
    assert!(resolved.deprecated.exact_combinations.is_empty());
    assert_eq!(
        warnings,
        vec![
            ConfigWarning::DeprecatedSkipFeatureSets,
            ConfigWarning::DeprecatedDenylist,
            ConfigWarning::DeprecatedExactCombinations,
        ]
    );
    // Resolving again is a no-op with no warnings.
    let (again, warnings2) = cargo_feature_combinations::config::resolve_config(resolved);
    assert!(warnings2.is_empty());
    assert_eq!(again.exclude_features, strings(&["full", "default"]));
}

#[test]
fn workspace_with_package() {
    let names = strings(&["test"]);
    let have = packages_for_fc(&names, &WorkspaceConfig::default(), &Config::default());
    assert_eq!(have, strings(&["test"]));
}

#[test]
fn workspace_with_excluded_package() {
    let names = strings(&["test"]);
    let workspace_config = WorkspaceConfig {
        exclude_packages: strings(&["test"]),
    };
    let have = packages_for_fc(&names, &workspace_config, &Config::default());
    assert!(have.is_empty(), "expected no packages after exclusion");
}

#[test]
fn root_exclusions_filter_too() {
    let names = strings(&["a", "b", "c"]);
    let workspace_config = WorkspaceConfig {
        exclude_packages: strings(&["b"]),
    };
    let root_config = Config {
        exclude_packages: strings(&["c"]),
        ..Config::default()
    };
    let have = packages_for_fc(&names, &workspace_config, &root_config);
    assert_eq!(have, strings(&["a"]));
}

#[test]
fn optional_dependencies_use_the_rename() {
    let deps = vec![
        DependencyInfo {
            name: "plain".to_string(),
            rename: None,
            optional: false,
        },
        DependencyInfo {
            name: "opt-a".to_string(),
            rename: None,
            optional: true,
        },
        DependencyInfo {
            name: "opt-b".to_string(),
            rename: Some("renamed".to_string()),
            optional: true,
        },
    ];
    assert_eq!(deps[0].as_feature(), None);
    assert_eq!(deps[1].as_feature(), Some("opt-a".to_string()));
    assert_eq!(deps[2].as_feature(), Some("renamed".to_string()));
    assert_eq!(optional_dependencies(&deps), strings(&["opt-a", "renamed"]));
}

#[test]
fn manifest_parent_is_the_directory() {
    assert_eq!(
        manifest_parent("/work/pkg/Cargo.toml"),
        Some("/work/pkg".to_string())
    );
    assert_eq!(manifest_parent("Cargo.toml"), None);
}

#[test]
fn prepared_arguments_force_color_and_keep_the_passthrough() {
    let (head, extra, missing) =
        prepare_cargo_args(strings(&["build", "--", "--verbose"]));
    assert_eq!(head, strings(&["build", "--color", "always"]));
    assert_eq!(extra, strings(&["--", "--verbose"]));
    assert!(!missing);

    let (head2, extra2, missing2) = prepare_cargo_args(strings(&["check", "--color=never"]));
    assert_eq!(head2, strings(&["check", "--color=never"]));
    assert!(extra2.is_empty());
    assert!(!missing2);

    let (head3, extra3, missing3) = prepare_cargo_args(Vec::new());
    assert_eq!(head3, strings(&["--color", "always"]));
    assert!(extra3.is_empty());
    assert!(missing3);
}

#[test]
fn command_arguments_name_the_feature_set() {
    let features = FeatureSet::from_names(&strings(&["b", "a"]));
    let head = strings(&["build", "--color", "always"]);
    let extra = strings(&["--", "--quiet"]);
    let have = build_command_args(&head, &extra, &features, false);
    assert_eq!(
        have,
        strings(&[
            "build",
            "--color",
            "always",
            "--no-default-features",
            "--features=a,b",
            "--",
            "--quiet",
        ])
    );
    // A no-argument invocation skips flag injection entirely.
    let bare = build_command_args(&head, &extra, &features, true);
    assert_eq!(bare, strings(&["build", "--color", "always", "--", "--quiet"]));
}

#[test]
fn summaries_come_from_stripped_output() {
    let features = FeatureSet::from_names(&strings(&["a"]));
    let captured: Vec<u8> =
        b"\x1b[1m\x1b[33mwarning\x1b[0m\x1b[1m:\x1b[0m `pkg` (lib) generated 3 warnings\n"
            .to_vec();
    let s = make_summary("pkg".to_string(), &features, &captured, true, Some(0), false);
    assert_eq!(s.num_warnings, 3);
    assert_eq!(s.num_errors, 0);
    assert!(s.pedantic_success);
    assert_eq!(run_status(&s), RunStatus::Warn);

    let pedantic = make_summary("pkg".to_string(), &features, &captured, true, Some(0), true);
    assert!(!pedantic.pedantic_success);
    assert_eq!(run_status(&pedantic), RunStatus::Fail);
}

fn outcome(name: &str, features: &[&str], code: Option<i32>, ok: bool, w: usize, e: usize) -> Summary {
    Summary {
        package_name: name.to_string(),
        features: strings(features),
        exit_code: code,
        pedantic_success: ok,
        num_warnings: w,
        num_errors: e,
    }
}

#[test]
fn the_first_failing_outcome_sets_the_exit_code() {
    let outcomes = vec![
        outcome("a", &[], Some(0), true, 0, 0),
        outcome("a", &["x"], Some(101), false, 0, 2),
        outcome("b", &[], Some(7), false, 0, 1),
    ];
    assert_eq!(final_exit_code(&outcomes), 101);
    let only_first = vec![outcome("a", &[], Some(0), true, 0, 0)];
    assert_eq!(final_exit_code(&only_first), 0);
    // A failing run whose process was killed abnormally yields 1.
    let killed = vec![outcome("a", &[], None, false, 0, 0)];
    assert_eq!(final_exit_code(&killed), 1);
}

#[test]
fn report_numbers_count_distinct_runs() {
    let outcomes = vec![
        outcome("a", &[], Some(0), true, 3, 0),
        outcome("a", &["x"], Some(0), true, 0, 0),
        outcome("a", &["x"], Some(0), true, 12, 0),
        outcome("b", &[], Some(1), false, 0, 104),
    ];
    let stats = summary_stats(&outcomes);
    assert_eq!(stats.num_packages, 2);
    assert_eq!(stats.num_feature_sets, 3);
    assert_eq!(stats.most_warnings, 12);
    assert_eq!(stats.most_errors, 104);
    assert_eq!(stats.warnings_width, 2);
    assert_eq!(stats.errors_width, 3);
}

#[test]
fn run_status_tokens_follow_the_policy() {
    assert_eq!(run_status(&outcome("a", &[], Some(0), true, 0, 0)), RunStatus::Pass);
    assert_eq!(run_status(&outcome("a", &[], Some(0), true, 2, 0)), RunStatus::Warn);
    assert_eq!(run_status(&outcome("a", &[], Some(1), false, 0, 1)), RunStatus::Fail);
}
