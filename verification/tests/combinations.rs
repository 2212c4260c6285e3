//! Combination engine tests: powerset generation, isolated groups,
//! exclusion and inclusion sets, and the expansion guard.

use cargo_feature_combinations::config::Config;
use cargo_feature_combinations::engine::feature_combinations;
use cargo_feature_combinations::engine::feature_matrix;
use cargo_feature_combinations::features::Feature;
use cargo_feature_combinations::features::Package;
use cargo_feature_combinations::fset::FeatureSet;

fn package_with_features(features: &[&str]) -> Package {
    Package {
        name: "test".to_string(),
        manifest_path: "/tmp/test/Cargo.toml".to_string(),
        features: features
            .iter()
            .map(|f| Feature {
                name: (*f).to_string(),
                implies: Vec::new(),
            })
            .collect(),
    }
}

fn strings(names: &[&str]) -> Vec<String> {
    names.iter().map(|n| (*n).to_string()).collect()
}

fn string_sets(sets: &[&[&str]]) -> Vec<Vec<String>> {
    sets.iter().map(|s| strings(s)).collect()
}

fn combos(package: &Package, config: &Config) -> Vec<Vec<String>> {
    feature_combinations(package, config)
        .unwrap_or_else(|e| panic!("unexpected error: {}", e.message()))
        .into_iter()
        .map(|fs| fs.names().clone())
        .collect()
}

#[test]
fn combinations() {
    let package = package_with_features(&["foo-c", "foo-a", "foo-b"]);
    let config = Config::default();
    let want = string_sets(&[
        &[],
        &["foo-a"],
        &["foo-a", "foo-b"],
        &["foo-a", "foo-b", "foo-c"],
        &["foo-a", "foo-c"],
        &["foo-b"],
        &["foo-b", "foo-c"],
        &["foo-c"],
    ]);
    assert_eq!(combos(&package, &config), want);
}

#[test]
fn combinations_isolated() {
    let package = package_with_features(&["foo-a", "foo-b", "bar-b", "bar-a", "car-b", "car-a"]);
    let config = Config {
        isolated_feature_sets: string_sets(&[&["foo-a", "foo-b"], &["bar-a", "bar-b"]]),
        ..Config::default()
    };
    let want = string_sets(&[
        &[],
        &["bar-a"],
        &["bar-a", "bar-b"],
        &["bar-b"],
        &["foo-a"],
        &["foo-a", "foo-b"],
        &["foo-b"],
    ]);
    assert_eq!(combos(&package, &config), want);
}

#[test]
fn combinations_isolated_non_existent() {
    let package = package_with_features(&["foo-a", "foo-b", "bar-a", "bar-b", "car-a", "car-b"]);
    let config = Config {
        isolated_feature_sets: string_sets(&[&["foo-a", "non-existent"], &["bar-a", "bar-b"]]),
        ..Config::default()
    };
    let want = string_sets(&[&[], &["bar-a"], &["bar-a", "bar-b"], &["bar-b"], &["foo-a"]]);
    assert_eq!(combos(&package, &config), want);
}

#[test]
fn combinations_isolated_denylist() {
    let package = package_with_features(&["foo-a", "foo-b", "bar-b", "bar-a", "car-a", "car-b"]);
    let config = Config {
        isolated_feature_sets: string_sets(&[&["foo-a", "foo-b"], &["bar-a", "bar-b"]]),
        exclude_features: strings(&["bar-a"]),
        ..Config::default()
    };
    let want = string_sets(&[&[], &["bar-b"], &["foo-a"], &["foo-a", "foo-b"], &["foo-b"]]);
    assert_eq!(combos(&package, &config), want);
}

#[test]
fn combinations_isolated_non_existent_denylist() {
    let package = package_with_features(&["foo-b", "foo-a", "bar-a", "bar-b", "car-a", "car-b"]);
    let config = Config {
        isolated_feature_sets: string_sets(&[&["foo-a", "non-existent"], &["bar-a", "bar-b"]]),
        exclude_features: strings(&["bar-a"]),
        ..Config::default()
    };
    let want = string_sets(&[&[], &["bar-b"], &["foo-a"]]);
    assert_eq!(combos(&package, &config), want);
}

#[test]
fn combinations_isolated_non_existent_denylist_exact() {
    let package = package_with_features(&["foo-a", "foo-b", "bar-a", "bar-b", "car-a", "car-b"]);
    let config = Config {
        isolated_feature_sets: string_sets(&[&["foo-a", "non-existent"], &["bar-a", "bar-b"]]),
        exclude_features: strings(&["bar-a"]),
        include_feature_sets: string_sets(&[&["car-a", "bar-a", "non-existent"]]),
        ..Config::default()
    };
    let want = string_sets(&[&[], &["bar-a", "car-a"], &["bar-b"], &["foo-a"]]);
    assert_eq!(combos(&package, &config), want);
}

#[test]
fn two_features_give_the_full_powerset() {
    let package = package_with_features(&["A", "B"]);
    let config = Config::default();
    let want = string_sets(&[&[], &["A"], &["A", "B"], &["B"]]);
    assert_eq!(combos(&package, &config), want);
}

#[test]
fn exclusion_set_removes_supersets() {
    let package = package_with_features(&["A", "B", "C"]);
    let config = Config {
        exclude_feature_sets: string_sets(&[&["A", "B"]]),
        ..Config::default()
    };
    // {A,B} and {A,B,C} are gone; the other 6 of the 8 subsets remain.
    let want = string_sets(&[&[], &["A"], &["A", "C"], &["B"], &["B", "C"], &["C"]]);
    assert_eq!(combos(&package, &config), want);
}

#[test]
fn isolated_groups_never_mix() {
    let package = package_with_features(&["A", "B", "C", "D"]);
    let config = Config {
        isolated_feature_sets: string_sets(&[&["A", "B"], &["C", "D"]]),
        ..Config::default()
    };
    // The union of the two group powersets; the empty set appears once.
    let want = string_sets(&[
        &[],
        &["A"],
        &["A", "B"],
        &["B"],
        &["C"],
        &["C", "D"],
        &["D"],
    ]);
    let have = combos(&package, &config);
    assert_eq!(have, want);
    for set in &have {
        let in_ab = set.iter().all(|f| f == "A" || f == "B");
        let in_cd = set.iter().all(|f| f == "C" || f == "D");
        assert!(in_ab || in_cd, "set mixes groups: {:?}", set);
    }
}

#[test]
fn unknown_names_are_stripped_from_forced_inclusions() {
    let package = package_with_features(&["A", "B"]);
    let config = Config {
        exclude_feature_sets: string_sets(&[&["A"]]),
        include_feature_sets: string_sets(&[&["A", "ghost"]]),
        ..Config::default()
    };
    let have = combos(&package, &config);
    // {A} would be filtered, but the inclusion adds it back; "ghost" is
    // not a declared feature and never appears.
    assert!(have.contains(&strings(&["A"])));
    for set in &have {
        assert!(!set.iter().any(|f| f == "ghost"));
    }
    let want = string_sets(&[&[], &["A"], &["B"]]);
    assert_eq!(have, want);
}

#[test]
fn an_empty_exclusion_set_excludes_everything() {
    let package = package_with_features(&["A"]);
    let config = Config {
        exclude_feature_sets: vec![Vec::new()],
        ..Config::default()
    };
    assert_eq!(combos(&package, &config), Vec::<Vec<String>>::new());
}

#[test]
fn too_many_feature_configurations_errors_gracefully() {
    let names: Vec<String> = (0..25).map(|i| format!("f{}", i)).collect();
    let name_refs: Vec<&str> = names.iter().map(|s| s.as_str()).collect();
    let package = package_with_features(&name_refs);
    let config = Config::default();
    let err = feature_matrix(&package, &config)
        .expect_err("expected feature matrix computation to error for too many configurations");
    assert!(
        err.message().contains("too many configurations"),
        "unexpected error: {}",
        err.message()
    );
}

#[test]
fn parity_simple_like_cargo_all_features() {
    // The feature map a manifest with features A, B = [A], C = [dep:optDepC]
    // and the optional dependency oDepB produces: the declared names, the
    // implicit default, and the optional dependency's implicit feature.
    let package = package_with_features(&["A", "B", "C", "default", "oDepB"]);
    let config = Config {
        exclude_features: strings(&["default"]),
        ..Config::default()
    };
    let mut have = combos(&package, &config);
    have.sort();
    let mut want = string_sets(&[
        &[],
        &["A"],
        &["B"],
        &["C"],
        &["oDepB"],
        &["A", "B"],
        &["A", "C"],
        &["A", "oDepB"],
        &["B", "C"],
        &["B", "oDepB"],
        &["C", "oDepB"],
        &["A", "B", "C"],
        &["A", "B", "oDepB"],
        &["A", "C", "oDepB"],
        &["B", "C", "oDepB"],
        &["A", "B", "C", "oDepB"],
    ]);
    want.sort();
    assert_eq!(have, want);
}

#[test]
fn generation_is_deterministic() {
    let package = package_with_features(&["x", "y", "z"]);
    let config = Config {
        exclude_feature_sets: string_sets(&[&["x", "z"]]),
        include_feature_sets: string_sets(&[&["y", "z"]]),
        ..Config::default()
    };
    assert_eq!(combos(&package, &config), combos(&package, &config));
}

#[test]
fn package_without_features_builds_once() {
    let package = package_with_features(&[]);
    let config = Config::default();
    assert_eq!(combos(&package, &config), string_sets(&[&[]]));
}

#[test]
fn feature_matrix_joins_with_commas() {
    let package = package_with_features(&["b", "a"]);
    let config = Config::default();
    let have = feature_matrix(&package, &config).unwrap();
    assert_eq!(have, vec!["", "a", "a,b", "b"]);
}

#[test]
fn feature_sets_are_canonical() {
    let raw = strings(&["b", "a", "b"]);
    let fs = FeatureSet::from_names(&raw);
    assert_eq!(fs.names(), &strings(&["a", "b"]));
}
