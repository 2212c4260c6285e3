//! Per-package and workspace configuration, and the resolver that migrates
//! deprecated field names into their replacements.
//!
//! After resolution, nothing reads the deprecated fields: their contents
//! have been appended to the current fields and each non-empty one has
//! produced a warning for the caller to show.

use vstd::prelude::*;

verus! {

/// Deprecated configuration fields, kept so old manifests still work.
pub struct DeprecatedConfig {
    /// Superseded by `Config::exclude_feature_sets`.
    pub skip_feature_sets: Vec<Vec<String>>,
    /// Superseded by `Config::exclude_features`.
    pub denylist: Vec<String>,
    /// Superseded by `Config::include_feature_sets`.
    pub exact_combinations: Vec<Vec<String>>,
}

/// Per-package configuration for combination generation.
pub struct Config {
    /// When non-empty, combinations are generated per group instead of
    /// over the whole feature set.
    pub isolated_feature_sets: Vec<Vec<String>>,
    /// Features left out of every generated combination.
    pub exclude_features: Vec<String>,
    /// Features pinned into every generated combination.
    pub include_features: Vec<String>,
    /// Package names to skip; honored only on the workspace root package.
    pub exclude_packages: Vec<String>,
    /// Any generated combination containing one of these sets is dropped.
    pub exclude_feature_sets: Vec<Vec<String>>,
    /// Combinations always added back after filtering, with unknown
    /// feature names stripped.
    pub include_feature_sets: Vec<Vec<String>>,
    /// Deprecated fields, merged away by [`resolve_config`].
    pub deprecated: DeprecatedConfig,
}

/// Workspace-wide configuration.
pub struct WorkspaceConfig {
    /// Package names excluded from the whole workspace run.
    pub exclude_packages: Vec<String>,
}

impl Default for DeprecatedConfig {
    fn default() -> (r: Self)
        ensures
            r.skip_feature_sets@ == Seq::<Vec<String>>::empty(),
            r.denylist@ == Seq::<String>::empty(),
            r.exact_combinations@ == Seq::<Vec<String>>::empty(),
    {
        DeprecatedConfig {
            skip_feature_sets: Vec::new(),
            denylist: Vec::new(),
            exact_combinations: Vec::new(),
        }
    }
}

impl Default for Config {
    fn default() -> (r: Self)
        ensures
            r.isolated_feature_sets@ == Seq::<Vec<String>>::empty(),
            r.exclude_features@ == Seq::<String>::empty(),
            r.include_features@ == Seq::<String>::empty(),
            r.exclude_packages@ == Seq::<String>::empty(),
            r.exclude_feature_sets@ == Seq::<Vec<String>>::empty(),
            r.include_feature_sets@ == Seq::<Vec<String>>::empty(),
            r.deprecated.skip_feature_sets@ == Seq::<Vec<String>>::empty(),
            r.deprecated.denylist@ == Seq::<String>::empty(),
            r.deprecated.exact_combinations@ == Seq::<Vec<String>>::empty(),
    {
        Config {
            isolated_feature_sets: Vec::new(),
            exclude_features: Vec::new(),
            include_features: Vec::new(),
            exclude_packages: Vec::new(),
            exclude_feature_sets: Vec::new(),
            include_feature_sets: Vec::new(),
            deprecated: DeprecatedConfig {
                skip_feature_sets: Vec::new(),
                denylist: Vec::new(),
                exact_combinations: Vec::new(),
            },
        }
    }
}

impl Default for WorkspaceConfig {
    fn default() -> (r: Self)
        ensures
            r.exclude_packages@ == Seq::<String>::empty(),
    {
        WorkspaceConfig { exclude_packages: Vec::new() }
    }
}

/// A deprecated field was in use; the caller shows one diagnostic each.
#[derive(Clone, Copy, Debug, PartialEq, Eq, Structural)]
pub enum ConfigWarning {
    /// `skip_feature_sets` was set; merged into `exclude_feature_sets`.
    DeprecatedSkipFeatureSets,
    /// `denylist` was set; merged into `exclude_features`.
    DeprecatedDenylist,
    /// `exact_combinations` was set; merged into `include_feature_sets`.
    DeprecatedExactCombinations,
}

/// Migrate every deprecated field into its replacement, appending list
/// contents and emptying the deprecated field, with one warning per
/// non-empty deprecated field. Resolving an already-resolved configuration
/// changes nothing and warns about nothing.
pub fn resolve_config(raw: Config) -> (r: (Config, Vec<ConfigWarning>))
    ensures
        r.0.isolated_feature_sets@ == raw.isolated_feature_sets@,
        r.0.include_features@ == raw.include_features@,
        r.0.exclude_packages@ == raw.exclude_packages@,
        r.0.exclude_feature_sets@ == raw.exclude_feature_sets@
            + raw.deprecated.skip_feature_sets@,
        r.0.exclude_features@ == raw.exclude_features@ + raw.deprecated.denylist@,
        r.0.include_feature_sets@ == raw.include_feature_sets@
            + raw.deprecated.exact_combinations@,
        r.0.deprecated.skip_feature_sets@ == Seq::<Vec<String>>::empty(),
        r.0.deprecated.denylist@ == Seq::<String>::empty(),
        r.0.deprecated.exact_combinations@ == Seq::<Vec<String>>::empty(),
        r.1@ == warnings_for(raw),
        // Idempotence: a second resolution is a no-op.
        warnings_for(raw) == Seq::<ConfigWarning>::empty() ==> {
            &&& r.0.exclude_feature_sets@ == raw.exclude_feature_sets@
            &&& r.0.exclude_features@ == raw.exclude_features@
            &&& r.0.include_feature_sets@ == raw.include_feature_sets@
        },
{
    let Config {
        isolated_feature_sets,
        mut exclude_features,
        include_features,
        exclude_packages,
        mut exclude_feature_sets,
        mut include_feature_sets,
        deprecated,
    } = raw;
    let DeprecatedConfig { mut skip_feature_sets, mut denylist, mut exact_combinations } =
        deprecated;

    let mut warnings: Vec<ConfigWarning> = Vec::new();
    if skip_feature_sets.len() > 0 {
        warnings.push(ConfigWarning::DeprecatedSkipFeatureSets);
    }
    if denylist.len() > 0 {
        warnings.push(ConfigWarning::DeprecatedDenylist);
    }
    if exact_combinations.len() > 0 {
        warnings.push(ConfigWarning::DeprecatedExactCombinations);
    }
    proof {
        assert(warnings@ =~= warnings_for(raw));
    }

    exclude_feature_sets.append(&mut skip_feature_sets);
    exclude_features.append(&mut denylist);
    include_feature_sets.append(&mut exact_combinations);

    let resolved = Config {
        isolated_feature_sets,
        exclude_features,
        include_features,
        exclude_packages,
        exclude_feature_sets,
        include_feature_sets,
        deprecated: DeprecatedConfig {
            skip_feature_sets,
            denylist,
            exact_combinations,
        },
    };
    proof {
        if warnings_for(raw) == Seq::<ConfigWarning>::empty() {
            assert(raw.deprecated.skip_feature_sets@.len() == 0);
            assert(resolved.exclude_feature_sets@ =~= raw.exclude_feature_sets@);
            assert(resolved.exclude_features@ =~= raw.exclude_features@);
            assert(resolved.include_feature_sets@ =~= raw.include_feature_sets@);
        }
    }
    (resolved, warnings)
}

/// The warnings that resolving a configuration produces, in order.
pub open spec fn warnings_for(raw: Config) -> Seq<ConfigWarning> {
    (if raw.deprecated.skip_feature_sets@.len() > 0 {
        seq![ConfigWarning::DeprecatedSkipFeatureSets]
    } else {
        Seq::empty()
    }) + (if raw.deprecated.denylist@.len() > 0 {
        seq![ConfigWarning::DeprecatedDenylist]
    } else {
        Seq::empty()
    }) + (if raw.deprecated.exact_combinations@.len() > 0 {
        seq![ConfigWarning::DeprecatedExactCombinations]
    } else {
        Seq::empty()
    })
}

} // verus!
