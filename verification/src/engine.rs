//! The combination engine: which feature sets to build for a package.
//!
//! Two modes generate a base collection of candidate sets: the powerset of
//! all eligible feature names, or the union of per-group powersets when
//! isolated groups are configured. Pinned `include_features` are joined
//! into every candidate. Candidates containing a configured exclusion set
//! are dropped, configured inclusion sets are added back with unknown
//! names stripped, and the result is emitted deduplicated in the canonical
//! order.
//!
//! A powerset over `k` names holds `2^k` sets, so generation refuses to
//! expand more than [`MAX_POWERSET_FEATURES`] eligible names at once — in
//! global mode over the whole package, in isolated mode per group — and
//! reports [`FcError::TooManyConfigurations`] instead.

use vstd::prelude::*;

use crate::config::Config;
use crate::features::feature_names;
use crate::features::Feature;
use crate::features::Package;
use crate::fset::name_set;
use crate::fset::names_contain;
use crate::fset::views;
use crate::fset::FeatureSet;
use crate::order::lemma_lex_lt_asym;
use crate::order::lex_lt;
use crate::order::names_lt;
use crate::order::sorted_names;

verus! {

/// The most eligible feature names one powerset may be built over.
/// `2^18` combinations is a quarter million build invocations — anything
/// past that is taken as a configuration mistake.
pub const MAX_POWERSET_FEATURES: usize = 18;

/// Generation failed before any combination was produced.
#[derive(Debug)]
pub enum FcError {
    /// The eligible feature count would make the powerset unreasonably
    /// large; configure isolated or excluded features instead.
    TooManyConfigurations,
}

impl FcError {
    /// A short description of the error.
    pub fn message(&self) -> (r: String)
        ensures
            r@ == "too many configurations: too many features; configure \
isolated_feature_sets or exclude_features"@,
    {
        String::from_str(
            "too many configurations: too many features; configure \
isolated_feature_sets or exclude_features",
        )
    }
}

/// The feature names eligible for the global powerset: every declared
/// name not excluded.
pub open spec fn eligible_of(features: Seq<Feature>, exclude: Seq<String>) -> Set<Seq<char>> {
    feature_names(features).to_set().difference(name_set(exclude))
}

/// The feature names a single isolated group contributes: the group's
/// names that exist on the package and are not excluded.
pub open spec fn group_eligible_of(
    features: Seq<Feature>,
    exclude: Seq<String>,
    group: Seq<String>,
) -> Set<Seq<char>> {
    name_set(group).intersect(feature_names(features).to_set()).difference(name_set(exclude))
}

/// Membership in the base collection before filtering: the pinned names,
/// plus any subset of the eligible names (of one group, in isolated mode).
pub open spec fn base_member(p: &Package, cfg: &Config, s: Set<Seq<char>>) -> bool {
    let incl = name_set(cfg.include_features@);
    if cfg.isolated_feature_sets@.len() == 0 {
        incl.subset_of(s) && s.subset_of(
            eligible_of(p.features@, cfg.exclude_features@).union(incl),
        )
    } else {
        exists|k: int|
            0 <= k < cfg.isolated_feature_sets@.len() && incl.subset_of(s) && s.subset_of(
                group_eligible_of(
                    p.features@,
                    cfg.exclude_features@,
                    (#[trigger] cfg.isolated_feature_sets@[k])@,
                ).union(incl),
            )
    }
}

/// Does some configured exclusion set sit inside `s`?
///
/// The empty set is a subset of every candidate, so an empty
/// `exclude_feature_sets` entry excludes every combination; only forced
/// inclusions survive it. That degenerate entry is deliberate behavior,
/// not special-cased away.
pub open spec fn hits_exclusion(cfg: &Config, s: Set<Seq<char>>) -> bool {
    exists|j: int|
        0 <= j < cfg.exclude_feature_sets@.len() && name_set(
            (#[trigger] cfg.exclude_feature_sets@[j])@,
        ).subset_of(s)
}

/// Is `s` a configured inclusion set, after stripping unknown names?
pub open spec fn forced_member(p: &Package, cfg: &Config, s: Set<Seq<char>>) -> bool {
    exists|j: int|
        0 <= j < cfg.include_feature_sets@.len() && s == name_set(
            (#[trigger] cfg.include_feature_sets@[j])@,
        ).intersect(p.declared_set())
}

/// Membership in the engine's result: a base member that no exclusion set
/// removes, or a forced inclusion — inclusion wins over exclusion.
pub open spec fn generated(p: &Package, cfg: &Config, s: Set<Seq<char>>) -> bool {
    (base_member(p, cfg, s) && !hits_exclusion(cfg, s)) || forced_member(p, cfg, s)
}

/// Does the list hold a set with exactly these names?
pub open spec fn in_list(out: Seq<FeatureSet>, s: Set<Seq<char>>) -> bool {
    exists|i: int| 0 <= i < out.len() && out[i].set_view() == s
}

/// Every element is in canonical form.
pub open spec fn all_wf(out: Seq<FeatureSet>) -> bool {
    forall|i: int| 0 <= i < out.len() ==> out[i].wf()
}

/// The output order: strictly ascending, hence duplicate-free.
pub open spec fn sorted_output(out: Seq<FeatureSet>) -> bool {
    forall|i: int, j: int|
        0 <= i < j < out.len() ==> names_lt(out[i].seq_view(), out[j].seq_view())
}

/// The whole contract of generation: canonical elements, canonical order,
/// and exactly the generated sets as members.
pub open spec fn is_generation(p: &Package, cfg: &Config, out: Seq<FeatureSet>) -> bool {
    &&& all_wf(out)
    &&& sorted_output(out)
    &&& forall|s: Set<Seq<char>>| #[trigger] in_list(out, s) ==> generated(p, cfg, s)
    &&& forall|s: Set<Seq<char>>| #[trigger] generated(p, cfg, s) ==> in_list(out, s)
}

/// The condition under which generation refuses to run.
pub open spec fn too_many(p: &Package, cfg: &Config) -> bool {
    if cfg.isolated_feature_sets@.len() == 0 {
        eligible_of(p.features@, cfg.exclude_features@).len() > MAX_POWERSET_FEATURES
    } else {
        exists|k: int|
            0 <= k < cfg.isolated_feature_sets@.len() && group_eligible_of(
                p.features@,
                cfg.exclude_features@,
                (#[trigger] cfg.isolated_feature_sets@[k])@,
            ).len() > MAX_POWERSET_FEATURES
    }
}

/// A strictly sorted name list has as many names as its set.
pub proof fn lemma_sorted_count(s: Seq<Seq<char>>)
    requires
        sorted_names(s),
    ensures
        s.to_set().finite(),
        s.to_set().len() == s.len(),
{
    broadcast use vstd::seq_lib::seq_to_set_is_finite;

    assert(s.no_duplicates()) by {
        assert forall|i: int, j: int|
            0 <= i < s.len() && 0 <= j < s.len() && i != j implies s[i] != s[j] by {
            if i < j {
                lemma_lex_lt_asym(s[i], s[j]);
            } else {
                lemma_lex_lt_asym(s[j], s[i]);
            }
        }
    }
    s.unique_seq_to_set();
}

/// Collect, in canonical form, the declared feature names that are not
/// excluded.
fn eligible_features(features: &Vec<Feature>, exclude: &Vec<String>) -> (r: FeatureSet)
    ensures
        r.wf(),
        r.set_view() == eligible_of(features@, exclude@),
{
    let mut raw: Vec<String> = Vec::new();
    let mut i: usize = 0;
    while i < features.len()
        invariant
            0 <= i <= features.len(),
            name_set(raw@) == feature_names(features@.take(i as int)).to_set().difference(
                name_set(exclude@),
            ),
        decreases features.len() - i,
    {
        let ghost raw0 = raw@;
        let ghost nm = features@[i as int].name@;
        if !names_contain(exclude, features[i].name.as_str()) {
            raw.push(features[i].name.clone());
            proof {
                assert(views(raw@) =~= views(raw0).push(nm));
                crate::fset::lemma_to_set_push(views(raw0), nm);
            }
        }
        proof {
            assert(feature_names(features@.take(i as int + 1)) =~= feature_names(
                features@.take(i as int),
            ).push(nm));
            crate::fset::lemma_to_set_push(feature_names(features@.take(i as int)), nm);
            assert(name_set(raw@) =~= feature_names(features@.take(i as int + 1)).to_set()
                .difference(name_set(exclude@)));
        }
        i = i + 1;
    }
    proof {
        assert(features@.take(features@.len() as int) =~= features@);
    }
    FeatureSet::from_names(&raw)
}

/// The set of names in the first `n` entries of a sorted name list.
spec fn prefix_set(e: Seq<Seq<char>>, n: int) -> Set<Seq<char>> {
    e.take(n).to_set()
}

/// All subsets of the eligible names, each joined with the pinned names.
/// The list holds exactly the sets `t ∪ incl` for `t ⊆ elig`, that is,
/// every `s` with `incl ⊆ s ⊆ elig ∪ incl`.
fn powerset_with_include(elig: &FeatureSet, incl: &FeatureSet) -> (out: Vec<FeatureSet>)
    requires
        elig.wf(),
        incl.wf(),
    ensures
        all_wf(out@),
        forall|s: Set<Seq<char>>|
            #![trigger in_list(out@, s)]
            in_list(out@, s) <==> (incl.set_view().subset_of(s) && s.subset_of(
                elig.set_view().union(incl.set_view()),
            )),
{
    let ghost eseq = elig.seq_view();
    let mut subs: Vec<FeatureSet> = Vec::new();
    subs.push(FeatureSet::empty());
    proof {
        assert(eseq.take(0) =~= Seq::<Seq<char>>::empty());
        assert forall|s: Set<Seq<char>>|
            in_list(subs@, s) <==> s.subset_of(prefix_set(eseq, 0)) by {
            assert(!Seq::<Seq<char>>::empty().to_set().contains(s.choose()));
            if in_list(subs@, s) {
                assert(s == subs@[0].set_view());
                assert(s.subset_of(prefix_set(eseq, 0)));
            }
            if s.subset_of(prefix_set(eseq, 0)) {
                assert forall|x: Seq<char>| !(#[trigger] s.contains(x)) by {
                    if s.contains(x) {
                        assert(prefix_set(eseq, 0).contains(x));
                        assert(Seq::<Seq<char>>::empty().contains(x));
                    }
                }
                assert(s =~= subs@[0].set_view());
                assert(in_list(subs@, s));
            }
        }
    }
    let mut idx: usize = 0;
    while idx < elig.names.len()
        invariant
            0 <= idx <= elig.names.len(),
            elig.wf(),
            eseq == elig.seq_view(),
            all_wf(subs@),
            forall|s: Set<Seq<char>>|
                #![trigger in_list(subs@, s)]
                in_list(subs@, s) <==> s.subset_of(prefix_set(eseq, idx as int)),
        decreases elig.names.len() - idx,
    {
        let ghost pset = prefix_set(eseq, idx as int);
        let ghost nm = eseq[idx as int];
        proof {
            assert forall|x: Seq<char>| #[trigger] pset.contains(x) implies lex_lt(x, nm) by {
                let k = choose|k: int| 0 <= k < idx && eseq.take(idx as int)[k] == x;
                assert(eseq[k] == x);
            }
            if pset.contains(nm) {
                lemma_lex_lt_asym(nm, nm);
                assert(false);
            }
        }
        let cnt = subs.len();
        let ghost subs0 = subs@;
        let mut i: usize = 0;
        while i < cnt
            invariant
                0 <= i <= cnt,
                0 <= idx < elig.names.len(),
                elig.wf(),
                eseq == elig.seq_view(),
                nm == eseq[idx as int],
                cnt == subs0.len(),
                subs@.len() == cnt + i,
                all_wf(subs0),
                forall|k: int| 0 <= k < cnt ==> subs@[k] == subs0[k],
                forall|s: Set<Seq<char>>|
                    #![trigger in_list(subs0, s)]
                    in_list(subs0, s) <==> s.subset_of(pset),
                forall|x: Seq<char>| #[trigger] pset.contains(x) ==> lex_lt(x, nm),
                forall|k: int|
                    cnt <= k < subs@.len() ==> (#[trigger] subs@[k]).wf() && subs@[k].set_view()
                        == subs0[k - cnt].set_view().insert(nm),
            decreases cnt - i,
        {
            proof {
                assert(in_list(subs0, subs0[i as int].set_view()));
                assert(subs0[i as int].set_view().subset_of(pset));
                assert forall|k: int|
                    0 <= k < subs0[i as int].seq_view().len() implies lex_lt(
                    subs0[i as int].seq_view()[k],
                    nm,
                ) by {
                    assert(subs0[i as int].seq_view().contains(subs0[i as int].seq_view()[k]));
                    assert(subs0[i as int].set_view().contains(subs0[i as int].seq_view()[k]));
                    assert(pset.contains(subs0[i as int].seq_view()[k]));
                }
            }
            let snew = subs[i].with_extra(&elig.names[idx]);
            subs.push(snew);
            i = i + 1;
        }
        proof {
            assert forall|k: int| 0 <= k < subs@.len() implies (#[trigger] subs@[k]).wf() by {
                if k < cnt {
                    assert(subs@[k] == subs0[k]);
                    assert(subs0[k].wf());
                }
            }
            assert(all_wf(subs@));
            assert(eseq.take(idx as int + 1) =~= eseq.take(idx as int).push(nm));
            crate::fset::lemma_to_set_push(eseq.take(idx as int), nm);
            assert(prefix_set(eseq, idx as int + 1) == pset.insert(nm));
            assert forall|s: Set<Seq<char>>|
                in_list(subs@, s) <==> s.subset_of(prefix_set(eseq, idx as int + 1)) by {
                if in_list(subs@, s) {
                    let k = choose|k: int| 0 <= k < subs@.len() && subs@[k].set_view() == s;
                    if k < cnt {
                        assert(subs0[k].set_view() == s);
                        assert(in_list(subs0, s));
                        assert(s.subset_of(pset));
                    } else {
                        assert(s == subs0[k - cnt].set_view().insert(nm));
                        assert(in_list(subs0, subs0[k - cnt].set_view()));
                        assert(subs0[k - cnt].set_view().subset_of(pset));
                    }
                    assert(s.subset_of(pset.insert(nm)));
                }
                if s.subset_of(pset.insert(nm)) {
                    if !s.contains(nm) {
                        assert forall|x: Seq<char>| #[trigger] s.contains(x) implies pset.contains(
                            x,
                        ) by {
                            assert(pset.insert(nm).contains(x));
                        }
                        assert(s.subset_of(pset));
                        assert(in_list(subs0, s));
                        let k = choose|k: int| 0 <= k < subs0.len() && subs0[k].set_view() == s;
                        assert(subs@[k].set_view() == s);
                        assert(in_list(subs@, s));
                    } else {
                        let t = s.remove(nm);
                        assert forall|x: Seq<char>| #[trigger] t.contains(x) implies pset.contains(
                            x,
                        ) by {
                            assert(s.contains(x));
                            assert(pset.insert(nm).contains(x));
                        }
                        assert(t.subset_of(pset));
                        assert(in_list(subs0, t));
                        let k = choose|k: int| 0 <= k < subs0.len() && subs0[k].set_view() == t;
                        assert(subs@[cnt + k].set_view() == t.insert(nm));
                        assert(t.insert(nm) =~= s);
                        assert(in_list(subs@, s));
                    }
                }
            }
        }
        idx = idx + 1;
    }
    proof {
        assert(eseq.take(eseq.len() as int) =~= eseq);
        assert(prefix_set(eseq, eseq.len() as int) == elig.set_view());
    }
    let mut out: Vec<FeatureSet> = Vec::new();
    let mut i: usize = 0;
    while i < subs.len()
        invariant
            0 <= i <= subs.len(),
            out@.len() == i,
            incl.wf(),
            all_wf(subs@),
            forall|s: Set<Seq<char>>|
                #![trigger in_list(subs@, s)]
                in_list(subs@, s) <==> s.subset_of(elig.set_view()),
            forall|k: int|
                0 <= k < i ==> (#[trigger] out@[k]).wf() && out@[k].set_view()
                    == subs@[k].set_view().union(incl.set_view()),
        decreases subs.len() - i,
    {
        let u = subs[i].union(incl);
        out.push(u);
        i = i + 1;
    }
    proof {
        assert forall|s: Set<Seq<char>>|
            in_list(out@, s) <==> (incl.set_view().subset_of(s) && s.subset_of(
                elig.set_view().union(incl.set_view()),
            )) by {
            if in_list(out@, s) {
                let k = choose|k: int| 0 <= k < out@.len() && out@[k].set_view() == s;
                assert(s == subs@[k].set_view().union(incl.set_view()));
                assert(in_list(subs@, subs@[k].set_view()));
                assert(subs@[k].set_view().subset_of(elig.set_view()));
                assert(incl.set_view().subset_of(s));
                assert(s.subset_of(elig.set_view().union(incl.set_view())));
            }
            if incl.set_view().subset_of(s) && s.subset_of(
                elig.set_view().union(incl.set_view()),
            ) {
                let t = s.difference(incl.set_view());
                assert forall|x: Seq<char>| #[trigger] t.contains(x) implies elig.set_view()
                    .contains(x) by {
                    assert(s.contains(x));
                    assert(elig.set_view().union(incl.set_view()).contains(x));
                }
                assert(t.subset_of(elig.set_view()));
                assert(in_list(subs@, t));
                let k = choose|k: int| 0 <= k < subs@.len() && subs@[k].set_view() == t;
                assert(out@[k].set_view() == t.union(incl.set_view()));
                assert(t.union(incl.set_view()) =~= s);
                assert(in_list(out@, s));
            }
        }
    }
    out
}

/// Generate the global base powerset: every subset of the non-excluded
/// declared features, with the pinned `include_features` joined into each,
/// unless the eligible feature count is over the expansion cap.
pub fn generate_global_base_powerset(
    features: &Vec<Feature>,
    exclude_features: &Vec<String>,
    include_features: &Vec<String>,
) -> (r: Result<Vec<FeatureSet>, FcError>)
    ensures
        r is Ok <==> eligible_of(features@, exclude_features@).len() <= MAX_POWERSET_FEATURES,
        r matches Ok(out) ==> all_wf(out@) && forall|s: Set<Seq<char>>|
            #![trigger in_list(out@, s)]
            in_list(out@, s) <==> (name_set(include_features@).subset_of(s) && s.subset_of(
                eligible_of(features@, exclude_features@).union(name_set(include_features@)),
            )),
{
    let elig = eligible_features(features, exclude_features);
    proof {
        lemma_sorted_count(elig.seq_view());
    }
    if elig.names.len() > MAX_POWERSET_FEATURES {
        return Err(FcError::TooManyConfigurations);
    }
    let incl = FeatureSet::from_names(include_features);
    let out = powerset_with_include(&elig, &incl);
    Ok(out)
}

/// Collect, in canonical form, one isolated group's eligible names.
fn group_eligible(
    features: &Vec<Feature>,
    exclude: &Vec<String>,
    group: &Vec<String>,
) -> (r: FeatureSet)
    ensures
        r.wf(),
        r.set_view() == group_eligible_of(features@, exclude@, group@),
{
    let mut raw: Vec<String> = Vec::new();
    let mut i: usize = 0;
    while i < group.len()
        invariant
            0 <= i <= group.len(),
            name_set(raw@) == group_eligible_of(features@, exclude@, group@.take(i as int)),
        decreases group.len() - i,
    {
        let ghost raw0 = raw@;
        let ghost nm = group@[i as int]@;
        if crate::features::features_contain(features, group[i].as_str()) && !names_contain(
            exclude,
            group[i].as_str(),
        ) {
            raw.push(group[i].clone());
            proof {
                assert(views(raw@) =~= views(raw0).push(nm));
                crate::fset::lemma_to_set_push(views(raw0), nm);
            }
        }
        proof {
            assert(views(group@.take(i as int + 1)) =~= views(group@.take(i as int)).push(nm));
            crate::fset::lemma_to_set_push(views(group@.take(i as int)), nm);
            assert(name_set(raw@) =~= group_eligible_of(
                features@,
                exclude@,
                group@.take(i as int + 1),
            ));
        }
        i = i + 1;
    }
    proof {
        assert(group@.take(group@.len() as int) =~= group@);
    }
    FeatureSet::from_names(&raw)
}

/// Generate the isolated base powerset: for each configured group, the
/// powerset of the group's eligible names with the pinned names joined
/// into each, all groups' results collected together. Fails if any single
/// group is over the expansion cap.
pub fn generate_isolated_base_powerset(
    features: &Vec<Feature>,
    isolated_feature_sets: &Vec<Vec<String>>,
    exclude_features: &Vec<String>,
    include_features: &Vec<String>,
) -> (r: Result<Vec<FeatureSet>, FcError>)
    ensures
        r is Ok <==> (forall|k: int|
            0 <= k < isolated_feature_sets@.len() ==> group_eligible_of(
                features@,
                exclude_features@,
                (#[trigger] isolated_feature_sets@[k])@,
            ).len() <= MAX_POWERSET_FEATURES),
        r matches Ok(out) ==> all_wf(out@) && forall|s: Set<Seq<char>>|
            #![trigger in_list(out@, s)]
            in_list(out@, s) <==> (exists|k: int|
                0 <= k < isolated_feature_sets@.len() && name_set(include_features@).subset_of(s)
                    && s.subset_of(
                    group_eligible_of(
                        features@,
                        exclude_features@,
                        (#[trigger] isolated_feature_sets@[k])@,
                    ).union(name_set(include_features@)),
                )),
{
    let incl = FeatureSet::from_names(include_features);
    let mut out: Vec<FeatureSet> = Vec::new();
    let mut k: usize = 0;
    while k < isolated_feature_sets.len()
        invariant
            0 <= k <= isolated_feature_sets.len(),
            incl.wf(),
            incl.set_view() == name_set(include_features@),
            all_wf(out@),
            forall|k2: int|
                0 <= k2 < k ==> group_eligible_of(
                    features@,
                    exclude_features@,
                    (#[trigger] isolated_feature_sets@[k2])@,
                ).len() <= MAX_POWERSET_FEATURES,
            forall|s: Set<Seq<char>>|
                #![trigger in_list(out@, s)]
                in_list(out@, s) <==> (exists|k2: int|
                    0 <= k2 < k && name_set(include_features@).subset_of(s) && s.subset_of(
                        group_eligible_of(
                            features@,
                            exclude_features@,
                            (#[trigger] isolated_feature_sets@[k2])@,
                        ).union(name_set(include_features@)),
                    )),
        decreases isolated_feature_sets.len() - k,
    {
        let ge = group_eligible(features, exclude_features, &isolated_feature_sets[k]);
        proof {
            lemma_sorted_count(ge.seq_view());
        }
        if ge.names.len() > MAX_POWERSET_FEATURES {
            return Err(FcError::TooManyConfigurations);
        }
        let mut part = powerset_with_include(&ge, &incl);
        let ghost out0 = out@;
        let ghost part0 = part@;
        out.append(&mut part);
        proof {
            assert(out@ == out0 + part0);
            assert forall|i: int| 0 <= i < out@.len() implies (#[trigger] out@[i]).wf() by {
                if i < out0.len() {
                    assert(out@[i] == out0[i]);
                    assert(all_wf(out0));
                } else {
                    assert(out@[i] == part0[i - out0.len()]);
                    assert(all_wf(part0));
                }
            }
            assert forall|s: Set<Seq<char>>|
                in_list(out@, s) <==> (exists|k2: int|
                    0 <= k2 < k + 1 && name_set(include_features@).subset_of(s) && s.subset_of(
                        group_eligible_of(
                            features@,
                            exclude_features@,
                            (#[trigger] isolated_feature_sets@[k2])@,
                        ).union(name_set(include_features@)),
                    )) by {
                if in_list(out@, s) {
                    let i = choose|i: int| 0 <= i < out@.len() && out@[i].set_view() == s;
                    if i < out0.len() {
                        assert(out0[i].set_view() == s);
                        assert(in_list(out0, s));
                    } else {
                        assert(part0[i - out0.len()].set_view() == s);
                        assert(in_list(part0, s));
                    }
                }
                if exists|k2: int|
                    0 <= k2 < k + 1 && name_set(include_features@).subset_of(s) && s.subset_of(
                        group_eligible_of(
                            features@,
                            exclude_features@,
                            (#[trigger] isolated_feature_sets@[k2])@,
                        ).union(name_set(include_features@)),
                    ) {
                    let k2 = choose|k2: int|
                        0 <= k2 < k + 1 && name_set(include_features@).subset_of(s)
                            && s.subset_of(
                            group_eligible_of(
                                features@,
                                exclude_features@,
                                (#[trigger] isolated_feature_sets@[k2])@,
                            ).union(name_set(include_features@)),
                        );
                    if k2 < k {
                        assert(in_list(out0, s));
                        let i = choose|i: int| 0 <= i < out0.len() && out0[i].set_view() == s;
                        assert(out@[i].set_view() == s);
                        assert(in_list(out@, s));
                    } else {
                        assert(in_list(part0, s));
                        let i = choose|i: int| 0 <= i < part0.len() && part0[i].set_view() == s;
                        assert(out@[out0.len() + i].set_view() == s);
                        assert(in_list(out@, s));
                    }
                }
            }
        }
        k = k + 1;
    }
    Ok(out)
}

/// Non-strict version of the output order, before deduplication.
spec fn nonstrict_sorted(out: Seq<FeatureSet>) -> bool {
    forall|i: int, j: int|
        0 <= i < j < out.len() ==> !names_lt(out[j].seq_view(), out[i].seq_view())
}

/// Taking one more element adds exactly its set to the list's members.
proof fn lemma_in_list_take_step(v: Seq<FeatureSet>, n: int, s: Set<Seq<char>>)
    requires
        0 <= n < v.len(),
    ensures
        in_list(v.take(n + 1), s) <==> (in_list(v.take(n), s) || v[n].set_view() == s),
{
    if in_list(v.take(n + 1), s) {
        let i = choose|i: int|
            0 <= i < v.take(n + 1).len() && (#[trigger] v.take(n + 1)[i]).set_view() == s;
        if i < n {
            assert(v.take(n)[i].set_view() == s);
            assert(in_list(v.take(n), s));
        } else {
            assert(v.take(n + 1)[i] == v[n]);
        }
    }
    if in_list(v.take(n), s) {
        let i = choose|i: int| 0 <= i < v.take(n).len() && v.take(n)[i].set_view() == s;
        assert(v.take(n + 1)[i].set_view() == s);
        assert(in_list(v.take(n + 1), s));
    }
    if v[n].set_view() == s {
        assert(v.take(n + 1)[n].set_view() == s);
        assert(in_list(v.take(n + 1), s));
    }
}

/// Pushing an element adds exactly its set to the list's members.
proof fn lemma_in_list_push(pre: Seq<FeatureSet>, x: FeatureSet, s: Set<Seq<char>>)
    ensures
        in_list(pre.push(x), s) <==> (in_list(pre, s) || x.set_view() == s),
{
    if in_list(pre.push(x), s) {
        let i = choose|i: int| 0 <= i < pre.push(x).len() && pre.push(x)[i].set_view() == s;
        if i < pre.len() {
            assert(pre[i].set_view() == s);
            assert(in_list(pre, s));
        } else {
            assert(pre.push(x)[i] == x);
        }
    }
    if in_list(pre, s) {
        let i = choose|i: int| 0 <= i < pre.len() && pre[i].set_view() == s;
        assert(pre.push(x)[i].set_view() == s);
        assert(in_list(pre.push(x), s));
    }
    if x.set_view() == s {
        assert(pre.push(x)[pre.len() as int].set_view() == s);
        assert(in_list(pre.push(x), s));
    }
}

/// Inserting an element adds exactly its set to the list's members.
proof fn lemma_in_list_insert(pre: Seq<FeatureSet>, p: int, x: FeatureSet, s: Set<Seq<char>>)
    requires
        0 <= p <= pre.len(),
    ensures
        in_list(pre.insert(p, x), s) <==> (in_list(pre, s) || x.set_view() == s),
{
    let new = pre.insert(p, x);
    if in_list(new, s) {
        let i = choose|i: int| 0 <= i < new.len() && new[i].set_view() == s;
        if i < p {
            assert(new[i] == pre[i]);
            assert(in_list(pre, s));
        } else if i == p {
            assert(new[i] == x);
        } else {
            assert(new[i] == pre[i - 1]);
            assert(in_list(pre, s));
        }
    }
    if in_list(pre, s) {
        let i = choose|i: int| 0 <= i < pre.len() && pre[i].set_view() == s;
        let i2 = if i < p { i } else { i + 1 };
        assert(new[i2] == pre[i]);
        assert(in_list(new, s));
    }
    if x.set_view() == s {
        assert(new[p].set_view() == s);
        assert(in_list(new, s));
    }
}

/// Is every name of the list a member of the set?
fn names_subset_of(names: &Vec<String>, fs: &FeatureSet) -> (r: bool)
    ensures
        r == name_set(names@).subset_of(fs.set_view()),
{
    let mut i: usize = 0;
    while i < names.len()
        invariant
            0 <= i <= names.len(),
            forall|k: int| 0 <= k < i ==> fs.set_view().contains(views(names@)[k]),
        decreases names.len() - i,
    {
        if !fs.contains_name(names[i].as_str()) {
            proof {
                assert(views(names@)[i as int] == names@[i as int]@);
                assert(views(names@).contains(names@[i as int]@));
                assert(name_set(names@).contains(names@[i as int]@));
            }
            return false;
        }
        i = i + 1;
    }
    proof {
        assert forall|x: Seq<char>| #[trigger] name_set(names@).contains(x) implies fs.set_view()
            .contains(x) by {
            let k = choose|k: int| 0 <= k < views(names@).len() && views(names@)[k] == x;
            assert(fs.set_view().contains(views(names@)[k]));
        }
    }
    true
}

/// Does some configured exclusion set sit inside the given set?
fn excluded_by_any(cfg: &Config, fs: &FeatureSet) -> (r: bool)
    ensures
        r == hits_exclusion(cfg, fs.set_view()),
{
    let mut j: usize = 0;
    while j < cfg.exclude_feature_sets.len()
        invariant
            0 <= j <= cfg.exclude_feature_sets.len(),
            forall|k: int|
                0 <= k < j ==> !name_set((#[trigger] cfg.exclude_feature_sets@[k])@).subset_of(
                    fs.set_view(),
                ),
        decreases cfg.exclude_feature_sets.len() - j,
    {
        if names_subset_of(&cfg.exclude_feature_sets[j], fs) {
            return true;
        }
        j = j + 1;
    }
    false
}

/// The given names restricted to the package's declared features, in
/// canonical form.
fn restrict_to_declared(features: &Vec<Feature>, names: &Vec<String>) -> (r: FeatureSet)
    ensures
        r.wf(),
        r.set_view() == name_set(names@).intersect(feature_names(features@).to_set()),
{
    let mut raw: Vec<String> = Vec::new();
    let mut i: usize = 0;
    while i < names.len()
        invariant
            0 <= i <= names.len(),
            name_set(raw@) == name_set(names@.take(i as int)).intersect(
                feature_names(features@).to_set(),
            ),
        decreases names.len() - i,
    {
        let ghost raw0 = raw@;
        let ghost nm = names@[i as int]@;
        if crate::features::features_contain(features, names[i].as_str()) {
            raw.push(names[i].clone());
            proof {
                assert(views(raw@) =~= views(raw0).push(nm));
                crate::fset::lemma_to_set_push(views(raw0), nm);
            }
        }
        proof {
            assert(views(names@.take(i as int + 1)) =~= views(names@.take(i as int)).push(nm));
            crate::fset::lemma_to_set_push(views(names@.take(i as int)), nm);
            assert(name_set(raw@) =~= name_set(names@.take(i as int + 1)).intersect(
                feature_names(features@).to_set(),
            ));
        }
        i = i + 1;
    }
    proof {
        assert(names@.take(names@.len() as int) =~= names@);
    }
    FeatureSet::from_names(&raw)
}

/// Order a list of canonical sets, keeping exactly the same members.
fn sort_fsets(v: Vec<FeatureSet>) -> (out: Vec<FeatureSet>)
    requires
        all_wf(v@),
    ensures
        all_wf(out@),
        nonstrict_sorted(out@),
        forall|s: Set<Seq<char>>|
            #![trigger in_list(out@, s)]
            in_list(out@, s) <==> in_list(v@, s),
{
    let ghost v0 = v@;
    let mut rest = v;
    let mut out: Vec<FeatureSet> = Vec::new();
    let ghost mut n: int = 0;
    proof {
        assert(v0.skip(0) =~= v0);
    }
    while rest.len() > 0
        invariant
            0 <= n <= v0.len(),
            rest@ == v0.skip(n),
            all_wf(v0),
            all_wf(out@),
            nonstrict_sorted(out@),
            forall|s: Set<Seq<char>>|
                #![trigger in_list(out@, s)]
                in_list(out@, s) <==> in_list(v0.take(n), s),
        decreases rest@.len(),
    {
        proof {
            assert(v0.skip(n)[0] == v0[n]);
        }
        let x = rest.remove(0);
        proof {
            assert(rest@ =~= v0.skip(n + 1));
            assert(x == v0[n]);
            assert(x.wf());
        }
        let mut p: usize = 0;
        loop
            invariant
                0 <= p <= out.len(),
                forall|k: int| 0 <= k < p ==> !names_lt(x.seq_view(), out@[k].seq_view()),
            ensures
                0 <= p <= out.len(),
                forall|k: int| 0 <= k < p ==> !names_lt(x.seq_view(), out@[k].seq_view()),
                p < out.len() ==> names_lt(x.seq_view(), out@[p as int].seq_view()),
            decreases out.len() - p,
        {
            if p == out.len() {
                break ;
            }
            if x.lt(&out[p]) {
                break ;
            }
            p = p + 1;
        }
        let ghost outpre = out@;
        out.insert(p, x);
        proof {
            let now = out@;
            assert(now == outpre.insert(p as int, x));
            assert forall|i: int| 0 <= i < now.len() implies (#[trigger] now[i]).wf() by {
                if i < p {
                    assert(now[i] == outpre[i]);
                } else if i == p {
                    assert(now[i] == x);
                } else {
                    assert(now[i] == outpre[i - 1]);
                }
            }
            assert forall|i: int, j: int| 0 <= i < j < now.len() implies !names_lt(
                now[j].seq_view(),
                now[i].seq_view(),
            ) by {
                let a = if i < p { outpre[i] } else if i == p { x } else { outpre[i - 1] };
                let b = if j < p { outpre[j] } else if j == p { x } else { outpre[j - 1] };
                assert(now[i] == a);
                assert(now[j] == b);
                if i == p {
                    // a == x, b == outpre[j-1] with p <= j-1
                    assert(names_lt(x.seq_view(), outpre[p as int].seq_view()));
                    if names_lt(b.seq_view(), x.seq_view()) {
                        crate::order::lemma_names_lt_trans(
                            b.seq_view(),
                            x.seq_view(),
                            outpre[p as int].seq_view(),
                        );
                        if j - 1 == p {
                            crate::order::lemma_names_lt_asym(
                                b.seq_view(),
                                x.seq_view(),
                            );
                        }
                        assert(false);
                    }
                } else if j == p {
                    // b == x, a == outpre[i] with i < p
                } else {
                    // both from outpre
                }
            }
            assert(nonstrict_sorted(now));
            assert forall|s: Set<Seq<char>>|
                in_list(now, s) <==> in_list(v0.take(n + 1), s) by {
                lemma_in_list_insert(outpre, p as int, x, s);
                lemma_in_list_take_step(v0, n, s);
            }
            n = n + 1;
        }
    }
    proof {
        assert(v0.skip(n).len() == 0);
        assert(n == v0.len());
        assert(v0.take(v0.len() as int) =~= v0);
    }
    out
}

/// Drop repeated sets from an ordered list, leaving the canonical
/// strictly ascending output.
fn dedup_sorted(v: Vec<FeatureSet>) -> (out: Vec<FeatureSet>)
    requires
        all_wf(v@),
        nonstrict_sorted(v@),
    ensures
        all_wf(out@),
        sorted_output(out@),
        forall|s: Set<Seq<char>>|
            #![trigger in_list(out@, s)]
            in_list(out@, s) <==> in_list(v@, s),
{
    let ghost v0 = v@;
    let mut rest = v;
    let mut out: Vec<FeatureSet> = Vec::new();
    let ghost mut n: int = 0;
    proof {
        assert(v0.skip(0) =~= v0);
    }
    while rest.len() > 0
        invariant
            0 <= n <= v0.len(),
            rest@ == v0.skip(n),
            all_wf(v0),
            nonstrict_sorted(v0),
            all_wf(out@),
            sorted_output(out@),
            out@.len() > 0 ==> exists|m: int| 0 <= m < n && out@.last() == v0[m],
            forall|s: Set<Seq<char>>|
                #![trigger in_list(out@, s)]
                in_list(out@, s) <==> in_list(v0.take(n), s),
        decreases rest@.len(),
    {
        proof {
            assert(v0.skip(n)[0] == v0[n]);
        }
        let x = rest.remove(0);
        proof {
            assert(rest@ =~= v0.skip(n + 1));
            assert(x == v0[n]);
            assert(x.wf());
        }
        let ghost outpre = out@;
        let mut push_it = true;
        if out.len() > 0 {
            if out[out.len() - 1].same(&x) {
                push_it = false;
            }
        }
        if push_it {
            proof {
                if outpre.len() > 0 {
                    let last = outpre.last();
                    let m = choose|m: int| 0 <= m < n && outpre.last() == v0[m];
                    assert(!names_lt(v0[n].seq_view(), v0[m].seq_view()));
                    assert(last.seq_view() != x.seq_view());
                    crate::order::lemma_names_lt_trichotomy(last.seq_view(), x.seq_view());
                    assert(names_lt(last.seq_view(), x.seq_view()));
                }
            }
            out.push(x);
            proof {
                let now = out@;
                assert forall|i: int, j: int| 0 <= i < j < now.len() implies names_lt(
                    now[i].seq_view(),
                    now[j].seq_view(),
                ) by {
                    if j < now.len() - 1 {
                        assert(now[i] == outpre[i]);
                        assert(now[j] == outpre[j]);
                    } else {
                        assert(now[j] == x);
                        assert(now[i] == outpre[i]);
                        if i < outpre.len() - 1 {
                            assert(names_lt(
                                outpre[i].seq_view(),
                                outpre.last().seq_view(),
                            ));
                            crate::order::lemma_names_lt_trans(
                                outpre[i].seq_view(),
                                outpre.last().seq_view(),
                                x.seq_view(),
                            );
                        }
                    }
                }
                assert forall|i: int| 0 <= i < now.len() implies (#[trigger] now[i]).wf() by {
                    if i < now.len() - 1 {
                        assert(now[i] == outpre[i]);
                    }
                }
                assert forall|s: Set<Seq<char>>|
                    in_list(now, s) <==> in_list(v0.take(n + 1), s) by {
                    lemma_in_list_push(outpre, x, s);
                    lemma_in_list_take_step(v0, n, s);
                }
                assert(out@.last() == v0[n]);
                n = n + 1;
            }
        } else {
            proof {
                let last = outpre.last();
                assert(last.seq_view() == x.seq_view());
                assert(last.set_view() == x.set_view());
                assert(in_list(outpre, last.set_view())) by {
                    assert(outpre[outpre.len() - 1].set_view() == last.set_view());
                }
                assert forall|s: Set<Seq<char>>|
                    in_list(out@, s) <==> in_list(v0.take(n + 1), s) by {
                    lemma_in_list_take_step(v0, n, s);
                }
                n = n + 1;
            }
        }
    }
    proof {
        assert(v0.skip(n).len() == 0);
        assert(n == v0.len());
        assert(v0.take(v0.len() as int) =~= v0);
    }
    out
}

/// Compute the ordered list of feature combinations to build for a
/// package: the base powerset (global or isolated), minus every candidate
/// that contains a configured exclusion set, plus every configured
/// inclusion set with unknown names stripped, deduplicated and sorted in
/// the canonical order.
pub fn feature_combinations(package: &Package, config: &Config) -> (r: Result<
    Vec<FeatureSet>,
    FcError,
>)
    ensures
        r is Ok <==> !too_many(package, config),
        r matches Ok(out) ==> is_generation(package, config, out@),
{
    let base_result = if config.isolated_feature_sets.len() == 0 {
        generate_global_base_powerset(
            &package.features,
            &config.exclude_features,
            &config.include_features,
        )
    } else {
        generate_isolated_base_powerset(
            &package.features,
            &config.isolated_feature_sets,
            &config.exclude_features,
            &config.include_features,
        )
    };
    let mut base = match base_result {
        Ok(b) => b,
        Err(e) => {
            proof {
                assert(too_many(package, config));
            }
            return Err(e);
        },
    };
    let ghost base0 = base@;
    proof {
        assert forall|s: Set<Seq<char>>|
            #![trigger in_list(base0, s)]
            in_list(base0, s) <==> base_member(package, config, s) by {
            if config.isolated_feature_sets@.len() == 0 {
                assert(in_list(base0, s) <==> (name_set(config.include_features@).subset_of(s)
                    && s.subset_of(
                    eligible_of(package.features@, config.exclude_features@).union(
                        name_set(config.include_features@),
                    ),
                )));
            } else {
                assert(in_list(base0, s) <==> (exists|k: int|
                    0 <= k < config.isolated_feature_sets@.len() && name_set(
                        config.include_features@,
                    ).subset_of(s) && s.subset_of(
                        group_eligible_of(
                            package.features@,
                            config.exclude_features@,
                            (#[trigger] config.isolated_feature_sets@[k])@,
                        ).union(name_set(config.include_features@)),
                    )));
            }
        }
        assert(base0.skip(0) =~= base0);
    }
    // Exclusion filter: drop every candidate that contains an exclusion set.
    let mut kept: Vec<FeatureSet> = Vec::new();
    let ghost mut n: int = 0;
    while base.len() > 0
        invariant
            0 <= n <= base0.len(),
            base@ == base0.skip(n),
            all_wf(base0),
            all_wf(kept@),
            forall|s: Set<Seq<char>>|
                #![trigger in_list(kept@, s)]
                in_list(kept@, s) <==> (in_list(base0.take(n), s) && !hits_exclusion(config, s)),
        decreases base@.len(),
    {
        proof {
            assert(base0.skip(n)[0] == base0[n]);
        }
        let x = base.remove(0);
        proof {
            assert(base@ =~= base0.skip(n + 1));
            assert(x == base0[n]);
            assert(x.wf());
        }
        let ghost keptpre = kept@;
        let dropped = excluded_by_any(config, &x);
        if !dropped {
            kept.push(x);
        }
        proof {
            assert forall|s: Set<Seq<char>>|
                #![trigger in_list(kept@, s)]
                in_list(kept@, s) <==> (in_list(base0.take(n + 1), s) && !hits_exclusion(
                    config,
                    s,
                )) by {
                lemma_in_list_take_step(base0, n, s);
                if !dropped {
                    lemma_in_list_push(keptpre, x, s);
                }
            }
            n = n + 1;
        }
    }
    proof {
        assert(n == base0.len());
        assert(base0.take(base0.len() as int) =~= base0);
    }
    // Forced inclusion: add each configured inclusion set back, with the
    // names the package does not declare stripped out.
    let ghost kept0 = kept@;
    let mut res = kept;
    let mut j: usize = 0;
    while j < config.include_feature_sets.len()
        invariant
            0 <= j <= config.include_feature_sets.len(),
            all_wf(res@),
            forall|s: Set<Seq<char>>|
                #![trigger in_list(res@, s)]
                in_list(res@, s) <==> (in_list(kept0, s) || exists|j2: int|
                    0 <= j2 < j && s == name_set(
                        (#[trigger] config.include_feature_sets@[j2])@,
                    ).intersect(package.declared_set())),
        decreases config.include_feature_sets.len() - j,
    {
        let fs = restrict_to_declared(&package.features, &config.include_feature_sets[j]);
        let ghost respre = res@;
        res.push(fs);
        proof {
            assert forall|s: Set<Seq<char>>|
                #![trigger in_list(res@, s)]
                in_list(res@, s) <==> (in_list(kept0, s) || exists|j2: int|
                    0 <= j2 < j + 1 && s == name_set(
                        (#[trigger] config.include_feature_sets@[j2])@,
                    ).intersect(package.declared_set())) by {
                lemma_in_list_push(respre, fs, s);
                if s == fs.set_view() {
                    assert(s == name_set((config.include_feature_sets@[j as int])@).intersect(
                        package.declared_set(),
                    ));
                }
            }
        }
        j = j + 1;
    }
    let ghost res0 = res@;
    let sorted = sort_fsets(res);
    let ghost sorted0 = sorted@;
    let out = dedup_sorted(sorted);
    proof {
        assert forall|s: Set<Seq<char>>| #[trigger] in_list(out@, s) implies generated(
            package,
            config,
            s,
        ) by {
            assert(in_list(sorted0, s));
            assert(in_list(res0, s));
            if in_list(kept0, s) {
                assert(in_list(base0, s));
                assert(base_member(package, config, s));
            } else {
                let j2 = choose|j2: int|
                    0 <= j2 < config.include_feature_sets@.len() && s == name_set(
                        (#[trigger] config.include_feature_sets@[j2])@,
                    ).intersect(package.declared_set());
                assert(forced_member(package, config, s));
            }
        }
        assert forall|s: Set<Seq<char>>| #[trigger] generated(package, config, s) implies in_list(
            out@,
            s,
        ) by {
            if base_member(package, config, s) && !hits_exclusion(config, s) {
                assert(in_list(base0, s));
                assert(in_list(kept0, s));
                assert(in_list(res0, s));
            } else {
                let j2 = choose|j2: int|
                    0 <= j2 < config.include_feature_sets@.len() && s == name_set(
                        (#[trigger] config.include_feature_sets@[j2])@,
                    ).intersect(package.declared_set());
                assert(in_list(res0, s));
            }
            assert(in_list(sorted0, s));
            assert(in_list(out@, s));
        }
        assert(is_generation(package, config, out@));
    }
    Ok(out)
}

/// The feature combinations rendered as comma-joined strings, one per
/// combination, in the engine's output order.
pub fn feature_matrix(package: &Package, config: &Config) -> (r: Result<Vec<String>, FcError>)
    ensures
        r is Ok <==> !too_many(package, config),
        r matches Ok(m) ==> exists|out: Seq<FeatureSet>|
            #[trigger] is_generation(package, config, out) && m@.len() == out.len() && forall|
                i: int,
            |
                0 <= i < out.len() ==> m@[i]@ == crate::fset::joined(out[i].seq_view()),
{
    let combos = match feature_combinations(package, config) {
        Ok(c) => c,
        Err(e) => {
            return Err(e);
        },
    };
    let mut m: Vec<String> = Vec::new();
    let mut i: usize = 0;
    while i < combos.len()
        invariant
            0 <= i <= combos.len(),
            m@.len() == i,
            forall|k: int|
                0 <= k < i ==> m@[k]@ == crate::fset::joined(
                    (#[trigger] combos@[k]).seq_view(),
                ),
        decreases combos.len() - i,
    {
        m.push(combos[i].join_commas());
        i = i + 1;
    }
    proof {
        assert(is_generation(package, config, combos@));
        assert forall|k: int| 0 <= k < combos@.len() implies m@[k]@ == crate::fset::joined(
            combos@[k].seq_view(),
        ) by {}
    }
    Ok(m)
}

} // verus!
