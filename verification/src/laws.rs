//! The engine's guarantees, stated and proved once for all inputs.
//!
//! Each law here is a consequence of [`is_generation`], the contract that
//! [`crate::engine::feature_combinations`] establishes for its output:
//! the powerset count under an empty configuration, determinism of the
//! output sequence, the exclusion and forced-inclusion guarantees, and
//! group confinement in isolated mode.

use vstd::prelude::*;

use crate::config::Config;
use crate::engine::all_wf;
use crate::engine::base_member;
use crate::engine::forced_member;
use crate::engine::group_eligible_of;
use crate::engine::hits_exclusion;
use crate::engine::in_list;
use crate::engine::is_generation;
use crate::engine::sorted_output;
use crate::features::Package;
use crate::fset::lemma_canonical_unique;
use crate::fset::name_set;
use crate::fset::FeatureSet;
use crate::order::lemma_names_lt_asym;
use crate::order::names_lt;

verus! {

/// `2^n`.
pub open spec fn pow2(n: nat) -> nat
    decreases n,
{
    if n == 0 {
        1
    } else {
        2 * pow2((n - 1) as nat)
    }
}

/// All subsets of a set of names.
pub open spec fn powerset_of(f: Set<Seq<char>>) -> Set<Set<Seq<char>>> {
    Set::new(|s: Set<Seq<char>>| s.subset_of(f))
}

/// A list of pairwise distinct sets has as many entries as the set of its
/// members.
proof fn lemma_distinct_list_count(out: Seq<FeatureSet>, s: Set<Set<Seq<char>>>)
    requires
        forall|i: int, j: int|
            0 <= i < j < out.len() ==> (#[trigger] out[i]).set_view() != (
            #[trigger] out[j]).set_view(),
        forall|t: Set<Seq<char>>| #[trigger] s.contains(t) <==> in_list(out, t),
    ensures
        s.finite(),
        s.len() == out.len(),
    decreases out.len(),
{
    if out.len() == 0 {
        assert forall|t: Set<Seq<char>>| !(#[trigger] s.contains(t)) by {
            if s.contains(t) {
                assert(in_list(out, t));
            }
        }
        assert(s =~= Set::<Set<Seq<char>>>::empty());
    } else {
        let x = out.last();
        let rest = out.drop_last();
        let s2 = s.remove(x.set_view());
        assert forall|t: Set<Seq<char>>| #[trigger] s2.contains(t) <==> in_list(rest, t) by {
            if s2.contains(t) {
                assert(s.contains(t));
                assert(in_list(out, t));
                let i = choose|i: int| 0 <= i < out.len() && out[i].set_view() == t;
                if i == out.len() - 1 {
                    assert(t == x.set_view());
                    assert(false);
                }
                assert(rest[i] == out[i]);
                assert(in_list(rest, t));
            }
            if in_list(rest, t) {
                let i = choose|i: int| 0 <= i < rest.len() && rest[i].set_view() == t;
                assert(out[i] == rest[i]);
                assert(in_list(out, t));
                assert(s.contains(t));
                assert(out[i].set_view() != x.set_view());
            }
        }
        assert forall|i: int, j: int|
            0 <= i < j < rest.len() implies (#[trigger] rest[i]).set_view() != (
        #[trigger] rest[j]).set_view() by {
            assert(rest[i] == out[i]);
            assert(rest[j] == out[j]);
        }
        lemma_distinct_list_count(rest, s2);
        assert(out[out.len() - 1].set_view() == x.set_view());
        assert(in_list(out, x.set_view()));
        assert(s.contains(x.set_view()));
        if in_list(rest, x.set_view()) {
            let i = choose|i: int| 0 <= i < rest.len() && rest[i].set_view() == x.set_view();
            assert(out[i].set_view() == out[out.len() - 1].set_view());
            assert(false);
        }
        assert(!s2.contains(x.set_view()));
        assert(s =~= s2.insert(x.set_view()));
        assert(s.len() == s2.len() + 1);
    }
}

/// Two finite sets with nothing in common have the size of their parts.
proof fn lemma_disjoint_union_len(a: Set<Set<Seq<char>>>, b: Set<Set<Seq<char>>>)
    requires
        a.finite(),
        b.finite(),
        forall|t: Set<Seq<char>>| !(#[trigger] a.contains(t) && b.contains(t)),
    ensures
        a.union(b).finite(),
        a.union(b).len() == a.len() + b.len(),
    decreases a.len(),
{
    if a.len() == 0 {
        a.lemma_len0_is_empty();
        assert(a.union(b) =~= b);
    } else {
        assert(!(a =~= Set::<Set<Seq<char>>>::empty()));
        let x = choose|x: Set<Seq<char>>| a.contains(x);
        let a2 = a.remove(x);
        assert forall|t: Set<Seq<char>>| !(#[trigger] a2.contains(t) && b.contains(t)) by {
            if a2.contains(t) {
                assert(a.contains(t));
            }
        }
        lemma_disjoint_union_len(a2, b);
        assert(a2.union(b) =~= a.union(b).remove(x));
        assert(a.union(b) =~= a2.union(b).insert(x));
        assert(!a2.union(b).contains(x));
        assert(a.union(b).len() == a2.union(b).len() + 1);
    }
}

/// A set of `n` names has `2^n` subsets.
proof fn lemma_powerset_card(f: Set<Seq<char>>)
    requires
        f.finite(),
    ensures
        powerset_of(f).finite(),
        powerset_of(f).len() == pow2(f.len()),
    decreases f.len(),
{
    if f.len() == 0 {
        f.lemma_len0_is_empty();
        assert forall|s: Set<Seq<char>>| #[trigger] powerset_of(f).contains(s) implies s == Set::<
            Seq<char>,
        >::empty() by {
            assert(s.subset_of(f));
            assert(s =~= Set::<Seq<char>>::empty());
        }
        assert(powerset_of(f).contains(Set::<Seq<char>>::empty()));
        assert(powerset_of(f) =~= Set::<Set<Seq<char>>>::empty().insert(
            Set::<Seq<char>>::empty(),
        ));
        assert(powerset_of(f).len() == 1);
    } else {
        assert(!(f =~= Set::<Seq<char>>::empty()));
        let x = choose|x: Seq<char>| f.contains(x);
        let f2 = f.remove(x);
        assert(f2.len() == f.len() - 1);
        lemma_powerset_card(f2);
        let a = powerset_of(f2);
        let fun = |t: Set<Seq<char>>| t.insert(x);
        let b = a.map(fun);
        assert(vstd::relations::injective_on(fun, a)) by {
            assert forall|t1: Set<Seq<char>>, t2: Set<Seq<char>>|
                #![trigger fun(t1), fun(t2)]
                a.contains(t1) && a.contains(t2) && fun(t1) == fun(t2) implies t1 == t2 by {
                assert(t1.subset_of(f2));
                assert(t2.subset_of(f2));
                assert forall|y: Seq<char>| #[trigger] t1.contains(y) implies t2.contains(y) by {
                    assert(t1.insert(x).contains(y));
                    assert(t2.insert(x).contains(y));
                    assert(y != x);
                }
                assert forall|y: Seq<char>| #[trigger] t2.contains(y) implies t1.contains(y) by {
                    assert(t2.insert(x).contains(y));
                    assert(t1.insert(x).contains(y));
                    assert(y != x);
                }
                assert(t1 =~= t2);
            }
        }
        vstd::set_lib::lemma_map_size(a, b, fun);
        assert forall|t: Set<Seq<char>>| !(#[trigger] a.contains(t) && b.contains(t)) by {
            if a.contains(t) && b.contains(t) {
                let t0 = choose|t0: Set<Seq<char>>| a.contains(t0) && fun(t0) == t;
                assert(t.contains(x));
                assert(t.subset_of(f2));
                assert(f2.contains(x));
            }
        }
        lemma_disjoint_union_len(a, b);
        assert(powerset_of(f) =~= a.union(b)) by {
            assert forall|s: Set<Seq<char>>| #[trigger] powerset_of(f).contains(s) implies a.union(
                b,
            ).contains(s) by {
                if !s.contains(x) {
                    assert(s.subset_of(f2));
                    assert(a.contains(s));
                } else {
                    let t = s.remove(x);
                    assert(t.subset_of(f2));
                    assert(a.contains(t));
                    assert(fun(t) =~= s);
                    assert(b.contains(s));
                }
            }
            assert forall|s: Set<Seq<char>>| #[trigger] a.union(b).contains(s) implies powerset_of(
                f,
            ).contains(s) by {
                if a.contains(s) {
                    assert(s.subset_of(f2));
                    assert(s.subset_of(f));
                } else {
                    let t = choose|t: Set<Seq<char>>| a.contains(t) && fun(t) == s;
                    assert(t.subset_of(f2));
                    assert(t.insert(x).subset_of(f));
                }
            }
        }
        assert(powerset_of(f).len() == a.len() + b.len());
        assert(a.len() == pow2((f.len() - 1) as nat));
        assert(powerset_of(f).len() == pow2(f.len()));
    }
}

/// Under an empty configuration, the engine's output is exactly the
/// powerset of the declared features: `2^|S|` distinct sets, each a
/// subset of `S`, with the empty set and `S` itself among them.
pub proof fn lemma_empty_config_powerset(p: &Package, cfg: &Config, out: Seq<FeatureSet>)
    requires
        is_generation(p, cfg, out),
        cfg.isolated_feature_sets@.len() == 0,
        cfg.exclude_features@.len() == 0,
        cfg.include_features@.len() == 0,
        cfg.exclude_feature_sets@.len() == 0,
        cfg.include_feature_sets@.len() == 0,
    ensures
        out.len() == pow2(p.declared_set().len()),
        forall|i: int|
            0 <= i < out.len() ==> (#[trigger] out[i]).set_view().subset_of(p.declared_set()),
        in_list(out, Set::<Seq<char>>::empty()),
        in_list(out, p.declared_set()),
{
    broadcast use vstd::seq_lib::seq_to_set_is_finite;

    let decl = p.declared_set();
    assert(name_set(cfg.include_features@) =~= Set::<Seq<char>>::empty()) by {
        assert(crate::fset::views(cfg.include_features@).len() == 0);
    }
    assert(name_set(cfg.exclude_features@) =~= Set::<Seq<char>>::empty()) by {
        assert(crate::fset::views(cfg.exclude_features@).len() == 0);
    }
    assert forall|s: Set<Seq<char>>|
        #![trigger crate::engine::generated(p, cfg, s)]
        crate::engine::generated(p, cfg, s) <==> s.subset_of(decl) by {
        assert(crate::engine::eligible_of(p.features@, cfg.exclude_features@) =~= decl);
        assert(crate::engine::eligible_of(p.features@, cfg.exclude_features@).union(
            name_set(cfg.include_features@),
        ) =~= decl);
        assert(Set::<Seq<char>>::empty().subset_of(s));
        if hits_exclusion(cfg, s) {
            let j = choose|j: int|
                0 <= j < cfg.exclude_feature_sets@.len() && name_set(
                    (#[trigger] cfg.exclude_feature_sets@[j])@,
                ).subset_of(s);
            assert(false);
        }
        if forced_member(p, cfg, s) {
            let j = choose|j: int|
                0 <= j < cfg.include_feature_sets@.len() && s == name_set(
                    (#[trigger] cfg.include_feature_sets@[j])@,
                ).intersect(decl);
            assert(false);
        }
    }
    assert forall|i: int| 0 <= i < out.len() implies (#[trigger] out[i]).set_view().subset_of(
        decl,
    ) by {
        assert(in_list(out, out[i].set_view()));
        assert(crate::engine::generated(p, cfg, out[i].set_view()));
    }
    assert(crate::engine::generated(p, cfg, Set::<Seq<char>>::empty()));
    assert(crate::engine::generated(p, cfg, decl));
    // Count: the members are pairwise distinct and form the powerset.
    assert forall|i: int, j: int|
        0 <= i < j < out.len() implies (#[trigger] out[i]).set_view() != (
    #[trigger] out[j]).set_view() by {
        if out[i].set_view() == out[j].set_view() {
            lemma_canonical_unique(out[i], out[j]);
            assert(names_lt(out[i].seq_view(), out[j].seq_view()));
            lemma_names_lt_asym(out[i].seq_view(), out[j].seq_view());
            assert(false);
        }
    }
    assert forall|t: Set<Seq<char>>| #[trigger] powerset_of(decl).contains(t) <==> in_list(
        out,
        t,
    ) by {
        if powerset_of(decl).contains(t) {
            assert(crate::engine::generated(p, cfg, t));
        }
        if in_list(out, t) {
            assert(crate::engine::generated(p, cfg, t));
        }
    }
    lemma_distinct_list_count(out, powerset_of(decl));
    lemma_powerset_card(decl);
}

/// Two sorted lists of canonical sets with the same members are the same
/// list of name sequences.
proof fn lemma_sorted_fsets_unique(a: Seq<FeatureSet>, b: Seq<FeatureSet>)
    requires
        all_wf(a),
        all_wf(b),
        sorted_output(a),
        sorted_output(b),
        forall|s: Set<Seq<char>>| #[trigger] in_list(a, s) ==> in_list(b, s),
        forall|s: Set<Seq<char>>| #[trigger] in_list(b, s) ==> in_list(a, s),
    ensures
        a.len() == b.len(),
        forall|i: int| 0 <= i < a.len() ==> (#[trigger] a[i]).seq_view() == b[i].seq_view(),
    decreases a.len(),
{
    if a.len() == 0 {
        if b.len() > 0 {
            assert(in_list(b, b[0].set_view()));
            assert(in_list(a, b[0].set_view()));
            assert(false);
        }
    } else if b.len() == 0 {
        assert(in_list(a, a[0].set_view()));
        assert(in_list(b, a[0].set_view()));
        assert(false);
    } else {
        assert(in_list(a, a[0].set_view()));
        assert(in_list(b, a[0].set_view()));
        let jb = choose|j: int| 0 <= j < b.len() && b[j].set_view() == a[0].set_view();
        lemma_canonical_unique(a[0], b[jb]);
        assert(in_list(b, b[0].set_view()));
        assert(in_list(a, b[0].set_view()));
        let ia = choose|i: int| 0 <= i < a.len() && a[i].set_view() == b[0].set_view();
        lemma_canonical_unique(a[ia], b[0]);
        if a[0].seq_view() != b[0].seq_view() {
            assert(jb != 0);
            assert(ia != 0);
            assert(names_lt(b[0].seq_view(), b[jb].seq_view()));
            assert(names_lt(a[0].seq_view(), a[ia].seq_view()));
            assert(b[jb].seq_view() == a[0].seq_view());
            assert(a[ia].seq_view() == b[0].seq_view());
            lemma_names_lt_asym(a[0].seq_view(), b[0].seq_view());
            assert(false);
        }
        let at = a.skip(1);
        let bt = b.skip(1);
        assert forall|s: Set<Seq<char>>| #[trigger] in_list(at, s) implies in_list(bt, s) by {
            let k = choose|k: int| 0 <= k < at.len() && at[k].set_view() == s;
            assert(a[k + 1].set_view() == s);
            assert(in_list(a, s));
            assert(in_list(b, s));
            let m = choose|m: int| 0 <= m < b.len() && b[m].set_view() == s;
            if m == 0 {
                lemma_canonical_unique(b[0], a[k + 1]);
                assert(names_lt(a[0].seq_view(), a[k + 1].seq_view()));
                lemma_names_lt_asym(a[0].seq_view(), a[k + 1].seq_view());
                assert(false);
            }
            assert(bt[m - 1].set_view() == s);
            assert(in_list(bt, s));
        }
        assert forall|s: Set<Seq<char>>| #[trigger] in_list(bt, s) implies in_list(at, s) by {
            let k = choose|k: int| 0 <= k < bt.len() && bt[k].set_view() == s;
            assert(b[k + 1].set_view() == s);
            assert(in_list(b, s));
            assert(in_list(a, s));
            let m = choose|m: int| 0 <= m < a.len() && a[m].set_view() == s;
            if m == 0 {
                lemma_canonical_unique(a[0], b[k + 1]);
                assert(names_lt(b[0].seq_view(), b[k + 1].seq_view()));
                lemma_names_lt_asym(b[0].seq_view(), b[k + 1].seq_view());
                assert(false);
            }
            assert(at[m - 1].set_view() == s);
            assert(in_list(at, s));
        }
        assert(all_wf(at)) by {
            assert forall|i: int| 0 <= i < at.len() implies (#[trigger] at[i]).wf() by {
                assert(at[i] == a[i + 1]);
            }
        }
        assert(all_wf(bt)) by {
            assert forall|i: int| 0 <= i < bt.len() implies (#[trigger] bt[i]).wf() by {
                assert(bt[i] == b[i + 1]);
            }
        }
        assert(sorted_output(at)) by {
            assert forall|i: int, j: int| 0 <= i < j < at.len() implies names_lt(
                (#[trigger] at[i]).seq_view(),
                (#[trigger] at[j]).seq_view(),
            ) by {
                assert(at[i] == a[i + 1]);
                assert(at[j] == a[j + 1]);
            }
        }
        assert(sorted_output(bt)) by {
            assert forall|i: int, j: int| 0 <= i < j < bt.len() implies names_lt(
                (#[trigger] bt[i]).seq_view(),
                (#[trigger] bt[j]).seq_view(),
            ) by {
                assert(bt[i] == b[i + 1]);
                assert(bt[j] == b[j + 1]);
            }
        }
        lemma_sorted_fsets_unique(at, bt);
        assert forall|i: int| 0 <= i < a.len() implies (#[trigger] a[i]).seq_view()
            == b[i].seq_view() by {
            if i > 0 {
                assert(at[i - 1] == a[i]);
                assert(bt[i - 1] == b[i]);
                assert(at[i - 1].seq_view() == bt[i - 1].seq_view());
            }
        }
    }
}

/// Generation is deterministic: any two outputs that meet the engine's
/// contract for the same package and configuration are the same ordered
/// sequence of name lists.
pub proof fn lemma_generation_deterministic(
    p: &Package,
    cfg: &Config,
    a: Seq<FeatureSet>,
    b: Seq<FeatureSet>,
)
    requires
        is_generation(p, cfg, a),
        is_generation(p, cfg, b),
    ensures
        a.len() == b.len(),
        forall|i: int| 0 <= i < a.len() ==> (#[trigger] a[i]).seq_view() == b[i].seq_view(),
{
    assert forall|s: Set<Seq<char>>| #[trigger] in_list(a, s) implies in_list(b, s) by {
        assert(crate::engine::generated(p, cfg, s));
    }
    assert forall|s: Set<Seq<char>>| #[trigger] in_list(b, s) implies in_list(a, s) by {
        assert(crate::engine::generated(p, cfg, s));
    }
    lemma_sorted_fsets_unique(a, b);
}

/// No emitted combination contains a configured exclusion set, unless it
/// is itself a forced inclusion.
pub proof fn lemma_exclusion_respected(
    p: &Package,
    cfg: &Config,
    out: Seq<FeatureSet>,
    i: int,
    j: int,
)
    requires
        is_generation(p, cfg, out),
        0 <= i < out.len(),
        0 <= j < cfg.exclude_feature_sets@.len(),
        !forced_member(p, cfg, out[i].set_view()),
    ensures
        !name_set(cfg.exclude_feature_sets@[j]@).subset_of(out[i].set_view()),
{
    assert(in_list(out, out[i].set_view()));
    assert(crate::engine::generated(p, cfg, out[i].set_view()));
    if name_set(cfg.exclude_feature_sets@[j]@).subset_of(out[i].set_view()) {
        assert(hits_exclusion(cfg, out[i].set_view()));
        assert(false);
    }
}

/// Every configured inclusion set, unknown names stripped, appears in the
/// output exactly once.
pub proof fn lemma_forced_inclusion_once(p: &Package, cfg: &Config, out: Seq<FeatureSet>, j: int)
    requires
        is_generation(p, cfg, out),
        0 <= j < cfg.include_feature_sets@.len(),
    ensures
        exists|i: int|
            0 <= i < out.len() && (#[trigger] out[i]).set_view() == name_set(
                cfg.include_feature_sets@[j]@,
            ).intersect(p.declared_set()),
        forall|i1: int, i2: int|
            (0 <= i1 < out.len() && 0 <= i2 < out.len() && (#[trigger] out[i1]).set_view()
                == name_set(cfg.include_feature_sets@[j]@).intersect(p.declared_set()) && (
            #[trigger] out[i2]).set_view() == name_set(cfg.include_feature_sets@[j]@).intersect(
                p.declared_set(),
            )) ==> i1 == i2,
{
    let s = name_set(cfg.include_feature_sets@[j]@).intersect(p.declared_set());
    assert(forced_member(p, cfg, s));
    assert(crate::engine::generated(p, cfg, s));
    assert(in_list(out, s));
    let i = choose|i: int| 0 <= i < out.len() && out[i].set_view() == s;
    assert(0 <= i < out.len() && (#[trigger] out[i]).set_view() == s);
    assert forall|i1: int, i2: int|
        (0 <= i1 < out.len() && 0 <= i2 < out.len() && (#[trigger] out[i1]).set_view() == s && (
        #[trigger] out[i2]).set_view() == s) implies i1 == i2 by {
        if i1 != i2 {
            lemma_canonical_unique(out[i1], out[i2]);
            if i1 < i2 {
                assert(names_lt(out[i1].seq_view(), out[i2].seq_view()));
                lemma_names_lt_asym(out[i1].seq_view(), out[i2].seq_view());
            } else {
                assert(names_lt(out[i2].seq_view(), out[i1].seq_view()));
                lemma_names_lt_asym(out[i2].seq_view(), out[i1].seq_view());
            }
            assert(false);
        }
    }
}

/// In isolated mode, every emitted combination that is not a forced
/// inclusion stays within one isolated group's eligible names plus the
/// pinned `include_features`: no cross-group combinations are produced.
pub proof fn lemma_isolated_confinement(p: &Package, cfg: &Config, out: Seq<FeatureSet>, i: int)
    requires
        is_generation(p, cfg, out),
        cfg.isolated_feature_sets@.len() > 0,
        0 <= i < out.len(),
        !forced_member(p, cfg, out[i].set_view()),
    ensures
        exists|k: int|
            0 <= k < cfg.isolated_feature_sets@.len() && out[i].set_view().subset_of(
                group_eligible_of(
                    p.features@,
                    cfg.exclude_features@,
                    (#[trigger] cfg.isolated_feature_sets@[k])@,
                ).union(name_set(cfg.include_features@)),
            ),
{
    assert(in_list(out, out[i].set_view()));
    assert(crate::engine::generated(p, cfg, out[i].set_view()));
    assert(base_member(p, cfg, out[i].set_view()));
}

} // verus!
