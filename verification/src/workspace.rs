//! Selecting which workspace packages a run covers: the declared package
//! list, minus the names excluded at the workspace level and those
//! excluded on the root package.

use vstd::prelude::*;

use crate::config::Config;
use crate::config::WorkspaceConfig;
use crate::fset::name_set;
use crate::fset::names_contain;
use crate::fset::views;

verus! {

/// The names that survive both exclusion lists, in their given order.
pub open spec fn kept_names(
    names: Seq<String>,
    workspace_exclude: Seq<String>,
    root_exclude: Seq<String>,
) -> Seq<Seq<char>>
    decreases names.len(),
{
    if names.len() == 0 {
        Seq::empty()
    } else {
        kept_names(names.drop_last(), workspace_exclude, root_exclude) + (if name_set(
            workspace_exclude,
        ).contains(names.last()@) || name_set(root_exclude).contains(names.last()@) {
            Seq::empty()
        } else {
            seq![names.last()@]
        })
    }
}

/// The packages a run covers: every named package that neither the
/// workspace configuration nor the root package's configuration
/// excludes, in their given order.
pub fn packages_for_fc(
    names: &Vec<String>,
    workspace_config: &WorkspaceConfig,
    root_config: &Config,
) -> (r: Vec<String>)
    ensures
        views(r@) == kept_names(
            names@,
            workspace_config.exclude_packages@,
            root_config.exclude_packages@,
        ),
{
    let workspace_exclude = &workspace_config.exclude_packages;
    let root_exclude = &root_config.exclude_packages;
    let mut r: Vec<String> = Vec::new();
    let mut i: usize = 0;
    proof {
        assert(names@.take(0) =~= Seq::<String>::empty());
        assert(views(r@) =~= kept_names(
            names@.take(0),
            workspace_exclude@,
            root_exclude@,
        ));
    }
    while i < names.len()
        invariant
            0 <= i <= names.len(),
            views(r@) == kept_names(names@.take(i as int), workspace_exclude@, root_exclude@),
        decreases names.len() - i,
    {
        let ghost pre = views(r@);
        if !names_contain(workspace_exclude, names[i].as_str()) && !names_contain(
            root_exclude,
            names[i].as_str(),
        ) {
            r.push(names[i].clone());
            proof {
                assert(views(r@) =~= pre.push(names@[i as int]@));
            }
        }
        proof {
            assert(names@.take(i as int + 1).drop_last() =~= names@.take(i as int));
            assert(names@.take(i as int + 1).last() == names@[i as int]);
            assert(views(r@) =~= kept_names(
                names@.take(i as int + 1),
                workspace_exclude@,
                root_exclude@,
            ));
        }
        i = i + 1;
    }
    proof {
        assert(names@.take(names@.len() as int) =~= names@);
    }
    r
}

} // verus!
