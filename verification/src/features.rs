//! The package model the engine works on: a package name, the location of
//! its manifest, and the names of its declared features.
//!
//! Only feature names matter to the engine; what a feature implies is
//! carried along uninterpreted. Optional dependencies are modelled as
//! plain records, since a renamed optional dependency contributes its
//! rename as a feature name.

use vstd::prelude::*;

use crate::order::str_eq;

verus! {

/// One declared feature: its name and the features it implies.
/// The implication list is carried but never interpreted.
pub struct Feature {
    pub name: String,
    pub implies: Vec<String>,
}

/// A package as the engine sees it.
pub struct Package {
    pub name: String,
    pub manifest_path: String,
    pub features: Vec<Feature>,
}

/// The names of a feature list, in declaration order.
pub open spec fn feature_names(features: Seq<Feature>) -> Seq<Seq<char>> {
    features.map_values(|f: Feature| f.name@)
}

impl Package {
    /// The set of feature names the package declares.
    pub open spec fn declared_set(&self) -> Set<Seq<char>> {
        feature_names(self.features@).to_set()
    }

    /// Does the package declare a feature of this name?
    pub fn has_feature(&self, name: &str) -> (r: bool)
        ensures
            r == self.declared_set().contains(name@),
    {
        features_contain(&self.features, name)
    }
}

/// Does the feature list declare this name?
pub fn features_contain(features: &Vec<Feature>, name: &str) -> (r: bool)
    ensures
        r == feature_names(features@).to_set().contains(name@),
{
    let mut i: usize = 0;
    while i < features.len()
        invariant
            0 <= i <= features.len(),
            forall|k: int| 0 <= k < i ==> feature_names(features@)[k] != name@,
        decreases features.len() - i,
    {
        if str_eq(features[i].name.as_str(), name) {
            assert(feature_names(features@)[i as int] == name@);
            assert(feature_names(features@).contains(name@));
            return true;
        }
        i = i + 1;
    }
    assert(!feature_names(features@).contains(name@));
    false
}

/// A dependency record, reduced to what feature discovery reads: whether
/// the dependency is optional, and under which name it appears.
pub struct DependencyInfo {
    pub name: String,
    pub rename: Option<String>,
    pub optional: bool,
}

/// The feature name an optional dependency implicitly declares.
pub open spec fn spec_dependency_feature(d: DependencyInfo) -> Option<Seq<char>> {
    if d.optional {
        match d.rename {
            Some(r) => Some(r@),
            None => Some(d.name@),
        }
    } else {
        None
    }
}

/// Something that may stand for an implicitly declared feature.
pub trait Dependency {
    /// The feature name this record contributes, if any.
    spec fn spec_as_feature(&self) -> Option<Seq<char>>;

    /// Return the contributed feature name.
    fn as_feature(&self) -> (r: Option<String>)
        ensures
            r is Some <==> self.spec_as_feature() is Some,
            r is Some ==> r->0@ == self.spec_as_feature()->0,
    ;
}

impl Dependency for DependencyInfo {
    open spec fn spec_as_feature(&self) -> Option<Seq<char>> {
        spec_dependency_feature(*self)
    }

    fn as_feature(&self) -> (r: Option<String>) {
        if self.optional {
            match &self.rename {
                Some(r) => Some(r.clone()),
                None => Some(self.name.clone()),
            }
        } else {
            None
        }
    }
}

/// The feature names that a dependency list contributes, in order.
pub open spec fn optional_feature_views(deps: Seq<DependencyInfo>) -> Seq<Seq<char>>
    decreases deps.len(),
{
    if deps.len() == 0 {
        Seq::empty()
    } else {
        optional_feature_views(deps.drop_last()) + match spec_dependency_feature(deps.last()) {
            Some(n) => seq![n],
            None => Seq::empty(),
        }
    }
}

/// The feature names of a package's optional dependencies.
pub fn optional_dependencies(deps: &Vec<DependencyInfo>) -> (r: Vec<String>)
    ensures
        r@.map_values(|n: String| n@) == optional_feature_views(deps@),
{
    let mut r: Vec<String> = Vec::new();
    let mut i: usize = 0;
    while i < deps.len()
        invariant
            0 <= i <= deps.len(),
            r@.map_values(|n: String| n@) == optional_feature_views(deps@.take(i as int)),
        decreases deps.len() - i,
    {
        let ghost pre = r@.map_values(|n: String| n@);
        match deps[i].as_feature() {
            Some(n) => {
                r.push(n);
                proof {
                    assert(r@.map_values(|n: String| n@) =~= pre.push(r@.last()@));
                }
            },
            None => {},
        }
        proof {
            assert(deps@.take(i as int + 1).drop_last() =~= deps@.take(i as int));
            assert(deps@.take(i as int + 1).last() == deps@[i as int]);
            assert(r@.map_values(|n: String| n@) =~= optional_feature_views(
                deps@.take(i as int + 1),
            ));
        }
        i = i + 1;
    }
    proof {
        assert(deps@.take(deps@.len() as int) =~= deps@);
    }
    r
}

/// The position after which a path's file name starts: the index of the
/// last separator, or `-1` if the path has none.
pub open spec fn last_separator(s: Seq<char>) -> int
    decreases s.len(),
{
    if s.len() == 0 {
        -1
    } else if s.last() == '/' {
        s.len() - 1
    } else {
        last_separator(s.drop_last())
    }
}

/// The directory holding a manifest: everything before the last `/`.
/// A path without a separator has no parent directory.
pub fn manifest_parent(path: &str) -> (r: Option<String>)
    ensures
        r is Some <==> last_separator(path@) >= 0,
        r is Some ==> r->0@ == path@.subrange(0, last_separator(path@)),
{
    let len = path.unicode_len();
    let mut i: usize = len;
    proof {
        assert(path@.take(len as int) =~= path@);
    }
    while i > 0
        invariant
            0 <= i <= len,
            len == path@.len(),
            last_separator(path@) == last_separator(path@.take(i as int)),
        decreases i,
    {
        let c = path.get_char(i - 1);
        proof {
            assert(path@.take(i as int).last() == path@[i as int - 1]);
            assert(path@.take(i as int).drop_last() =~= path@.take(i as int - 1));
        }
        if c == '/' {
            assert(last_separator(path@) == i - 1);
            let parent = path.substring_char(0, i - 1);
            return Some(parent.to_owned());
        }
        i = i - 1;
    }
    proof {
        assert(path@.take(0) =~= Seq::<char>::empty());
    }
    None
}

} // verus!
