//! The canonical feature set: a sorted, deduplicated list of feature names.
//!
//! Every feature combination the engine emits is a `FeatureSet`. Its
//! invariant — names strictly ascending in `lex_lt` — makes the
//! representation of a given set of names unique, so set equality and
//! list equality coincide.

use vstd::prelude::*;

use crate::order::lemma_lex_lt_asym;
use crate::order::lemma_lex_lt_trans;
use crate::order::lemma_lex_lt_trichotomy;
use crate::order::lemma_names_lt_common_prefix;
use crate::order::lemma_sorted_names_unique;
use crate::order::lex_lt;
use crate::order::names_lt;
use crate::order::sorted_names;
use crate::order::str_eq;
use crate::order::str_lt;

verus! {

/// View of a list of strings as a sequence of character sequences.
pub open spec fn views(s: Seq<String>) -> Seq<Seq<char>> {
    s.map_values(|n: String| n@)
}

/// The set of names a list of strings holds.
pub open spec fn name_set(s: Seq<String>) -> Set<Seq<char>> {
    views(s).to_set()
}

/// Copy a list of strings.
pub fn clone_strings(v: &Vec<String>) -> (r: Vec<String>)
    ensures
        r@ == v@,
{
    let mut r: Vec<String> = Vec::new();
    let mut i: usize = 0;
    while i < v.len()
        invariant
            0 <= i <= v.len(),
            r@ == v@.take(i as int),
        decreases v.len() - i,
    {
        r.push(v[i].clone());
        proof {
            assert(r@ =~= v@.take(i as int + 1));
        }
        i = i + 1;
    }
    proof {
        assert(v@.take(v@.len() as int) =~= v@);
    }
    r
}

/// Does the list hold this name?
pub fn names_contain(v: &Vec<String>, name: &str) -> (r: bool)
    ensures
        r == name_set(v@).contains(name@),
{
    let mut i: usize = 0;
    while i < v.len()
        invariant
            0 <= i <= v.len(),
            forall|k: int| 0 <= k < i ==> views(v@)[k] != name@,
        decreases v.len() - i,
    {
        if str_eq(v[i].as_str(), name) {
            assert(views(v@)[i as int] == name@);
            assert(views(v@).contains(name@));
            return true;
        }
        i = i + 1;
    }
    assert forall|k: int| 0 <= k < views(v@).len() implies views(v@)[k] != name@ by {}
    assert(!views(v@).contains(name@));
    false
}

/// A canonical build configuration: a sorted, duplicate-free set of
/// feature names.
pub struct FeatureSet {
    pub names: Vec<String>,
}

impl FeatureSet {
    /// The names, in their canonical order, as character sequences.
    pub open spec fn seq_view(&self) -> Seq<Seq<char>> {
        views(self.names@)
    }

    /// The names as a set.
    pub open spec fn set_view(&self) -> Set<Seq<char>> {
        self.seq_view().to_set()
    }

    /// Canonical form: strictly ascending names.
    pub open spec fn wf(&self) -> bool {
        sorted_names(self.seq_view())
    }

    /// The set with no features enabled.
    pub fn empty() -> (r: FeatureSet)
        ensures
            r.wf(),
            r.seq_view() == Seq::<Seq<char>>::empty(),
            r.set_view() == Set::<Seq<char>>::empty(),
    {
        let r = FeatureSet { names: Vec::new() };
        proof {
            assert(r.seq_view() =~= Seq::<Seq<char>>::empty());
            assert(r.set_view() =~= Set::<Seq<char>>::empty());
        }
        r
    }

    /// The names in canonical order.
    pub fn names(&self) -> (r: &Vec<String>)
        ensures
            r == self.names,
    {
        &self.names
    }

    /// Build the canonical set holding exactly the given names.
    pub fn from_names(raw: &Vec<String>) -> (r: FeatureSet)
        ensures
            r.wf(),
            r.set_view() == name_set(raw@),
    {
        let mut r = FeatureSet::empty();
        let mut i: usize = 0;
        while i < raw.len()
            invariant
                0 <= i <= raw.len(),
                r.wf(),
                r.set_view() == name_set(raw@.take(i as int)),
            decreases raw.len() - i,
        {
            let ghost pre = r.set_view();
            r.insert_name(&raw[i]);
            proof {
                assert(views(raw@.take(i as int + 1)) =~= views(raw@.take(i as int)).push(
                    raw@[i as int]@,
                ));
                lemma_to_set_push(views(raw@.take(i as int)), raw@[i as int]@);
                assert(r.set_view() =~= name_set(raw@.take(i as int + 1)));
            }
            i = i + 1;
        }
        proof {
            assert(raw@.take(raw@.len() as int) =~= raw@);
        }
        r
    }

    /// Insert one name, keeping the canonical order.
    pub fn insert_name(&mut self, name: &String)
        requires
            old(self).wf(),
        ensures
            final(self).wf(),
            final(self).set_view() == old(self).set_view().insert(name@),
    {
        let ghost orig = self.seq_view();
        let mut p: usize = 0;
        while p < self.names.len() && str_lt(self.names[p].as_str(), name.as_str())
            invariant
                0 <= p <= self.names.len(),
                self.seq_view() == orig,
                sorted_names(orig),
                forall|k: int| 0 <= k < p ==> lex_lt(orig[k], name@),
            decreases self.names.len() - p,
    {
            p = p + 1;
        }
        if p < self.names.len() && str_eq(self.names[p].as_str(), name.as_str()) {
            // already present
            proof {
                assert(orig[p as int] == name@);
                assert(self.seq_view().contains(name@));
                assert(self.set_view() =~= old(self).set_view().insert(name@));
            }
            return ;
        }
        proof {
            if p < orig.len() {
                lemma_lex_lt_trichotomy(orig[p as int], name@);
                assert(lex_lt(name@, orig[p as int]));
            }
        }
        self.names.insert(p, name.clone());
        proof {
            let now = self.seq_view();
            assert(now =~= orig.insert(p as int, name@)) by {
                assert(now.len() == orig.len() + 1);
                assert forall|k: int| 0 <= k < now.len() implies now[k] == orig.insert(
                    p as int,
                    name@,
                )[k] by {
                    assert(now[k] == self.names@[k]@);
                }
            }
            assert forall|i: int, j: int| 0 <= i < j < now.len() implies lex_lt(now[i], now[j]) by {
                let x = if i < p { orig[i] } else if i == p { name@ } else { orig[i - 1] };
                let y = if j < p { orig[j] } else if j == p { name@ } else { orig[j - 1] };
                assert(now[i] == x);
                assert(now[j] == y);
                if i < p && j == p {
                    // x == orig[i], lt name
                } else if i == p {
                    // x == name, y == orig[j-1], p <= j-1
                    assert(lex_lt(name@, orig[p as int]));
                    if j - 1 > p {
                        assert(lex_lt(orig[p as int], orig[j - 1]));
                        lemma_lex_lt_trans(name@, orig[p as int], orig[j - 1]);
                    }
                } else if i < p && j > p {
                    assert(lex_lt(orig[i], name@));
                    if i < p && p <= j - 1 {
                        if i == j - 1 {
                            assert(false);
                        }
                        assert(lex_lt(orig[i], orig[j - 1]));
                    }
                }
            }
            assert(self.set_view() =~= old(self).set_view().insert(name@)) by {
                assert forall|x: Seq<char>| self.set_view().contains(x) implies old(
                    self,
                ).set_view().insert(name@).contains(x) by {
                    let k = choose|k: int| 0 <= k < now.len() && now[k] == x;
                    if k != p {
                        let k0 = if k < p { k } else { k - 1 };
                        assert(orig[k0] == x);
                        assert(orig.contains(x));
                    }
                }
                assert forall|x: Seq<char>| old(self).set_view().insert(name@).contains(x) implies self
                    .set_view().contains(x) by {
                    if x == name@ {
                        assert(now[p as int] == x);
                        assert(now.contains(x));
                    } else {
                        let k = choose|k: int| 0 <= k < orig.len() && orig[k] == x;
                        let k1 = if k < p { k } else { k + 1 };
                        assert(now[k1] == x);
                        assert(now.contains(x));
                    }
                }
            }
        }
    }

    /// Does the set hold this name?
    pub fn contains_name(&self, name: &str) -> (r: bool)
        ensures
            r == self.set_view().contains(name@),
    {
        names_contain(&self.names, name)
    }

    /// The union of two canonical sets.
    pub fn union(&self, other: &FeatureSet) -> (r: FeatureSet)
        requires
            self.wf(),
            other.wf(),
        ensures
            r.wf(),
            r.set_view() == self.set_view().union(other.set_view()),
    {
        let mut r = FeatureSet { names: clone_strings(&self.names) };
        assert(r.seq_view() == self.seq_view());
        let mut i: usize = 0;
        while i < other.names.len()
            invariant
                0 <= i <= other.names.len(),
                r.wf(),
                r.set_view() == self.set_view().union(
                    views(other.names@).take(i as int).to_set(),
                ),
            decreases other.names.len() - i,
        {
            r.insert_name(&other.names[i]);
            proof {
                assert(views(other.names@).take(i as int + 1) =~= views(other.names@).take(
                    i as int,
                ).push(other.names@[i as int]@));
                lemma_to_set_push(
                    views(other.names@).take(i as int),
                    other.names@[i as int]@,
                );
                assert(r.set_view() =~= self.set_view().union(
                    views(other.names@).take(i as int + 1).to_set(),
                ));
            }
            i = i + 1;
        }
        proof {
            assert(views(other.names@).take(other.names@.len() as int) =~= views(other.names@));
        }
        r
    }

    /// Extend the set with a name above all its members.
    pub fn with_extra(&self, name: &String) -> (r: FeatureSet)
        requires
            self.wf(),
            forall|k: int| 0 <= k < self.seq_view().len() ==> lex_lt(self.seq_view()[k], name@),
        ensures
            r.wf(),
            r.seq_view() == self.seq_view().push(name@),
            r.set_view() == self.set_view().insert(name@),
    {
        let mut names = clone_strings(&self.names);
        names.push(name.clone());
        let r = FeatureSet { names };
        proof {
            assert(r.seq_view() =~= self.seq_view().push(name@));
            lemma_to_set_push(self.seq_view(), name@);
            assert(r.set_view() =~= self.set_view().insert(name@));
        }
        r
    }

    /// Compare two canonical sets in the output order.
    pub fn lt(&self, other: &FeatureSet) -> (r: bool)
        ensures
            r == names_lt(self.seq_view(), other.seq_view()),
    {
        let a = &self.names;
        let b = &other.names;
        let mut i: usize = 0;
        loop
            invariant
                0 <= i <= a.len(),
                i <= b.len(),
                views(a@) == self.seq_view(),
                views(b@) == other.seq_view(),
                forall|k: int| 0 <= k < i ==> views(a@)[k] == views(b@)[k],
            decreases a.len() - i,
        {
            proof {
                lemma_names_lt_common_prefix(views(a@), views(b@), i as int);
            }
            if i == a.len() {
                return i < b.len();
            }
            if i == b.len() {
                return false;
            }
            let sa = a[i].as_str();
            let sb = b[i].as_str();
            if str_eq(sa, sb) {
                i = i + 1;
            } else {
                return str_lt(sa, sb);
            }
        }
    }

    /// Test two canonical sets for equal contents.
    pub fn same(&self, other: &FeatureSet) -> (r: bool)
        ensures
            r == (self.seq_view() == other.seq_view()),
    {
        if self.names.len() != other.names.len() {
            proof {
                assert(self.seq_view().len() != other.seq_view().len());
            }
            return false;
        }
        let mut i: usize = 0;
        while i < self.names.len()
            invariant
                0 <= i <= self.names.len(),
                self.names.len() == other.names.len(),
                forall|k: int| 0 <= k < i ==> self.seq_view()[k] == other.seq_view()[k],
            decreases self.names.len() - i,
        {
            if !str_eq(self.names[i].as_str(), other.names[i].as_str()) {
                assert(self.seq_view()[i as int] != other.seq_view()[i as int]);
                return false;
            }
            i = i + 1;
        }
        proof {
            assert(self.seq_view() =~= other.seq_view());
        }
        true
    }
}

/// The names joined by commas, as the build tool's features flag wants
/// them.
pub open spec fn joined(s: Seq<Seq<char>>) -> Seq<char>
    decreases s.len(),
{
    if s.len() == 0 {
        Seq::empty()
    } else if s.len() == 1 {
        s[0]
    } else {
        s[0] + seq![','] + joined(s.skip(1))
    }
}

/// Joining one more name appends a comma and the name.
pub proof fn lemma_joined_push(t: Seq<Seq<char>>, x: Seq<char>)
    ensures
        joined(t.push(x)) == if t.len() == 0 {
            x
        } else {
            joined(t) + seq![','] + x
        },
    decreases t.len(),
{
    if t.len() == 0 {
        assert(t.push(x).len() == 1);
        assert(t.push(x)[0] == x);
    } else {
        let u = t.push(x);
        assert(u[0] == t[0]);
        assert(u.skip(1) =~= t.skip(1).push(x));
        lemma_joined_push(t.skip(1), x);
        if t.len() == 1 {
            assert(joined(u) == t[0] + seq![','] + x);
        } else {
            assert(joined(u) == u[0] + seq![','] + joined(u.skip(1)));
            assert(joined(u.skip(1)) == joined(t.skip(1)) + seq![','] + x);
            assert(joined(t) == t[0] + seq![','] + joined(t.skip(1)));
            assert(joined(u) =~= joined(t) + seq![','] + x);
        }
    }
}

impl FeatureSet {
    /// Render the names as one comma-separated string.
    pub fn join_commas(&self) -> (r: String)
        ensures
            r@ == joined(self.seq_view()),
    {
        let mut out = String::new();
        let mut i: usize = 0;
        while i < self.names.len()
            invariant
                0 <= i <= self.names.len(),
                out@ == joined(self.seq_view().take(i as int)),
            decreases self.names.len() - i,
        {
            let ghost pre = self.seq_view().take(i as int);
            if i > 0 {
                out.append(",");
            }
            out.append(self.names[i].as_str());
            proof {
                reveal_strlit(",");
                assert(","@ =~= seq![',']);
                lemma_joined_push(pre, self.seq_view()[i as int]);
                assert(self.seq_view().take(i as int + 1) =~= pre.push(
                    self.seq_view()[i as int],
                ));
                if i == 0 {
                    assert(pre.len() == 0);
                    assert(out@ =~= self.seq_view()[i as int]);
                } else {
                    assert(out@ =~= joined(pre) + seq![','] + self.seq_view()[i as int]);
                }
            }
            i = i + 1;
        }
        proof {
            assert(self.seq_view().take(self.seq_view().len() as int) =~= self.seq_view());
        }
        out
    }
}

/// Pushing a value onto a list adds it to the list's set.
pub proof fn lemma_to_set_push<T>(s: Seq<T>, x: T)
    ensures
        s.push(x).to_set() == s.to_set().insert(x),
{
    assert forall|y: T| s.push(x).to_set().contains(y) implies s.to_set().insert(
        x,
    ).contains(y) by {
        let k = choose|k: int| 0 <= k < s.push(x).len() && s.push(x)[k] == y;
        if k < s.len() {
            assert(s[k] == y);
            assert(s.contains(y));
        }
    }
    assert forall|y: T| s.to_set().insert(x).contains(y) implies s.push(x).to_set().contains(
        y,
    ) by {
        if y == x {
            assert(s.push(x)[s.len() as int] == y);
            assert(s.push(x).contains(y));
        } else {
            let k = choose|k: int| 0 <= k < s.len() && s[k] == y;
            assert(s.push(x)[k] == y);
            assert(s.push(x).contains(y));
        }
    }
    assert(s.push(x).to_set() =~= s.to_set().insert(x));
}

/// In canonical form, a set of names has exactly one list of names.
pub proof fn lemma_canonical_unique(a: FeatureSet, b: FeatureSet)
    requires
        a.wf(),
        b.wf(),
        a.set_view() == b.set_view(),
    ensures
        a.seq_view() == b.seq_view(),
{
    lemma_sorted_names_unique(a.seq_view(), b.seq_view());
}

} // verus!
