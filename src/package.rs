//! A package node: a name and the set of names it depends on.

use vstd::prelude::*;

verus! {

/// One package and the distinct names of the packages it depends on.
#[derive(Debug, Clone, PartialEq, Eq)]
pub struct Package {
    pub name: String,
    pub deps: Vec<String>,
}

/// The set of names held by a sequence of strings.
pub open spec fn names_of(v: Seq<String>) -> Set<Seq<char>> {
    Set::new(|s: Seq<char>| exists|i: int| 0 <= i < v.len() && (#[trigger] v[i])@ == s)
}

impl Package {
    /// The dependencies as a set of names.
    pub open spec fn dep_set(&self) -> Set<Seq<char>> {
        names_of(self.deps@)
    }

    /// Each dependency is held once, and none is the package itself.
    pub open spec fn wf(&self) -> bool {
        &&& forall|i: int, j: int|
            0 <= i < j < self.deps@.len() ==> (#[trigger] self.deps@[i])@ != (#[trigger] self.deps@[j])@
        &&& !self.dep_set().contains(self.name@)
    }

    /// A package with the given name and no dependencies.
    pub fn new(name: &str) -> (r: Self)
        ensures
            r.name@ == name@,
            r.dep_set() == Set::<Seq<char>>::empty(),
            r.wf(),
    {
        let r = Package { name: name.to_owned(), deps: Vec::new() };
        assert(r.dep_set() =~= Set::<Seq<char>>::empty());
        r
    }

    /// Whether `name` is among the dependencies.
    pub fn depends_on(&self, name: &String) -> (r: bool)
        ensures
            r == self.dep_set().contains(name@),
    {
        let mut i: usize = 0;
        while i < self.deps.len()
            invariant
                i <= self.deps@.len(),
                forall|k: int| 0 <= k < i ==> (#[trigger] self.deps@[k])@ != name@,
            decreases self.deps@.len() - i,
        {
            if self.deps[i] == *name {
                return true;
            }
            i = i + 1;
        }
        false
    }

    /// Records `other` as a dependency, unless it is the package itself;
    /// a name already held is not held twice.
    pub fn add_dep(&mut self, other: String)
        requires
            old(self).wf(),
        ensures
            final(self).wf(),
            final(self).name == old(self).name,
            final(self).dep_set() == if other@ == old(self).name@ {
                old(self).dep_set()
            } else {
                old(self).dep_set().insert(other@)
            },
    {
        if self.name != other && !self.depends_on(&other) {
            let ghost before = self.deps@;
            self.deps.push(other);
            proof {
                assert(self.deps@ == before.push(other));
                assert forall|s: Seq<char>|
                    self.dep_set().contains(s) == old(self).dep_set().insert(other@).contains(s) by {
                    if self.dep_set().contains(s) {
                        let i = choose|i: int| 0 <= i < self.deps@.len() && (#[trigger] self.deps@[i])@ == s;
                        if i < before.len() {
                            assert(before[i] == self.deps@[i]);
                        }
                    }
                    if old(self).dep_set().contains(s) {
                        let i = choose|i: int| 0 <= i < before.len() && (#[trigger] before[i])@ == s;
                        assert(self.deps@[i] == before[i]);
                    }
                    if s == other@ {
                        assert(self.deps@[before.len() as int] == other);
                    }
                }
                assert(self.dep_set() =~= old(self).dep_set().insert(other@));
            }
        }
    }

    /// Whether `other` is among the dependencies of this package.
    pub fn has_dependency(&self, other: &Self) -> (r: bool)
        ensures
            r == self.dep_set().contains(other.name@),
    {
        self.depends_on(&other.name)
    }
}

} // verus!
