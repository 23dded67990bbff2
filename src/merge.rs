//! Folding package nodes into a mapping keyed by name, by union of their
//! dependency sets.

use vstd::prelude::*;
use crate::package::{Package, names_of};

verus! {

/// No name is held by two packages.
pub open spec fn unique_names(ps: Seq<Package>) -> bool {
    forall|i: int, j: int|
        0 <= i < j < ps.len() ==> (#[trigger] ps[i]).name@ != (#[trigger] ps[j]).name@
}

/// Every package is well formed.
pub open spec fn all_wf(ps: Seq<Package>) -> bool {
    forall|i: int| 0 <= i < ps.len() ==> (#[trigger] ps[i]).wf()
}

/// The names of the packages.
pub open spec fn names_in(ps: Seq<Package>) -> Set<Seq<char>> {
    Set::new(|n: Seq<char>| exists|k: int| 0 <= k < ps.len() && (#[trigger] ps[k]).name@ == n)
}

/// The union of the dependency sets of all packages named `n`.
pub open spec fn deps_in(ps: Seq<Package>, n: Seq<char>) -> Set<Seq<char>> {
    Set::new(
        |m: Seq<char>|
            exists|k: int|
                0 <= k < ps.len() && (#[trigger] ps[k]).name@ == n && ps[k].dep_set().contains(m),
    )
}

/// What one package adds to the dependencies recorded under `n`.
pub open spec fn deps_of_if(p: Package, n: Seq<char>) -> Set<Seq<char>> {
    if p.name@ == n {
        p.dep_set()
    } else {
        Set::empty()
    }
}

/// Appending a package adds its name, and its dependencies under its name.
pub proof fn lemma_push(ps: Seq<Package>, p: Package)
    ensures
        names_in(ps.push(p)) == names_in(ps).insert(p.name@),
        forall|n: Seq<char>|
            #[trigger] deps_in(ps.push(p), n) == deps_in(ps, n).union(deps_of_if(p, n)),
{
    let qs = ps.push(p);
    assert forall|n: Seq<char>| names_in(qs).contains(n) == names_in(ps).insert(p.name@).contains(n) by {
        if names_in(qs).contains(n) {
            let k = choose|k: int| 0 <= k < qs.len() && (#[trigger] qs[k]).name@ == n;
            if k < ps.len() {
                assert(ps[k] == qs[k]);
            }
        }
        if names_in(ps).contains(n) {
            let k = choose|k: int| 0 <= k < ps.len() && (#[trigger] ps[k]).name@ == n;
            assert(qs[k] == ps[k]);
        }
        if n == p.name@ {
            assert(qs[ps.len() as int] == p);
        }
    }
    assert(names_in(qs) =~= names_in(ps).insert(p.name@));
    assert forall|n: Seq<char>| #[trigger] deps_in(qs, n) == deps_in(ps, n).union(deps_of_if(p, n)) by {
        assert forall|m: Seq<char>|
            deps_in(qs, n).contains(m) == deps_in(ps, n).union(deps_of_if(p, n)).contains(m) by {
            if deps_in(qs, n).contains(m) {
                let k = choose|k: int|
                    0 <= k < qs.len() && (#[trigger] qs[k]).name@ == n && qs[k].dep_set().contains(m);
                if k < ps.len() {
                    assert(ps[k] == qs[k]);
                }
            }
            if deps_in(ps, n).contains(m) {
                let k = choose|k: int|
                    0 <= k < ps.len() && (#[trigger] ps[k]).name@ == n && ps[k].dep_set().contains(m);
                assert(qs[k] == ps[k]);
            }
            if deps_of_if(p, n).contains(m) {
                assert(qs[ps.len() as int] == p);
            }
        }
        assert(deps_in(qs, n) =~= deps_in(ps, n).union(deps_of_if(p, n)));
    }
}

/// Where names are unique, the dependencies under a package's name are its own.
pub proof fn lemma_unique_deps(ps: Seq<Package>, k: int)
    requires
        unique_names(ps),
        0 <= k < ps.len(),
    ensures
        deps_in(ps, ps[k].name@) == ps[k].dep_set(),
{
    assert forall|m: Seq<char>| deps_in(ps, ps[k].name@).contains(m) implies ps[k].dep_set().contains(m) by {
        let j = choose|j: int|
            0 <= j < ps.len() && (#[trigger] ps[j]).name@ == ps[k].name@ && ps[j].dep_set().contains(m);
        if j < k {
            assert(ps[j].name@ != ps[k].name@);
        } else if k < j {
            assert(ps[k].name@ != ps[j].name@);
        }
    }
    assert(deps_in(ps, ps[k].name@) =~= ps[k].dep_set());
}

/// Merging again a package that the mapping already holds changes neither its
/// names nor any name's dependencies: a union with a set already there adds
/// nothing.
pub proof fn lemma_merge_again_changes_nothing(out: Seq<Package>, k: int)
    requires
        0 <= k < out.len(),
    ensures
        names_in(out).insert(out[k].name@) == names_in(out),
        forall|n: Seq<char>| #[trigger] deps_in(out, n).union(deps_of_if(out[k], n)) == deps_in(out, n),
{
    assert(names_in(out).contains(out[k].name@));
    assert(names_in(out).insert(out[k].name@) =~= names_in(out));
    assert forall|n: Seq<char>| #[trigger] deps_in(out, n).union(deps_of_if(out[k], n)) == deps_in(out, n) by {
        assert forall|m: Seq<char>| deps_of_if(out[k], n).contains(m) implies deps_in(out, n).contains(m) by {
            assert(out[k].name@ == n && out[k].dep_set().contains(m));
        }
        assert(deps_in(out, n).union(deps_of_if(out[k], n)) =~= deps_in(out, n));
    }
}

/// Merges `p` into `out`: a package of the same name takes the union of both
/// dependency sets; otherwise `p` is added.
pub fn merge_into(out: &mut Vec<Package>, p: Package)
    requires
        unique_names(old(out)@),
        all_wf(old(out)@),
        p.wf(),
    ensures
        unique_names(final(out)@),
        all_wf(final(out)@),
        names_in(final(out)@) == names_in(old(out)@).insert(p.name@),
        forall|n: Seq<char>|
            #[trigger] deps_in(final(out)@, n) == deps_in(old(out)@, n).union(deps_of_if(p, n)),
{
    let mut j: usize = 0;
    while j < out.len() && !(out[j].name == p.name)
        invariant
            j <= out@.len(),
            forall|k: int| 0 <= k < j ==> (#[trigger] out@[k]).name@ != p.name@,
        decreases out@.len() - j,
    {
        j = j + 1;
    }
    if j == out.len() {
        proof {
            lemma_push(out@, p);
            assert forall|a: int, b: int|
                0 <= a < b < out@.push(p).len() implies (#[trigger] out@.push(p)[a]).name@
                != (#[trigger] out@.push(p)[b]).name@ by {
                if b < out@.len() {
                    assert(out@.push(p)[a] == out@[a] && out@.push(p)[b] == out@[b]);
                } else {
                    assert(out@.push(p)[a] == out@[a]);
                }
            }
        }
        out.push(p);
    } else {
        let ghost before = out@;
        let mut q = out.remove(j);
        let ghost q0 = q;
        let mut t: usize = 0;
        while t < p.deps.len()
            invariant
                q.wf(),
                q.name == q0.name,
                q0.name@ == p.name@,
                p.wf(),
                t <= p.deps@.len(),
                q.dep_set() == q0.dep_set().union(names_of(p.deps@.subrange(0, t as int))),
            decreases p.deps@.len() - t,
        {
            let d = p.deps[t].clone();
            q.add_dep(d);
            proof {
                let s0 = names_of(p.deps@.subrange(0, t as int));
                let s1 = names_of(p.deps@.subrange(0, t + 1));
                assert(p.dep_set().contains(p.deps@[t as int]@));
                assert forall|s: Seq<char>| s1.contains(s) == s0.insert(p.deps@[t as int]@).contains(s) by {
                    if s1.contains(s) {
                        let i = choose|i: int| 0 <= i < t + 1 && (#[trigger] p.deps@.subrange(0, t + 1)[i])@ == s;
                        if i < t {
                            assert(p.deps@.subrange(0, t as int)[i] == p.deps@.subrange(0, t + 1)[i]);
                        }
                    }
                    if s0.contains(s) {
                        let i = choose|i: int| 0 <= i < t && (#[trigger] p.deps@.subrange(0, t as int)[i])@ == s;
                        assert(p.deps@.subrange(0, t as int)[i] == p.deps@.subrange(0, t + 1)[i]);
                    }
                    if s == p.deps@[t as int]@ {
                        assert(p.deps@.subrange(0, t + 1)[t as int] == p.deps@[t as int]);
                    }
                }
                assert(s1 =~= s0.insert(p.deps@[t as int]@));
                assert(q.dep_set() =~= q0.dep_set().union(s1));
            }
            t = t + 1;
        }
        proof {
            assert(p.deps@.subrange(0, p.deps@.len() as int) =~= p.deps@);
        }
        out.insert(j, q);
        proof {
            let after = out@;
            assert(after =~= before.update(j as int, q));
            assert forall|a: int, b: int|
                0 <= a < b < after.len() implies (#[trigger] after[a]).name@ != (#[trigger] after[b]).name@ by {
                assert(before[a].name@ != before[b].name@);
            }
            assert forall|n: Seq<char>| names_in(after).contains(n) == names_in(before).insert(p.name@).contains(n) by {
                if names_in(after).contains(n) {
                    let k = choose|k: int| 0 <= k < after.len() && (#[trigger] after[k]).name@ == n;
                    assert(before[k].name@ == n);
                }
                if names_in(before).contains(n) {
                    let k = choose|k: int| 0 <= k < before.len() && (#[trigger] before[k]).name@ == n;
                    assert(after[k].name@ == n);
                }
                if n == p.name@ {
                    assert(after[j as int].name@ == n);
                }
            }
            assert(names_in(after) =~= names_in(before).insert(p.name@));
            assert forall|n: Seq<char>| #[trigger] deps_in(after, n) == deps_in(before, n).union(deps_of_if(p, n)) by {
                if n == p.name@ {
                    lemma_unique_deps(after, j as int);
                    lemma_unique_deps(before, j as int);
                } else {
                    assert forall|m: Seq<char>| deps_in(after, n).contains(m) == deps_in(before, n).contains(m) by {
                        if deps_in(after, n).contains(m) {
                            let k = choose|k: int|
                                0 <= k < after.len() && (#[trigger] after[k]).name@ == n && after[k].dep_set().contains(m);
                            assert(before[k] == after[k]);
                        }
                        if deps_in(before, n).contains(m) {
                            let k = choose|k: int|
                                0 <= k < before.len() && (#[trigger] before[k]).name@ == n && before[k].dep_set().contains(m);
                            assert(before[k] == after[k]);
                        }
                    }
                    assert(deps_in(after, n) =~= deps_in(before, n).union(deps_of_if(p, n)));
                }
            }
        }
    }
}

} // verus!
