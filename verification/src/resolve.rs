//! The dependency resolver: computes the closure of a seed set of package
//! ids under the dependencies the index knows, as its least fixed point.

use vstd::prelude::*;
use crate::catalog::{Package, PackageView};
use crate::index::{dep_ids, lemma_index_finite, CatalogIndex};
use crate::sort::{sort_ids, strictly_sorted};
use crate::strings::lex_lt;

verus! {

/// The set of id views a vector of packages holds.
pub open spec fn pkg_id_set(ps: Seq<Package>) -> Set<Seq<char>> {
    Set::new(|x: Seq<char>| exists|k: int| 0 <= k < ps.len() && ps[k]@.id == x)
}

/// The set of id views a vector of id strings holds.
pub open spec fn id_set(vs: Seq<String>) -> Set<Seq<char>> {
    Set::new(|x: Seq<char>| exists|k: int| 0 <= k < vs.len() && vs[k]@ == x)
}

/// The id views of a vector of id strings are pairwise distinct.
pub open spec fn unique_views(vs: Seq<String>) -> bool {
    forall|i: int, j: int| 0 <= i < j < vs.len() ==> vs[i]@ != vs[j]@
}

/// Every known dependency of every member of `s` is itself a member; ids the
/// map does not know constrain nothing.
pub open spec fn closed_under_deps(m: Map<Seq<char>, PackageView>, s: Set<Seq<char>>) -> bool {
    forall|id: Seq<char>| #![trigger s.contains(id), m.dom().contains(id)]
        s.contains(id) && m.dom().contains(id) ==> m[id].dependencies.to_set().subset_of(s)
}

/// `r` is the dependency closure of `seed` under `m`: the least superset of
/// `seed` that is closed under the dependencies `m` knows.
pub open spec fn is_closure(
    m: Map<Seq<char>, PackageView>,
    seed: Set<Seq<char>>,
    r: Set<Seq<char>>,
) -> bool {
    &&& seed.subset_of(r)
    &&& closed_under_deps(m, r)
    &&& forall|t: Set<Seq<char>>| #![trigger closed_under_deps(m, t)]
        seed.subset_of(t) && closed_under_deps(m, t) ==> r.subset_of(t)
}

/// A vector of strings holds finitely many id views.
pub proof fn lemma_id_set_finite(vs: Seq<String>)
    ensures
        id_set(vs).finite(),
    decreases vs.len(),
{
    broadcast use vstd::set::group_set_axioms;

    if vs.len() == 0 {
        assert(id_set(vs) =~= Set::<Seq<char>>::empty());
    } else {
        lemma_id_set_finite(vs.drop_last());
        assert forall|y: Seq<char>| id_set(vs).contains(y) implies id_set(vs.drop_last()).insert(
            vs.last()@,
        ).contains(y) by {
            let k = choose|k: int| 0 <= k < vs.len() && vs[k]@ == y;
            if k < vs.len() - 1 {
                assert(vs.drop_last()[k]@ == y);
            }
        }
        assert forall|y: Seq<char>|
            id_set(vs.drop_last()).insert(vs.last()@).contains(y) implies id_set(vs).contains(
            y,
        ) by {
            if y == vs.last()@ {
                assert(vs[vs.len() - 1]@ == y);
            } else {
                let k = choose|k: int| 0 <= k < vs.drop_last().len() && vs.drop_last()[k]@ == y;
                assert(vs[k]@ == y);
            }
        }
        assert(id_set(vs) =~= id_set(vs.drop_last()).insert(vs.last()@));
    }
}

/// The closure of a seed set is unique.
pub proof fn lemma_closure_unique(
    m: Map<Seq<char>, PackageView>,
    seed: Set<Seq<char>>,
    r1: Set<Seq<char>>,
    r2: Set<Seq<char>>,
)
    requires
        is_closure(m, seed, r1),
        is_closure(m, seed, r2),
    ensures
        r1 == r2,
{
    assert(r1.subset_of(r2));
    assert(r2.subset_of(r1));
    assert(r1 =~= r2);
}

/// Resolution is idempotent: the closure is a fixed point, so resolving a
/// second time, seeded with the resolved set itself, returns it unchanged.
pub proof fn lemma_closure_idempotent(
    m: Map<Seq<char>, PackageView>,
    seed: Set<Seq<char>>,
    r: Set<Seq<char>>,
    r2: Set<Seq<char>>,
)
    requires
        is_closure(m, seed, r),
        is_closure(m, r, r2),
    ensures
        r2 == r,
{
    assert(r.subset_of(r2));
    assert(r2.subset_of(r));
    assert(r2 =~= r);
}

/// The closure follows dependency chains: when `a` depends on `b` and `b`
/// depends on `c` in the index, the closure of `{a}` holds all three.
pub proof fn lemma_closure_follows_chain(
    m: Map<Seq<char>, PackageView>,
    a: Seq<char>,
    b: Seq<char>,
    c: Seq<char>,
    r: Set<Seq<char>>,
)
    requires
        is_closure(m, Set::empty().insert(a), r),
        m.dom().contains(a),
        m[a].dependencies.contains(b),
        m.dom().contains(b),
        m[b].dependencies.contains(c),
    ensures
        r.contains(a),
        r.contains(b),
        r.contains(c),
{
    assert(Set::empty().insert(a).contains(a));
    assert(r.contains(a));
    assert(m[a].dependencies.to_set().contains(b));
    assert(r.contains(b));
    assert(m[b].dependencies.to_set().contains(c));
    assert(r.contains(c));
}

/// Whether some string of `v` has the same characters as `s`.
pub fn contains_string(v: &Vec<String>, s: &String) -> (r: bool)
    ensures
        r == id_set(v@).contains(s@),
{
    let n = v.len();
    let mut i: usize = 0;
    while i < n
        invariant
            i <= n,
            n == v@.len(),
            forall|j: int| 0 <= j < i ==> v@[j]@ != s@,
        decreases n - i,
    {
        if v[i].eq(s) {
            assert(id_set(v@).contains(s@)) by {
                assert(v@[i as int]@ == s@);
            }
            return true;
        }
        i = i + 1;
    }
    assert(!id_set(v@).contains(s@)) by {
        if id_set(v@).contains(s@) {
            let k = choose|k: int| 0 <= k < v@.len() && v@[k]@ == s@;
        }
    }
    false
}

impl CatalogIndex {
    /// Computes the dependency closure of the seed ids: repeatedly adds, for
    /// every id already gathered that the index knows, every id its package
    /// depends on, until nothing changes. Ids the index does not know stay in
    /// the set but contribute no dependencies. The result lists each id once.
    #[verifier::loop_isolation(false)]
    pub fn find_recursively_dependencies(&self, ids: &Vec<String>) -> (res: Vec<String>)
        requires
            self.wf(),
        ensures
            unique_views(res@),
            is_closure(self@, id_set(ids@), id_set(res@)),
    {
        let ghost m = self@;
        let ghost seed = id_set(ids@);
        let ghost u = seed.union(m.dom()).union(dep_ids(m));
        proof {
            broadcast use vstd::set::group_set_axioms;

            lemma_index_finite(self);
            lemma_id_set_finite(ids@);
            assert(u.finite());
        }
        let mut pending: Vec<String> = Vec::new();
        let n = ids.len();
        let mut i: usize = 0;
        while i < n
            invariant
                i <= n,
                id_set(pending@) == id_set(ids@.take(i as int)),
            decreases n - i,
        {
            let ghost pend_old = pending@;
            pending.push(ids[i].clone());
            proof {
                assert(pending@.drop_last() =~= pend_old);
                assert(pending@[pending@.len() - 1]@ == ids@[i as int]@);
                assert forall|y: Seq<char>| id_set(pending@).contains(y) implies id_set(
                    ids@.take(i + 1),
                ).contains(y) by {
                    let k = choose|k: int| 0 <= k < pending@.len() && pending@[k]@ == y;
                    if k < pending@.len() - 1 {
                        assert(pend_old[k]@ == y);
                        assert(id_set(pend_old).contains(y));
                        let k0 = choose|k0: int|
                            0 <= k0 < ids@.take(i as int).len() && ids@.take(i as int)[k0]@ == y;
                        assert(ids@.take(i + 1)[k0]@ == y);
                    } else {
                        assert(ids@.take(i + 1)[i as int]@ == y);
                    }
                }
                assert forall|y: Seq<char>| id_set(ids@.take(i + 1)).contains(y) implies id_set(
                    pending@,
                ).contains(y) by {
                    let k = choose|k: int| 0 <= k < i + 1 && #[trigger] ids@.take(i + 1)[k]@ == y;
                    if k < i {
                        assert(ids@.take(i as int)[k]@ == y);
                        assert(id_set(ids@.take(i as int)).contains(y));
                        let k0 = choose|k0: int| 0 <= k0 < pend_old.len() && pend_old[k0]@ == y;
                        assert(pending@[k0]@ == y);
                    } else {
                        assert(pending@[pending@.len() - 1]@ == y);
                    }
                }
                assert(id_set(pending@) =~= id_set(ids@.take(i + 1)));
            }
            i = i + 1;
        }
        proof {
            assert(ids@.take(n as int) =~= ids@);
            assert(id_set(pending@) == seed);
        }
        let mut done: Vec<String> = Vec::new();
        while pending.len() > 0
            invariant
                unique_views(done@),
                id_set(done@).subset_of(u),
                id_set(pending@).subset_of(u),
                seed.subset_of(id_set(done@).union(id_set(pending@))),
                forall|id: Seq<char>| #![trigger m.dom().contains(id)]
                    id_set(done@).contains(id) && m.dom().contains(id)
                        ==> m[id].dependencies.to_set().subset_of(
                        id_set(done@).union(id_set(pending@)),
                    ),
                forall|t: Set<Seq<char>>| #![trigger closed_under_deps(m, t)]
                    seed.subset_of(t) && closed_under_deps(m, t) ==> id_set(done@).union(
                        id_set(pending@),
                    ).subset_of(t),
            decreases u.difference(id_set(done@)).len(), pending.len(),
        {
            let ghost pend_pre = pending@;
            let ghost done_pre = done@;
            let id = pending.pop().unwrap();
            let ghost x = id@;
            proof {
                assert(pending@ =~= pend_pre.drop_last());
                assert(pend_pre[pend_pre.len() - 1]@ == x);
                assert(id_set(pend_pre).contains(x));
                assert(u.contains(x));
                assert forall|y: Seq<char>| id_set(pending@).contains(y) implies id_set(
                    pend_pre,
                ).contains(y) by {
                    let k = choose|k: int| 0 <= k < pending@.len() && pending@[k]@ == y;
                    assert(pend_pre[k]@ == y);
                }
                assert forall|y: Seq<char>|
                    id_set(pend_pre).contains(y) && y != x implies id_set(pending@).contains(
                    y,
                ) by {
                    let k = choose|k: int| 0 <= k < pend_pre.len() && pend_pre[k]@ == y;
                    assert(k < pend_pre.len() - 1);
                    assert(pending@[k]@ == y);
                }
            }
            if !contains_string(&done, &id) {
                let pkg_opt = self.get_package(id.as_str());
                done.push(id);
                proof {
                    assert(done@.drop_last() =~= done_pre);
                    assert(done@[done@.len() - 1]@ == x);
                    assert forall|y: Seq<char>| id_set(done@).contains(y) implies id_set(
                        done_pre,
                    ).insert(x).contains(y) by {
                        let k = choose|k: int| 0 <= k < done@.len() && done@[k]@ == y;
                        if k < done@.len() - 1 {
                            assert(done_pre[k]@ == y);
                        }
                    }
                    assert forall|y: Seq<char>|
                        id_set(done_pre).insert(x).contains(y) implies id_set(done@).contains(
                        y,
                    ) by {
                        if y == x {
                            assert(done@[done@.len() - 1]@ == y);
                        } else {
                            let k = choose|k: int| 0 <= k < done_pre.len() && done_pre[k]@ == y;
                            assert(done@[k]@ == y);
                        }
                    }
                    assert(id_set(done@) =~= id_set(done_pre).insert(x));
                    u.lemma_set_insert_diff_decreases(id_set(done_pre), x);
                }
                match pkg_opt {
                    Some(pkg) => {
                        proof {
                            assert(m.dom().contains(x));
                            assert(pkg@ == m[x]);
                        }
                        let ghost deps = m[x].dependencies;
                        let dn = pkg.dependencies.len();
                        let mut j: usize = 0;
                        while j < dn
                            invariant
                                j <= dn,
                                dn == pkg.dependencies@.len(),
                                id_set(pending@).subset_of(u),
                                id_set(pend_pre.drop_last()).subset_of(id_set(pending@)),
                                forall|jj: int|
                                    0 <= jj < j ==> id_set(pending@).contains(#[trigger] deps[jj]),
                                forall|t: Set<Seq<char>>| #![trigger closed_under_deps(m, t)]
                                    seed.subset_of(t) && closed_under_deps(m, t) ==> id_set(
                                        pending@,
                                    ).subset_of(t),
                            decreases dn - j,
                        {
                            let ghost pend_mid = pending@;
                            pending.push(pkg.dependencies[j].clone());
                            proof {
                                assert(pending@.drop_last() =~= pend_mid);
                                assert(pkg.dependencies@[j as int]@ == pkg@.dependencies[j as int]);
                                assert(pending@[pending@.len() - 1]@ == deps[j as int]);
                                assert(id_set(pending@).contains(deps[j as int]));
                                assert forall|y: Seq<char>|
                                    id_set(pend_mid).contains(y) implies id_set(
                                    pending@,
                                ).contains(y) by {
                                    let k = choose|k: int|
                                        0 <= k < pend_mid.len() && pend_mid[k]@ == y;
                                    assert(pending@[k]@ == y);
                                }
                                assert(deps.to_set().contains(deps[j as int]));
                                assert(dep_ids(m).contains(deps[j as int]));
                                assert(u.contains(deps[j as int]));
                                assert forall|y: Seq<char>|
                                    id_set(pending@).contains(y) implies y == deps[j as int]
                                    || id_set(pend_mid).contains(y) by {
                                    let k = choose|k: int|
                                        0 <= k < pending@.len() && pending@[k]@ == y;
                                    if k < pending@.len() - 1 {
                                        assert(pend_mid[k]@ == y);
                                    }
                                }
                                assert forall|t: Set<Seq<char>>| #![trigger closed_under_deps(
                                    m,
                                    t,
                                )]
                                    seed.subset_of(t) && closed_under_deps(m, t) implies id_set(
                                    pending@,
                                ).subset_of(t) by {
                                    assert(id_set(pend_mid).subset_of(t));
                                    assert(id_set(done_pre).union(id_set(pend_pre)).subset_of(t));
                                    assert(t.contains(x));
                                    assert(m[x].dependencies.to_set().subset_of(t));
                                    assert(t.contains(deps[j as int]));
                                    assert forall|y: Seq<char>|
                                        id_set(pending@).contains(y) implies t.contains(y) by {
                                        if y != deps[j as int] {
                                            assert(id_set(pend_mid).contains(y));
                                        }
                                    }
                                }
                            }
                            j = j + 1;
                        }
                        proof {
                            assert forall|d: Seq<char>| deps.to_set().contains(d) implies id_set(
                                pending@,
                            ).contains(d) by {
                                let k = choose|k: int| 0 <= k < deps.len() && deps[k] == d;
                                assert(id_set(pending@).contains(deps[k]));
                            }
                            assert(m[x].dependencies.to_set().subset_of(id_set(pending@)));
                        }
                    },
                    None => {
                        proof {
                            assert(!m.dom().contains(x));
                        }
                    },
                }
                proof {
                    let dset = id_set(done@);
                    let pset = id_set(pending@);
                    assert(id_set(pend_pre.drop_last()).subset_of(pset));
                    assert(dset.contains(x));
                    assert(seed.subset_of(dset.union(pset))) by {
                        assert forall|y: Seq<char>| seed.contains(y) implies dset.union(
                            pset,
                        ).contains(y) by {
                            assert(id_set(done_pre).union(id_set(pend_pre)).contains(y));
                            if id_set(pend_pre).contains(y) && y != x {
                                assert(id_set(pend_pre.drop_last()).contains(y)) by {
                                    let k = choose|k: int|
                                        0 <= k < pend_pre.len() && pend_pre[k]@ == y;
                                    assert(k < pend_pre.len() - 1);
                                    assert(pend_pre.drop_last()[k]@ == y);
                                }
                            }
                        }
                    }
                    assert forall|id2: Seq<char>| #![trigger m.dom().contains(id2)]
                        dset.contains(id2) && m.dom().contains(id2) implies
                        m[id2].dependencies.to_set().subset_of(dset.union(pset)) by {
                        if id2 == x {
                            assert(m[x].dependencies.to_set().subset_of(pset));
                        } else {
                            assert(id_set(done_pre).contains(id2));
                            assert(m[id2].dependencies.to_set().subset_of(
                                id_set(done_pre).union(id_set(pend_pre)),
                            ));
                            assert forall|y: Seq<char>|
                                id_set(done_pre).union(id_set(pend_pre)).contains(y) implies
                                dset.union(pset).contains(y) by {
                                if id_set(pend_pre).contains(y) && y != x {
                                    assert(id_set(pend_pre.drop_last()).contains(y)) by {
                                        let k = choose|k: int|
                                            0 <= k < pend_pre.len() && pend_pre[k]@ == y;
                                        assert(k < pend_pre.len() - 1);
                                        assert(pend_pre.drop_last()[k]@ == y);
                                    }
                                }
                            }
                        }
                    }
                    assert forall|t: Set<Seq<char>>| #![trigger closed_under_deps(m, t)]
                        seed.subset_of(t) && closed_under_deps(m, t) implies dset.union(
                        pset,
                    ).subset_of(t) by {
                        assert(id_set(done_pre).union(id_set(pend_pre)).subset_of(t));
                        assert(t.contains(x));
                        if m.dom().contains(x) {
                            assert(id_set(pending@).subset_of(t));
                        } else {
                            assert forall|y: Seq<char>| pset.contains(y) implies t.contains(y) by {
                                assert(id_set(pend_pre.drop_last()).contains(y));
                                assert(id_set(pend_pre).contains(y));
                            }
                        }
                        assert forall|y: Seq<char>| dset.contains(y) implies t.contains(y) by {
                            if y != x {
                                assert(id_set(done_pre).contains(y));
                            }
                        }
                    }
                }
            } else {
                proof {
                    assert(id_set(done@).contains(x));
                    assert(seed.subset_of(id_set(done@).union(id_set(pending@)))) by {
                        assert forall|y: Seq<char>| seed.contains(y) implies id_set(done@).union(
                            id_set(pending@),
                        ).contains(y) by {
                            assert(id_set(done_pre).union(id_set(pend_pre)).contains(y));
                            if id_set(pend_pre).contains(y) && y != x {
                                assert(id_set(pending@).contains(y));
                            }
                        }
                    }
                    assert forall|id2: Seq<char>| #![trigger m.dom().contains(id2)]
                        id_set(done@).contains(id2) && m.dom().contains(id2) implies
                        m[id2].dependencies.to_set().subset_of(
                        id_set(done@).union(id_set(pending@)),
                    ) by {
                        assert(m[id2].dependencies.to_set().subset_of(
                            id_set(done_pre).union(id_set(pend_pre)),
                        ));
                        assert forall|y: Seq<char>|
                            id_set(done_pre).union(id_set(pend_pre)).contains(y) implies id_set(
                            done@,
                        ).union(id_set(pending@)).contains(y) by {
                            if id_set(pend_pre).contains(y) && y != x {
                                assert(id_set(pending@).contains(y));
                            } else if y == x {
                                assert(id_set(done@).contains(y));
                            }
                        }
                    }
                    assert forall|t: Set<Seq<char>>| #![trigger closed_under_deps(m, t)]
                        seed.subset_of(t) && closed_under_deps(m, t) implies id_set(done@).union(
                        id_set(pending@),
                    ).subset_of(t) by {
                        assert(id_set(done_pre).union(id_set(pend_pre)).subset_of(t));
                        assert forall|y: Seq<char>|
                            id_set(done@).union(id_set(pending@)).contains(y) implies t.contains(
                            y,
                        ) by {
                            if id_set(pending@).contains(y) {
                                assert(id_set(pend_pre).contains(y));
                            }
                        }
                    }
                }
            }
        }
        proof {
            assert(id_set(pending@) =~= Set::<Seq<char>>::empty());
            let r = id_set(done@);
            assert(seed.subset_of(r)) by {
                assert forall|y: Seq<char>| seed.contains(y) implies r.contains(y) by {
                    assert(id_set(done@).union(id_set(pending@)).contains(y));
                }
            }
            assert(closed_under_deps(m, r)) by {
                assert forall|id2: Seq<char>| #![trigger r.contains(id2), m.dom().contains(id2)]
                    r.contains(id2) && m.dom().contains(id2) implies
                    m[id2].dependencies.to_set().subset_of(r) by {
                    assert(m[id2].dependencies.to_set().subset_of(
                        id_set(done@).union(id_set(pending@)),
                    ));
                    assert(id_set(done@).union(id_set(pending@)) =~= r);
                }
            }
            assert forall|t: Set<Seq<char>>| #![trigger closed_under_deps(m, t)]
                seed.subset_of(t) && closed_under_deps(m, t) implies r.subset_of(t) by {
                assert(id_set(done@).union(id_set(pending@)).subset_of(t));
                assert forall|y: Seq<char>| r.contains(y) implies t.contains(y) by {
                    assert(id_set(done@).union(id_set(pending@)).contains(y));
                }
            }
        }
        done
    }

    /// Materializes the dependency closure of the seed ids: the closure's
    /// members the index knows, sorted strictly ascending by id — an order
    /// that also governs download order — together with the closure's ids the
    /// index does not know, also sorted, for the caller to warn about.
    #[verifier::loop_isolation(false)]
    pub fn get_packages_with_dependencies(&self, ids: &Vec<String>) -> (res: (
        Vec<Package>,
        Vec<String>,
    ))
        requires
            self.wf(),
        ensures
            forall|i: int, j: int|
                0 <= i < j < res.0@.len() ==> lex_lt(res.0@[i]@.id, res.0@[j]@.id),
            forall|k: int|
                0 <= k < res.0@.len() ==> self@.dom().contains(#[trigger] res.0@[k]@.id)
                    && res.0@[k]@ == self@[res.0@[k]@.id],
            strictly_sorted(res.1@),
            forall|k: int| 0 <= k < res.1@.len() ==> !self@.dom().contains(#[trigger] res.1@[k]@),
            is_closure(self@, id_set(ids@), pkg_id_set(res.0@).union(id_set(res.1@))),
    {
        let ghost m = self@;
        let all = self.find_recursively_dependencies(ids);
        let sorted = sort_ids(all);
        let ghost closure = id_set(sorted@);
        let mut found: Vec<Package> = Vec::new();
        let mut missing: Vec<String> = Vec::new();
        let n = sorted.len();
        let mut i: usize = 0;
        while i < n
            invariant
                i <= n,
                forall|p: int, q: int|
                    0 <= p < q < found@.len() ==> lex_lt(found@[p]@.id, found@[q]@.id),
                forall|k: int|
                    0 <= k < found@.len() ==> m.dom().contains(#[trigger] found@[k]@.id)
                        && found@[k]@ == m[found@[k]@.id],
                forall|k: int| #![trigger found@[k]]
                    0 <= k < found@.len() ==> exists|k0: int|
                        0 <= k0 < i && found@[k]@.id == #[trigger] sorted@[k0]@,
                strictly_sorted(missing@),
                forall|k: int|
                    0 <= k < missing@.len() ==> !m.dom().contains(#[trigger] missing@[k]@),
                forall|k: int| #![trigger missing@[k]]
                    0 <= k < missing@.len() ==> exists|k0: int|
                        0 <= k0 < i && missing@[k]@ == #[trigger] sorted@[k0]@,
                forall|y: Seq<char>|
                    pkg_id_set(found@).union(id_set(missing@)).contains(y) <==> id_set(
                        sorted@.take(i as int),
                    ).contains(y),
            decreases n - i,
        {
            let ghost found_pre = found@;
            let ghost missing_pre = missing@;
            match self.get_package(sorted[i].as_str()) {
                Some(p) => {
                    found.push(p);
                    proof {
                        assert(found@.drop_last() =~= found_pre);
                        assert(found@[found@.len() - 1]@.id == sorted@[i as int]@);
                        assert forall|p2: int, q: int|
                            0 <= p2 < q < found@.len() implies lex_lt(
                            found@[p2]@.id,
                            found@[q]@.id,
                        ) by {
                            if q == found@.len() - 1 {
                                assert(found@[p2] == found_pre[p2]);
                                let k0 = choose|k0: int|
                                    0 <= k0 < i && found_pre[p2]@.id == #[trigger] sorted@[k0]@;
                                assert(lex_lt(sorted@[k0]@, sorted@[i as int]@));
                            }
                        }
                        assert forall|k: int| #![trigger found@[k]]
                            0 <= k < found@.len() implies exists|k0: int|
                            0 <= k0 < i + 1 && found@[k]@.id == #[trigger] sorted@[k0]@ by {
                            if k < found@.len() - 1 {
                                let k0 = choose|k0: int|
                                    0 <= k0 < i && found_pre[k]@.id == #[trigger] sorted@[k0]@;
                                assert(found@[k]@.id == sorted@[k0]@);
                            } else {
                                assert(found@[k]@.id == sorted@[i as int]@);
                            }
                        }
                    }
                },
                None => {
                    let id_cloned = sorted[i].clone();
                    missing.push(id_cloned);
                    proof {
                        assert(missing@.drop_last() =~= missing_pre);
                        assert(missing@[missing@.len() - 1]@ == sorted@[i as int]@);
                        assert forall|p2: int, q: int|
                            0 <= p2 < q < missing@.len() implies lex_lt(
                            missing@[p2]@,
                            missing@[q]@,
                        ) by {
                            if q == missing@.len() - 1 {
                                assert(missing@[p2] == missing_pre[p2]);
                                let k0 = choose|k0: int|
                                    0 <= k0 < i && missing_pre[p2]@ == #[trigger] sorted@[k0]@;
                                assert(lex_lt(sorted@[k0]@, sorted@[i as int]@));
                            }
                        }
                        assert forall|k: int| #![trigger missing@[k]]
                            0 <= k < missing@.len() implies exists|k0: int|
                            0 <= k0 < i + 1 && missing@[k]@ == #[trigger] sorted@[k0]@ by {
                            if k < missing@.len() - 1 {
                                let k0 = choose|k0: int|
                                    0 <= k0 < i && missing_pre[k]@ == #[trigger] sorted@[k0]@;
                                assert(missing@[k]@ == sorted@[k0]@);
                            } else {
                                assert(missing@[k]@ == sorted@[i as int]@);
                            }
                        }
                    }
                },
            }
            proof {
                assert forall|y: Seq<char>|
                    pkg_id_set(found@).union(id_set(missing@)).contains(y) implies id_set(
                    sorted@.take(i + 1),
                ).contains(y) by {
                    if pkg_id_set(found@).contains(y) {
                        let k = choose|k: int| 0 <= k < found@.len() && found@[k]@.id == y;
                        if found@.len() > found_pre.len() && k == found@.len() - 1 {
                            assert(sorted@.take(i + 1)[i as int]@ == y);
                        } else {
                            assert(found_pre[k]@.id == y);
                            assert(pkg_id_set(found_pre).union(id_set(missing_pre)).contains(y));
                            assert(id_set(sorted@.take(i as int)).contains(y));
                            let t = sorted@.take(i as int);
                            let k0 = choose|k0: int| 0 <= k0 < t.len() && t[k0]@ == y;
                            assert(sorted@[k0]@ == y);
                            assert(sorted@.take(i + 1)[k0]@ == y);
                        }
                    } else {
                        let k = choose|k: int| 0 <= k < missing@.len() && missing@[k]@ == y;
                        if missing@.len() > missing_pre.len() && k == missing@.len() - 1 {
                            assert(sorted@.take(i + 1)[i as int]@ == y);
                        } else {
                            assert(missing_pre[k]@ == y);
                            assert(pkg_id_set(found_pre).union(id_set(missing_pre)).contains(y));
                            assert(id_set(sorted@.take(i as int)).contains(y));
                            let t = sorted@.take(i as int);
                            let k0 = choose|k0: int| 0 <= k0 < t.len() && t[k0]@ == y;
                            assert(sorted@[k0]@ == y);
                            assert(sorted@.take(i + 1)[k0]@ == y);
                        }
                    }
                }
                assert forall|y: Seq<char>| id_set(sorted@.take(i + 1)).contains(y) implies
                    pkg_id_set(found@).union(id_set(missing@)).contains(y) by {
                    let k0 = choose|k0: int|
                        0 <= k0 < i + 1 && #[trigger] sorted@.take(i + 1)[k0]@ == y;
                    if k0 < i {
                        assert(sorted@.take(i as int)[k0]@ == y);
                        assert(id_set(sorted@.take(i as int)).contains(y));
                        assert(pkg_id_set(found_pre).union(id_set(missing_pre)).contains(y));
                        if pkg_id_set(found_pre).contains(y) {
                            let k = choose|k: int|
                                0 <= k < found_pre.len() && found_pre[k]@.id == y;
                            assert(found@[k]@.id == y);
                            assert(pkg_id_set(found@).contains(y));
                        } else {
                            let k = choose|k: int|
                                0 <= k < missing_pre.len() && missing_pre[k]@ == y;
                            assert(missing@[k]@ == y);
                            assert(id_set(missing@).contains(y));
                        }
                    } else {
                        assert(sorted@[i as int]@ == y);
                        if found@.len() > found_pre.len() {
                            assert(found@[found@.len() - 1]@.id == y);
                            assert(pkg_id_set(found@).contains(y));
                        } else {
                            assert(missing@[missing@.len() - 1]@ == y);
                            assert(id_set(missing@).contains(y));
                        }
                    }
                }
            }
            i = i + 1;
        }
        proof {
            assert(sorted@.take(n as int) =~= sorted@);
            assert(pkg_id_set(found@).union(id_set(missing@)) =~= closure);
        }
        (found, missing)
    }
}

} // verus!
