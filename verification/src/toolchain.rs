//! The entry points' compute parts: seeding resolution from a requested
//! toolchain version, the resolved package list for a version, the sorted
//! list of available toolchain versions, and the locale-independent package
//! listing.

use vstd::prelude::*;
use crate::catalog::{spec_toolchain_prefix, spec_toolchain_version, Catalog, Package, PackageView};
use crate::errors::FatalError;
use crate::index::{dups_of, index_of, CatalogIndex};
use crate::resolve::{contains_string, id_set, is_closure, pkg_id_set, unique_views};
use crate::sort::{sort_ids, strictly_sorted};
use crate::strings::{has_prefix, lex_lt};

verus! {

/// The ids of the catalog entries whose id begins with the toolchain prefix
/// followed by the requested version string — matched against the raw,
/// unfiltered catalog, since toolchain ids do not vary by locale or
/// architecture.
pub open spec fn seed_ids(cat: Seq<PackageView>, version: Seq<char>) -> Set<Seq<char>> {
    Set::new(
        |x: Seq<char>|
            exists|k: int|
                0 <= k < cat.len() && #[trigger] cat[k].id == x && has_prefix(
                    x,
                    spec_toolchain_prefix() + version,
                ),
    )
}

/// The seed ids for a requested version, each listed once.
fn collect_seed_ids(catalog: &Catalog, version: &str) -> (res: Vec<String>)
    ensures
        unique_views(res@),
        id_set(res@) == seed_ids(catalog@, version@),
{
    let mut seeds: Vec<String> = Vec::new();
    let n = catalog.packages.len();
    let mut i: usize = 0;
    while i < n
        invariant
            i <= n,
            n == catalog.packages@.len(),
            catalog@.len() == n,
            unique_views(seeds@),
            id_set(seeds@) == seed_ids(catalog@.take(i as int), version@),
        decreases n - i,
    {
        let p = &catalog.packages[i];
        let ghost x = p@.id;
        proof {
            assert(catalog@[i as int] == p@);
        }
        if p.is_matching_toolchain_version(version) {
            let ghost seeds_pre = seeds@;
            let was_there = contains_string(&seeds, &p.id);
            if !was_there {
                seeds.push(p.id.clone());
                proof {
                    assert(seeds@.drop_last() =~= seeds_pre);
                    assert(seeds@[seeds@.len() - 1]@ == x);
                }
            }
            proof {
                assert forall|y: Seq<char>| id_set(seeds@).contains(y) implies seed_ids(
                    catalog@.take(i + 1),
                    version@,
                ).contains(y) by {
                    if !was_there && y == x {
                        assert(catalog@.take(i + 1)[i as int].id == y);
                    } else {
                        let k = choose|k: int| 0 <= k < seeds@.len() && seeds@[k]@ == y;
                        if was_there {
                            assert(seeds_pre[k]@ == y);
                        } else if k < seeds@.len() - 1 {
                            assert(seeds_pre[k]@ == y);
                        }
                        if id_set(seeds_pre).contains(y) {
                            assert(seed_ids(catalog@.take(i as int), version@).contains(y));
                            let k0 = choose|k0: int|
                                0 <= k0 < catalog@.take(i as int).len() && #[trigger] catalog@.take(
                                    i as int,
                                )[k0].id == y && has_prefix(
                                    y,
                                    spec_toolchain_prefix() + version@,
                                );
                            assert(catalog@.take(i + 1)[k0].id == y);
                        } else {
                            assert(y == x);
                            assert(catalog@.take(i + 1)[i as int].id == y);
                        }
                    }
                }
                assert forall|y: Seq<char>|
                    seed_ids(catalog@.take(i + 1), version@).contains(y) implies id_set(
                    seeds@,
                ).contains(y) by {
                    let k0 = choose|k0: int|
                        0 <= k0 < catalog@.take(i + 1).len()
                            && #[trigger] catalog@.take(i + 1)[k0].id == y
                            && has_prefix(y, spec_toolchain_prefix() + version@);
                    if k0 < i {
                        assert(catalog@.take(i as int)[k0].id == y);
                        assert(seed_ids(catalog@.take(i as int), version@).contains(y));
                        assert(id_set(seeds_pre).contains(y));
                        let k = choose|k: int| 0 <= k < seeds_pre.len() && seeds_pre[k]@ == y;
                        assert(seeds@[k]@ == y);
                    } else {
                        assert(y == x);
                        if was_there {
                            assert(id_set(seeds@).contains(y));
                        } else {
                            assert(seeds@[seeds@.len() - 1]@ == y);
                        }
                    }
                }
                assert(id_set(seeds@) =~= seed_ids(catalog@.take(i + 1), version@));
            }
        } else {
            proof {
                assert forall|y: Seq<char>|
                    seed_ids(catalog@.take(i + 1), version@).contains(y) implies seed_ids(
                    catalog@.take(i as int),
                    version@,
                ).contains(y) by {
                    let k0 = choose|k0: int|
                        0 <= k0 < catalog@.take(i + 1).len()
                            && #[trigger] catalog@.take(i + 1)[k0].id == y
                            && has_prefix(y, spec_toolchain_prefix() + version@);
                    assert(k0 != i);
                    assert(catalog@.take(i as int)[k0].id == y);
                }
                assert forall|y: Seq<char>|
                    seed_ids(catalog@.take(i as int), version@).contains(y) implies seed_ids(
                    catalog@.take(i + 1),
                    version@,
                ).contains(y) by {
                    let k0 = choose|k0: int|
                        0 <= k0 < catalog@.take(i as int).len() && #[trigger] catalog@.take(
                            i as int,
                        )[k0].id == y && has_prefix(y, spec_toolchain_prefix() + version@);
                    assert(catalog@.take(i + 1)[k0].id == y);
                }
                assert(id_set(seeds@) =~= seed_ids(catalog@.take(i + 1), version@));
            }
        }
        i = i + 1;
    }
    proof {
        assert(catalog@.take(n as int) =~= catalog@);
    }
    seeds
}

/// What resolving a toolchain version yields: the resolved package list and
/// the diagnostics gathered along the way.
pub struct Resolution {
    /// The closure's members the index knows, sorted ascending by id; this
    /// order governs download order.
    pub packages: Vec<Package>,
    /// Closure ids absent from the filtered index, excluded from the list;
    /// each is worth a warning, not an abort.
    pub missing_ids: Vec<String>,
    /// Ids of eligible catalog entries dropped because an earlier entry
    /// already claimed the id; each is worth a warning, not an abort.
    pub duplicate_ids: Vec<String>,
}

/// The packages a toolchain version requires: seeds are taken from the raw
/// catalog by id prefix, the dependency closure is resolved against the
/// filtered index, and the closure's known members are returned sorted by
/// id. A version that no catalog id matches is fatal.
pub fn find_packages_to_download(catalog: &Catalog, toolchain_version: &str) -> (r: Result<
    Resolution,
    FatalError,
>)
    ensures
        r is Err <==> seed_ids(catalog@, toolchain_version@).is_empty(),
        r matches Err(e) ==> e == FatalError::NoMatchingToolchain,
        r matches Ok(res) ==> forall|i: int, j: int|
            0 <= i < j < res.packages@.len() ==> lex_lt(
                res.packages@[i]@.id,
                res.packages@[j]@.id,
            ),
        r matches Ok(res) ==> forall|k: int|
            0 <= k < res.packages@.len() ==> index_of(catalog@).dom().contains(
                #[trigger] res.packages@[k]@.id,
            ) && res.packages@[k]@ == index_of(catalog@)[res.packages@[k]@.id],
        r matches Ok(res) ==> strictly_sorted(res.missing_ids@),
        r matches Ok(res) ==> forall|k: int|
            0 <= k < res.missing_ids@.len() ==> !index_of(catalog@).dom().contains(
                #[trigger] res.missing_ids@[k]@,
            ),
        r matches Ok(res) ==> is_closure(
            index_of(catalog@),
            seed_ids(catalog@, toolchain_version@),
            pkg_id_set(res.packages@).union(id_set(res.missing_ids@)),
        ),
        r matches Ok(res) ==> res.duplicate_ids.deep_view() == dups_of(catalog@),
{
    let seeds = collect_seed_ids(catalog, toolchain_version);
    if seeds.len() == 0 {
        proof {
            assert(seed_ids(catalog@, toolchain_version@) =~= Set::<Seq<char>>::empty()) by {
                assert forall|y: Seq<char>|
                    !seed_ids(catalog@, toolchain_version@).contains(y) by {
                    if id_set(seeds@).contains(y) {
                        let k = choose|k: int| 0 <= k < seeds@.len() && seeds@[k]@ == y;
                    }
                }
            }
        }
        return Err(FatalError::NoMatchingToolchain);
    }
    proof {
        assert(id_set(seeds@).contains(seeds@[0]@));
        assert(!seed_ids(catalog@, toolchain_version@).is_empty());
    }
    let built = CatalogIndex::new(catalog);
    let index = built.0;
    let duplicate_ids = built.1;
    let resolved = index.get_packages_with_dependencies(&seeds);
    Ok(Resolution { packages: resolved.0, missing_ids: resolved.1, duplicate_ids })
}

/// The two-component version strings the catalog offers: one for every
/// package id carrying the toolchain prefix.
pub open spec fn version_set(cat: Seq<PackageView>) -> Set<Seq<char>> {
    Set::new(
        |v: Seq<char>|
            exists|k: int|
                0 <= k < cat.len() && spec_toolchain_version(#[trigger] cat[k].id) == Some(v),
    )
}

/// The toolchain versions the catalog offers, sorted ascending, each listed
/// once.
pub fn toolchain_versions(catalog: &Catalog) -> (res: Vec<String>)
    ensures
        strictly_sorted(res@),
        unique_views(res@),
        id_set(res@) == version_set(catalog@),
{
    let mut vers: Vec<String> = Vec::new();
    let n = catalog.packages.len();
    let mut i: usize = 0;
    while i < n
        invariant
            i <= n,
            n == catalog.packages@.len(),
            catalog@.len() == n,
            unique_views(vers@),
            id_set(vers@) == version_set(catalog@.take(i as int)),
        decreases n - i,
    {
        proof {
            assert(catalog@[i as int] == catalog.packages@[i as int]@);
        }
        match catalog.packages[i].toolchain_version() {
            Some(v) => {
                let ghost x = v@;
                let ghost vers_pre = vers@;
                let was_there = contains_string(&vers, &v);
                if !was_there {
                    vers.push(v);
                    proof {
                        assert(vers@.drop_last() =~= vers_pre);
                        assert(vers@[vers@.len() - 1]@ == x);
                    }
                }
                proof {
                    assert forall|y: Seq<char>| id_set(vers@).contains(y) implies version_set(
                        catalog@.take(i + 1),
                    ).contains(y) by {
                        if !was_there && y == x {
                            assert(spec_toolchain_version(catalog@.take(i + 1)[i as int].id)
                                == Some(y));
                        } else {
                            let k = choose|k: int| 0 <= k < vers@.len() && vers@[k]@ == y;
                            if was_there {
                                assert(vers_pre[k]@ == y);
                            } else if k < vers@.len() - 1 {
                                assert(vers_pre[k]@ == y);
                            }
                            if id_set(vers_pre).contains(y) {
                                assert(version_set(catalog@.take(i as int)).contains(y));
                                let k0 = choose|k0: int|
                                    0 <= k0 < catalog@.take(i as int).len()
                                        && spec_toolchain_version(
                                        #[trigger] catalog@.take(i as int)[k0].id,
                                    ) == Some(y);
                                assert(spec_toolchain_version(catalog@.take(i + 1)[k0].id)
                                    == Some(y));
                            } else {
                                assert(y == x);
                                assert(spec_toolchain_version(catalog@.take(i + 1)[i as int].id)
                                    == Some(y));
                            }
                        }
                    }
                    assert forall|y: Seq<char>|
                        version_set(catalog@.take(i + 1)).contains(y) implies id_set(
                        vers@,
                    ).contains(y) by {
                        let k0 = choose|k0: int|
                            0 <= k0 < catalog@.take(i + 1).len() && spec_toolchain_version(
                                #[trigger] catalog@.take(i + 1)[k0].id,
                            ) == Some(y);
                        if k0 < i {
                            assert(spec_toolchain_version(catalog@.take(i as int)[k0].id) == Some(
                                y,
                            ));
                            assert(version_set(catalog@.take(i as int)).contains(y));
                            assert(id_set(vers_pre).contains(y));
                            let k = choose|k: int| 0 <= k < vers_pre.len() && vers_pre[k]@ == y;
                            assert(vers@[k]@ == y);
                        } else {
                            assert(y == x);
                            if was_there {
                                assert(id_set(vers@).contains(y));
                            } else {
                                assert(vers@[vers@.len() - 1]@ == y);
                            }
                        }
                    }
                    assert(id_set(vers@) =~= version_set(catalog@.take(i + 1)));
                }
            },
            None => {
                proof {
                    assert forall|y: Seq<char>|
                        version_set(catalog@.take(i + 1)).contains(y) implies version_set(
                        catalog@.take(i as int),
                    ).contains(y) by {
                        let k0 = choose|k0: int|
                            0 <= k0 < catalog@.take(i + 1).len() && spec_toolchain_version(
                                #[trigger] catalog@.take(i + 1)[k0].id,
                            ) == Some(y);
                        assert(k0 != i);
                        assert(spec_toolchain_version(catalog@.take(i as int)[k0].id) == Some(y));
                    }
                    assert forall|y: Seq<char>|
                        version_set(catalog@.take(i as int)).contains(y) implies version_set(
                        catalog@.take(i + 1),
                    ).contains(y) by {
                        let k0 = choose|k0: int|
                            0 <= k0 < catalog@.take(i as int).len() && spec_toolchain_version(
                                #[trigger] catalog@.take(i as int)[k0].id,
                            ) == Some(y);
                        assert(spec_toolchain_version(catalog@.take(i + 1)[k0].id) == Some(y));
                    }
                    assert(id_set(vers@) =~= version_set(catalog@.take(i + 1)));
                }
            },
        }
        i = i + 1;
    }
    proof {
        assert(catalog@.take(n as int) =~= catalog@);
    }
    sort_ids(vers)
}

/// The catalog packages that carry no locale tag — the locale-independent
/// definitions a package listing prints — in catalog order.
pub fn packages_without_locale(catalog: &Catalog) -> (res: Vec<Package>)
    ensures
        res@.map_values(|p: Package| p@) == catalog@.filter(
            |p: PackageView| p.language is None,
        ),
{
    let ghost pred = |p: PackageView| p.language is None;
    let mut res: Vec<Package> = Vec::new();
    let n = catalog.packages.len();
    let mut i: usize = 0;
    proof {
        reveal_with_fuel(Seq::filter, 1);
        assert(catalog@.take(0) =~= Seq::<PackageView>::empty());
        assert(res@.map_values(|p: Package| p@) =~= catalog@.take(0).filter(pred));
    }
    while i < n
        invariant
            i <= n,
            n == catalog.packages@.len(),
            catalog@.len() == n,
            res@.map_values(|p: Package| p@) == catalog@.take(i as int).filter(pred),
            pred == (|p: PackageView| p.language is None),
        decreases n - i,
    {
        proof {
            assert(catalog@[i as int] == catalog.packages@[i as int]@);
            assert(catalog@.take(i + 1).drop_last() =~= catalog@.take(i as int));
            assert(catalog@.take(i + 1).last() == catalog@[i as int]);
            reveal_with_fuel(Seq::filter, 1);
        }
        let keep = match &catalog.packages[i].language {
            None => true,
            Some(_) => false,
        };
        if keep {
            let ghost res_pre = res@;
            res.push(catalog.packages[i].clone());
            proof {
                assert(res@.drop_last() =~= res_pre);
                assert(res@[res@.len() - 1]@ == catalog@[i as int]);
                assert(res@.map_values(|p: Package| p@) =~= res_pre.map_values(|p: Package| p@)
                    .push(catalog@[i as int]));
                assert(pred(catalog@[i as int]));
                assert(catalog@.take(i + 1).filter(pred) == catalog@.take(i as int).filter(
                    pred,
                ).push(catalog@[i as int]));
                assert(res@.map_values(|p: Package| p@) =~= catalog@.take(i + 1).filter(pred));
            }
        } else {
            proof {
                assert(!pred(catalog@[i as int]));
                assert(catalog@.take(i + 1).filter(pred) == catalog@.take(i as int).filter(pred));
            }
        }
        i = i + 1;
    }
    proof {
        assert(catalog@.take(n as int) =~= catalog@);
    }
    res
}

} // verus!
