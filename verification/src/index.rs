//! The catalog index: an immutable lookup table from package id to package,
//! built once from the raw catalog by filtering each entry to
//! English-or-unset locale and x64-or-unset architecture, keeping the
//! first-seen entry when two surviving entries share an id.

use vstd::prelude::*;
use crate::catalog::{eligible, Catalog, Package, PackageView};
use crate::strings::str_eq;

verus! {

/// One step of the index build: an eligible package under a fresh id is
/// inserted; an ineligible package or a duplicate id is dropped.
pub open spec fn index_step(
    m: Map<Seq<char>, PackageView>,
    p: PackageView,
) -> Map<Seq<char>, PackageView> {
    if eligible(p) && !m.dom().contains(p.id) {
        m.insert(p.id, p)
    } else {
        m
    }
}

/// The index built by folding the catalog suffix `cat`, in arrival order,
/// onto the partial index `m`.
pub open spec fn index_from(
    cat: Seq<PackageView>,
    m: Map<Seq<char>, PackageView>,
) -> Map<Seq<char>, PackageView>
    decreases cat.len(),
{
    if cat.len() == 0 {
        m
    } else {
        index_from(cat.skip(1), index_step(m, cat[0]))
    }
}

/// The index of a whole catalog.
pub open spec fn index_of(cat: Seq<PackageView>) -> Map<Seq<char>, PackageView> {
    index_from(cat, Map::empty())
}

/// The ids dropped as duplicates while folding `cat` onto `m`, in arrival
/// order: eligible entries whose id is already present.
pub open spec fn dups_from(cat: Seq<PackageView>, m: Map<Seq<char>, PackageView>) -> Seq<Seq<char>>
    decreases cat.len(),
{
    if cat.len() == 0 {
        Seq::empty()
    } else {
        let head: Seq<Seq<char>> = if eligible(cat[0]) && m.dom().contains(cat[0].id) {
            seq![cat[0].id]
        } else {
            Seq::empty()
        };
        head + dups_from(cat.skip(1), index_step(m, cat[0]))
    }
}

/// The duplicate ids dropped while indexing a whole catalog.
pub open spec fn dups_of(cat: Seq<PackageView>) -> Seq<Seq<char>> {
    dups_from(cat, Map::empty())
}

proof fn lemma_index_from_persist(cat: Seq<PackageView>, m: Map<Seq<char>, PackageView>, id: Seq<char>)
    requires
        m.dom().contains(id),
    ensures
        index_from(cat, m).dom().contains(id),
        index_from(cat, m)[id] == m[id],
    decreases cat.len(),
{
    if cat.len() > 0 {
        let m2 = index_step(m, cat[0]);
        assert(m2.dom().contains(id) && m2[id] == m[id]);
        lemma_index_from_persist(cat.skip(1), m2, id);
    }
}

proof fn lemma_index_from_values(cat: Seq<PackageView>, m: Map<Seq<char>, PackageView>)
    ensures
        forall|id: Seq<char>| #![trigger index_from(cat, m)[id]]
            index_from(cat, m).dom().contains(id) ==> (m.dom().contains(id) && index_from(cat, m)[id]
                == m[id]) || (exists|k: int|
                0 <= k < cat.len() && eligible(#[trigger] cat[k]) && cat[k] == index_from(cat, m)[id]),
    decreases cat.len(),
{
    if cat.len() > 0 {
        let m2 = index_step(m, cat[0]);
        lemma_index_from_values(cat.skip(1), m2);
        assert forall|id: Seq<char>| #![trigger index_from(cat, m)[id]]
            index_from(cat, m).dom().contains(id) implies (m.dom().contains(id) && index_from(
            cat,
            m,
        )[id] == m[id]) || (exists|k: int|
            0 <= k < cat.len() && eligible(#[trigger] cat[k]) && cat[k] == index_from(cat, m)[id]) by {
            assert(index_from(cat, m) == index_from(cat.skip(1), m2));
            if m2.dom().contains(id) && index_from(cat.skip(1), m2)[id] == m2[id] {
                if m.dom().contains(id) {
                    assert(m2[id] == m[id]);
                } else {
                    assert(eligible(cat[0]) && cat[0].id == id && m2[id] == cat[0]);
                    assert(cat[0] == index_from(cat, m)[id]);
                }
            } else {
                let k = choose|k: int|
                    0 <= k < cat.skip(1).len() && eligible(#[trigger] cat.skip(1)[k]) && cat.skip(
                        1,
                    )[k] == index_from(cat.skip(1), m2)[id];
                assert(cat[k + 1] == cat.skip(1)[k]);
                assert(eligible(cat[k + 1]) && cat[k + 1] == index_from(cat, m)[id]);
            }
        }
    }
}

proof fn lemma_index_from_first(cat: Seq<PackageView>, m: Map<Seq<char>, PackageView>, k: int)
    requires
        0 <= k < cat.len(),
        eligible(cat[k]),
        !m.dom().contains(cat[k].id),
        forall|k2: int| 0 <= k2 < k ==> !(eligible(#[trigger] cat[k2]) && cat[k2].id == cat[k].id),
    ensures
        index_from(cat, m).dom().contains(cat[k].id),
        index_from(cat, m)[cat[k].id] == cat[k],
    decreases cat.len(),
{
    let m2 = index_step(m, cat[0]);
    if k == 0 {
        assert(m2 == m.insert(cat[0].id, cat[0]));
        lemma_index_from_persist(cat.skip(1), m2, cat[0].id);
    } else {
        assert(!(eligible(cat[0]) && cat[0].id == cat[k].id));
        assert(!m2.dom().contains(cat[k].id));
        assert(cat.skip(1)[k - 1] == cat[k]);
        assert forall|k2: int| 0 <= k2 < k - 1 implies !(eligible(#[trigger] cat.skip(1)[k2])
            && cat.skip(1)[k2].id == cat.skip(1)[k - 1].id) by {
            assert(cat.skip(1)[k2] == cat[k2 + 1]);
        }
        lemma_index_from_first(cat.skip(1), m2, k - 1);
    }
}

proof fn lemma_dup_recorded(cat: Seq<PackageView>, m: Map<Seq<char>, PackageView>, j: int)
    requires
        0 <= j < cat.len(),
        eligible(cat[j]),
        m.dom().contains(cat[j].id) || exists|k: int|
            0 <= k < j && eligible(#[trigger] cat[k]) && cat[k].id == cat[j].id,
    ensures
        dups_from(cat, m).contains(cat[j].id),
    decreases cat.len(),
{
    let id = cat[j].id;
    let m2 = index_step(m, cat[0]);
    let head: Seq<Seq<char>> = if eligible(cat[0]) && m.dom().contains(cat[0].id) {
        seq![cat[0].id]
    } else {
        Seq::empty()
    };
    let rest = dups_from(cat.skip(1), m2);
    assert(dups_from(cat, m) == head + rest);
    if j == 0 {
        assert(m.dom().contains(id));
        assert(head =~= seq![id]);
        assert((head + rest)[0] == id);
    } else {
        assert(cat.skip(1)[j - 1] == cat[j]);
        if m.dom().contains(id) {
            assert(m2.dom().contains(id));
        } else {
            let k = choose|k: int|
                0 <= k < j && eligible(#[trigger] cat[k]) && cat[k].id == cat[j].id;
            if k == 0 {
                assert(m2.dom().contains(id));
            } else {
                assert(cat.skip(1)[k - 1] == cat[k]);
                assert(eligible(cat.skip(1)[k - 1]) && cat.skip(1)[k - 1].id == cat.skip(1)[j
                    - 1].id);
            }
        }
        lemma_dup_recorded(cat.skip(1), m2, j - 1);
        let idx = choose|idx: int| 0 <= idx < rest.len() && rest[idx] == id;
        assert((head + rest)[head.len() + idx] == id);
    }
}

/// Filtering: a package the filter rejects — a locale other than English, or
/// an architecture tag other than x64 on any axis — never appears in the
/// index, under any id, even when other entries depend on it.
pub proof fn lemma_filtered_never_in_index(cat: Seq<PackageView>, i: int)
    requires
        0 <= i < cat.len(),
        !eligible(cat[i]),
    ensures
        forall|id: Seq<char>| #![trigger index_of(cat)[id]]
            index_of(cat).dom().contains(id) ==> index_of(cat)[id] != cat[i],
{
    lemma_index_from_values(cat, Map::empty());
    assert forall|id: Seq<char>| #![trigger index_of(cat)[id]]
        index_of(cat).dom().contains(id) implies index_of(cat)[id] != cat[i] by {
        let k = choose|k: int|
            0 <= k < cat.len() && eligible(#[trigger] cat[k]) && cat[k] == index_of(cat)[id];
    }
}

/// Duplicate handling: of two eligible entries that share an id, the
/// first-seen one is the one the index holds — so the second is invisible to
/// lookups — and the second's id is recorded as a dropped duplicate.
pub proof fn lemma_first_seen_wins(cat: Seq<PackageView>, i: int, j: int)
    requires
        0 <= i < j < cat.len(),
        eligible(cat[i]),
        eligible(cat[j]),
        cat[i].id == cat[j].id,
        forall|k: int| 0 <= k < i ==> !(eligible(#[trigger] cat[k]) && cat[k].id == cat[i].id),
    ensures
        index_of(cat).dom().contains(cat[i].id),
        index_of(cat)[cat[i].id] == cat[i],
        dups_of(cat).contains(cat[j].id),
{
    lemma_index_from_first(cat, Map::empty(), i);
    lemma_dup_recorded(cat, Map::empty(), j);
}

/// The filtered, deduplicated, read-only view of a catalog, keyed by
/// package id.
pub struct CatalogIndex {
    entries: Vec<Package>,
}

/// The map a sequence of entries denotes: each entry under its id.
pub open spec fn entries_map(s: Seq<PackageView>) -> Map<Seq<char>, PackageView>
    decreases s.len(),
{
    if s.len() == 0 {
        Map::empty()
    } else {
        entries_map(s.drop_last()).insert(s.last().id, s.last())
    }
}

proof fn lemma_entries_map_dom(s: Seq<PackageView>)
    ensures
        forall|id: Seq<char>| #![trigger entries_map(s).dom().contains(id)]
            entries_map(s).dom().contains(id) <==> exists|i: int|
                0 <= i < s.len() && s[i].id == id,
    decreases s.len(),
{
    if s.len() > 0 {
        lemma_entries_map_dom(s.drop_last());
        assert forall|id: Seq<char>|
            entries_map(s).dom().contains(id) implies exists|i: int|
            0 <= i < s.len() && s[i].id == id by {
            if id == s.last().id {
                assert(s[s.len() - 1].id == id);
            } else {
                assert(entries_map(s.drop_last()).dom().contains(id));
                let i = choose|i: int| 0 <= i < s.drop_last().len() && s.drop_last()[i].id == id;
                assert(s.drop_last()[i] == s[i]);
                assert(s[i].id == id);
            }
        }
        assert forall|id: Seq<char>|
            (exists|i: int| 0 <= i < s.len() && s[i].id == id) implies entries_map(
            s,
        ).dom().contains(id) by {
            let i = choose|i: int| 0 <= i < s.len() && s[i].id == id;
            if i < s.len() - 1 {
                assert(s.drop_last()[i].id == id);
                assert(exists|j: int| 0 <= j < s.drop_last().len() && s.drop_last()[j].id == id);
                assert(entries_map(s.drop_last()).dom().contains(id));
            }
        }
    }
}

proof fn lemma_entries_map_at(s: Seq<PackageView>, i: int)
    requires
        0 <= i < s.len(),
        forall|x: int, y: int| 0 <= x < y < s.len() ==> s[x].id != s[y].id,
    ensures
        entries_map(s).dom().contains(s[i].id),
        entries_map(s)[s[i].id] == s[i],
    decreases s.len(),
{
    lemma_entries_map_dom(s.drop_last());
    if i < s.len() - 1 {
        assert(forall|x: int, y: int|
            0 <= x < y < s.drop_last().len() ==> s.drop_last()[x].id != s.drop_last()[y].id);
        lemma_entries_map_at(s.drop_last(), i);
        assert(s.drop_last()[i] == s[i]);
        assert(s[i].id != s.last().id);
    }
}

/// Every id that occurs as a dependency of some package of the map.
pub open spec fn dep_ids(m: Map<Seq<char>, PackageView>) -> Set<Seq<char>> {
    Set::new(
        |d: Seq<char>|
            exists|id: Seq<char>| #![auto] m.dom().contains(id) && m[id].dependencies.contains(d),
    )
}

proof fn lemma_entries_map_finite(s: Seq<PackageView>)
    ensures
        entries_map(s).dom().finite(),
        dep_ids(entries_map(s)).finite(),
    decreases s.len(),
{
    broadcast use vstd::set::group_set_axioms;
    broadcast use vstd::seq_lib::seq_to_set_is_finite;

    if s.len() == 0 {
        assert(entries_map(s).dom() =~= Set::<Seq<char>>::empty());
        assert(dep_ids(entries_map(s)) =~= Set::<Seq<char>>::empty());
    } else {
        lemma_entries_map_finite(s.drop_last());
        let m0 = entries_map(s.drop_last());
        let p = s.last();
        let m = entries_map(s);
        assert(m == m0.insert(p.id, p));
        assert(m.dom() =~= m0.dom().insert(p.id));
        let bound = dep_ids(m0).union(p.dependencies.to_set());
        assert forall|d: Seq<char>| dep_ids(m).contains(d) implies bound.contains(d) by {
            let id = choose|id: Seq<char>| #![auto]
                m.dom().contains(id) && m[id].dependencies.contains(d);
            if id == p.id {
                assert(p.dependencies.to_set().contains(d));
            } else {
                assert(m0.dom().contains(id) && m0[id].dependencies.contains(d));
            }
        }
        vstd::set_lib::lemma_len_subset(dep_ids(m), bound);
    }
}

/// The domain of an index and the set of all dependency ids it mentions are
/// finite; the resolver's termination rests on this.
pub proof fn lemma_index_finite(idx: &CatalogIndex)
    ensures
        idx@.dom().finite(),
        dep_ids(idx@).finite(),
{
    lemma_entries_map_finite(idx.entry_views());
}

impl View for CatalogIndex {
    type V = Map<Seq<char>, PackageView>;

    closed spec fn view(&self) -> Map<Seq<char>, PackageView> {
        entries_map(self.entries@.map_values(|p: Package| p@))
    }
}

impl CatalogIndex {
    /// Ids are pairwise distinct and every entry survived the filter.
    pub closed spec fn wf(self) -> bool {
        &&& forall|i: int, j: int|
            0 <= i < j < self.entries@.len() ==> self.entries@[i]@.id != self.entries@[j]@.id
        &&& forall|i: int| 0 <= i < self.entries@.len() ==> eligible(#[trigger] self.entries@[i]@)
    }

    spec fn entry_views(self) -> Seq<PackageView> {
        self.entries@.map_values(|p: Package| p@)
    }

    /// Builds the index from the catalog in arrival order. Returns the index
    /// and the ids of the eligible entries that were dropped because their id
    /// was already present, in arrival order, for diagnostics.
    pub fn new(catalog: &Catalog) -> (res: (CatalogIndex, Vec<String>))
        ensures
            res.0.wf(),
            res.0@ == index_of(catalog@),
            res.1.deep_view() == dups_of(catalog@),
    {
        let mut index = CatalogIndex { entries: Vec::new() };
        let mut dups: Vec<String> = Vec::new();
        proof {
            assert(index.entry_views() =~= Seq::<PackageView>::empty());
            assert(index@ =~= Map::<Seq<char>, PackageView>::empty());
            assert(catalog@.skip(0) =~= catalog@);
            assert(dups.deep_view() =~= Seq::<Seq<char>>::empty());
        }
        let n = catalog.packages.len();
        let mut k: usize = 0;
        while k < n
            invariant
                n == catalog.packages.len(),
                k <= n,
                catalog@.len() == n,
                index.wf(),
                index_of(catalog@) == index_from(catalog@.skip(k as int), index@),
                dups_of(catalog@) == dups.deep_view() + dups_from(catalog@.skip(k as int), index@),
            decreases n - k,
        {
            let p = &catalog.packages[k];
            assert(p@ == catalog@[k as int]);
            let ghost pre_map = index@;
            let ghost pre_dups = dups.deep_view();
            let dup = index.add_package(p);
            if dup {
                dups.push(p.id.clone());
                proof {
                    assert(dups.deep_view() =~= pre_dups.push(p@.id));
                }
            }
            proof {
                let tail = catalog@.skip(k as int);
                assert(tail[0] == catalog@[k as int]);
                assert(tail.skip(1) =~= catalog@.skip(k + 1));
                assert(index_from(tail, pre_map) == index_from(
                    catalog@.skip(k + 1),
                    index_step(pre_map, p@),
                ));
                if dup {
                    assert(dups_from(tail, pre_map) =~= seq![p@.id] + dups_from(
                        catalog@.skip(k + 1),
                        index_step(pre_map, p@),
                    ));
                    assert(pre_dups + dups_from(tail, pre_map) =~= dups.deep_view() + dups_from(
                        catalog@.skip(k + 1),
                        index@,
                    ));
                } else {
                    assert(dups_from(tail, pre_map) =~= dups_from(
                        catalog@.skip(k + 1),
                        index_step(pre_map, p@),
                    ));
                }
            }
            k = k + 1;
        }
        proof {
            assert(catalog@.skip(n as int) =~= Seq::<PackageView>::empty());
            assert(dups_of(catalog@) =~= dups.deep_view());
        }
        (index, dups)
    }

    /// Inserts one catalog entry, unless it is filtered out or its id is
    /// already present. Returns whether the entry was dropped as a duplicate.
    pub fn add_package(&mut self, package: &Package) -> (dup: bool)
        requires
            old(self).wf(),
        ensures
            final(self).wf(),
            final(self)@ == index_step(old(self)@, package@),
            dup == (eligible(package@) && old(self)@.dom().contains(package@.id)),
    {
        if !package.is_english() || !package.is_x64() {
            assert(self@ =~= index_step(old(self)@, package@));
            return false;
        }
        if self.contains_id(&package.id) {
            assert(self@ =~= index_step(old(self)@, package@));
            return true;
        }
        let ghost pre = self.entry_views();
        self.entries.push(package.clone());
        proof {
            assert(self.entry_views() =~= pre.push(package@));
            assert(self.entry_views().drop_last() =~= pre);
            assert(self@ =~= index_step(old(self)@, package@));
            lemma_entries_map_dom(pre);
            assert forall|i: int, j: int|
                0 <= i < j < self.entries@.len() implies self.entries@[i]@.id
                != self.entries@[j]@.id by {
                if j == self.entries@.len() - 1 {
                    assert(pre[i].id == self.entries@[i]@.id);
                }
            }
        }
        false
    }

    /// Whether an entry with this id is present.
    fn contains_id(&self, id: &String) -> (r: bool)
        requires
            self.wf(),
        ensures
            r == self@.dom().contains(id@),
    {
        proof {
            lemma_entries_map_dom(self.entry_views());
        }
        let n = self.entries.len();
        let mut i: usize = 0;
        while i < n
            invariant
                i <= n,
                n == self.entries@.len(),
                forall|j: int| 0 <= j < i ==> self.entries@[j]@.id != id@,
            decreases n - i,
        {
            if str_eq(self.entries[i].id.as_str(), id.as_str()) {
                proof {
                    lemma_entries_map_dom(self.entry_views());
                    assert(self.entry_views()[i as int].id == id@);
                    assert(exists|j: int|
                        0 <= j < self.entry_views().len() && self.entry_views()[j].id == id@);
                }
                return true;
            }
            i = i + 1;
        }
        assert forall|j: int| 0 <= j < self.entry_views().len() implies self.entry_views()[j].id
            != id@ by {
            assert(self.entries@[j]@.id != id@);
        }
        false
    }

    /// Pure lookup of a package by id; a copy of the entry, or `None` when
    /// the id is absent.
    pub fn get_package(&self, id: &str) -> (r: Option<Package>)
        requires
            self.wf(),
        ensures
            match r {
                Some(p) => self@.dom().contains(id@) && p@ == self@[id@] && p@.id == id@,
                None => !self@.dom().contains(id@),
            },
    {
        proof {
            lemma_entries_map_dom(self.entry_views());
        }
        let n = self.entries.len();
        let mut i: usize = 0;
        while i < n
            invariant
                i <= n,
                n == self.entries@.len(),
                self.wf(),
                forall|j: int| 0 <= j < i ==> self.entries@[j]@.id != id@,
            decreases n - i,
        {
            if str_eq(self.entries[i].id.as_str(), id) {
                proof {
                    lemma_entries_map_dom(self.entry_views());
                    assert(self.entry_views()[i as int].id == id@);
                    assert(exists|j: int|
                        0 <= j < self.entry_views().len() && self.entry_views()[j].id == id@);
                    lemma_entries_map_at(self.entry_views(), i as int);
                }
                return Some(self.entries[i].clone());
            }
            i = i + 1;
        }
        assert forall|j: int| 0 <= j < self.entry_views().len() implies self.entry_views()[j].id
            != id@ by {
            assert(self.entries@[j]@.id != id@);
        }
        None
    }
}

} // verus!
