//! A multi-key, multi-value map: each stored constraint is filed under every
//! variable it waits for, and all constraints filed under a variable are
//! taken out together.
use crate::kernel::constraints::Constraint;
use crate::kernel::lvarlist::LVarList;
use crate::kernel::order::{increasing, sort_ids, sorted_of};
use crate::kernel::persistent::{
    entry_table_clone, entry_table_insert, entry_table_new, entry_table_remove, entry_map, id_set, id_set_is_empty,
    id_set_new, id_set_to_vec, id_set_update, id_set_without, index_clone, index_get, index_insert,
    index_is_empty, index_keys, index_new, index_remove, watch_index,
};
use crate::value::VarId;
use std::rc::Rc;
use vstd::prelude::*;

verus! {

/// A stored constraint together with the variables it waits for.
#[derive(Debug, Clone)]
pub struct Entry {
    pub id: usize,
    pub keys: LVarList,
    pub data: Rc<Constraint>,
}

/// The abstract content of a store: the id the next entry gets and the
/// entries by id.
pub struct StoreModel {
    pub next: usize,
    pub entries: Map<usize, Entry>,
}

/// Entry `id` waits for `k`.
pub open spec fn has_key(entries: Map<usize, Entry>, id: usize, k: VarId) -> bool {
    entries.contains_key(id) && entries[id].keys@.contains(k)
}

/// The index lists `id` under `k`.
pub open spec fn filed(index: Map<VarId, Set<usize>>, k: VarId, id: usize) -> bool {
    index.contains_key(k) && index[k].contains(id)
}

/// The ids of the entries filed under `k`.
pub open spec fn watchers(entries: Map<usize, Entry>, k: VarId) -> Set<usize> {
    Set::new(|id: usize| has_key(entries, id, k))
}

/// The variables some entry is filed under.
pub open spec fn watched(entries: Map<usize, Entry>) -> Set<VarId> {
    Set::new(|k: VarId| exists|id: usize| #[trigger] has_key(entries, id, k))
}

/// The constraints of the entries `ids`, in that order.
pub open spec fn data_of(entries: Map<usize, Entry>, ids: Seq<usize>) -> Seq<Rc<Constraint>> {
    ids.map_values(|id: usize| entries[id].data)
}

/// The entries without those whose id is in `ids`.
pub open spec fn without_ids(entries: Map<usize, Entry>, ids: Set<usize>) -> Map<usize, Entry> {
    entries.remove_keys(ids)
}

/// A multi-key, multi-value map from variables to the constraints waiting
/// for them.
#[derive(Debug)]
pub struct MKMVMap {
    current_id: usize,
    keys: im_rc::HashMap<VarId, im_rc::HashSet<usize>>,
    values: im_rc::HashMap<usize, Entry>,
}

impl MKMVMap {
    /// The abstract content.
    pub closed spec fn model(&self) -> StoreModel {
        StoreModel { next: self.current_id, entries: entry_map(self.values) }
    }

    /// The index agrees with the entries: a variable lists exactly the ids
    /// of the entries filed under it, and lists at least one.
    pub closed spec fn wf(&self) -> bool {
        let entries = entry_map(self.values);
        let index = watch_index(self.keys);
        &&& entries.dom().finite()
        &&& forall|id: usize| #[trigger]
            entries.contains_key(id) ==> entries[id].id == id && id < self.current_id
        &&& forall|k: VarId, id: usize|
            #![trigger filed(index, k, id)]
            #![trigger has_key(entries, id, k)]
            filed(index, k, id) <==> has_key(entries, id, k)
        &&& forall|k: VarId| #[trigger]
            index.contains_key(k) ==> index[k] != Set::<usize>::empty()
    }

    /// The abstract content of a well formed map satisfies `store_ok`.
    pub proof fn lemma_store_ok(m: &MKMVMap)
        requires
            m.wf(),
        ensures
            crate::kernel::store_laws::store_ok(m.model()),
    {
    }

    /// Create an empty map.
    pub fn new() -> (res: MKMVMap)
        ensures
            res.wf(),
            res.model().next == 0,
            res.model().entries == Map::<usize, Entry>::empty(),
    {
        let res = MKMVMap { current_id: 0, keys: index_new(), values: entry_table_new() };
        proof {
            assert(entry_map(res.values) =~= Map::<usize, Entry>::empty());
        }
        res
    }

    /// A copy holding the same entries.
    pub fn copy(&self) -> (res: MKMVMap)
        requires
            self.wf(),
        ensures
            res.wf(),
            res.model() == self.model(),
    {
        MKMVMap {
            current_id: self.current_id,
            keys: index_clone(&self.keys),
            values: entry_table_clone(&self.values),
        }
    }

    /// Whether no more entry can be added: every id has been handed out.
    pub fn is_full(&self) -> (res: bool)
        ensures
            res == (self.model().next == usize::MAX),
    {
        self.current_id == usize::MAX
    }

    /// File `data` under every variable of `keys`.
    pub fn add(&mut self, keys: LVarList, data: Rc<Constraint>)
        requires
            old(self).wf(),
            old(self).model().next < usize::MAX,
        ensures
            final(self).wf(),
            final(self).model().next == old(self).model().next + 1,
            final(self).model().entries == old(self).model().entries.insert(
                old(self).model().next,
                Entry { id: old(self).model().next, keys: keys, data: data },
            ),
    {
        let id = self.current_id;
        self.current_id = self.current_id + 1;
        let ks = keys.to_vec();
        let ghost old_index = watch_index(self.keys);
        let ghost entries = entry_map(self.values);
        let mut i: usize = 0;
        while i < ks.len()
            invariant
                i <= ks@.len(),
                ks@ == keys@,
                entry_map(self.values) == entries,
                id == old(self).current_id,
                self.current_id == id + 1,
                forall|k: VarId| #[trigger]
                    watch_index(self.keys).contains_key(k) <==> (old_index.contains_key(k)
                        || ks@.take(i as int).contains(k)),
                forall|k: VarId, j: usize| #[trigger]
                    filed(watch_index(self.keys), k, j) <==> (filed(old_index, k, j) || (j == id
                        && ks@.take(i as int).contains(k))),
            decreases ks@.len() - i,
        {
            let k = ks[i];
            let set = match index_get(&self.keys, k) {
                Some(existing) => id_set_update(existing, id),
                None => {
                    let empty = id_set_new();
                    id_set_update(&empty, id)
                },
            };
            let ghost before = watch_index(self.keys);
            index_insert(&mut self.keys, k, set);
            proof {
                let t1 = ks@.take(i + 1);
                assert(t1 =~= ks@.take(i as int).push(k));
                assert forall|k2: VarId| #[trigger]
                    watch_index(self.keys).contains_key(k2) <==> (old_index.contains_key(k2)
                        || t1.contains(k2)) by {
                    if ks@.take(i as int).contains(k2) {
                        let m = choose|m: int| 0 <= m < i && ks@.take(i as int)[m] == k2;
                        assert(t1[m] == k2);
                    }
                    if t1.contains(k2) && k2 != k {
                        let m = choose|m: int| 0 <= m < t1.len() && t1[m] == k2;
                        assert(ks@.take(i as int)[m] == k2);
                    }
                    if k2 == k {
                        assert(t1[i as int] == k);
                    }
                }
                assert forall|k2: VarId, j: usize| #[trigger]
                    filed(watch_index(self.keys), k2, j) <==> (filed(old_index, k2, j) || (j
                        == id && t1.contains(k2))) by {
                    if ks@.take(i as int).contains(k2) {
                        let m = choose|m: int| 0 <= m < i && ks@.take(i as int)[m] == k2;
                        assert(t1[m] == k2);
                    }
                    if t1.contains(k2) && k2 != k {
                        let m = choose|m: int| 0 <= m < t1.len() && t1[m] == k2;
                        assert(ks@.take(i as int)[m] == k2);
                    }
                    if k2 == k {
                        assert(t1[i as int] == k);
                        assert(filed(before, k2, j) <==> filed(old_index, k2, j) || (j == id
                            && ks@.take(i as int).contains(k2)));
                    } else {
                        assert(filed(before, k2, j) == filed(watch_index(self.keys), k2, j));
                    }
                }
            }
            i = i + 1;
        }
        let entry = Entry { id, keys, data };
        entry_table_insert(&mut self.values, id, entry);
        proof {
            assert(ks@.take(ks@.len() as int) =~= ks@);
            let new_entries = entry_map(self.values);
            let index = watch_index(self.keys);
            assert forall|k: VarId, j: usize|
                #![trigger filed(index, k, j)]
                #![trigger has_key(new_entries, j, k)]
                filed(index, k, j) <==> has_key(new_entries, j, k) by {
                if j == id {
                    if filed(old_index, k, j) {
                        assert(has_key(entries, j, k));
                    }
                } else {
                    assert(has_key(new_entries, j, k) == has_key(entries, j, k));
                    assert(filed(old_index, k, j) == has_key(entries, j, k));
                }
            }
            assert forall|k: VarId| #[trigger]
                index.contains_key(k) implies index[k] != Set::<usize>::empty() by {
                if old_index.contains_key(k) {
                    assert(old_index[k] != Set::<usize>::empty());
                    let j = choose|j: usize| old_index[k].contains(j);
                    assert(!(old_index[k] =~= Set::<usize>::empty()));
                    assert(filed(old_index, k, j));
                    assert(filed(index, k, j));
                } else {
                    assert(filed(index, k, id));
                }
                if index[k] == Set::<usize>::empty() {
                    if old_index.contains_key(k) {
                        let j = choose|j: usize| old_index[k].contains(j);
                        assert(filed(index, k, j));
                    } else {
                        assert(filed(index, k, id));
                    }
                    assert(false);
                }
            }
            assert forall|j: usize| #[trigger]
                new_entries.contains_key(j) implies new_entries[j].id == j && j
                < self.current_id by {
                if j != id {
                    assert(entries.contains_key(j));
                }
            }
        }
    }

    /// Whether no constraint is filed under any variable.
    pub fn is_empty(&self) -> (res: bool)
        requires
            self.wf(),
        ensures
            res == (watched(self.model().entries) == Set::<VarId>::empty()),
    {
        let res = index_is_empty(&self.keys);
        proof {
            let entries = entry_map(self.values);
            let index = watch_index(self.keys);
            if res {
                assert(watched(entries) =~= Set::<VarId>::empty()) by {
                    assert forall|k: VarId| !watched(entries).contains(k) by {
                        if watched(entries).contains(k) {
                            let id = choose|id: usize| #[trigger] has_key(entries, id, k);
                            assert(filed(index, k, id));
                            assert(index.dom().contains(k));
                        }
                    }
                }
            } else {
                assert(!(index.dom() =~= Set::<VarId>::empty()));
                let k = choose|k: VarId| index.dom().contains(k);
                assert(!(index[k] =~= Set::<usize>::empty()));
                let id = choose|id: usize| index[k].contains(id);
                assert(filed(index, k, id));
                assert(has_key(entries, id, k));
                assert(watched(entries).contains(k));
            }
        }
        res
    }

    /// The variables some constraint is filed under, in ascending order.
    pub fn keys(&self) -> (res: Vec<VarId>)
        requires
            self.wf(),
        ensures
            res@ == sorted_of(watched(self.model().entries)),
            increasing(res@),
            res@.to_set() == watched(self.model().entries),
    {
        let ks = index_keys(&self.keys);
        let res = sort_ids(ks);
        proof {
            let entries = entry_map(self.values);
            let index = watch_index(self.keys);
            assert(index.dom() =~= watched(entries)) by {
                assert forall|k: VarId| watched(entries).contains(k) implies index.dom().contains(
                    k,
                ) by {
                    let id = choose|id: usize| #[trigger] has_key(entries, id, k);
                    assert(filed(index, k, id));
                }
                assert forall|k: VarId| index.dom().contains(k) implies watched(entries).contains(
                    k,
                ) by {
                    assert(!(index[k] =~= Set::<usize>::empty()));
                    let id = choose|id: usize| index[k].contains(id);
                    assert(filed(index, k, id));
                    assert(has_key(entries, id, k));
                }
            }
        }
        res
    }

    /// Take out every constraint filed under `key`, in the order they were
    /// added. `None` if there is none.
    pub fn extract(&mut self, key: VarId) -> (res: Option<Vec<Rc<Constraint>>>)
        requires
            old(self).wf(),
        ensures
            final(self).wf(),
            final(self).model().next == old(self).model().next,
            !watched(old(self).model().entries).contains(key) ==> res is None
                && final(self).model() == old(self).model(),
            watched(old(self).model().entries).contains(key) ==> res is Some && res->0@ == data_of(
                old(self).model().entries,
                sorted_of(watchers(old(self).model().entries, key)),
            ) && final(self).model().entries == without_ids(
                old(self).model().entries,
                watchers(old(self).model().entries, key),
            ),
    {
        let ghost entries0 = entry_map(self.values);
        let ghost index0 = watch_index(self.keys);
        let removed = index_remove(&mut self.keys, key);
        let set = match removed {
            None => {
                proof {
                    assert(!watched(entries0).contains(key)) by {
                        if watched(entries0).contains(key) {
                            let id = choose|id: usize| #[trigger] has_key(entries0, id, key);
                            assert(filed(index0, key, id));
                        }
                    }
                    assert(watch_index(self.keys) =~= index0);
                }
                return None;
            },
            Some(s) => s,
        };
        let ghost ws = watchers(entries0, key);
        proof {
            assert(id_set(set) =~= ws) by {
                assert forall|id: usize| id_set(set).contains(id) <==> ws.contains(id) by {
                    assert(filed(index0, key, id) <==> has_key(entries0, id, key));
                }
            }
            assert(!(id_set(set) =~= Set::<usize>::empty()));
            let id = choose|id: usize| id_set(set).contains(id);
            assert(filed(index0, key, id));
            assert(has_key(entries0, id, key));
            assert(watched(entries0).contains(key));
        }
        let ids = sort_ids(id_set_to_vec(&set));
        let mut out: Vec<Rc<Constraint>> = Vec::new();
        let mut i: usize = 0;
        while i < ids.len()
            invariant
                i <= ids@.len(),
                increasing(ids@),
                ids@.to_set() == ws,
                ws == watchers(entries0, key),
                entries0.dom().finite(),
                self.current_id == old(self).current_id,
                forall|id: usize| #[trigger]
                    entries0.contains_key(id) ==> entries0[id].id == id && id < self.current_id,
                entry_map(self.values) == without_ids(entries0, ids@.take(i as int).to_set()),
                out@ == data_of(entries0, ids@.take(i as int)),
                forall|k: VarId, id: usize|
                    #![trigger filed(watch_index(self.keys), k, id)]
                    #![trigger has_key(entry_map(self.values), id, k)]
                    filed(watch_index(self.keys), k, id) <==> (has_key(
                        entry_map(self.values),
                        id,
                        k,
                    ) && k != key),
                forall|k: VarId| #[trigger]
                    watch_index(self.keys).contains_key(k) ==> watch_index(self.keys)[k]
                        != Set::<usize>::empty(),
            decreases ids@.len() - i,
        {
            let id = ids[i];
            let ghost pre = entry_map(self.values);
            proof {
                assert(ids@.to_set().contains(id));
                assert(!ids@.take(i as int).contains(id)) by {
                    if ids@.take(i as int).contains(id) {
                        let m = choose|m: int| 0 <= m < i && ids@.take(i as int)[m] == id;
                        assert(ids@[m] < ids@[i as int]);
                    }
                }
                assert(!ids@.take(i as int).to_set().contains(id));
                assert(ws.contains(id));
                assert(pre.contains_key(id));
            }
            let removed_entry = entry_table_remove(&mut self.values, id);
            match removed_entry {
                Some(entry) => {
                    proof {
                        let index = watch_index(self.keys);
                        let now = entry_map(self.values);
                        assert forall|k: VarId, j: usize|
                            #![trigger filed(index, k, j)]
                            #![trigger has_key(now, j, k)]
                            filed(index, k, j) <==> ((has_key(now, j, k) && k != key) || (j == id
                                && entry.keys@.contains(k) && k != key)) by {
                            assert(filed(index, k, j) <==> (has_key(pre, j, k) && k != key));
                        }
                    }
                    self.unfile(id, &entry.keys, key);
                    out.push(entry.data);
                },
                None => {
                    proof {
                        assert(false);
                    }
                },
            }
            proof {
                let t1 = ids@.take(i + 1);
                assert(t1 =~= ids@.take(i as int).push(id));
                assert(t1.to_set() =~= ids@.take(i as int).to_set().insert(id)) by {
                    let t0 = ids@.take(i as int);
                    assert forall|x: usize| t1.to_set().contains(x) implies t0.to_set().insert(
                        id,
                    ).contains(x) by {
                        let m = choose|m: int| 0 <= m < t1.len() && t1[m] == x;
                        if m < i {
                            assert(t0[m] == x);
                        }
                    }
                    assert forall|x: usize| t0.to_set().insert(id).contains(x) implies t1.to_set().contains(
                        x,
                    ) by {
                        if x == id {
                            assert(t1[i as int] == id);
                        } else {
                            let m = choose|m: int| 0 <= m < t0.len() && t0[m] == x;
                            assert(t1[m] == x);
                        }
                    }
                }
                assert(entry_map(self.values) =~= without_ids(entries0, t1.to_set()));
                assert(out@ =~= data_of(entries0, t1));
            }
            i = i + 1;
        }
        proof {
            assert(ids@.take(ids@.len() as int) =~= ids@);
            crate::kernel::order::lemma_sorted_of(ids@);
            let entries = entry_map(self.values);
            let index = watch_index(self.keys);
            assert(entries == without_ids(entries0, ws));
            assert(entries.dom() =~= entries0.dom().difference(ws));
            assert(entries.dom().finite());
            assert forall|j: usize| #[trigger]
                entries.contains_key(j) implies entries[j].id == j && j < self.current_id by {
                assert(entries0.contains_key(j));
            }
            assert forall|k: VarId, j: usize|
                #![trigger filed(index, k, j)]
                #![trigger has_key(entries, j, k)]
                filed(index, k, j) <==> has_key(entries, j, k) by {
                if has_key(entries, j, k) && k == key {
                    assert(has_key(entries0, j, key));
                    assert(ws.contains(j));
                }
            }
        }
        Some(out)
    }

    /// Remove `id` from the index sets of every key in `keys` but `skip`,
    /// dropping sets that become empty.
    fn unfile(&mut self, id: usize, keys: &LVarList, skip: VarId)
        requires
            forall|k: VarId| #[trigger]
                watch_index(old(self).keys).contains_key(k) ==> watch_index(old(self).keys)[k]
                    != Set::<usize>::empty(),
            forall|k: VarId, j: usize|
                #![trigger filed(watch_index(old(self).keys), k, j)]
                #![trigger has_key(entry_map(old(self).values), j, k)]
                filed(watch_index(old(self).keys), k, j) <==> ((has_key(
                    entry_map(old(self).values),
                    j,
                    k,
                ) && k != skip) || (j == id && keys@.contains(k) && k != skip)),
            !entry_map(old(self).values).contains_key(id),
        ensures
            final(self).current_id == old(self).current_id,
            entry_map(final(self).values) == entry_map(old(self).values),
            forall|k: VarId| #[trigger]
                watch_index(final(self).keys).contains_key(k) ==> watch_index(final(self).keys)[k]
                    != Set::<usize>::empty(),
            forall|k: VarId, j: usize|
                #![trigger filed(watch_index(final(self).keys), k, j)]
                #![trigger has_key(entry_map(final(self).values), j, k)]
                filed(watch_index(final(self).keys), k, j) <==> (has_key(
                    entry_map(final(self).values),
                    j,
                    k,
                ) && k != skip),
    {
        let ks = keys.to_vec();
        let ghost entries = entry_map(self.values);
        let mut i: usize = 0;
        while i < ks.len()
            invariant
                i <= ks@.len(),
                ks@ == keys@,
                entry_map(self.values) == entries,
                !entries.contains_key(id),
                self.current_id == old(self).current_id,
                forall|k: VarId| #[trigger]
                    watch_index(self.keys).contains_key(k) ==> watch_index(self.keys)[k]
                        != Set::<usize>::empty(),
                forall|k: VarId, j: usize|
                    #![trigger filed(watch_index(self.keys), k, j)]
                    #![trigger has_key(entries, j, k)]
                    filed(watch_index(self.keys), k, j) <==> ((has_key(entries, j, k) && k
                        != skip) || (j == id && ks@.contains(k) && !ks@.take(i as int).contains(k)
                        && k != skip)),
            decreases ks@.len() - i,
        {
            let k = ks[i];
            let ghost before = watch_index(self.keys);
            if k != skip {
                match index_get(&self.keys, k) {
                    Some(existing) => {
                        let smaller = id_set_without(existing, id);
                        if id_set_is_empty(&smaller) {
                            index_remove(&mut self.keys, k);
                            proof {
                                assert forall|j: usize| j != id implies !before[k].contains(j) by {
                                    if before[k].contains(j) {
                                        assert(id_set(smaller).contains(j));
                                    }
                                }
                            }
                        } else {
                            index_insert(&mut self.keys, k, smaller);
                        }
                    },
                    None => {},
                }
            }
            proof {
                let t1 = ks@.take(i + 1);
                assert(t1 =~= ks@.take(i as int).push(k));
                let index = watch_index(self.keys);
                assert forall|k2: VarId, j: usize|
                    #![trigger filed(index, k2, j)]
                    #![trigger has_key(entries, j, k2)]
                    filed(index, k2, j) <==> ((has_key(entries, j, k2) && k2 != skip) || (j == id
                        && ks@.contains(k2) && !t1.contains(k2) && k2 != skip)) by {
                    if ks@.take(i as int).contains(k2) {
                        let m = choose|m: int| 0 <= m < i && ks@.take(i as int)[m] == k2;
                        assert(t1[m] == k2);
                    }
                    if t1.contains(k2) && k2 != k {
                        let m = choose|m: int| 0 <= m < t1.len() && t1[m] == k2;
                        assert(ks@.take(i as int)[m] == k2);
                    }
                    if k2 == k {
                        assert(t1[i as int] == k);
                        assert(filed(before, k2, j) <==> ((has_key(entries, j, k2) && k2 != skip)
                            || (j == id && ks@.contains(k2) && !ks@.take(i as int).contains(k2)
                            && k2 != skip)));
                        if k2 != skip && before.contains_key(k2) && j != id {
                            if !index.contains_key(k2) {
                                assert(!before[k2].contains(j));
                            }
                            assert(filed(before, k2, j) == filed(index, k2, j));
                        }
                    } else {
                        assert(filed(before, k2, j) == filed(index, k2, j));
                    }
                }
                assert forall|k2: VarId| #[trigger]
                    index.contains_key(k2) implies index[k2] != Set::<usize>::empty() by {
                    if k2 != k {
                        assert(before.contains_key(k2));
                    }
                }
            }
            i = i + 1;
        }
        proof {
            assert(ks@.take(ks@.len() as int) =~= ks@);
            let index = watch_index(self.keys);
            assert forall|k2: VarId, j: usize|
                #![trigger filed(index, k2, j)]
                #![trigger has_key(entries, j, k2)]
                filed(index, k2, j) <==> (has_key(entries, j, k2) && k2 != skip) by {
                if j == id {
                    assert(!has_key(entries, j, k2));
                }
            }
        }
    }
}

} // verus!
