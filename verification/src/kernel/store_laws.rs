//! Properties of the constraint store across calls: what adding files, what
//! extracting takes out, and that no stored constraint comes out twice.
use crate::kernel::constraints::Constraint;
use crate::kernel::lvarlist::LVarList;
use crate::kernel::mkmvmap::{data_of, has_key, watched, watchers, without_ids, Entry, StoreModel};
use crate::kernel::order::{lemma_sorted_of_finite, sorted_of};
use crate::kernel::semantics::store_add;
use crate::value::VarId;
use std::rc::Rc;
use vstd::prelude::*;

verus! {

/// The store's entries are finitely many, each filed under its own id, and
/// every id is below the next one to be handed out.
pub open spec fn store_ok(st: StoreModel) -> bool {
    &&& st.entries.dom().finite()
    &&& forall|id: usize| #[trigger]
        st.entries.contains_key(id) ==> st.entries[id].id == id && id < st.next
}

/// What `extract(k)` does: the store afterwards, and the ids of the entries
/// it takes out, in the order of their constraints in its result.
pub open spec fn extract_model(st: StoreModel, k: VarId) -> (StoreModel, Seq<usize>) {
    if watched(st.entries).contains(k) {
        (
            StoreModel { next: st.next, entries: without_ids(st.entries, watchers(st.entries, k)) },
            sorted_of(watchers(st.entries, k)),
        )
    } else {
        (st, Seq::empty())
    }
}

/// A call on the store.
pub enum StoreOp {
    Add(LVarList, Rc<Constraint>),
    Extract(VarId),
}

/// Running the calls `ops` from `st`: the final store and the ids of the
/// entries the extractions took out, in order. An add on a store that has
/// handed out every id is refused and changes nothing.
pub open spec fn run_store(st: StoreModel, ops: Seq<StoreOp>) -> (StoreModel, Seq<usize>)
    decreases ops.len(),
{
    if ops.len() == 0 {
        (st, Seq::empty())
    } else {
        match ops[0] {
            StoreOp::Add(keys, c) => if st.next < usize::MAX {
                run_store(store_add(st, keys, c), ops.drop_first())
            } else {
                run_store(st, ops.drop_first())
            },
            StoreOp::Extract(k) => {
                let (st2, ids) = extract_model(st, k);
                let (fin, rest) = run_store(st2, ops.drop_first());
                (fin, ids + rest)
            },
        }
    }
}

proof fn lemma_watchers_finite(entries: Map<usize, Entry>, k: VarId)
    requires
        entries.dom().finite(),
    ensures
        watchers(entries, k).finite(),
        watchers(entries, k).subset_of(entries.dom()),
{
    assert(watchers(entries, k) =~= entries.dom().intersect(watchers(entries, k)));
}

/// Extracting `k` takes out exactly the entries filed under `k`, once each
/// in ascending id order, and afterwards nothing is filed under `k`; every
/// other entry stays as it was.
pub proof fn law_extract(st: StoreModel, k: VarId)
    requires
        store_ok(st),
    ensures
        extract_model(st, k).1.no_duplicates(),
        extract_model(st, k).1.to_set() == (if watched(st.entries).contains(k) {
            watchers(st.entries, k)
        } else {
            Set::empty()
        }),
        !watched(extract_model(st, k).0.entries).contains(k),
        forall|id: usize| #[trigger]
            extract_model(st, k).0.entries.contains_key(id) ==> st.entries.contains_key(id)
                && extract_model(st, k).0.entries[id] == st.entries[id] && !has_key(
                st.entries,
                id,
                k,
            ),
        store_ok(extract_model(st, k).0),
{
    let (st2, ids) = extract_model(st, k);
    if watched(st.entries).contains(k) {
        lemma_watchers_finite(st.entries, k);
        lemma_sorted_of_finite(watchers(st.entries, k));
        assert(st2.entries.dom() =~= st.entries.dom().difference(watchers(st.entries, k)));
        assert(!watched(st2.entries).contains(k)) by {
            if watched(st2.entries).contains(k) {
                let id = choose|id: usize| #[trigger] has_key(st2.entries, id, k);
                assert(has_key(st.entries, id, k));
            }
        }
    } else {
        assert(ids.to_set() =~= Set::<usize>::empty());
    }
}

/// Adding files the constraint under every one of its keys and keeps every
/// entry there was: the watched keys grow by the new keys, and an
/// extraction of any of them right after returns the constraint.
pub proof fn law_add(st: StoreModel, keys: LVarList, c: Rc<Constraint>, k: VarId)
    requires
        store_ok(st),
        st.next < usize::MAX,
    ensures
        watched(store_add(st, keys, c).entries) == watched(st.entries).union(keys@.to_set()),
        forall|id: usize| #[trigger]
            st.entries.contains_key(id) ==> store_add(st, keys, c).entries.contains_key(id)
                && store_add(st, keys, c).entries[id] == st.entries[id],
        store_ok(store_add(st, keys, c)),
        keys@.contains(k) ==> data_of(
            store_add(st, keys, c).entries,
            extract_model(store_add(st, keys, c), k).1,
        ).contains(c),
{
    let st2 = store_add(st, keys, c);
    let id0 = st.next;
    assert(!st.entries.contains_key(id0));
    assert forall|x: VarId| watched(st2.entries).contains(x) <==> watched(st.entries).union(
        keys@.to_set(),
    ).contains(x) by {
        if watched(st2.entries).contains(x) {
            let id = choose|id: usize| #[trigger] has_key(st2.entries, id, x);
            if id != id0 {
                assert(has_key(st.entries, id, x));
            }
        }
        if watched(st.entries).contains(x) {
            let id = choose|id: usize| #[trigger] has_key(st.entries, id, x);
            assert(has_key(st2.entries, id, x));
        }
        if keys@.to_set().contains(x) {
            assert(has_key(st2.entries, id0, x));
        }
    }
    assert(watched(st2.entries) =~= watched(st.entries).union(keys@.to_set()));
    assert(st2.entries.dom() =~= st.entries.dom().insert(id0));
    if keys@.contains(k) {
        assert(has_key(st2.entries, id0, k));
        assert(watched(st2.entries).contains(k));
        lemma_watchers_finite(st2.entries, k);
        lemma_sorted_of_finite(watchers(st2.entries, k));
        let q = sorted_of(watchers(st2.entries, k));
        assert(q.to_set().contains(id0));
        let i = choose|i: int| 0 <= i < q.len() && q[i] == id0;
        assert(data_of(st2.entries, q)[i] == c);
    }
}

/// Over any run of adds and extractions on a store, no entry is taken out
/// twice: the ids of all taken-out entries are distinct, each was in the
/// store (from the start or added during the run), and none is left at the
/// end.
pub proof fn law_extract_at_most_once(st: StoreModel, ops: Seq<StoreOp>)
    requires
        store_ok(st),
    ensures
        run_store(st, ops).1.no_duplicates(),
        forall|i: int|
            0 <= i < run_store(st, ops).1.len() ==> !run_store(st, ops).0.entries.contains_key(
                #[trigger] run_store(st, ops).1[i],
            ) && (st.entries.contains_key(run_store(st, ops).1[i]) || st.next <= run_store(
                st,
                ops,
            ).1[i]),
        forall|id: usize| #[trigger]
            run_store(st, ops).0.entries.contains_key(id) ==> st.entries.contains_key(id)
                || st.next <= id,
        run_store(st, ops).0.next >= st.next,
        store_ok(run_store(st, ops).0),
    decreases ops.len(),
{
    if ops.len() > 0 {
        let rest = ops.drop_first();
        match ops[0] {
            StoreOp::Add(keys, c) => {
                if st.next < usize::MAX {
                    let st2 = store_add(st, keys, c);
                    law_add(st, keys, c, 0);
                    law_extract_at_most_once(st2, rest);
                } else {
                    law_extract_at_most_once(st, rest);
                }
            },
            StoreOp::Extract(k) => {
                let (st2, ids) = extract_model(st, k);
                law_extract(st, k);
                law_extract_at_most_once(st2, rest);
                let (fin, more) = run_store(st2, rest);
                let all = ids + more;
                assert(run_store(st, ops) == (fin, all));
                assert forall|i: int| 0 <= i < ids.len() implies st.entries.contains_key(
                    #[trigger] ids[i],
                ) && !st2.entries.contains_key(ids[i]) && ids[i] < st.next by {
                    assert(ids.to_set().contains(ids[i]));
                    lemma_watchers_finite(st.entries, k);
                }
                assert forall|a: int, b: int| 0 <= a < b < all.len() implies all[a] != all[b] by {
                    if b < ids.len() {
                    } else if a < ids.len() {
                        assert(all[a] == ids[a]);
                        assert(all[b] == more[b - ids.len()]);
                    } else {
                        assert(all[a] == more[a - ids.len()]);
                        assert(all[b] == more[b - ids.len()]);
                    }
                }
                assert forall|i: int| 0 <= i < all.len() implies !fin.entries.contains_key(
                    #[trigger] all[i],
                ) && (st.entries.contains_key(all[i]) || st.next <= all[i]) by {
                    if i < ids.len() {
                        assert(all[i] == ids[i]);
                    } else {
                        assert(all[i] == more[i - ids.len()]);
                    }
                }
            },
        }
    }
}

} // verus!
