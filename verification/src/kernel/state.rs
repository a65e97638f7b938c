//! The state: bindings of variables to values, pending forks and the store
//! of constraints waiting for variables.
use crate::kernel::bindings::{bindings_wf, bound, lemma_bind, lemma_resolve, lemma_resolve_step, resolve_spec, rooted, walk};
use crate::kernel::constraints::Constraint;
use crate::kernel::fork::Fork;
use crate::kernel::lvarlist::LVarList;
use crate::kernel::mkmvmap::{data_of, watched, watchers, without_ids, MKMVMap};
use crate::kernel::order::{sort_ids, sorted_of};
use crate::kernel::persistent::{
    binding_map, bindings_clone, bindings_get, bindings_insert, bindings_keys, bindings_new,
    fork_queue, forks_clone, forks_is_empty, forks_new, forks_pop_front, forks_push_back,
};
use crate::kernel::semantics::{push_fork, resolve_in, state_vars, store_add, StateModel};
use crate::value::{LVar, Value, VarId};
use std::rc::Rc;
use vstd::prelude::*;

verus! {

/// A state: what is known of the variables so far.
///
/// Its bindings never form a cycle, so every value resolves to a value
/// without binding.
pub struct State {
    values: im_rc::HashMap<VarId, Value>,
    forks: im_rc::Vector<Fork>,
    constraints: MKMVMap,
}

impl State {
    /// The abstract content of the state.
    pub closed spec fn model(&self) -> StateModel {
        StateModel {
            values: binding_map(self.values),
            forks: fork_queue(self.forks),
            store: self.constraints.model(),
        }
    }

    #[verifier::type_invariant]
    closed spec fn inv(self) -> bool {
        &&& bindings_wf(binding_map(self.values))
        &&& self.constraints.wf()
    }

    /// The bindings of the state are free of cycles and its store is well
    /// formed, so the laws about states apply to it. Nothing is computed:
    /// this states what the state's invariant guarantees.
    pub fn well_formed(&self)
        ensures
            bindings_wf(self.model().values),
            crate::kernel::store_laws::store_ok(self.model().store),
    {
        proof {
            use_type_invariant(self);
            MKMVMap::lemma_store_ok(&self.constraints);
        }
    }

    /// A new state: no binding, no fork, no constraint.
    pub fn new() -> (res: State)
        ensures
            res.model().values == Map::<VarId, Value>::empty(),
            res.model().forks == Seq::<Fork>::empty(),
            res.model().store.next == 0,
            res.model().store.entries == Map::<usize, crate::kernel::mkmvmap::Entry>::empty(),
    {
        let values = bindings_new();
        proof {
            assert(binding_map(values) =~= Map::<VarId, Value>::empty());
        }
        State { values, forks: forks_new(), constraints: MKMVMap::new() }
    }

    /// A copy of the state: the same bindings, forks and constraints.
    pub fn copy(&self) -> (res: State)
        ensures
            res.model() == self.model(),
    {
        proof {
            use_type_invariant(self);
        }
        State {
            values: bindings_clone(&self.values),
            forks: forks_clone(&self.forks),
            constraints: self.constraints.copy(),
        }
    }

    /// Resolve `v` as far as the bindings allow: the value at the end of
    /// its chain of bindings, a resolved value or a variable without binding.
    pub fn resolve(&self, v: &Value) -> (res: Value)
        ensures
            res == resolve_in(self.model(), *v),
            !bound(self.model().values, res),
    {
        proof {
            use_type_invariant(self);
        }
        let ghost m = binding_map(self.values);
        proof {
            lemma_resolve(m, *v);
        }
        let ghost mut k: nat = choose|n: nat| rooted(m, *v, n);
        let mut cur = v.share();
        loop
            invariant
                m == binding_map(self.values),
                bindings_wf(m),
                rooted(m, cur, k),
                resolve_spec(m, cur) == resolve_spec(m, *v),
            ensures
                !bound(m, cur),
                resolve_spec(m, cur) == resolve_spec(m, *v),
            decreases k,
        {
            let next = match &cur {
                Value::Var(x) => match bindings_get(&self.values, x.id) {
                    Some(n) => {
                        proof {
                            assert(k > 0);
                            lemma_resolve_step(m, x.id);
                            assert(cur == Value::Var(LVar { id: x.id }));
                            assert(walk(m, cur, k) == walk(m, m[x.id], (k - 1) as nat));
                            k = (k - 1) as nat;
                        }
                        n.share()
                    },
                    None => {
                        break ;
                    },
                },
                Value::Resolved(_) => {
                    break ;
                },
            };
            cur = next;
        }
        proof {
            lemma_resolve(m, cur);
        }
        cur
    }

    /// Bind the variable `k` to `v`, and take out the constraints that
    /// waited for `k`, oldest first.
    pub fn bind_var(self, k: VarId, v: Value) -> (res: (State, Option<Vec<Rc<Constraint>>>))
        requires
            !self.model().values.contains_key(k),
            !bound(self.model().values, v),
            v != Value::Var(LVar { id: k }),
        ensures
            res.0.model().values == self.model().values.insert(k, v),
            res.0.model().forks == self.model().forks,
            res.0.model().store.next == self.model().store.next,
            !watched(self.model().store.entries).contains(k) ==> res.1 is None
                && res.0.model().store == self.model().store,
            watched(self.model().store.entries).contains(k) ==> res.1 is Some && res.1->0@
                == data_of(
                self.model().store.entries,
                sorted_of(watchers(self.model().store.entries, k)),
            ) && res.0.model().store.entries == without_ids(
                self.model().store.entries,
                watchers(self.model().store.entries, k),
            ),
    {
        proof {
            use_type_invariant(&self);
            lemma_bind(binding_map(self.values), k, v);
        }
        let State { mut values, forks, mut constraints } = self;
        bindings_insert(&mut values, k, v);
        let found = constraints.extract(k);
        (State { values, forks, constraints }, found)
    }

    /// Store `c` to wait for `keys`; `None` if the store has handed out
    /// every entry id.
    pub fn store(self, keys: LVarList, c: Rc<Constraint>) -> (res: Option<State>)
        ensures
            self.model().store.next == usize::MAX ==> res is None,
            self.model().store.next < usize::MAX ==> res is Some && res->0.model() == (StateModel {
                store: store_add(self.model().store, keys, c),
                ..self.model()
            }),
    {
        proof {
            use_type_invariant(&self);
        }
        if self.constraints.is_full() {
            None
        } else {
            let State { values, forks, mut constraints } = self;
            constraints.add(keys, c);
            Some(State { values, forks, constraints })
        }
    }

    /// Add a fork at the back of the queue.
    pub fn push_fork(self, fork: Fork) -> (res: State)
        ensures
            res.model() == push_fork(self.model(), fork),
    {
        proof {
            use_type_invariant(&self);
        }
        let State { values, mut forks, constraints } = self;
        forks_push_back(&mut forks, fork);
        State { values, forks, constraints }
    }

    /// Take the fork at the front of the queue, if any.
    pub fn pop_fork(self) -> (res: (State, Option<Fork>))
        ensures
            self.model().forks.len() == 0 ==> res.1 is None && res.0.model() == self.model(),
            self.model().forks.len() > 0 ==> res.1 == Some(self.model().forks[0]) && res.0.model()
                == (StateModel { forks: self.model().forks.drop_first(), ..self.model() }),
    {
        proof {
            use_type_invariant(&self);
        }
        let State { values, mut forks, constraints } = self;
        let f = forks_pop_front(&mut forks);
        (State { values, forks, constraints }, f)
    }

    /// Whether no constraint waits for a variable.
    pub fn no_constraints(&self) -> (res: bool)
        ensures
            res == (watched(self.model().store.entries) == Set::<VarId>::empty()),
    {
        proof {
            use_type_invariant(self);
        }
        self.constraints.is_empty()
    }

    /// Whether no fork is pending.
    pub fn no_forks(&self) -> (res: bool)
        ensures
            res == (self.model().forks.len() == 0),
    {
        forks_is_empty(&self.forks)
    }

    /// The variables the state knows of: those it binds and those a
    /// constraint waits for, in ascending order.
    pub fn vars(&self) -> (res: LVarList)
        ensures
            res@ == state_vars(self.model()),
            res == LVarList::from_seq_spec(state_vars(self.model())),
    {
        proof {
            use_type_invariant(self);
        }
        let bound_ids = bindings_keys(&self.values);
        let watched_ids = self.constraints.keys();
        let mut all = bound_ids;
        let mut i: usize = 0;
        while i < watched_ids.len()
            invariant
                0 <= i <= watched_ids@.len(),
                all@.no_duplicates(),
                all@.to_set() == binding_map(self.values).dom().union(
                    watched_ids@.subrange(0, i as int).to_set(),
                ),
            decreases watched_ids.len() - i,
        {
            let id = watched_ids[i];
            let mut present = false;
            let mut j: usize = 0;
            while j < all.len()
                invariant
                    0 <= j <= all@.len(),
                    present <==> exists|t: int| 0 <= t < j && all@[t] == id,
                decreases all.len() - j,
            {
                if all[j] == id {
                    present = true;
                }
                j = j + 1;
            }
            let ghost before = all@;
            let ghost w0 = watched_ids@.subrange(0, i as int);
            let ghost w1 = watched_ids@.subrange(0, i + 1);
            proof {
                assert(w1 =~= w0.push(id));
                assert(present <==> before.contains(id));
            }
            if !present {
                all.push(id);
            }
            proof {
                let dom = binding_map(self.values).dom();
                assert forall|a: VarId| all@.to_set().contains(a) <==> dom.union(
                    w1.to_set(),
                ).contains(a) by {
                    if all@.contains(a) {
                        let t = choose|t: int| 0 <= t < all@.len() && all@[t] == a;
                        if t < before.len() {
                            assert(before.to_set().contains(a));
                            if !dom.contains(a) {
                                let u = choose|u: int| 0 <= u < w0.len() && w0[u] == a;
                                assert(w1[u] == a);
                            }
                        } else {
                            assert(w1[i as int] == a);
                        }
                    }
                    if dom.union(w1.to_set()).contains(a) {
                        if dom.contains(a) {
                            assert(before.to_set().contains(a));
                            let t = choose|t: int| 0 <= t < before.len() && before[t] == a;
                            assert(all@[t] == a);
                        } else {
                            let u = choose|u: int| 0 <= u < w1.len() && w1[u] == a;
                            if u < i {
                                assert(w0[u] == a);
                                assert(before.to_set().contains(a));
                                let t = choose|t: int| 0 <= t < before.len() && before[t] == a;
                                assert(all@[t] == a);
                            } else if present {
                                let t = choose|t: int| 0 <= t < before.len() && before[t] == id;
                                assert(all@[t] == a);
                            } else {
                                assert(all@[before.len() as int] == a);
                            }
                        }
                    }
                }
                assert(all@.to_set() =~= dom.union(w1.to_set()));
                assert forall|x: int, y: int| 0 <= x < y < all@.len() implies all@[x] != all@[y] by {
                    if y == before.len() && !present {
                        assert(before[x] == all@[x]);
                    }
                }
            }
            i = i + 1;
        }
        proof {
            assert(watched_ids@.subrange(0, watched_ids@.len() as int) =~= watched_ids@);
        }
        LVarList::from_vec(sort_ids(all))
    }
}

impl Default for State {
    /// A new state: no binding, no fork, no constraint.
    fn default() -> (res: Self)
        ensures
            res.model() == crate::kernel::semantics::empty_state(),
    {
        let s = State::new();
        proof {
            assert(s.model() == crate::kernel::semantics::empty_state());
        }
        s
    }
}

} // verus!
