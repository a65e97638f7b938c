//! Unifying a variable with an integer and asserting a property of it give
//! the same answers in either order: the assertion decides at once when the
//! value is there, and otherwise waits for the binding and decides then.
use crate::goals::project::{holds, Assert1, Relation};
use crate::goals::Goal;
use crate::kernel::bindings::{bindings_wf, lemma_bind, lemma_resolve, resolve_spec};
use crate::kernel::constraints::Constraint;
use crate::kernel::lvarlist::LVarList;
use crate::kernel::mkmvmap::{data_of, has_key, watched, watchers, without_ids, Entry, StoreModel};
use crate::kernel::order::{lemma_sorted_of, sorted_of};
use crate::kernel::semantics::{
    answers, apply, attempt, bind, constrain, empty_state, fire, int_value, into_states, query,
    ready, reify, resolve_in, run, store_add, test_action, unify, Attempt, StateModel,
    BUDGET,
};
use crate::value::{LVar, Term, Value, VarId};
use std::rc::Rc;
use vstd::prelude::*;

verus! {

/// The answers both orders give: `n` where `n rel bound` holds, nothing
/// otherwise.
pub open spec fn assert_answers(n: i64, rel: Relation, bound: i64) -> Seq<Value> {
    if holds(rel, n, bound) {
        seq![int_value(n)]
    } else {
        Seq::empty()
    }
}

proof fn lemma_empty_resolves(x: VarId)
    ensures
        bindings_wf(Map::<VarId, Value>::empty()),
        resolve_spec(Map::<VarId, Value>::empty(), Value::Var(LVar { id: x })) == Value::Var(
            LVar { id: x },
        ),
        resolve_spec(Map::<VarId, Value>::empty(), int_value(0)) == int_value(0),
{
    assert(Map::<VarId, Value>::empty().dom() =~= Set::<VarId>::empty());
    lemma_resolve(Map::empty(), Value::Var(LVar { id: x }));
    lemma_resolve(Map::empty(), int_value(0));
}

proof fn lemma_bound_resolves(x: VarId, n: i64)
    ensures
        bindings_wf(Map::<VarId, Value>::empty().insert(x, int_value(n))),
        resolve_spec(Map::<VarId, Value>::empty().insert(x, int_value(n)), Value::Var(LVar { id: x }))
            == int_value(n),
        resolve_spec(Map::<VarId, Value>::empty(), int_value(n)) == int_value(n),
{
    lemma_empty_resolves(x);
    lemma_resolve(Map::empty(), int_value(n));
    lemma_bind(Map::empty(), x, int_value(n));
}

/// A state with the one binding `x = n`, no fork and an empty store
/// answers `n` for `x`.
proof fn lemma_single_answer(s: StateModel, x: VarId, n: i64)
    requires
        s.values == Map::<VarId, Value>::empty().insert(x, int_value(n)),
        s.forks.len() == 0,
        s.store.entries == Map::<usize, Entry>::empty(),
    ensures
        answers(BUDGET as nat, into_states(BUDGET as nat, s), Value::Var(LVar { id: x }), Seq::empty())
            == seq![int_value(n)],
{
    lemma_bound_resolves(x, n);
    let f = BUDGET as nat;
    let v = Value::Var(LVar { id: x });
    assert(into_states(f, s) == seq![s]);
    assert(watched(s.store.entries) =~= Set::<VarId>::empty());
    assert(ready(s));
    let t = Rc::new(Term::Int(n));
    assert(resolve_spec(s.values, v) == Value::Resolved(t));
    assert(reify(f, s.values, v) == Some(int_value(n)));
    let ss = seq![s];
    assert(ss.drop_first() =~= Seq::<StateModel>::empty());
    assert(Seq::<Value>::empty() + seq![int_value(n)] =~= seq![int_value(n)]);
    assert(answers(f, ss, v, Seq::empty()) == answers(
        f,
        ss.drop_first(),
        v,
        Seq::<Value>::empty() + seq![int_value(n)],
    ));
}

/// The assertion goal on `x`.
pub open spec fn assert_goal(x: VarId, rel: Relation, bound: i64) -> Goal {
    Goal::Constraint(
        Rc::new(Constraint::Assert1(Assert1 { a: Value::Var(LVar { id: x }), rel, bound })),
    )
}

/// The unification of `x` with `n`.
pub open spec fn unify_goal(x: VarId, n: i64) -> Goal {
    Goal::Unify(Value::Var(LVar { id: x }), int_value(n))
}

/// The one-binding state.
pub open spec fn bound_state(x: VarId, n: i64) -> StateModel {
    StateModel { values: Map::<VarId, Value>::empty().insert(x, int_value(n)), ..empty_state() }
}

#[verifier::rlimit(50)]
proof fn lemma_unify_first(x: VarId, n: i64, rel: Relation, bound: i64)
    ensures
        apply(
            BUDGET as nat,
            Goal::Both(Rc::new(unify_goal(x, n)), Rc::new(assert_goal(x, rel, bound))),
            empty_state(),
        ) == if holds(rel, n, bound) {
            Some(bound_state(x, n))
        } else {
            None
        },
{
    let f = BUDGET as nat;
    let xv = Value::Var(LVar { id: x });
    let nv = int_value(n);
    let c = Constraint::Assert1(Assert1 { a: xv, rel, bound });
    let e = empty_state();
    let s1 = bound_state(x, n);
    lemma_bound_resolves(x, n);
    lemma_empty_resolves(x);
    let act = test_action(holds(rel, n, bound));
    assert(watched(e.store.entries) =~= Set::<VarId>::empty());
    assert(resolve_in(e, xv) == xv);
    assert(resolve_in(e, nv) == nv);
    assert(resolve_in(s1, xv) == nv);
    assert(bind((f - 3) as nat, e, x, nv) == Some(s1));
    assert(unify((f - 2) as nat, e, xv, nv) == Some(s1));
    assert(apply((f - 1) as nat, unify_goal(x, n), e) == Some(s1));
    assert(crate::kernel::semantics::resolve_1_spec(s1, xv) == Ok::<Rc<Term>, LVarList>(
        Rc::new(Term::Int(n)),
    ));
    assert(crate::kernel::semantics::attempt_plain(s1, c) == Attempt::Run(act));
    assert(attempt((f - 3) as nat, s1, c) == Attempt::Run(act));
    assert(constrain((f - 2) as nat, s1, Rc::new(c)) == run((f - 3) as nat, s1, act));
    assert(apply((f - 1) as nat, assert_goal(x, rel, bound), s1) == run((f - 3) as nat, s1, act));
}

/// The state after the assertion waits for `x`.
pub open spec fn waiting_state(x: VarId, rel: Relation, bound: i64) -> StateModel {
    StateModel {
        store: store_add(
            empty_state().store,
            LVarList::from_seq_spec(seq![x]),
            Rc::new(Constraint::Assert1(Assert1 { a: Value::Var(LVar { id: x }), rel, bound })),
        ),
        ..empty_state()
    }
}

/// The state after the binding took the waiting assertion out.
pub open spec fn woken_state(x: VarId, n: i64) -> StateModel {
    StateModel {
        values: Map::<VarId, Value>::empty().insert(x, int_value(n)),
        forks: Seq::empty(),
        store: StoreModel { next: 1, entries: Map::empty() },
    }
}

proof fn lemma_assert_waits(x: VarId, rel: Relation, bound: i64)
    ensures
        apply((BUDGET - 1) as nat, assert_goal(x, rel, bound), empty_state()) == Some(
            waiting_state(x, rel, bound),
        ),
{
    let f = BUDGET as nat;
    let xv = Value::Var(LVar { id: x });
    let c = Constraint::Assert1(Assert1 { a: xv, rel, bound });
    lemma_empty_resolves(x);
    let e = empty_state();
    let keys = LVarList::from_seq_spec(seq![x]);
    assert(resolve_in(e, xv) == xv);
    assert(crate::kernel::semantics::resolve_1_spec(e, xv) == Err::<Rc<Term>, LVarList>(keys));
    assert(crate::kernel::semantics::attempt_plain(e, c) == Attempt::Wait(keys));
    assert(attempt((f - 3) as nat, e, c) == Attempt::Wait(keys));
    assert(constrain((f - 2) as nat, e, Rc::new(c)) == Some(waiting_state(x, rel, bound)));
}

#[verifier::rlimit(50)]
proof fn lemma_binding_wakes(x: VarId, n: i64, rel: Relation, bound: i64)
    ensures
        apply((BUDGET - 1) as nat, unify_goal(x, n), waiting_state(x, rel, bound)) == if holds(
            rel,
            n,
            bound,
        ) {
            Some(woken_state(x, n))
        } else {
            None
        },
{
    let f = BUDGET as nat;
    let xv = Value::Var(LVar { id: x });
    let nv = int_value(n);
    let c = Constraint::Assert1(Assert1 { a: xv, rel, bound });
    let rc = Rc::new(c);
    let s2 = waiting_state(x, rel, bound);
    let st = s2.store;
    lemma_bound_resolves(x, n);
    lemma_empty_resolves(x);
    LVarList::lemma_from_seq(seq![x]);
    assert(s2.values == Map::<VarId, Value>::empty());
    assert(st.entries.contains_key(0));
    assert(st.entries[0].keys@[0] == x);
    assert(has_key(st.entries, 0, x));
    assert(watched(st.entries).contains(x));
    assert(watchers(st.entries, x) =~= set![0usize]);
    assert(seq![0usize][0] == 0usize);
    assert(seq![0usize].to_set() =~= set![0usize]);
    lemma_sorted_of(seq![0usize]);
    assert(sorted_of(watchers(st.entries, x)) == seq![0usize]);
    let cs = data_of(st.entries, seq![0usize]);
    assert(cs =~= seq![rc]);
    let s3 = woken_state(x, n);
    assert(without_ids(st.entries, set![0usize]) =~= Map::<usize, Entry>::empty());
    assert(bind((f - 3) as nat, s2, x, nv) == fire((f - 4) as nat, s3, cs));
    let act = test_action(holds(rel, n, bound));
    assert(attempt((f - 6) as nat, s3, c) == Attempt::Run(act));
    assert(constrain((f - 5) as nat, s3, rc) == run((f - 6) as nat, s3, act));
    assert(cs.drop_first() =~= Seq::<Rc<Constraint>>::empty());
    assert(unify((f - 2) as nat, s2, xv, nv) == fire((f - 4) as nat, s3, cs));
}

/// `both(unify(x, n), assert_1(x, rel, bound))` and
/// `both(assert_1(x, rel, bound), unify(x, n))` give the same answers for
/// `x`: `n` where `n rel bound` holds, nothing otherwise.
pub proof fn law_assert_unify_commute(x: VarId, n: i64, rel: Relation, bound: i64)
    ensures
        query(
            BUDGET as nat,
            Goal::Both(Rc::new(unify_goal(x, n)), Rc::new(assert_goal(x, rel, bound))),
            Value::Var(LVar { id: x }),
        ) == assert_answers(n, rel, bound),
        query(
            BUDGET as nat,
            Goal::Both(Rc::new(assert_goal(x, rel, bound)), Rc::new(unify_goal(x, n))),
            Value::Var(LVar { id: x }),
        ) == assert_answers(n, rel, bound),
{
    lemma_unify_first(x, n, rel, bound);
    lemma_assert_waits(x, rel, bound);
    lemma_binding_wakes(x, n, rel, bound);
    if holds(rel, n, bound) {
        lemma_single_answer(bound_state(x, n), x, n);
        lemma_single_answer(woken_state(x, n), x, n);
    }
}

} // verus!
