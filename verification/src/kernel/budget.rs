//! A larger budget keeps what a smaller one reached, for goals without
//! negation. Negation as failure is the exception: a budget too small to
//! find a state of the negated goal makes the negation succeed, and a larger
//! one makes it fail. The laws on `both` are stated for any goal whose result
//! has settled, negation included.
use crate::goals::not::{Not, NotConstraint};
use crate::goals::Goal;
use crate::kernel::constraints::Constraint;
use crate::kernel::fork::Fork;
use crate::kernel::mkmvmap::{data_of, watched, watchers, without_ids, StoreModel};
use crate::kernel::order::{lemma_sorted_of_finite, sorted_of};
use crate::kernel::semantics::{
    apply, apply_all, attempt, attempt_plain, bind, constrain, fire, resolve_entries,
    resolve_in, run, unify, unify_entries, unify_maps, unify_seqs, unify_terms,
    into_states, not_constraint, states_of, unresolved_ids, window_goals, Action, Attempt, StateModel, BUDGET,
};
use crate::kernel::lvarlist::LVarList;
use crate::collections::lmap::{entries_get, entries_insert, LMap};
use crate::list::{list_from_seq, list_seq, unrc, List};
use crate::value::{Term, Value, VarId};
use std::rc::Rc;
use vstd::prelude::*;

verus! {

/// The goal holds no negation.
pub open spec fn goal_neg_free(g: Goal) -> bool
    decreases g,
{
    match g {
        Goal::Not(_) => false,
        Goal::Both(a, b) => goal_neg_free(*a) && goal_neg_free(*b),
        Goal::Either(a, b) => goal_neg_free(*a) && goal_neg_free(*b),
        Goal::All(gs) => list_neg_free(*gs),
        Goal::Any(gs) => list_neg_free(*gs),
        Goal::Constraint(c) => !(*c is Not),
        _ => true,
    }
}

/// No goal of the list holds a negation.
pub open spec fn list_neg_free(l: List<Goal>) -> bool
    decreases l,
{
    match l {
        List::Nil => true,
        List::Cons(h, t) => goal_neg_free(h) && list_neg_free(*t),
    }
}

/// The state's store is finite and holds no negation.
pub open spec fn store_neg_free(s: StateModel) -> bool {
    &&& s.store.entries.dom().finite()
    &&& forall|id: usize| #[trigger]
        s.store.entries.contains_key(id) ==> !(unrc(s.store.entries[id].data) is Not)
}

/// The action holds no negation.
pub open spec fn action_neg_free(a: Action) -> bool {
    match a {
        Action::Apply(g) => goal_neg_free(g),
        _ => true,
    }
}

/// Where the first budget reached a state, the second reaches the same one,
/// and its store holds no negation.
pub open spec fn kept(o1: Option<StateModel>, o2: Option<StateModel>) -> bool {
    o1 is Some ==> o2 == o1 && store_neg_free(o1->0)
}

proof fn lemma_list_neg_free(l: List<Goal>)
    requires
        list_neg_free(l),
    ensures
        forall|i: int| 0 <= i < list_seq(l).len() ==> #[trigger] goal_neg_free(list_seq(l)[i]),
    decreases l,
{
    if let List::Cons(h, t) = l {
        lemma_list_neg_free(unrc(t));
        crate::list::lemma_list_node(l);
        assert forall|i: int| 0 <= i < list_seq(l).len() implies #[trigger] goal_neg_free(
            list_seq(l)[i],
        ) by {
            if i > 0 {
                assert(list_seq(l)[i] == list_seq(*t)[i - 1]);
            }
        }
    }
}

proof fn lemma_from_seq_neg_free(s: Seq<Goal>)
    requires
        forall|i: int| 0 <= i < s.len() ==> #[trigger] goal_neg_free(s[i]),
    ensures
        list_neg_free(list_from_seq(s)),
    decreases s.len(),
{
    if s.len() > 0 {
        assert forall|i: int| 0 <= i < s.drop_first().len() implies #[trigger] goal_neg_free(
            s.drop_first()[i],
        ) by {
            assert(s.drop_first()[i] == s[i + 1]);
        }
        lemma_from_seq_neg_free(s.drop_first());
        assert(goal_neg_free(s[0]));
        assert(list_from_seq(s) == List::Cons(s[0], Rc::new(list_from_seq(s.drop_first()))));
    } else {
        assert(list_from_seq(s) == List::<Goal>::Nil);
    }
}

proof fn lemma_attempt_plain_neg_free(s: StateModel, c: Constraint)
    ensures
        attempt_plain(s, c) matches Attempt::Run(a) ==> action_neg_free(a),
{
    if let Constraint::Subset(p) = c {
        if let Ok((ts, tc)) = crate::kernel::semantics::resolve_2_spec(s, p.subset, p.collection) {
            if let (Term::LVec(sv), Term::LVec(cv)) = (unrc(ts), unrc(tc)) {
                if cv@.len() >= sv@.len() {
                    lemma_from_seq_neg_free(window_goals(sv@, cv@));
                }
            }
        }
    }
}

proof fn lemma_unify_kept(f1: nat, f2: nat, s: StateModel, a: Value, b: Value)
    requires
        f1 <= f2,
        store_neg_free(s),
    ensures
        kept(unify(f1, s, a, b), unify(f2, s, a, b)),
    decreases f1,
{
    if f1 > 0 {
        let (g1, g2) = ((f1 - 1) as nat, (f2 - 1) as nat);
        let ra = resolve_in(s, a);
        let rb = resolve_in(s, b);
        match ra {
            Value::Resolved(ta) => match rb {
                Value::Resolved(tb) => lemma_unify_terms_kept(g1, g2, s, unrc(ta), unrc(tb)),
                Value::Var(y) => lemma_bind_kept(g1, g2, s, y.id, ra),
            },
            Value::Var(x) => match rb {
                Value::Var(y) => if x.id != y.id {
                    lemma_bind_kept(g1, g2, s, x.id, rb);
                },
                Value::Resolved(_) => lemma_bind_kept(g1, g2, s, x.id, rb),
            },
        }
    }
}

proof fn lemma_unify_terms_kept(f1: nat, f2: nat, s: StateModel, ta: Term, tb: Term)
    requires
        f1 <= f2,
        store_neg_free(s),
    ensures
        kept(unify_terms(f1, s, ta, tb), unify_terms(f2, s, ta, tb)),
    decreases f1,
{
    if f1 > 0 {
        let (g1, g2) = ((f1 - 1) as nat, (f2 - 1) as nat);
        match (ta, tb) {
            (Term::LVec(va), Term::LVec(vb)) => if va@.len() == vb@.len() {
                lemma_unify_seqs_kept(g1, g2, s, va@, vb@);
            },
            (Term::LMap(ma), Term::LMap(mb)) => lemma_unify_maps_kept(g1, g2, s, ma, mb),
            _ => {},
        }
    }
}

proof fn lemma_unify_seqs_kept(f1: nat, f2: nat, s: StateModel, xs: Seq<Value>, ys: Seq<Value>)
    requires
        f1 <= f2,
        store_neg_free(s),
    ensures
        kept(unify_seqs(f1, s, xs, ys), unify_seqs(f2, s, xs, ys)),
    decreases f1,
{
    if f1 > 0 && xs.len() > 0 && ys.len() > 0 {
        let (g1, g2) = ((f1 - 1) as nat, (f2 - 1) as nat);
        lemma_unify_kept(g1, g2, s, xs[0], ys[0]);
        if let Some(s2) = unify(g1, s, xs[0], ys[0]) {
            lemma_unify_seqs_kept(g1, g2, s2, xs.drop_first(), ys.drop_first());
        }
    }
}

proof fn lemma_unify_maps_kept(f1: nat, f2: nat, s: StateModel, ma: LMap, mb: LMap)
    requires
        f1 <= f2,
        store_neg_free(s),
    ensures
        kept(unify_maps(f1, s, ma, mb), unify_maps(f2, s, ma, mb)),
    decreases f1,
{
    if f1 > 0 {
        let (g1, g2) = ((f1 - 1) as nat, (f2 - 1) as nat);
        lemma_resolve_entries_kept(g1, g2, s, ma@, Seq::empty());
        if let Some((s1, ra)) = resolve_entries(g1, s, ma@, Seq::empty()) {
            lemma_resolve_entries_kept(g1, g2, s1, mb@, Seq::empty());
            if let Some((s2, rb)) = resolve_entries(g1, s1, mb@, Seq::empty()) {
                lemma_unify_entries_kept(g1, g2, s2, ra, LMap::from_seq_spec(rb));
                if let Some(s3) = unify_entries(g1, s2, ra, LMap::from_seq_spec(rb)) {
                    lemma_unify_entries_kept(g1, g2, s3, rb, LMap::from_seq_spec(ra));
                }
            }
        }
    }
}

proof fn lemma_resolve_entries_kept(
    f1: nat,
    f2: nat,
    s: StateModel,
    es: Seq<(Value, Value)>,
    acc: Seq<(Value, Value)>,
)
    requires
        f1 <= f2,
        store_neg_free(s),
    ensures
        resolve_entries(f1, s, es, acc) matches Some((s2, r)) ==> resolve_entries(f2, s, es, acc)
            == Some((s2, r)) && store_neg_free(s2),
    decreases f1,
{
    if f1 > 0 && es.len() > 0 {
        let (g1, g2) = ((f1 - 1) as nat, (f2 - 1) as nat);
        let rk = resolve_in(s, es[0].0);
        let rv = resolve_in(s, es[0].1);
        let acc2 = entries_insert(acc, rk, rv);
        match entries_get(acc, rk) {
            Some(ev) => {
                lemma_unify_kept(g1, g2, s, es[0].1, ev);
                if let Some(s2) = unify(g1, s, es[0].1, ev) {
                    lemma_resolve_entries_kept(g1, g2, s2, es.drop_first(), acc2);
                }
            },
            None => lemma_resolve_entries_kept(g1, g2, s, es.drop_first(), acc2),
        }
    }
}

proof fn lemma_unify_entries_kept(
    f1: nat,
    f2: nat,
    s: StateModel,
    es: Seq<(Value, Value)>,
    b: LMap,
)
    requires
        f1 <= f2,
        store_neg_free(s),
    ensures
        kept(unify_entries(f1, s, es, b), unify_entries(f2, s, es, b)),
    decreases f1,
{
    if f1 > 0 && es.len() > 0 {
        let (g1, g2) = ((f1 - 1) as nat, (f2 - 1) as nat);
        match entries_get(b@, es[0].0) {
            Some(bv) => {
                lemma_unify_kept(g1, g2, s, es[0].1, bv);
                if let Some(s2) = unify(g1, s, es[0].1, bv) {
                    lemma_unify_entries_kept(g1, g2, s2, es.drop_first(), b);
                }
            },
            None => {
                let s2 = crate::kernel::semantics::push_fork(
                    s,
                    Fork::LMapEntry(
                        crate::collections::lmap::LMapFork {
                            a_key: es[0].0,
                            a_value: es[0].1,
                            b_map: b,
                        },
                    ),
                );
                lemma_unify_entries_kept(g1, g2, s2, es.drop_first(), b);
            },
        }
    }
}

proof fn lemma_bind_kept(f1: nat, f2: nat, s: StateModel, k: VarId, v: Value)
    requires
        f1 <= f2,
        store_neg_free(s),
    ensures
        kept(bind(f1, s, k, v), bind(f2, s, k, v)),
    decreases f1,
{
    if f1 > 0 {
        let (g1, g2) = ((f1 - 1) as nat, (f2 - 1) as nat);
        let s1 = StateModel { values: s.values.insert(k, v), ..s };
        if watched(s.store.entries).contains(k) {
            let ids = watchers(s.store.entries, k);
            let q = sorted_of(ids);
            let cs = data_of(s.store.entries, q);
            let s2 = StateModel {
                store: StoreModel { next: s.store.next, entries: without_ids(s.store.entries, ids) },
                ..s1
            };
            assert(ids =~= s.store.entries.dom().intersect(ids));
            lemma_sorted_of_finite(ids);
            assert(s2.store.entries.dom() =~= s.store.entries.dom().difference(ids));
            assert forall|i: int| 0 <= i < cs.len() implies !(#[trigger] unrc(cs[i]) is Not) by {
                assert(q.to_set().contains(q[i]));
            }
            lemma_fire_kept(g1, g2, s2, cs);
        }
    }
}

proof fn lemma_fire_kept(f1: nat, f2: nat, s: StateModel, cs: Seq<Rc<Constraint>>)
    requires
        f1 <= f2,
        store_neg_free(s),
        forall|i: int| 0 <= i < cs.len() ==> !(#[trigger] unrc(cs[i]) is Not),
    ensures
        kept(fire(f1, s, cs), fire(f2, s, cs)),
    decreases f1,
{
    if f1 > 0 && cs.len() > 0 {
        let (g1, g2) = ((f1 - 1) as nat, (f2 - 1) as nat);
        lemma_constrain_kept(g1, g2, s, cs[0]);
        if let Some(s2) = constrain(g1, s, cs[0]) {
            assert forall|i: int| 0 <= i < cs.drop_first().len() implies !(#[trigger] unrc(
                cs.drop_first()[i],
            ) is Not) by {
                assert(cs.drop_first()[i] == cs[i + 1]);
            }
            lemma_fire_kept(g1, g2, s2, cs.drop_first());
        }
    }
}

proof fn lemma_constrain_kept(f1: nat, f2: nat, s: StateModel, c: Rc<Constraint>)
    requires
        f1 <= f2,
        store_neg_free(s),
        !(unrc(c) is Not),
    ensures
        kept(constrain(f1, s, c), constrain(f2, s, c)),
    decreases f1,
{
    if f1 > 0 {
        let (g1, g2) = ((f1 - 1) as nat, (f2 - 1) as nat);
        assert(attempt(g1, s, unrc(c)) == attempt_plain(s, unrc(c)));
        assert(attempt(g2, s, unrc(c)) == attempt_plain(s, unrc(c)));
        lemma_attempt_plain_neg_free(s, unrc(c));
        match attempt_plain(s, unrc(c)) {
            Attempt::Run(a) => lemma_run_kept(g1, g2, s, a),
            Attempt::Wait(keys) => {
                let st2 = crate::kernel::semantics::store_add(s.store, keys, c);
                assert(st2.entries.dom() =~= s.store.entries.dom().insert(s.store.next));
            },
        }
    }
}

proof fn lemma_run_kept(f1: nat, f2: nat, s: StateModel, a: Action)
    requires
        f1 <= f2,
        store_neg_free(s),
        action_neg_free(a),
    ensures
        kept(run(f1, s, a), run(f2, s, a)),
    decreases f1,
{
    if f1 > 0 {
        let (g1, g2) = ((f1 - 1) as nat, (f2 - 1) as nat);
        match a {
            Action::Unify(x, y) => lemma_unify_kept(g1, g2, s, x, y),
            Action::Apply(g) => lemma_apply_kept(g1, g2, g, s),
            Action::Entries(ma, mb) => lemma_unify_entries_kept(g1, g2, s, ma@, mb),
            _ => {},
        }
    }
}

proof fn lemma_apply_kept(f1: nat, f2: nat, g: Goal, s: StateModel)
    requires
        f1 <= f2,
        store_neg_free(s),
        goal_neg_free(g),
    ensures
        kept(apply(f1, g, s), apply(f2, g, s)),
    decreases f1,
{
    if f1 > 0 {
        let (g1, g2) = ((f1 - 1) as nat, (f2 - 1) as nat);
        match g {
            Goal::Unify(a, b) => lemma_unify_kept(g1, g2, s, a, b),
            Goal::Both(a, b) => {
                lemma_apply_kept(g1, g2, unrc(a), s);
                if let Some(s2) = apply(g1, unrc(a), s) {
                    lemma_apply_kept(g1, g2, unrc(b), s2);
                }
            },
            Goal::All(gs) => {
                lemma_list_neg_free(unrc(gs));
                lemma_apply_all_kept(g1, g2, list_seq(unrc(gs)), s);
            },
            Goal::Constraint(c) => lemma_constrain_kept(g1, g2, s, c),
            _ => {},
        }
    }
}

proof fn lemma_apply_all_kept(f1: nat, f2: nat, gs: Seq<Goal>, s: StateModel)
    requires
        f1 <= f2,
        store_neg_free(s),
        forall|i: int| 0 <= i < gs.len() ==> #[trigger] goal_neg_free(gs[i]),
    ensures
        kept(apply_all(f1, gs, s), apply_all(f2, gs, s)),
    decreases f1,
{
    if f1 > 0 && gs.len() > 0 {
        let (g1, g2) = ((f1 - 1) as nat, (f2 - 1) as nat);
        lemma_apply_kept(g1, g2, gs[0], s);
        if let Some(s2) = apply(g1, gs[0], s) {
            assert forall|i: int| 0 <= i < gs.drop_first().len() implies #[trigger] goal_neg_free(
                gs.drop_first()[i],
            ) by {
                assert(gs.drop_first()[i] == gs[i + 1]);
            }
            lemma_apply_all_kept(g1, g2, gs.drop_first(), s2);
        }
    }
}

/// For a goal without negation, on a state whose waiting constraints hold
/// no negation: a state reached within a budget is the state reached
/// within any larger budget.
pub proof fn law_budget_monotone(f1: nat, f2: nat, g: Goal, s: StateModel)
    requires
        f1 <= f2,
        goal_neg_free(g),
        store_neg_free(s),
    ensures
        apply(f1, g, s) is Some ==> apply(f2, g, s) == apply(f1, g, s),
{
    lemma_apply_kept(f1, f2, g, s);
}

/// The same for unification.
pub proof fn law_unify_budget_monotone(f1: nat, f2: nat, s: StateModel, a: Value, b: Value)
    requires
        f1 <= f2,
        store_neg_free(s),
    ensures
        unify(f1, s, a, b) is Some ==> unify(f2, s, a, b) == unify(f1, s, a, b),
{
    lemma_unify_kept(f1, f2, s, a, b);
}

/// At the kernel's own budget, `both(a, b)` is `a` then `b`: when it
/// reaches a state, `a` alone reaches a state from which `b` alone reaches
/// that same state.
pub proof fn law_both_at_budget(a: Goal, b: Goal, s: StateModel)
    requires
        goal_neg_free(a),
        goal_neg_free(b),
        store_neg_free(s),
    ensures
        apply(BUDGET as nat, Goal::Both(Rc::new(a), Rc::new(b)), s) matches Some(s3) ==> (
        apply(BUDGET as nat, a, s) matches Some(s2) && apply(BUDGET as nat, b, s2) == Some(s3)),
{
    let f = (BUDGET - 1) as nat;
    lemma_apply_kept(f, BUDGET as nat, a, s);
    if let Some(s2) = apply(f, a, s) {
        lemma_apply_kept(f, BUDGET as nat, b, s2);
    }
}

/// The result of applying `g` to `s` no longer changes once the budget is
/// at least `f`.
pub open spec fn settled(f: nat, g: Goal, s: StateModel) -> bool {
    forall|f2: nat| f <= f2 ==> #[trigger] apply(f2, g, s) == apply(f, g, s)
}

/// For a goal without negation, on a state whose waiting constraints hold
/// no negation, a result that is a state has settled.
pub proof fn law_neg_free_settles(f: nat, g: Goal, s: StateModel)
    requires
        goal_neg_free(g),
        store_neg_free(s),
        apply(f, g, s) is Some,
    ensures
        settled(f, g, s),
{
    assert forall|f2: nat| f <= f2 implies #[trigger] apply(f2, g, s) == apply(f, g, s) by {
        lemma_apply_kept(f, f2, g, s);
    }
}

/// `both(a, b)` runs `a`, then `b` on the state `a` reached, each with one
/// unit less of the budget, for any goals. Where the result of `a` on `s`,
/// and that of `b` on the state `a` reaches, have settled at that smaller
/// budget, `both(a, b)` at the kernel's budget is exactly `a` at that budget
/// followed by `b` at that budget; negation included.
pub proof fn law_both_is_sequence(a: Goal, b: Goal, s: StateModel)
    ensures
        apply(BUDGET as nat, Goal::Both(Rc::new(a), Rc::new(b)), s) == match apply(
            (BUDGET - 1) as nat,
            a,
            s,
        ) {
            Some(s2) => apply((BUDGET - 1) as nat, b, s2),
            None => None,
        },
        settled((BUDGET - 1) as nat, a, s) && (apply((BUDGET - 1) as nat, a, s) matches Some(s2)
            ==> settled((BUDGET - 1) as nat, b, s2)) ==> apply(
            BUDGET as nat,
            Goal::Both(Rc::new(a), Rc::new(b)),
            s,
        ) == match apply(BUDGET as nat, a, s) {
            Some(s2) => apply(BUDGET as nat, b, s2),
            None => None,
        },
{
    let f = (BUDGET - 1) as nat;
    if settled(f, a, s) {
        assert(apply(BUDGET as nat, a, s) == apply(f, a, s));
        if let Some(s2) = apply(f, a, s) {
            if settled(f, b, s2) {
                assert(apply(BUDGET as nat, b, s2) == apply(f, b, s2));
            }
        }
    }
}

/// Negation is where a larger budget can change a state into a failure.
/// With a budget of 3, the negation of any goal finds no state of it and
/// leaves the state unchanged; with a budget of 5, the negation of
/// `succeed` over no variables, on a state with no pending fork, finds the
/// state and fails.
pub proof fn law_negation_not_monotone(nc: NotConstraint, s: StateModel)
    ensures
        apply(3, Goal::Not(Not::Maybe(Rc::new(nc))), s) == Some(s),
        s.forks.len() == 0 && *nc.goal == Goal::Succeed && nc.vars@.len() == 0 ==> apply(
            5,
            Goal::Not(Not::Maybe(Rc::new(nc))),
            s,
        ) is None,
{
    let g = Goal::Not(Not::Maybe(Rc::new(nc)));
    let c = not_constraint(s, nc);
    let ids = unresolved_ids(s.values, nc.vars@);
    LVarList::lemma_from_seq(ids);
    assert(states_of(0, apply(0, unrc(nc.goal), s)).len() == 0);
    assert(attempt(1, s, unrc(c)) == Attempt::Run(Action::Keep));
    assert(run(1, s, Action::Keep) == Some(s));
    assert(constrain(2, s, c) == Some(s));
    assert(apply(3, g, s) == Some(s));
    if s.forks.len() == 0 && unrc(nc.goal) == Goal::Succeed && nc.vars@.len() == 0 {
        assert(ids.len() == 0);
        LVarList::lemma_from_seq(unresolved_ids(s.values, ids));
        assert(unresolved_ids(s.values, ids).len() == 0);
        assert(apply(2, Goal::Succeed, s) == Some(s));
        assert(into_states(2, s) == seq![s]);
        assert(states_of(2, apply(2, unrc(nc.goal), s)).len() == 1);
        assert(attempt(3, s, unrc(c)) == Attempt::Run(Action::Fail));
        assert(run(3, s, Action::Fail) is None);
        assert(constrain(4, s, c) is None);
    }
}

} // verus!
