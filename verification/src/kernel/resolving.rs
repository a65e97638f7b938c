//! Resolving the values a constraint depends on, and deciding what a
//! constraint that needs no search asks for.
use crate::collections::lvec::LVec;
use crate::goals::project::{apply_op1, apply_op2, compare_ints, Op1, Op2};
use crate::goals::Goal;
use crate::kernel::constraints::Constraint;
use crate::kernel::lvarlist::LVarList;
use crate::kernel::semantics::{
    attempt_plain, derive_1, derive_2, one_of_two_spec, resolve_1_spec, resolve_2_spec,
    test_action, two_of_three_spec, unresolved_ids, window_goals, without_resolved,
    Action, Attempt, OneOfTwo, StateModel, TwoOfThree,
};
use crate::kernel::state::State;
use crate::list::{list_from_seq, lemma_list_from_seq, share, List};
use crate::value::{Term, Value, VarId};
use std::rc::Rc;
use vstd::prelude::*;

verus! {

/// Resolve a value to a term, or name the variable it waits for.
pub fn resolve_1(v: &Value, state: &State) -> (res: Result<Rc<Term>, LVarList>)
    ensures
        res == resolve_1_spec(state.model(), *v),
{
    match state.resolve(v) {
        Value::Resolved(t) => Ok(t),
        Value::Var(x) => Err(LVarList::one(&x)),
    }
}

/// Resolve two values to terms, or name the first variable among them.
pub fn resolve_2(a: &Value, b: &Value, state: &State) -> (res: Result<
    (Rc<Term>, Rc<Term>),
    LVarList,
>)
    ensures
        res == resolve_2_spec(state.model(), *a, *b),
{
    let ra = state.resolve(a);
    let rb = state.resolve(b);
    match ra {
        Value::Resolved(ta) => match rb {
            Value::Resolved(tb) => Ok((ta, tb)),
            Value::Var(y) => Err(LVarList::one(&y)),
        },
        Value::Var(x) => Err(LVarList::one(&x)),
    }
}

impl OneOfTwo {
    /// Resolve two values: the first resolved one with the other as it
    /// resolved, or both variables if neither is resolved.
    pub fn resolve(a: &Value, b: &Value, state: &State) -> (res: Result<OneOfTwo, LVarList>)
        ensures
            res == one_of_two_spec(state.model(), *a, *b),
    {
        let ra = state.resolve(a);
        let rb = state.resolve(b);
        match ra {
            Value::Resolved(ta) => Ok(OneOfTwo::A(ta, rb)),
            Value::Var(x) => match rb {
                Value::Resolved(tb) => Ok(OneOfTwo::B(Value::Var(x), tb)),
                Value::Var(y) => Err(LVarList::two(&x, &y)),
            },
        }
    }
}

impl TwoOfThree {
    /// Resolve three values: two resolved ones with the third as it resolved,
    /// or two of the variables if fewer than two are resolved.
    pub fn resolve(a: &Value, b: &Value, c: &Value, state: &State) -> (res: Result<
        TwoOfThree,
        LVarList,
    >)
        ensures
            res == two_of_three_spec(state.model(), *a, *b, *c),
    {
        let ra = state.resolve(a);
        let rb = state.resolve(b);
        let rc = state.resolve(c);
        match (ra, rb, rc) {
            (Value::Resolved(ta), Value::Resolved(tb), rc) => Ok(TwoOfThree::AB(ta, tb, rc)),
            (ra, Value::Resolved(tb), Value::Resolved(tc)) => Ok(TwoOfThree::BC(ra, tb, tc)),
            (Value::Resolved(ta), rb, Value::Resolved(tc)) => Ok(TwoOfThree::AC(ta, rb, tc)),
            (Value::Var(x), Value::Var(y), _) => Err(LVarList::two(&x, &y)),
            (Value::Var(x), _, Value::Var(z)) => Err(LVarList::two(&x, &z)),
            (_, Value::Var(y), Value::Var(z)) => Err(LVarList::two(&y, &z)),
        }
    }
}

impl LVarList {
    /// The variables of the list that are not resolved in `state`, in order.
    pub fn without_resolved_in(&self, state: &State) -> (res: LVarList)
        ensures
            res == without_resolved(state.model(), *self),
    {
        let ids = self.to_vec();
        let mut out: Vec<VarId> = Vec::new();
        let mut i: usize = 0;
        while i < ids.len()
            invariant
                0 <= i <= ids@.len(),
                out@ == unresolved_ids(state.model().values, ids@.take(i as int)),
            decreases ids.len() - i,
        {
            let id = ids[i];
            let r = state.resolve(&Value::Var(crate::value::LVar { id }));
            proof {
                assert(ids@.take(i + 1).drop_last() =~= ids@.take(i as int));
            }
            if r.is_var() {
                out.push(id);
            }
            i = i + 1;
        }
        proof {
            assert(ids@.take(ids@.len() as int) =~= ids@);
        }
        LVarList::from_vec(out)
    }
}

/// Keeping the unresolved ids of a list that holds only unresolved ids
/// keeps all of them.
proof fn lemma_unresolved_ids_idempotent(m: Map<VarId, Value>, ids: Seq<VarId>)
    ensures
        unresolved_ids(m, unresolved_ids(m, ids)) == unresolved_ids(m, ids),
    decreases ids.len(),
{
    if ids.len() > 0 {
        let r = unresolved_ids(m, ids.drop_last());
        lemma_unresolved_ids_idempotent(m, ids.drop_last());
        if unresolved_ids(m, ids) != r {
            assert(unresolved_ids(m, ids) == r.push(ids.last()));
            assert(r.push(ids.last()).drop_last() =~= r);
        }
    }
}

/// Leaving out the resolved variables a second time changes nothing.
pub proof fn law_without_resolved_idempotent(s: StateModel, vars: LVarList)
    ensures
        without_resolved(s, without_resolved(s, vars)) == without_resolved(s, vars),
{
    let ids = unresolved_ids(s.values, vars@);
    LVarList::lemma_from_seq(ids);
    lemma_unresolved_ids_idempotent(s.values, vars@);
}

fn test_exec(b: bool) -> (res: Action)
    ensures
        res == test_action(b),
{
    if b {
        Action::Keep
    } else {
        Action::Fail
    }
}

fn derive_1_exec(t: &Term, op: Op1, target: Value) -> (res: Action)
    ensures
        res == derive_1(*t, op, target),
{
    match t {
        Term::Int(n) => match apply_op1(op, *n) {
            Some(r) => Action::Unify(Value::of_int(r), target),
            None => Action::Fail,
        },
        _ => Action::Fail,
    }
}

fn derive_2_exec(tx: &Term, ty: &Term, op: Op2, target: Value) -> (res: Action)
    ensures
        res == derive_2(*tx, *ty, op, target),
{
    match (tx, ty) {
        (Term::Int(x), Term::Int(y)) => match apply_op2(op, *x, *y) {
            Some(r) => Action::Unify(Value::of_int(r), target),
            None => Action::Fail,
        },
        _ => Action::Fail,
    }
}

/// The goal that unifies `sub` with some run of consecutive items of `col`.
fn window_any(sub: &LVec, col: &LVec) -> (res: Goal)
    requires
        sub@.len() <= col@.len(),
    ensures
        res == Goal::Any(Rc::new(list_from_seq(window_goals(sub@, col@)))),
{
    let n = sub.len();
    let last = col.len() - n;
    let ghost count = last + 1;
    let ghost goals = window_goals(sub@, col@);
    let mut l: List<Goal> = List::Nil;
    let mut i = last;
    proof {
        assert(goals.subrange(count as int, count as int) =~= Seq::<Goal>::empty());
    }
    loop
        invariant_except_break
            l == list_from_seq(goals.subrange(i + 1, count as int)),
        invariant
            0 <= i <= last,
            sub@.len() <= col@.len(),
            goals == window_goals(sub@, col@),
            count == goals.len(),
            n == sub@.len(),
            last == col@.len() - n,
            col@.len() <= usize::MAX,
        ensures
            l == list_from_seq(goals),
        decreases i,
    {
        let window = col.slice(i, i + n);
        let w = match window {
            Some(w) => w,
            None => {
                proof {
                    assert(false);
                }
                LVec::new()
            },
        };
        let sub_copy = sub.clone();
        let g = Goal::Unify(
            Value::Resolved(Rc::new(Term::LVec(sub_copy))),
            Value::Resolved(Rc::new(Term::LVec(w))),
        );
        proof {
            assert(g == goals[i as int]);
            let rest = goals.subrange(i + 1, count as int);
            assert(goals.subrange(i as int, count as int) =~= seq![g] + rest);
            assert((seq![g] + rest).drop_first() =~= rest);
            lemma_list_from_seq(seq![g] + rest);
            lemma_list_from_seq(rest);
        }
        l = List::Cons(g, Rc::new(l));
        if i == 0 {
            proof {
                assert(goals.subrange(0, count as int) =~= goals);
            }
            break;
        }
        i = i - 1;
    }
    Goal::Any(Rc::new(l))
}

/// What a constraint that needs no search asks for in `state`.
pub fn attempt_plain_exec(state: &State, c: &Constraint) -> (res: Attempt)
    requires
        !(c is Not),
    ensures
        res == attempt_plain(state.model(), *c),
{
    match c {
        Constraint::Assert1(p) => match resolve_1(&p.a, state) {
            Ok(t) => Attempt::Run(
                match &*t {
                    Term::Int(n) => test_exec(compare_ints(p.rel, *n, p.bound)),
                    _ => Action::Fail,
                },
            ),
            Err(w) => Attempt::Wait(w),
        },
        Constraint::Assert2(p) => match resolve_2(&p.a, &p.b, state) {
            Ok((ta, tb)) => Attempt::Run(
                match (&*ta, &*tb) {
                    (Term::Int(x), Term::Int(y)) => test_exec(compare_ints(p.rel, *x, *y)),
                    _ => Action::Fail,
                },
            ),
            Err(w) => Attempt::Wait(w),
        },
        Constraint::Map1(p) => match OneOfTwo::resolve(&p.a, &p.b, state) {
            Ok(OneOfTwo::A(ta, rb)) => Attempt::Run(derive_1_exec(&*ta, p.a_to_b, rb)),
            Ok(OneOfTwo::B(ra, tb)) => Attempt::Run(derive_1_exec(&*tb, p.b_to_a, ra)),
            Err(w) => Attempt::Wait(w),
        },
        Constraint::Map2(p) => match TwoOfThree::resolve(&p.a, &p.b, &p.c, state) {
            Ok(TwoOfThree::AB(ta, tb, rc)) => Attempt::Run(derive_2_exec(&*ta, &*tb, p.ab_to_c, rc)),
            Ok(TwoOfThree::BC(ra, tb, tc)) => Attempt::Run(derive_2_exec(&*tb, &*tc, p.bc_to_a, ra)),
            Ok(TwoOfThree::AC(ta, rb, tc)) => Attempt::Run(derive_2_exec(&*ta, &*tc, p.ac_to_b, rb)),
            Err(w) => Attempt::Wait(w),
        },
        Constraint::Get(p) => match resolve_2(&p.index, &p.collection, state) {
            Ok((ti, tc)) => Attempt::Run(
                match (&*ti, &*tc) {
                    (Term::Int(i), Term::LVec(v)) => if *i >= 0 && (*i as u64) < (v.len() as u64) {
                        match v.get(*i as usize) {
                            Some(found) => Action::Unify(p.item.share(), found),
                            None => Action::Fail,
                        }
                    } else {
                        Action::Fail
                    },
                    _ => Action::Fail,
                },
            ),
            Err(w) => Attempt::Wait(w),
        },
        Constraint::Slice(p) => match resolve_2(&p.range, &p.collection, state) {
            Ok((tr, tc)) => Attempt::Run(
                match (&*tr, &*tc) {
                    (Term::Range(lo, hi), Term::LVec(v)) => match v.slice(*lo, *hi) {
                        Some(w) => {
                            proof {
                                LVec::lemma_from_seq(v@.subrange(*lo as int, *hi as int));
                            }
                            Action::Apply(
                                Goal::Unify(p.slice.share(), Value::Resolved(Rc::new(Term::LVec(w)))),
                            )
                        },
                        None => Action::Fail,
                    },
                    _ => Action::Fail,
                },
            ),
            Err(w) => Attempt::Wait(w),
        },
        Constraint::Subset(p) => match resolve_2(&p.subset, &p.collection, state) {
            Ok((ts, tc)) => Attempt::Run(
                match (&*ts, &*tc) {
                    (Term::LVec(sv), Term::LVec(cv)) => if cv.len() < sv.len() {
                        Action::Fail
                    } else {
                        Action::Apply(window_any(sv, cv))
                    },
                    _ => Action::Fail,
                },
            ),
            Err(w) => Attempt::Wait(w),
        },
        Constraint::MapSubset(p) => match resolve_2(&p.a, &p.b, state) {
            Ok((ta, tb)) => Attempt::Run(
                match (&*ta, &*tb) {
                    (Term::LMap(ma), Term::LMap(mb)) => Action::Entries(ma.share(), mb.share()),
                    _ => Action::Fail,
                },
            ),
            Err(w) => Attempt::Wait(w),
        },
        Constraint::Not(_) => Attempt::Run(Action::Fail),
    }
}

} // verus!
