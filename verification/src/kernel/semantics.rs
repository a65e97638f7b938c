//! The meaning of states and goals: what unifying, binding, constraining,
//! applying a goal and enumerating the states of a state give, as functions
//! on abstract states.
//!
//! Every function takes a budget `f`: each step spends one unit of the
//! budget it was given, and a computation that runs out of budget fails. The
//! budget bounds the length of one chain of nested steps, which is what makes
//! every function here total even though constraints may wake each other up
//! without end. The executable kernel runs with a budget of `u64::MAX` steps
//! per chain, far beyond what a run can reach.
use crate::collections::lmap::{entries_get, entries_insert, LMap, LMapFork};
use crate::collections::lvec::LVec;
use crate::goals::not::{Not, NotConstraint};
use crate::goals::project::{holds, op1_spec, op2_spec, Op1, Op2};
use crate::goals::Goal;
use crate::kernel::bindings::resolve_spec;
use crate::kernel::constraints::Constraint;
use crate::kernel::fork::Fork;
use crate::kernel::lvarlist::LVarList;
use crate::kernel::mkmvmap::{data_of, watched, watchers, without_ids, Entry, StoreModel};
use crate::kernel::order::sorted_of;
use crate::list::list_seq;
use crate::value::{LVar, Term, Value, VarId};
use std::rc::Rc;
use vstd::prelude::*;

verus! {

/// The budget the executable kernel runs with.
pub const BUDGET: u64 = 0xffff_ffff_ffff_ffffu64;

/// The abstract content of a state: its bindings, its pending forks (front
/// first) and its store of waiting constraints.
pub struct StateModel {
    pub values: Map<VarId, Value>,
    pub forks: Seq<Fork>,
    pub store: StoreModel,
}

/// What a constraint asks for once it can be decided.
#[derive(Debug, Clone)]
pub enum Action {
    /// Keep the state as it is.
    Keep,
    /// Fail the state.
    Fail,
    /// Unify two values.
    Unify(Value, Value),
    /// Apply a goal.
    Apply(Goal),
    /// Unify every entry of the first map with the second map.
    Entries(LMap, LMap),
}

/// The outcome of attempting a constraint: an action to run now, or the
/// variables to wait for.
#[derive(Debug, Clone)]
pub enum Attempt {
    Run(Action),
    Wait(LVarList),
}

/// One of two values resolved: the resolved one as a term, the other as it
/// resolved.
#[derive(Debug, Clone)]
pub enum OneOfTwo {
    A(Rc<Term>, Value),
    B(Value, Rc<Term>),
}

/// Two of three values resolved.
#[derive(Debug, Clone)]
pub enum TwoOfThree {
    AB(Rc<Term>, Rc<Term>, Value),
    BC(Value, Rc<Term>, Rc<Term>),
    AC(Rc<Term>, Value, Rc<Term>),
}

/// The value `v` resolves to in `s`.
pub open spec fn resolve_in(s: StateModel, v: Value) -> Value {
    resolve_spec(s.values, v)
}

/// The state with one more fork at the back of its queue.
pub open spec fn push_fork(s: StateModel, fork: Fork) -> StateModel {
    StateModel { forks: s.forks.push(fork), ..s }
}

/// The sequence holding the state, if there is one.
pub open spec fn opt_seq(o: Option<StateModel>) -> Seq<StateModel> {
    match o {
        Some(s) => seq![s],
        None => Seq::empty(),
    }
}

/// A value resolved to a term, or the variable it waits for.
pub open spec fn resolve_1_spec(s: StateModel, v: Value) -> Result<Rc<Term>, LVarList> {
    match resolve_in(s, v) {
        Value::Resolved(t) => Ok(t),
        Value::Var(x) => Err(LVarList::from_seq_spec(seq![x.id])),
    }
}

/// Two values resolved to terms, or the first variable among them.
pub open spec fn resolve_2_spec(s: StateModel, a: Value, b: Value) -> Result<
    (Rc<Term>, Rc<Term>),
    LVarList,
> {
    match (resolve_in(s, a), resolve_in(s, b)) {
        (Value::Resolved(ta), Value::Resolved(tb)) => Ok((ta, tb)),
        (Value::Var(x), _) => Err(LVarList::from_seq_spec(seq![x.id])),
        (_, Value::Var(y)) => Err(LVarList::from_seq_spec(seq![y.id])),
    }
}

/// At least one of two values resolved, or both variables.
pub open spec fn one_of_two_spec(s: StateModel, a: Value, b: Value) -> Result<OneOfTwo, LVarList> {
    match (resolve_in(s, a), resolve_in(s, b)) {
        (Value::Resolved(ta), rb) => Ok(OneOfTwo::A(ta, rb)),
        (ra, Value::Resolved(tb)) => Ok(OneOfTwo::B(ra, tb)),
        (Value::Var(x), Value::Var(y)) => Err(LVarList::from_seq_spec(seq![x.id, y.id])),
    }
}

/// At least two of three values resolved, or two of the variables.
pub open spec fn two_of_three_spec(s: StateModel, a: Value, b: Value, c: Value) -> Result<
    TwoOfThree,
    LVarList,
> {
    match (resolve_in(s, a), resolve_in(s, b), resolve_in(s, c)) {
        (Value::Resolved(ta), Value::Resolved(tb), rc) => Ok(TwoOfThree::AB(ta, tb, rc)),
        (ra, Value::Resolved(tb), Value::Resolved(tc)) => Ok(TwoOfThree::BC(ra, tb, tc)),
        (Value::Resolved(ta), rb, Value::Resolved(tc)) => Ok(TwoOfThree::AC(ta, rb, tc)),
        (Value::Var(x), Value::Var(y), _) => Err(LVarList::from_seq_spec(seq![x.id, y.id])),
        (Value::Var(x), _, Value::Var(z)) => Err(LVarList::from_seq_spec(seq![x.id, z.id])),
        (_, Value::Var(y), Value::Var(z)) => Err(LVarList::from_seq_spec(seq![y.id, z.id])),
    }
}

/// The ids among `ids` that are still variables in `m`, in order.
pub open spec fn unresolved_ids(m: Map<VarId, Value>, ids: Seq<VarId>) -> Seq<VarId>
    decreases ids.len(),
{
    if ids.len() == 0 {
        ids
    } else {
        let r = unresolved_ids(m, ids.drop_last());
        if resolve_spec(m, Value::Var(LVar { id: ids.last() })) is Var {
            r.push(ids.last())
        } else {
            r
        }
    }
}

/// The variables of `vars` that are not resolved in `s`.
pub open spec fn without_resolved(s: StateModel, vars: LVarList) -> LVarList {
    LVarList::from_seq_spec(unresolved_ids(s.values, vars@))
}

/// The variables a state knows of: those it binds and those a constraint
/// waits for, in ascending order.
pub open spec fn state_vars(s: StateModel) -> Seq<VarId> {
    sorted_of(s.values.dom().union(watched(s.store.entries)))
}

/// The integer a term holds, if it is one.
pub open spec fn term_int(t: Term) -> Option<i64> {
    match t {
        Term::Int(n) => Some(n),
        _ => None,
    }
}

/// A resolved integer value.
pub open spec fn int_value(n: i64) -> Value {
    Value::Resolved(Rc::new(Term::Int(n)))
}

/// A resolved vector value.
pub open spec fn vec_value(s: Seq<Value>) -> Value {
    Value::Resolved(Rc::new(Term::LVec(LVec::from_seq_spec(s))))
}

/// Test an integer and keep or fail the state.
pub open spec fn test_action(b: bool) -> Action {
    if b {
        Action::Keep
    } else {
        Action::Fail
    }
}

/// Unify `target` with `op(n)` where `n` is the integer of `t`; fail if `t`
/// is no integer or the operation has no result.
pub open spec fn derive_1(t: Term, op: Op1, target: Value) -> Action {
    match term_int(t) {
        Some(n) => match op1_spec(op, n) {
            Some(r) => Action::Unify(int_value(r), target),
            None => Action::Fail,
        },
        None => Action::Fail,
    }
}

/// Unify `target` with `op(x, y)` for the integers of `tx` and `ty`.
pub open spec fn derive_2(
    tx: Term,
    ty: Term,
    op: Op2,
    target: Value,
) -> Action {
    match (term_int(tx), term_int(ty)) {
        (Some(x), Some(y)) => match op2_spec(op, x, y) {
            Some(r) => Action::Unify(int_value(r), target),
            None => Action::Fail,
        },
        _ => Action::Fail,
    }
}

/// The unification goals of `sub` against every window of `col` of the same
/// length, from the first position on.
pub open spec fn window_goals(sub: Seq<Value>, col: Seq<Value>) -> Seq<Goal> {
    Seq::new(
        (col.len() - sub.len() + 1) as nat,
        |i: int| Goal::Unify(vec_value(sub), vec_value(col.subrange(i, i + sub.len()))),
    )
}

/// What a constraint that needs no search asks for in `s`.
pub open spec fn attempt_plain(s: StateModel, c: Constraint) -> Attempt {
    match c {
        Constraint::Assert1(p) => match resolve_1_spec(s, p.a) {
            Ok(t) => Attempt::Run(
                match term_int(*t) {
                    Some(n) => test_action(holds(p.rel, n, p.bound)),
                    None => Action::Fail,
                },
            ),
            Err(w) => Attempt::Wait(w),
        },
        Constraint::Assert2(p) => match resolve_2_spec(s, p.a, p.b) {
            Ok((ta, tb)) => Attempt::Run(
                match (term_int(*ta), term_int(*tb)) {
                    (Some(x), Some(y)) => test_action(holds(p.rel, x, y)),
                    _ => Action::Fail,
                },
            ),
            Err(w) => Attempt::Wait(w),
        },
        Constraint::Map1(p) => match one_of_two_spec(s, p.a, p.b) {
            Ok(OneOfTwo::A(ta, rb)) => Attempt::Run(derive_1(*ta, p.a_to_b, rb)),
            Ok(OneOfTwo::B(ra, tb)) => Attempt::Run(derive_1(*tb, p.b_to_a, ra)),
            Err(w) => Attempt::Wait(w),
        },
        Constraint::Map2(p) => match two_of_three_spec(s, p.a, p.b, p.c) {
            Ok(TwoOfThree::AB(ta, tb, rc)) => Attempt::Run(derive_2(*ta, *tb, p.ab_to_c, rc)),
            Ok(TwoOfThree::BC(ra, tb, tc)) => Attempt::Run(derive_2(*tb, *tc, p.bc_to_a, ra)),
            Ok(TwoOfThree::AC(ta, rb, tc)) => Attempt::Run(derive_2(*ta, *tc, p.ac_to_b, rb)),
            Err(w) => Attempt::Wait(w),
        },
        Constraint::Get(p) => match resolve_2_spec(s, p.index, p.collection) {
            Ok((ti, tc)) => Attempt::Run(
                match (*ti, *tc) {
                    (Term::Int(i), Term::LVec(v)) => if 0 <= i < v@.len() {
                        Action::Unify(p.item, v@[i as int])
                    } else {
                        Action::Fail
                    },
                    _ => Action::Fail,
                },
            ),
            Err(w) => Attempt::Wait(w),
        },
        Constraint::Slice(p) => match resolve_2_spec(s, p.range, p.collection) {
            Ok((tr, tc)) => Attempt::Run(
                match (*tr, *tc) {
                    (Term::Range(lo, hi), Term::LVec(v)) => if lo <= hi && hi <= v@.len() {
                        Action::Apply(
                            Goal::Unify(p.slice, vec_value(v@.subrange(lo as int, hi as int))),
                        )
                    } else {
                        Action::Fail
                    },
                    _ => Action::Fail,
                },
            ),
            Err(w) => Attempt::Wait(w),
        },
        Constraint::Subset(p) => match resolve_2_spec(s, p.subset, p.collection) {
            Ok((ts, tc)) => Attempt::Run(
                match (*ts, *tc) {
                    (Term::LVec(sv), Term::LVec(cv)) => if cv@.len() < sv@.len() {
                        Action::Fail
                    } else {
                        Action::Apply(
                            Goal::Any(Rc::new(crate::list::list_from_seq(window_goals(sv@, cv@)))),
                        )
                    },
                    _ => Action::Fail,
                },
            ),
            Err(w) => Attempt::Wait(w),
        },
        Constraint::MapSubset(p) => match resolve_2_spec(s, p.a, p.b) {
            Ok((ta, tb)) => Attempt::Run(
                match (*ta, *tb) {
                    (Term::LMap(ma), Term::LMap(mb)) => Action::Entries(ma, mb),
                    _ => Action::Fail,
                },
            ),
            Err(w) => Attempt::Wait(w),
        },
        Constraint::Not(_) => Attempt::Run(Action::Fail),
    }
}

// ---------------------------------------------------------------------------
// The kernel.

/// Unify `a` with `b` in `s`.
pub open spec fn unify(f: nat, s: StateModel, a: Value, b: Value) -> Option<StateModel>
    decreases f, 0nat,
{
    if f == 0 {
        None
    } else {
        let ra = resolve_in(s, a);
        let rb = resolve_in(s, b);
        match ra {
            Value::Resolved(ta) => match rb {
                Value::Resolved(tb) => unify_terms((f - 1) as nat, s, *ta, *tb),
                Value::Var(y) => bind((f - 1) as nat, s, y.id, ra),
            },
            Value::Var(x) => match rb {
                Value::Var(y) => if x.id == y.id {
                    Some(s)
                } else {
                    bind((f - 1) as nat, s, x.id, rb)
                },
                Value::Resolved(_) => bind((f - 1) as nat, s, x.id, rb),
            },
        }
    }
}

/// Unify two resolved terms: equal integers and ranges, vectors item by
/// item, maps entry by entry.
pub open spec fn unify_terms(f: nat, s: StateModel, ta: Term, tb: Term) -> Option<StateModel>
    decreases f, 0nat,
{
    if f == 0 {
        None
    } else {
        match (ta, tb) {
            (Term::Int(x), Term::Int(y)) => if x == y {
                Some(s)
            } else {
                None
            },
            (Term::Range(a1, a2), Term::Range(b1, b2)) => if a1 == b1 && a2 == b2 {
                Some(s)
            } else {
                None
            },
            (Term::LVec(va), Term::LVec(vb)) => if va@.len() == vb@.len() {
                unify_seqs((f - 1) as nat, s, va@, vb@)
            } else {
                None
            },
            (Term::LMap(ma), Term::LMap(mb)) => unify_maps((f - 1) as nat, s, ma, mb),
            _ => None,
        }
    }
}

/// Unify the items of two sequences of the same length pairwise, in order.
pub open spec fn unify_seqs(f: nat, s: StateModel, xs: Seq<Value>, ys: Seq<Value>) -> Option<
    StateModel,
>
    decreases f, 0nat,
{
    if f == 0 {
        None
    } else if xs.len() == 0 || ys.len() == 0 {
        Some(s)
    } else {
        match unify((f - 1) as nat, s, xs[0], ys[0]) {
            Some(s2) => unify_seqs((f - 1) as nat, s2, xs.drop_first(), ys.drop_first()),
            None => None,
        }
    }
}

/// Unify two maps: resolve the keys and values of each, then unify the
/// entries of each with the other.
pub open spec fn unify_maps(f: nat, s: StateModel, ma: LMap, mb: LMap) -> Option<StateModel>
    decreases f, 0nat,
{
    if f == 0 {
        None
    } else {
        match resolve_entries((f - 1) as nat, s, ma@, Seq::empty()) {
            None => None,
            Some((s1, ra)) => match resolve_entries((f - 1) as nat, s1, mb@, Seq::empty()) {
                None => None,
                Some((s2, rb)) => match unify_entries(
                    (f - 1) as nat,
                    s2,
                    ra,
                    LMap::from_seq_spec(rb),
                ) {
                    None => None,
                    Some(s3) => unify_entries((f - 1) as nat, s3, rb, LMap::from_seq_spec(ra)),
                },
            },
        }
    }
}

/// Add the entries `es` to `acc` with keys and values resolved; where two
/// keys resolve to the same key, unify the later value with the earlier one.
pub open spec fn resolve_entries(
    f: nat,
    s: StateModel,
    es: Seq<(Value, Value)>,
    acc: Seq<(Value, Value)>,
) -> Option<(StateModel, Seq<(Value, Value)>)>
    decreases f, 0nat,
{
    if f == 0 {
        None
    } else if es.len() == 0 {
        Some((s, acc))
    } else {
        let rk = resolve_in(s, es[0].0);
        let rv = resolve_in(s, es[0].1);
        let acc2 = entries_insert(acc, rk, rv);
        match entries_get(acc, rk) {
            Some(ev) => match unify((f - 1) as nat, s, es[0].1, ev) {
                Some(s2) => resolve_entries((f - 1) as nat, s2, es.drop_first(), acc2),
                None => None,
            },
            None => resolve_entries((f - 1) as nat, s, es.drop_first(), acc2),
        }
    }
}

/// Unify each entry of `es` with the entry of `b` under the same key; an
/// entry whose key `b` lacks becomes a fork over the entries of `b`.
pub open spec fn unify_entries(f: nat, s: StateModel, es: Seq<(Value, Value)>, b: LMap) -> Option<
    StateModel,
>
    decreases f, 0nat,
{
    if f == 0 {
        None
    } else if es.len() == 0 {
        Some(s)
    } else {
        match entries_get(b@, es[0].0) {
            Some(bv) => match unify((f - 1) as nat, s, es[0].1, bv) {
                Some(s2) => unify_entries((f - 1) as nat, s2, es.drop_first(), b),
                None => None,
            },
            None => unify_entries(
                (f - 1) as nat,
                push_fork(
                    s,
                    Fork::LMapEntry(LMapFork { a_key: es[0].0, a_value: es[0].1, b_map: b }),
                ),
                es.drop_first(),
                b,
            ),
        }
    }
}

/// Bind the variable `k` to `v`, then run the constraints that waited for
/// `k`, oldest first.
pub open spec fn bind(f: nat, s: StateModel, k: VarId, v: Value) -> Option<StateModel>
    decreases f, 0nat,
{
    if f == 0 {
        None
    } else {
        let s1 = StateModel { values: s.values.insert(k, v), ..s };
        if watched(s.store.entries).contains(k) {
            let ids = watchers(s.store.entries, k);
            let cs = data_of(s.store.entries, sorted_of(ids));
            let s2 = StateModel {
                store: StoreModel { next: s.store.next, entries: without_ids(s.store.entries, ids) },
                ..s1
            };
            fire((f - 1) as nat, s2, cs)
        } else {
            Some(s1)
        }
    }
}

/// Run the constraints `cs` in order.
pub open spec fn fire(f: nat, s: StateModel, cs: Seq<Rc<Constraint>>) -> Option<StateModel>
    decreases f, 0nat,
{
    if f == 0 {
        None
    } else if cs.len() == 0 {
        Some(s)
    } else {
        match constrain((f - 1) as nat, s, cs[0]) {
            Some(s2) => fire((f - 1) as nat, s2, cs.drop_first()),
            None => None,
        }
    }
}

/// The store with one more entry: `c` waiting for `keys`.
pub open spec fn store_add(st: StoreModel, keys: LVarList, c: Rc<Constraint>) -> StoreModel {
    StoreModel {
        next: (st.next + 1) as usize,
        entries: st.entries.insert(st.next, Entry { id: st.next, keys, data: c }),
    }
}

/// Attempt the constraint `c`: run what it asks for, or store it to wait
/// for the variables it names. A store that has handed out every entry id
/// takes no more.
pub open spec fn constrain(f: nat, s: StateModel, c: Rc<Constraint>) -> Option<StateModel>
    decreases f, 0nat,
{
    if f == 0 {
        None
    } else {
        match attempt((f - 1) as nat, s, *c) {
            Attempt::Run(a) => run((f - 1) as nat, s, a),
            Attempt::Wait(keys) => if s.store.next == usize::MAX {
                None
            } else {
                Some(StateModel { store: store_add(s.store, keys, c), ..s })
            },
        }
    }
}

/// What the constraint `c` asks for in `s`. A negation applies its goal and
/// looks for a state: if there is none it is satisfied; if there is one it
/// fails once all its variables are resolved, and waits for them otherwise.
pub open spec fn attempt(f: nat, s: StateModel, c: Constraint) -> Attempt
    decreases f, 1nat,
{
    match c {
        Constraint::Not(nc) => if f == 0 {
            Attempt::Run(Action::Fail)
        } else if states_of((f - 1) as nat, apply((f - 1) as nat, *nc.goal, s)).len() > 0 {
            let open = without_resolved(s, nc.vars);
            if open@.len() == 0 {
                Attempt::Run(Action::Fail)
            } else {
                Attempt::Wait(open)
            }
        } else {
            Attempt::Run(Action::Keep)
        },
        _ => attempt_plain(s, c),
    }
}

/// Run an action.
pub open spec fn run(f: nat, s: StateModel, a: Action) -> Option<StateModel>
    decreases f, 0nat,
{
    if f == 0 {
        None
    } else {
        match a {
            Action::Keep => Some(s),
            Action::Fail => None,
            Action::Unify(x, y) => unify((f - 1) as nat, s, x, y),
            Action::Apply(g) => apply((f - 1) as nat, g, s),
            Action::Entries(ma, mb) => unify_entries((f - 1) as nat, s, ma@, mb),
        }
    }
}

/// The negation goal stored in a state: its variables narrowed to those
/// still open in `s`.
pub open spec fn not_constraint(s: StateModel, nc: NotConstraint) -> Rc<Constraint> {
    Rc::new(Constraint::Not(NotConstraint { goal: nc.goal, vars: without_resolved(s, nc.vars) }))
}

/// Apply the goal `g` to `s`.
pub open spec fn apply(f: nat, g: Goal, s: StateModel) -> Option<StateModel>
    decreases f, 0nat,
{
    if f == 0 {
        None
    } else {
        match g {
            Goal::Succeed => Some(s),
            Goal::Fail => None,
            Goal::Unify(a, b) => unify((f - 1) as nat, s, a, b),
            Goal::Both(a, b) => match apply((f - 1) as nat, *a, s) {
                Some(s2) => apply((f - 1) as nat, *b, s2),
                None => None,
            },
            Goal::All(gs) => apply_all((f - 1) as nat, list_seq(*gs), s),
            Goal::Any(gs) => Some(push_fork(s, Fork::Any(gs))),
            Goal::Either(a, b) => Some(push_fork(s, Fork::Either(a, b))),
            Goal::Not(n) => match n {
                Not::Fail => Some(s),
                Not::Maybe(nc) => constrain((f - 1) as nat, s, not_constraint(s, *nc)),
            },
            Goal::Constraint(c) => constrain((f - 1) as nat, s, c),
        }
    }
}

/// Apply the goals `gs` in order.
pub open spec fn apply_all(f: nat, gs: Seq<Goal>, s: StateModel) -> Option<StateModel>
    decreases f, 0nat,
{
    if f == 0 {
        None
    } else if gs.len() == 0 {
        Some(s)
    } else {
        match apply((f - 1) as nat, gs[0], s) {
            Some(s2) => apply_all((f - 1) as nat, gs.drop_first(), s2),
            None => None,
        }
    }
}

/// The states without pending forks that `s` stands for: forks are taken
/// from the front and each alternative is enumerated in turn.
pub open spec fn into_states(f: nat, s: StateModel) -> Seq<StateModel>
    decreases f, 0nat,
{
    if f == 0 {
        Seq::empty()
    } else if s.forks.len() == 0 {
        seq![s]
    } else {
        let s1 = StateModel { forks: s.forks.drop_first(), ..s };
        expand((f - 1) as nat, fork_states((f - 1) as nat, s.forks[0], s1), Seq::empty())
    }
}

/// The states of the states `ss`, in order, after `acc`.
pub open spec fn expand(f: nat, ss: Seq<StateModel>, acc: Seq<StateModel>) -> Seq<StateModel>
    decreases f, 0nat,
{
    if f == 0 {
        Seq::empty()
    } else if ss.len() == 0 {
        acc
    } else {
        expand((f - 1) as nat, ss.drop_first(), acc + into_states((f - 1) as nat, ss[0]))
    }
}

/// The states of an optional state.
pub open spec fn states_of(f: nat, o: Option<StateModel>) -> Seq<StateModel>
    decreases f, 1nat,
{
    match o {
        Some(s) => into_states(f, s),
        None => Seq::empty(),
    }
}

/// The alternatives of a fork.
pub open spec fn fork_states(f: nat, fork: Fork, s: StateModel) -> Seq<StateModel>
    decreases f, 0nat,
{
    if f == 0 {
        Seq::empty()
    } else {
        match fork {
            Fork::Either(a, b) => opt_seq(apply((f - 1) as nat, *a, s)) + opt_seq(
                apply((f - 1) as nat, *b, s),
            ),
            Fork::Any(gs) => any_states((f - 1) as nat, list_seq(*gs), s, Seq::empty()),
            Fork::LMapEntry(lf) => entry_states(
                (f - 1) as nat,
                lf.a_key,
                lf.a_value,
                lf.b_map@,
                s,
                Seq::empty(),
            ),
        }
    }
}

/// After `acc`, the state of each goal of `gs` that succeeds on `s`.
pub open spec fn any_states(f: nat, gs: Seq<Goal>, s: StateModel, acc: Seq<StateModel>) -> Seq<
    StateModel,
>
    decreases f, 0nat,
{
    if f == 0 {
        Seq::empty()
    } else if gs.len() == 0 {
        acc
    } else {
        any_states((f - 1) as nat, gs.drop_first(), s, acc + opt_seq(apply((f - 1) as nat, gs[0], s)))
    }
}

/// Unify key `k` and value `v` with an entry.
pub open spec fn unify_entry(f: nat, s: StateModel, k: Value, v: Value, e: (Value, Value)) -> Option<
    StateModel,
>
    decreases f, 0nat,
{
    if f == 0 {
        None
    } else {
        match unify((f - 1) as nat, s, k, e.0) {
            Some(s2) => unify((f - 1) as nat, s2, v, e.1),
            None => None,
        }
    }
}

/// After `acc`, the state for each entry of `es` that `k` and `v` unify with.
pub open spec fn entry_states(
    f: nat,
    k: Value,
    v: Value,
    es: Seq<(Value, Value)>,
    s: StateModel,
    acc: Seq<StateModel>,
) -> Seq<StateModel>
    decreases f, 0nat,
{
    if f == 0 {
        Seq::empty()
    } else if es.len() == 0 {
        acc
    } else {
        entry_states(
            (f - 1) as nat,
            k,
            v,
            es.drop_first(),
            s,
            acc + opt_seq(unify_entry((f - 1) as nat, s, k, v, es[0])),
        )
    }
}

// ---------------------------------------------------------------------------
// Reading values out of a state.

/// The value `v` with every variable replaced by what it is bound to, if
/// every variable is bound.
pub open spec fn reify(f: nat, m: Map<VarId, Value>, v: Value) -> Option<Value>
    decreases f,
{
    if f == 0 {
        None
    } else {
        match resolve_spec(m, v) {
            Value::Var(_) => None,
            Value::Resolved(t) => match *t {
                Term::LVec(l) => match reify_seq((f - 1) as nat, m, l@, Seq::empty()) {
                    Some(items) => Some(vec_value(items)),
                    None => None,
                },
                Term::LMap(mp) => match reify_entries((f - 1) as nat, m, mp@, Seq::empty()) {
                    Some(es) => Some(Value::Resolved(Rc::new(Term::LMap(LMap::from_seq_spec(es))))),
                    None => None,
                },
                _ => Some(Value::Resolved(t)),
            },
        }
    }
}

/// `acc` followed by the reified items of `xs`.
pub open spec fn reify_seq(f: nat, m: Map<VarId, Value>, xs: Seq<Value>, acc: Seq<Value>) -> Option<
    Seq<Value>,
>
    decreases f,
{
    if f == 0 {
        None
    } else if xs.len() == 0 {
        Some(acc)
    } else {
        match reify((f - 1) as nat, m, xs[0]) {
            Some(x) => reify_seq((f - 1) as nat, m, xs.drop_first(), acc.push(x)),
            None => None,
        }
    }
}

/// `acc` with the reified entries of `es` inserted in order.
pub open spec fn reify_entries(
    f: nat,
    m: Map<VarId, Value>,
    es: Seq<(Value, Value)>,
    acc: Seq<(Value, Value)>,
) -> Option<Seq<(Value, Value)>>
    decreases f,
{
    if f == 0 {
        None
    } else if es.len() == 0 {
        Some(acc)
    } else {
        match (reify((f - 1) as nat, m, es[0].0), reify((f - 1) as nat, m, es[0].1)) {
            (Some(k), Some(v)) => reify_entries(
                (f - 1) as nat,
                m,
                es.drop_first(),
                entries_insert(acc, k, v),
            ),
            _ => None,
        }
    }
}

/// A state is ready when no fork is pending and no constraint waits.
pub open spec fn ready(s: StateModel) -> bool {
    s.forks.len() == 0 && watched(s.store.entries) == Set::<VarId>::empty()
}

/// After `acc`, the reified `v` of each ready state of `ss` in which it
/// reifies.
pub open spec fn answers(f: nat, ss: Seq<StateModel>, v: Value, acc: Seq<Value>) -> Seq<Value>
    decreases ss.len(),
{
    if ss.len() == 0 {
        acc
    } else {
        let a = if ready(ss[0]) {
            match reify(f, ss[0].values, v) {
                Some(r) => seq![r],
                None => Seq::empty(),
            }
        } else {
            Seq::empty()
        };
        answers(f, ss.drop_first(), v, acc + a)
    }
}

/// The empty state.
pub open spec fn empty_state() -> StateModel {
    StateModel {
        values: Map::empty(),
        forks: Seq::empty(),
        store: StoreModel { next: 0, entries: Map::empty() },
    }
}

/// The answers for `v` of the goal `g` applied to the empty state.
pub open spec fn query(f: nat, g: Goal, v: Value) -> Seq<Value> {
    answers(f, states_of(f, apply(f, g, empty_state())), v, Seq::empty())
}

} // verus!
