//! The executable kernel: unification, binding, constraints, goals and the
//! enumeration of states, each proved to compute what `semantics` says.
use crate::collections::lmap::{LMap, LMapFork};
use crate::collections::lvec::LVec;
use crate::goals::not::{Not, NotConstraint};
use crate::goals::Goal;
use crate::kernel::bindings::bound;
use crate::kernel::constraints::Constraint;
use crate::kernel::fork::Fork;
use crate::kernel::resolving::attempt_plain_exec;
use crate::kernel::semantics::{
    any_states, apply, apply_all, attempt, bind, constrain, empty_state, entry_states,
    expand, fire, fork_states, into_states, resolve_entries, run, unify, unify_entries, unify_entry, unify_maps, unify_seqs, unify_terms,
    push_fork, Action, Attempt, StateModel, BUDGET,
};
use crate::kernel::state::State;
use crate::list::{lemma_list_node, list_seq, share, List};
use crate::value::{LVar, Term, Value, VarId};
use std::rc::Rc;
use vstd::prelude::*;

verus! {

/// The abstract content of an optional state.
pub open spec fn opt_model(o: Option<State>) -> Option<StateModel> {
    match o {
        Some(s) => Some(s.model()),
        None => None,
    }
}

/// The abstract contents of a sequence of states.
pub open spec fn models(ss: Seq<State>) -> Seq<StateModel> {
    ss.map_values(|s: State| s.model())
}

/// Unify `a` with `b` in `s`.
pub fn unify_in(fuel: u64, s: State, a: &Value, b: &Value) -> (res: Option<State>)
    ensures
        opt_model(res) == unify(fuel as nat, s.model(), *a, *b),
    decreases fuel,
{
    if fuel == 0 {
        return None;
    }
    let ra = s.resolve(a);
    let rb = s.resolve(b);
    match ra {
        Value::Resolved(ta) => match rb {
            Value::Resolved(tb) => unify_terms_in(fuel - 1, s, &*ta, &*tb),
            Value::Var(y) => bind_in(fuel - 1, s, y.id, Value::Resolved(ta)),
        },
        Value::Var(x) => match rb {
            Value::Var(y) => if x.id == y.id {
                Some(s)
            } else {
                bind_in(fuel - 1, s, x.id, Value::Var(y))
            },
            Value::Resolved(tb) => bind_in(fuel - 1, s, x.id, Value::Resolved(tb)),
        },
    }
}

/// Unify two resolved terms.
fn unify_terms_in(fuel: u64, s: State, ta: &Term, tb: &Term) -> (res: Option<State>)
    ensures
        opt_model(res) == unify_terms(fuel as nat, s.model(), *ta, *tb),
    decreases fuel,
{
    if fuel == 0 {
        return None;
    }
    match (ta, tb) {
        (Term::Int(x), Term::Int(y)) => if *x == *y {
            Some(s)
        } else {
            None
        },
        (Term::Range(a1, a2), Term::Range(b1, b2)) => if *a1 == *b1 && *a2 == *b2 {
            Some(s)
        } else {
            None
        },
        (Term::LVec(va), Term::LVec(vb)) => if va.len() == vb.len() {
            unify_seqs_in(fuel - 1, s, va.to_vec(), vb.to_vec())
        } else {
            None
        },
        (Term::LMap(ma), Term::LMap(mb)) => unify_maps_in(fuel - 1, s, ma, mb),
        _ => None,
    }
}

/// Unify the items of two vectors pairwise.
fn unify_seqs_in(fuel: u64, s: State, xs: Vec<Value>, ys: Vec<Value>) -> (res: Option<State>)
    ensures
        opt_model(res) == unify_seqs(fuel as nat, s.model(), xs@, ys@),
    decreases fuel,
{
    let ghost s0 = s.model();
    let mut f = fuel;
    let mut st = s;
    let mut i: usize = 0;
    proof {
        assert(xs@.skip(0) =~= xs@);
        assert(ys@.skip(0) =~= ys@);
    }
    loop
        invariant
            f <= fuel,
            s0 == s.model(),
            i <= xs@.len(),
            i <= ys@.len(),
            unify_seqs(fuel as nat, s0, xs@, ys@) == unify_seqs(
                f as nat,
                st.model(),
                xs@.skip(i as int),
                ys@.skip(i as int),
            ),
        decreases f,
    {
        if f == 0 {
            return None;
        }
        if i >= xs.len() || i >= ys.len() {
            return Some(st);
        }
        match unify_in(f - 1, st, &xs[i], &ys[i]) {
            None => {
                return None;
            },
            Some(s2) => {
                proof {
                    assert(xs@.skip(i as int).drop_first() =~= xs@.skip(i + 1));
                    assert(ys@.skip(i as int).drop_first() =~= ys@.skip(i + 1));
                }
                st = s2;
                f = f - 1;
                i = i + 1;
            },
        }
    }
}

/// Unify two maps.
fn unify_maps_in(fuel: u64, s: State, ma: &LMap, mb: &LMap) -> (res: Option<State>)
    ensures
        opt_model(res) == unify_maps(fuel as nat, s.model(), *ma, *mb),
    decreases fuel,
{
    if fuel == 0 {
        return None;
    }
    match resolve_entries_in(fuel - 1, s, ma.to_vec()) {
        None => None,
        Some((s1, ra)) => match resolve_entries_in(fuel - 1, s1, mb.to_vec()) {
            None => None,
            Some((s2, rb)) => {
                proof {
                    LMap::lemma_from_seq(ra@);
                    LMap::lemma_ext(ra, LMap::from_seq_spec(ra@));
                    LMap::lemma_from_seq(rb@);
                    LMap::lemma_ext(rb, LMap::from_seq_spec(rb@));
                }
                match unify_entries_in(fuel - 1, s2, ra.to_vec(), &rb) {
                    None => None,
                    Some(s3) => unify_entries_in(fuel - 1, s3, rb.to_vec(), &ra),
                }
            },
        },
    }
}

/// The abstract content of an optional state paired with a map.
pub open spec fn opt_model_map(o: Option<(State, LMap)>) -> Option<(StateModel, Seq<(Value, Value)>)> {
    match o {
        Some((s, m)) => Some((s.model(), m@)),
        None => None,
    }
}

/// Resolve the keys and values of the entries `es` into a new map.
fn resolve_entries_in(fuel: u64, s: State, es: Vec<(Value, Value)>) -> (res: Option<(State, LMap)>)
    ensures
        opt_model_map(res) == resolve_entries(fuel as nat, s.model(), es@, Seq::empty()),
    decreases fuel,
{
    let ghost s0 = s.model();
    let mut f = fuel;
    let mut st = s;
    let mut acc = LMap::new();
    let mut i: usize = 0;
    proof {
        assert(es@.skip(0) =~= es@);
    }
    loop
        invariant
            f <= fuel,
            s0 == s.model(),
            i <= es@.len(),
            resolve_entries(fuel as nat, s0, es@, Seq::empty()) == resolve_entries(
                f as nat,
                st.model(),
                es@.skip(i as int),
                acc@,
            ),
        decreases f,
    {
        if f == 0 {
            return None;
        }
        if i >= es.len() {
            return Some((st, acc));
        }
        let rk = st.resolve(&es[i].0);
        let rv = st.resolve(&es[i].1);
        let existing = acc.get(&rk);
        acc.insert(rk, rv);
        proof {
            assert(es@.skip(i as int)[0] == es@[i as int]);
            assert(es@.skip(i as int).drop_first() =~= es@.skip(i + 1));
        }
        match existing {
            Some(ev) => match unify_in(f - 1, st, &es[i].1, &ev) {
                None => {
                    return None;
                },
                Some(s2) => {
                    st = s2;
                },
            },
            None => {},
        }
        f = f - 1;
        i = i + 1;
    }
}

/// Unify each entry of `es` with the entry of `b` under the same key, or
/// fork over the entries of `b`.
fn unify_entries_in(fuel: u64, s: State, es: Vec<(Value, Value)>, b: &LMap) -> (res: Option<State>)
    ensures
        opt_model(res) == unify_entries(fuel as nat, s.model(), es@, *b),
    decreases fuel,
{
    let ghost s0 = s.model();
    let mut f = fuel;
    let mut st = s;
    let mut i: usize = 0;
    proof {
        assert(es@.skip(0) =~= es@);
    }
    loop
        invariant
            f <= fuel,
            s0 == s.model(),
            i <= es@.len(),
            unify_entries(fuel as nat, s0, es@, *b) == unify_entries(
                f as nat,
                st.model(),
                es@.skip(i as int),
                *b,
            ),
        decreases f,
    {
        if f == 0 {
            return None;
        }
        if i >= es.len() {
            return Some(st);
        }
        proof {
            assert(es@.skip(i as int)[0] == es@[i as int]);
            assert(es@.skip(i as int).drop_first() =~= es@.skip(i + 1));
        }
        match b.get(&es[i].0) {
            Some(bv) => match unify_in(f - 1, st, &es[i].1, &bv) {
                None => {
                    return None;
                },
                Some(s2) => {
                    st = s2;
                },
            },
            None => {
                let fork = Fork::LMapEntry(
                    LMapFork { a_key: es[i].0.share(), a_value: es[i].1.share(), b_map: b.share() },
                );
                st = st.push_fork(fork);
            },
        }
        f = f - 1;
        i = i + 1;
    }
}

/// Bind `k` to `v` and run the constraints that waited for `k`.
fn bind_in(fuel: u64, s: State, k: VarId, v: Value) -> (res: Option<State>)
    requires
        !s.model().values.contains_key(k),
        !bound(s.model().values, v),
        v != Value::Var(LVar { id: k }),
    ensures
        opt_model(res) == bind(fuel as nat, s.model(), k, v),
    decreases fuel,
{
    if fuel == 0 {
        return None;
    }
    let (s1, found) = s.bind_var(k, v);
    match found {
        None => Some(s1),
        Some(cs) => fire_in(fuel - 1, s1, cs),
    }
}

/// Run the constraints `cs` in order.
fn fire_in(fuel: u64, s: State, cs: Vec<Rc<Constraint>>) -> (res: Option<State>)
    ensures
        opt_model(res) == fire(fuel as nat, s.model(), cs@),
    decreases fuel,
{
    let ghost s0 = s.model();
    let mut f = fuel;
    let mut st = s;
    let mut i: usize = 0;
    proof {
        assert(cs@.skip(0) =~= cs@);
    }
    loop
        invariant
            f <= fuel,
            s0 == s.model(),
            i <= cs@.len(),
            fire(fuel as nat, s0, cs@) == fire(f as nat, st.model(), cs@.skip(i as int)),
        decreases f,
    {
        if f == 0 {
            return None;
        }
        if i >= cs.len() {
            return Some(st);
        }
        proof {
            assert(cs@.skip(i as int)[0] == cs@[i as int]);
            assert(cs@.skip(i as int).drop_first() =~= cs@.skip(i + 1));
        }
        match constrain_in(f - 1, st, share(&cs[i])) {
            None => {
                return None;
            },
            Some(s2) => {
                st = s2;
            },
        }
        f = f - 1;
        i = i + 1;
    }
}

/// Attempt the constraint `c` on `s`: run it or store it.
pub fn constrain_in(fuel: u64, s: State, c: Rc<Constraint>) -> (res: Option<State>)
    ensures
        opt_model(res) == constrain(fuel as nat, s.model(), c),
    decreases fuel,
{
    if fuel == 0 {
        return None;
    }
    let at = attempt_in(fuel - 1, &s, &*c);
    match at {
        Attempt::Run(a) => run_in(fuel - 1, s, a),
        Attempt::Wait(keys) => s.store(keys, c),
    }
}

/// What the constraint `c` asks for in `s`.
fn attempt_in(fuel: u64, s: &State, c: &Constraint) -> (res: Attempt)
    ensures
        res == attempt(fuel as nat, s.model(), *c),
    decreases fuel,
{
    match c {
        Constraint::Not(nc) => {
            if fuel == 0 {
                return Attempt::Run(Action::Fail);
            }
            let applied = apply_in(fuel - 1, &*nc.goal, s.copy());
            let found = match applied {
                Some(s2) => into_states_in(fuel - 1, s2).len() > 0,
                None => false,
            };
            if found {
                let open = nc.vars.without_resolved_in(s);
                if open.is_empty() {
                    Attempt::Run(Action::Fail)
                } else {
                    Attempt::Wait(open)
                }
            } else {
                Attempt::Run(Action::Keep)
            }
        },
        _ => attempt_plain_exec(s, c),
    }
}

/// Run an action.
fn run_in(fuel: u64, s: State, a: Action) -> (res: Option<State>)
    ensures
        opt_model(res) == run(fuel as nat, s.model(), a),
    decreases fuel,
{
    if fuel == 0 {
        return None;
    }
    match a {
        Action::Keep => Some(s),
        Action::Fail => None,
        Action::Unify(x, y) => unify_in(fuel - 1, s, &x, &y),
        Action::Apply(g) => apply_in(fuel - 1, &g, s),
        Action::Entries(ma, mb) => unify_entries_in(fuel - 1, s, ma.to_vec(), &mb),
    }
}

/// Apply the goal `g` to `s`.
pub fn apply_in(fuel: u64, g: &Goal, s: State) -> (res: Option<State>)
    ensures
        opt_model(res) == apply(fuel as nat, *g, s.model()),
    decreases fuel,
{
    if fuel == 0 {
        return None;
    }
    match g {
        Goal::Succeed => Some(s),
        Goal::Fail => None,
        Goal::Unify(a, b) => unify_in(fuel - 1, s, a, b),
        Goal::Both(a, b) => match apply_in(fuel - 1, &**a, s) {
            Some(s2) => apply_in(fuel - 1, &**b, s2),
            None => None,
        },
        Goal::All(gs) => apply_all_in(fuel - 1, &**gs, s),
        Goal::Any(gs) => Some(s.push_fork(Fork::Any(share(gs)))),
        Goal::Either(a, b) => Some(s.push_fork(Fork::Either(share(a), share(b)))),
        Goal::Not(n) => match n {
            Not::Fail => Some(s),
            Not::Maybe(nc) => {
                let vars = nc.vars.without_resolved_in(&s);
                let c = Rc::new(Constraint::Not(NotConstraint { goal: share(&nc.goal), vars }));
                constrain_in(fuel - 1, s, c)
            },
        },
        Goal::Constraint(c) => constrain_in(fuel - 1, s, share(c)),
    }
}

/// Apply the goals of a list in order.
fn apply_all_in(fuel: u64, gs: &List<Goal>, s: State) -> (res: Option<State>)
    ensures
        opt_model(res) == apply_all(fuel as nat, list_seq(*gs), s.model()),
    decreases fuel,
{
    let ghost s0 = s.model();
    let mut f = fuel;
    let mut st = s;
    let mut cur: &List<Goal> = gs;
    loop
        invariant
            f <= fuel,
            s0 == s.model(),
            apply_all(fuel as nat, list_seq(*gs), s0) == apply_all(
                f as nat,
                list_seq(*cur),
                st.model(),
            ),
        decreases f,
    {
        if f == 0 {
            return None;
        }
        proof {
            lemma_list_node(*cur);
        }
        match cur {
            List::Nil => {
                return Some(st);
            },
            List::Cons(h, t) => {
                match apply_in(f - 1, h, st) {
                    None => {
                        return None;
                    },
                    Some(s2) => {
                        st = s2;
                    },
                }
                cur = &**t;
            },
        }
        f = f - 1;
    }
}

/// The states without pending forks that `s` stands for.
pub fn into_states_in(fuel: u64, s: State) -> (res: Vec<State>)
    ensures
        models(res@) == into_states(fuel as nat, s.model()),
    decreases fuel,
{
    if fuel == 0 {
        let out: Vec<State> = Vec::new();
        proof {
            assert(models(out@) =~= Seq::<StateModel>::empty());
        }
        return out;
    }
    let ghost s0 = s.model();
    let (s1, fk) = s.pop_fork();
    match fk {
        None => {
            let mut out: Vec<State> = Vec::new();
            out.push(s1);
            proof {
                assert(models(out@) =~= seq![s0]);
            }
            out
        },
        Some(fork) => {
            let ss = fork_states_in(fuel - 1, &fork, s1);
            expand_in(fuel - 1, ss)
        },
    }
}

/// The states of the states `ss`, in order.
fn expand_in(fuel: u64, ss: Vec<State>) -> (res: Vec<State>)
    ensures
        models(res@) == expand(fuel as nat, models(ss@), Seq::empty()),
    decreases fuel,
{
    let ghost ss0 = models(ss@);
    let mut f = fuel;
    let mut rest = ss;
    let mut acc: Vec<State> = Vec::new();
    proof {
        assert(models(acc@) =~= Seq::<StateModel>::empty());
    }
    loop
        invariant
            f <= fuel,
            ss0 == models(ss@),
            expand(fuel as nat, ss0, Seq::empty()) == expand(f as nat, models(rest@), models(acc@)),
        decreases f,
    {
        if f == 0 {
            let out: Vec<State> = Vec::new();
            proof {
                assert(models(out@) =~= Seq::<StateModel>::empty());
            }
            return out;
        }
        if rest.len() == 0 {
            return acc;
        }
        let ghost before = rest@;
        let st = rest.remove(0);
        let mut out = into_states_in(f - 1, st);
        let ghost acc_before = acc@;
        let ghost out_before = out@;
        acc.append(&mut out);
        proof {
            assert(models(rest@) =~= models(before).drop_first());
            assert(models(before)[0] == st.model());
            assert(models(acc@) =~= models(acc_before) + models(out_before));
        }
        f = f - 1;
    }
}

/// The alternatives of a fork applied to `s`.
fn fork_states_in(fuel: u64, fork: &Fork, s: State) -> (res: Vec<State>)
    ensures
        models(res@) == fork_states(fuel as nat, *fork, s.model()),
    decreases fuel,
{
    if fuel == 0 {
        let out: Vec<State> = Vec::new();
        proof {
            assert(models(out@) =~= Seq::<StateModel>::empty());
        }
        return out;
    }
    match fork {
        Fork::Either(a, b) => {
            let s2 = s.copy();
            let r1 = apply_in(fuel - 1, &**a, s);
            let r2 = apply_in(fuel - 1, &**b, s2);
            let mut out: Vec<State> = Vec::new();
            let ghost m1 = opt_model(r1);
            let ghost m2 = opt_model(r2);
            match r1 {
                Some(x) => {
                    out.push(x);
                },
                None => {},
            }
            let ghost mid = out@;
            match r2 {
                Some(y) => {
                    out.push(y);
                },
                None => {},
            }
            proof {
                let o1 = crate::kernel::semantics::opt_seq(m1);
                let o2 = crate::kernel::semantics::opt_seq(m2);
                assert(models(mid) =~= o1);
                assert(models(out@) =~= o1 + o2);
            }
            out
        },
        Fork::Any(gs) => any_states_in(fuel - 1, &**gs, s),
        Fork::LMapEntry(lf) => entry_states_in(
            fuel - 1,
            &lf.a_key,
            &lf.a_value,
            lf.b_map.to_vec(),
            s,
        ),
    }
}

/// The state of each goal of the list that succeeds on `s`.
fn any_states_in(fuel: u64, gs: &List<Goal>, s: State) -> (res: Vec<State>)
    ensures
        models(res@) == any_states(fuel as nat, list_seq(*gs), s.model(), Seq::empty()),
    decreases fuel,
{
    let mut f = fuel;
    let mut cur: &List<Goal> = gs;
    let mut acc: Vec<State> = Vec::new();
    proof {
        assert(models(acc@) =~= Seq::<StateModel>::empty());
    }
    loop
        invariant
            f <= fuel,
            any_states(fuel as nat, list_seq(*gs), s.model(), Seq::empty()) == any_states(
                f as nat,
                list_seq(*cur),
                s.model(),
                models(acc@),
            ),
        decreases f,
    {
        if f == 0 {
            let out: Vec<State> = Vec::new();
            proof {
                assert(models(out@) =~= Seq::<StateModel>::empty());
            }
            return out;
        }
        proof {
            lemma_list_node(*cur);
        }
        match cur {
            List::Nil => {
                return acc;
            },
            List::Cons(h, t) => {
                let r = apply_in(f - 1, h, s.copy());
                let ghost m = opt_model(r);
                let ghost before = acc@;
                match r {
                    Some(x) => {
                        acc.push(x);
                    },
                    None => {},
                }
                proof {
                    assert(models(acc@) =~= models(before) + crate::kernel::semantics::opt_seq(m));
                }
                cur = &**t;
            },
        }
        f = f - 1;
    }
}

/// Unify `k` and `v` with the key and value of an entry.
fn unify_entry_in(fuel: u64, s: State, k: &Value, v: &Value, e: &(Value, Value)) -> (res: Option<
    State,
>)
    ensures
        opt_model(res) == unify_entry(fuel as nat, s.model(), *k, *v, *e),
    decreases fuel,
{
    if fuel == 0 {
        return None;
    }
    match unify_in(fuel - 1, s, k, &e.0) {
        Some(s2) => unify_in(fuel - 1, s2, v, &e.1),
        None => None,
    }
}

/// The state for each entry of `es` that `k` and `v` unify with.
fn entry_states_in(fuel: u64, k: &Value, v: &Value, es: Vec<(Value, Value)>, s: State) -> (res: Vec<
    State,
>)
    ensures
        models(res@) == entry_states(fuel as nat, *k, *v, es@, s.model(), Seq::empty()),
    decreases fuel,
{
    let mut f = fuel;
    let mut i: usize = 0;
    let mut acc: Vec<State> = Vec::new();
    proof {
        assert(models(acc@) =~= Seq::<StateModel>::empty());
        assert(es@.skip(0) =~= es@);
    }
    loop
        invariant
            f <= fuel,
            i <= es@.len(),
            entry_states(fuel as nat, *k, *v, es@, s.model(), Seq::empty()) == entry_states(
                f as nat,
                *k,
                *v,
                es@.skip(i as int),
                s.model(),
                models(acc@),
            ),
        decreases f,
    {
        if f == 0 {
            let out: Vec<State> = Vec::new();
            proof {
                assert(models(out@) =~= Seq::<StateModel>::empty());
            }
            return out;
        }
        if i >= es.len() {
            return acc;
        }
        proof {
            assert(es@.skip(i as int)[0] == es@[i as int]);
            assert(es@.skip(i as int).drop_first() =~= es@.skip(i + 1));
        }
        let r = unify_entry_in(f - 1, s.copy(), k, v, &es[i]);
        let ghost m = opt_model(r);
        let ghost before = acc@;
        match r {
            Some(x) => {
                acc.push(x);
            },
            None => {},
        }
        proof {
            assert(models(acc@) =~= models(before) + crate::kernel::semantics::opt_seq(m));
        }
        f = f - 1;
        i = i + 1;
    }
}

impl State {
    /// Unify `a` with `b`: `None` if they cannot be unified or a constraint
    /// fails on the new bindings.
    pub fn unify(self, a: &Value, b: &Value) -> (res: Option<State>)
        ensures
            opt_model(res) == unify(BUDGET as nat, self.model(), *a, *b),
    {
        unify_in(BUDGET, self, a, b)
    }

    /// Add a constraint: run it if it can be decided, else store it until
    /// one of the variables it names is bound.
    pub fn constrain(self, c: Rc<Constraint>) -> (res: Option<State>)
        ensures
            opt_model(res) == constrain(BUDGET as nat, self.model(), c),
    {
        constrain_in(BUDGET, self, c)
    }

    /// Apply a function to the state: a way to chain several updates that
    /// may each fail.
    pub fn apply<F: Fn(State) -> Option<State>>(self, func: F) -> (res: Option<State>)
        requires
            call_requires(func, (self,)),
        ensures
            call_ensures(func, (self,), res),
    {
        func(self)
    }

    /// Add a pending fork; it is enumerated by `into_states`.
    pub fn fork(self, fork: Fork) -> (res: Option<State>)
        ensures
            opt_model(res) == Some(push_fork(self.model(), fork)),
    {
        Some(self.push_fork(fork))
    }

    /// Every state without pending forks that this state stands for, in
    /// order.
    pub fn into_states(self) -> (res: Vec<State>)
        ensures
            models(res@) == into_states(BUDGET as nat, self.model()),
    {
        into_states_in(BUDGET, self)
    }
}

impl Goal {
    /// Apply the goal to a state.
    pub fn apply(&self, s: State) -> (res: Option<State>)
        ensures
            opt_model(res) == apply(BUDGET as nat, *self, s.model()),
    {
        apply_in(BUDGET, self, s)
    }

    /// The states the goal yields from a new state.
    pub fn into_states(&self) -> (res: Vec<State>)
        ensures
            models(res@) == crate::kernel::semantics::states_of(
                BUDGET as nat,
                apply(BUDGET as nat, *self, crate::kernel::semantics::empty_state()),
            ),
    {
        let s = State::new();
        proof {
            assert(s.model() == crate::kernel::semantics::empty_state());
        }
        match apply_in(BUDGET, self, s) {
            Some(x) => into_states_in(BUDGET, x),
            None => {
                let out: Vec<State> = Vec::new();
                proof {
                    assert(models(out@) =~= Seq::<StateModel>::empty());
                }
                out
            },
        }
    }
}

} // verus!
