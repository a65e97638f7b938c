//! Reading values out of states: reification and queries.
use crate::collections::lmap::LMap;
use crate::collections::lvec::LVec;
use crate::goals::Goal;
use crate::kernel::engine::{apply_in, into_states_in, models};
use crate::kernel::semantics::{resolve_in, BUDGET};
use crate::kernel::semantics::{
    answers, empty_state, query, ready, reify, reify_entries, reify_seq, states_of, StateModel,
};
use crate::kernel::state::State;
use crate::list::share;
use crate::value::{Term, Value};
use std::rc::Rc;
use vstd::prelude::*;

verus! {

/// The value `v` with every variable replaced by its binding in `s`, if
/// every variable is bound.
pub fn reify_in(fuel: u64, s: &State, v: &Value) -> (res: Option<Value>)
    ensures
        res == reify(fuel as nat, s.model().values, *v),
    decreases fuel,
{
    if fuel == 0 {
        return None;
    }
    let r = s.resolve(v);
    match r {
        Value::Var(_) => None,
        Value::Resolved(t) => match &*t {
            Term::LVec(l) => match reify_seq_in(fuel - 1, s, l.to_vec()) {
                Some(items) => Some(Value::Resolved(Rc::new(Term::LVec(LVec::from_vec(items))))),
                None => None,
            },
            Term::LMap(mp) => match reify_entries_in(fuel - 1, s, mp.to_vec()) {
                Some(m) => {
                    proof {
                        LMap::lemma_from_seq(m@);
                        LMap::lemma_ext(m, LMap::from_seq_spec(m@));
                    }
                    Some(Value::Resolved(Rc::new(Term::LMap(m))))
                },
                None => None,
            },
            _ => Some(Value::Resolved(share(&t))),
        },
    }
}

/// The reified items of `xs`, if each one reifies.
fn reify_seq_in(fuel: u64, s: &State, xs: Vec<Value>) -> (res: Option<Vec<Value>>)
    ensures
        match res {
            Some(out) => reify_seq(fuel as nat, s.model().values, xs@, Seq::empty()) == Some(
                out@,
            ),
            None => reify_seq(fuel as nat, s.model().values, xs@, Seq::empty()) is None,
        },
    decreases fuel,
{
    let ghost m = s.model().values;
    let mut f = fuel;
    let mut i: usize = 0;
    let mut acc: Vec<Value> = Vec::new();
    proof {
        assert(xs@.skip(0) =~= xs@);
    }
    loop
        invariant
            f <= fuel,
            i <= xs@.len(),
            m == s.model().values,
            reify_seq(fuel as nat, m, xs@, Seq::empty()) == reify_seq(
                f as nat,
                m,
                xs@.skip(i as int),
                acc@,
            ),
        decreases f,
    {
        if f == 0 {
            return None;
        }
        if i >= xs.len() {
            return Some(acc);
        }
        proof {
            assert(xs@.skip(i as int)[0] == xs@[i as int]);
            assert(xs@.skip(i as int).drop_first() =~= xs@.skip(i + 1));
        }
        match reify_in(f - 1, s, &xs[i]) {
            None => {
                return None;
            },
            Some(x) => {
                acc.push(x);
            },
        }
        f = f - 1;
        i = i + 1;
    }
}

/// The map of the reified entries of `es`, if each key and value reifies.
fn reify_entries_in(fuel: u64, s: &State, es: Vec<(Value, Value)>) -> (res: Option<LMap>)
    ensures
        match res {
            Some(out) => reify_entries(fuel as nat, s.model().values, es@, Seq::empty()) == Some(
                out@,
            ),
            None => reify_entries(fuel as nat, s.model().values, es@, Seq::empty()) is None,
        },
    decreases fuel,
{
    let ghost m = s.model().values;
    let mut f = fuel;
    let mut i: usize = 0;
    let mut acc = LMap::new();
    proof {
        assert(es@.skip(0) =~= es@);
    }
    loop
        invariant
            f <= fuel,
            i <= es@.len(),
            m == s.model().values,
            reify_entries(fuel as nat, m, es@, Seq::empty()) == reify_entries(
                f as nat,
                m,
                es@.skip(i as int),
                acc@,
            ),
        decreases f,
    {
        if f == 0 {
            return None;
        }
        if i >= es.len() {
            return Some(acc);
        }
        proof {
            assert(es@.skip(i as int)[0] == es@[i as int]);
            assert(es@.skip(i as int).drop_first() =~= es@.skip(i + 1));
        }
        let k = reify_in(f - 1, s, &es[i].0);
        let v = reify_in(f - 1, s, &es[i].1);
        match (k, v) {
            (Some(k), Some(v)) => {
                acc.insert(k, v);
            },
            _ => {
                return None;
            },
        }
        f = f - 1;
        i = i + 1;
    }
}

/// Whether the state is ready: no fork pending and no constraint waiting.
pub fn is_ready(s: &State) -> (res: bool)
    ensures
        res == ready(s.model()),
{
    s.no_forks() && s.no_constraints()
}

/// The reified `v` of each ready state of `ss` in which it reifies.
pub fn answers_in(fuel: u64, ss: &Vec<State>, v: &Value) -> (res: Vec<Value>)
    ensures
        res@ == answers(fuel as nat, models(ss@), *v, Seq::empty()),
{
    let ghost ms = models(ss@);
    let mut acc: Vec<Value> = Vec::new();
    let mut i: usize = 0;
    proof {
        assert(ms.skip(0) =~= ms);
    }
    while i < ss.len()
        invariant
            i <= ss@.len(),
            ms == models(ss@),
            answers(fuel as nat, ms, *v, Seq::empty()) == answers(
                fuel as nat,
                ms.skip(i as int),
                *v,
                acc@,
            ),
        decreases ss.len() - i,
    {
        let st = &ss[i];
        let ghost before = acc@;
        proof {
            assert(ms.skip(i as int)[0] == st.model());
            assert(ms.skip(i as int).drop_first() =~= ms.skip(i + 1));
        }
        if is_ready(st) {
            match reify_in(fuel, st, v) {
                Some(r) => {
                    acc.push(r);
                    proof {
                        assert(acc@ =~= before + seq![r]);
                    }
                },
                None => {
                    proof {
                        assert(acc@ =~= before + Seq::<Value>::empty());
                    }
                },
            }
        } else {
            proof {
                assert(acc@ =~= before + Seq::<Value>::empty());
            }
        }
        i = i + 1;
    }
    acc
}

/// The answers for `v` of the goal `g` applied to a new state.
pub fn query_in(fuel: u64, g: &Goal, v: &Value) -> (res: Vec<Value>)
    ensures
        res@ == query(fuel as nat, *g, *v),
{
    let s = State::new();
    proof {
        assert(s.model() == empty_state());
    }
    let applied = apply_in(fuel, g, s);
    let ghost am = crate::kernel::engine::opt_model(applied);
    let states = match applied {
        Some(x) => into_states_in(fuel, x),
        None => {
            let out: Vec<State> = Vec::new();
            proof {
                assert(models(out@) =~= Seq::<StateModel>::empty());
            }
            out
        },
    };
    proof {
        assert(models(states@) == states_of(fuel as nat, am));
    }
    answers_in(fuel, &states, v)
}

/// A state with no pending fork and no waiting constraint: its values can
/// be read out.
pub struct ReadyState {
    state: State,
}

impl ReadyState {
    /// The abstract content of the state.
    pub closed spec fn model(&self) -> StateModel {
        self.state.model()
    }

    /// Resolve `v` as far as the bindings allow.
    pub fn resolve(&self, v: &Value) -> (res: Value)
        ensures
            res == resolve_in(self.model(), *v),
    {
        self.state.resolve(v)
    }

    /// The value `v` with every variable replaced by its binding, if every
    /// variable is bound.
    pub fn reify(&self, v: &Value) -> (res: Option<Value>)
        ensures
            res == reify(BUDGET as nat, self.model().values, *v),
    {
        reify_in(BUDGET, &self.state, v)
    }
}

impl State {
    /// The state as a ready state, if no fork is pending and no constraint
    /// waits.
    pub fn ready(self) -> (res: Option<ReadyState>)
        ensures
            ready(self.model()) ==> res is Some && res->0.model() == self.model(),
            !ready(self.model()) ==> res is None,
    {
        if is_ready(&self) {
            Some(ReadyState { state: self })
        } else {
            None
        }
    }

    /// The value `v` with every variable replaced by its binding, if every
    /// variable is bound.
    pub fn reify(&self, v: &Value) -> (res: Option<Value>)
        ensures
            res == reify(BUDGET as nat, self.model().values, *v),
    {
        reify_in(BUDGET, self, v)
    }
}

/// Things that can be queried: the reified value of a query in each ready
/// state they stand for.
pub trait Query {
    /// The reified `v` of each ready state, in order.
    fn query(&self, v: &Value) -> Vec<Value>;
}

impl Query for State {
    /// The reified `v` of each ready state this state stands for.
    fn query(&self, v: &Value) -> (res: Vec<Value>)
        ensures
            res@ == answers(
                BUDGET as nat,
                crate::kernel::semantics::into_states(BUDGET as nat, self.model()),
                *v,
                Seq::empty(),
            ),
    {
        let states = into_states_in(BUDGET, self.copy());
        answers_in(BUDGET, &states, v)
    }
}

impl Query for Goal {
    /// The reified `v` of each ready state the goal yields from a new state.
    fn query(&self, v: &Value) -> (res: Vec<Value>)
        ensures
            res@ == query(BUDGET as nat, *self, *v),
    {
        query_in(BUDGET, self, v)
    }
}

} // verus!
