//! Negation as failure.
use crate::goals::Goal;
use crate::kernel::engine::models;
use crate::kernel::lvarlist::LVarList;
use crate::kernel::persistent::{first_occurrences, unique_ids};
use crate::kernel::semantics::{apply, empty_state, state_vars, states_of, StateModel, BUDGET};
use crate::value::VarId;
use std::rc::Rc;
use vstd::prelude::*;

verus! {

/// A goal that only succeeds if its sub-goal is proved to always fail.
#[derive(Debug, Clone)]
pub enum Not {
    /// The sub-goal failed at creation time.
    Fail,
    /// The sub-goal needs further evaluation.
    Maybe(Rc<NotConstraint>),
}

/// A `Not` goal that keeps evaluating its sub-goal as variables are resolved.
#[derive(Debug, Clone)]
pub struct NotConstraint {
    pub goal: Rc<Goal>,
    pub vars: LVarList,
}

/// The variables of the lists, one list after the other.
pub open spec fn concat_lists(ls: Seq<LVarList>) -> Seq<VarId>
    decreases ls.len(),
{
    if ls.len() == 0 {
        Seq::empty()
    } else {
        concat_lists(ls.drop_last()) + ls.last()@
    }
}

impl LVarList {
    /// The variables of all the lists, each one once, at its first
    /// occurrence.
    pub fn flatten(lists: Vec<LVarList>) -> (res: LVarList)
        ensures
            res == LVarList::from_seq_spec(first_occurrences(concat_lists(lists@))),
    {
        let mut all: Vec<VarId> = Vec::new();
        let mut i: usize = 0;
        while i < lists.len()
            invariant
                i <= lists@.len(),
                all@ == concat_lists(lists@.take(i as int)),
            decreases lists.len() - i,
        {
            let mut ids = lists[i].to_vec();
            proof {
                assert(lists@.take(i + 1).drop_last() =~= lists@.take(i as int));
            }
            all.append(&mut ids);
            i = i + 1;
        }
        proof {
            assert(lists@.take(lists@.len() as int) =~= lists@);
        }
        LVarList::from_vec(unique_ids(all))
    }
}

/// The variables each state knows of, one list per state.
pub open spec fn vars_lists(ss: Seq<StateModel>) -> Seq<LVarList> {
    ss.map_values(|s: StateModel| LVarList::from_seq_spec(state_vars(s)))
}

/// The negation of `g`: `Fail` if `g` yields no state from a new state, and
/// otherwise `g` together with the variables its states know of.
pub open spec fn not_spec(f: nat, g: Goal) -> Not {
    let ss = states_of(f, apply(f, g, empty_state()));
    if ss.len() == 0 {
        Not::Fail
    } else {
        Not::Maybe(
            Rc::new(
                NotConstraint {
                    goal: Rc::new(g),
                    vars: LVarList::from_seq_spec(first_occurrences(concat_lists(vars_lists(ss)))),
                },
            ),
        )
    }
}

/// A goal that only succeeds if `goal` is proved to always fail.
///
/// The sub-goal is run from a new state first. If it yields no state, the
/// negation always succeeds. Otherwise, applying the negation adds a
/// constraint that applies the sub-goal again whenever one of the variables
/// its states bound is resolved: once all of them are resolved, the
/// negation fails if the sub-goal still yields a state.
pub fn not(goal: Goal) -> (res: Goal)
    ensures
        res == Goal::Not(not_spec(BUDGET as nat, goal)),
{
    let states = goal.into_states();
    if states.len() == 0 {
        return Goal::Not(Not::Fail);
    }
    let ghost ms = models(states@);
    let mut lists: Vec<LVarList> = Vec::new();
    let mut i: usize = 0;
    while i < states.len()
        invariant
            i <= states@.len(),
            ms == models(states@),
            lists@ == vars_lists(ms).take(i as int),
        decreases states.len() - i,
    {
        lists.push(states[i].vars());
        proof {
            assert(lists@ =~= vars_lists(ms).take(i + 1));
        }
        i = i + 1;
    }
    proof {
        assert(vars_lists(ms).take(states@.len() as int) =~= vars_lists(ms));
    }
    Goal::Not(
        Not::Maybe(Rc::new(NotConstraint { goal: Rc::new(goal), vars: LVarList::flatten(lists) })),
    )
}

/// Flattening keeps every variable of the lists, and none twice.
pub proof fn law_flatten_unique(s: Seq<VarId>)
    ensures
        first_occurrences(s).no_duplicates(),
        first_occurrences(s).to_set() == s.to_set(),
    decreases s.len(),
{
    if s.len() == 0 {
        assert(first_occurrences(s).to_set() =~= s.to_set());
    } else {
        let d = s.drop_last();
        let x = s.last();
        law_flatten_unique(d);
        let r = first_occurrences(d);
        assert forall|a: VarId| #[trigger] s.contains(a) <==> d.contains(a) || a == x by {
            if s.contains(a) {
                let i = choose|i: int| 0 <= i < s.len() && s[i] == a;
                if i < d.len() {
                    assert(d[i] == a);
                }
            }
            if d.contains(a) {
                let i = choose|i: int| 0 <= i < d.len() && d[i] == a;
                assert(s[i] == a);
            }
            if a == x {
                assert(s[s.len() - 1] == a);
            }
        }
        assert(r.to_set().contains(x) == d.contains(x));
        if r.contains(x) {
            assert(first_occurrences(s) == r);
            assert(r.to_set().contains(x));
            assert forall|a: VarId| r.to_set().contains(a) <==> s.to_set().contains(a) by {
                assert(r.to_set().contains(a) == d.to_set().contains(a));
                assert(s.to_set().contains(a) == s.contains(a));
                assert(d.to_set().contains(a) == d.contains(a));
                if a == x {
                    assert(d.contains(x));
                }
            }
            assert(r.to_set() =~= s.to_set());
        } else {
            let r2 = r.push(x);
            assert forall|a: VarId| #[trigger] r2.contains(a) <==> r.contains(a) || a == x by {
                if r2.contains(a) {
                    let i = choose|i: int| 0 <= i < r2.len() && r2[i] == a;
                    if i < r.len() {
                        assert(r[i] == a);
                    }
                }
                if r.contains(a) {
                    let i = choose|i: int| 0 <= i < r.len() && r[i] == a;
                    assert(r2[i] == a);
                }
                if a == x {
                    assert(r2[r.len() as int] == a);
                }
            }
            assert(first_occurrences(s) == r2);
            assert forall|a: VarId| r2.to_set().contains(a) <==> s.to_set().contains(a) by {
                assert(r.to_set().contains(a) == d.to_set().contains(a));
                assert(s.to_set().contains(a) == s.contains(a));
                assert(d.to_set().contains(a) == d.contains(a));
                assert(r.to_set().contains(a) == r.contains(a));
                assert(r2.to_set().contains(a) == r2.contains(a));
            }
            assert(r2.to_set() =~= s.to_set());
            assert forall|i: int, j: int| 0 <= i < r2.len() && 0 <= j < r2.len() && i != j implies r2[i]
                != r2[j] by {
                if i < r.len() && j < r.len() {
                    assert(r2[i] == r[i] && r2[j] == r[j]);
                } else if i < r.len() {
                    assert(r2[i] == r[i]);
                    assert(r.contains(r[i]));
                } else if j < r.len() {
                    assert(r2[j] == r[j]);
                    assert(r.contains(r[j]));
                }
            }
        }
    }
}

/// An id occurs in the concatenation of lists exactly when it occurs in one
/// of the lists.
proof fn lemma_concat_lists_contains(ls: Seq<LVarList>, v: VarId)
    ensures
        concat_lists(ls).contains(v) <==> exists|i: int| 0 <= i < ls.len() && #[trigger] ls[i]@.contains(v),
    decreases ls.len(),
{
    if ls.len() > 0 {
        let d = ls.drop_last();
        lemma_concat_lists_contains(d, v);
        let a = concat_lists(d);
        let b = ls.last()@;
        assert((a + b).contains(v) <==> a.contains(v) || b.contains(v)) by {
            if (a + b).contains(v) {
                let k = choose|k: int| 0 <= k < (a + b).len() && (a + b)[k] == v;
                if k < a.len() {
                    assert(a[k] == v);
                } else {
                    assert(b[k - a.len()] == v);
                }
            }
            if a.contains(v) {
                let k = choose|k: int| 0 <= k < a.len() && a[k] == v;
                assert((a + b)[k] == v);
            }
            if b.contains(v) {
                let k = choose|k: int| 0 <= k < b.len() && b[k] == v;
                assert((a + b)[a.len() + k] == v);
            }
        }
        if exists|i: int| 0 <= i < d.len() && #[trigger] d[i]@.contains(v) {
            let i = choose|i: int| 0 <= i < d.len() && #[trigger] d[i]@.contains(v);
            assert(ls[i] == d[i]);
        }
        if exists|i: int| 0 <= i < ls.len() && #[trigger] ls[i]@.contains(v) {
            let i = choose|i: int| 0 <= i < ls.len() && #[trigger] ls[i]@.contains(v);
            if i < d.len() {
                assert(d[i] == ls[i]);
            }
        }
    }
}

/// The negation of a goal that yields no state from a new state is `Fail`.
/// Otherwise it keeps the goal and waits on exactly the variables that the
/// states the goal yields know of, each once: a variable any of those states
/// binds or watches is one the negation waits for, so the negation fails
/// only once all of them are resolved.
pub proof fn law_not_watches_all_vars(f: nat, g: Goal)
    ensures
        not_spec(f, g) is Fail <==> states_of(f, apply(f, g, empty_state())).len() == 0,
        not_spec(f, g) matches Not::Maybe(nc) ==> {
            &&& *nc.goal == g
            &&& nc.vars@.no_duplicates()
            &&& forall|v: VarId|
                nc.vars@.contains(v) <==> exists|i: int|
                    0 <= i < states_of(f, apply(f, g, empty_state())).len()
                        && #[trigger] state_vars(states_of(f, apply(f, g, empty_state()))[i]).contains(v)
        },
{
    let ss = states_of(f, apply(f, g, empty_state()));
    if ss.len() > 0 {
        let ls = vars_lists(ss);
        let all = concat_lists(ls);
        let ids = first_occurrences(all);
        LVarList::lemma_from_seq(ids);
        law_flatten_unique(all);
        assert forall|v: VarId|
            ids.contains(v) <==> exists|i: int|
                0 <= i < ss.len() && #[trigger] state_vars(ss[i]).contains(v) by {
            lemma_concat_lists_contains(ls, v);
            assert(ids.to_set().contains(v) == ids.contains(v));
            assert(all.to_set().contains(v) == all.contains(v));
            if exists|i: int| 0 <= i < ss.len() && #[trigger] state_vars(ss[i]).contains(v) {
                let i = choose|i: int| 0 <= i < ss.len() && #[trigger] state_vars(ss[i]).contains(v);
                LVarList::lemma_from_seq(state_vars(ss[i]));
                assert(ls[i]@.contains(v));
            }
            if all.contains(v) {
                let i = choose|i: int| 0 <= i < ls.len() && #[trigger] ls[i]@.contains(v);
                LVarList::lemma_from_seq(state_vars(ss[i]));
                assert(state_vars(ss[i]).contains(v));
            }
        }
    }
}

} // verus!
