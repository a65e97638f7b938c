//! Properties of the kernel that hold across its operations: bindings are
//! only ever added, unified values agree afterwards, and what a unification
//! writes is what a resolution reads back.
use crate::collections::lmap::LMap;
use crate::goals::not::Not;
use crate::goals::Goal;
use crate::kernel::bindings::{
    bindings_wf, bound, lemma_bind, lemma_resolve, lemma_resolve_step, resolve_spec, rooted, walk,
};
use crate::kernel::constraints::Constraint;
use crate::kernel::fork::Fork;
use crate::kernel::semantics::{
    any_states, apply, apply_all, attempt, bind, constrain, entry_states, expand, fire, reify,
    reify_seq,
    fork_states, int_value, into_states, opt_seq, resolve_entries, resolve_in, run, unify,
    unify_entries, unify_entry, unify_maps, unify_seqs, unify_terms, Action, Attempt, StateModel,
};
use crate::list::unrc;
use crate::value::{LVar, Term, Value, VarId};
use std::rc::Rc;
use vstd::map_lib::lemma_submap_of_trans;
use vstd::prelude::*;

verus! {

/// `s2` holds every binding of `s`, and its bindings are free of cycles.
pub open spec fn extends(s: StateModel, s2: StateModel) -> bool {
    bindings_wf(s2.values) && s.values.submap_of(s2.values)
}

/// The state, if there is one, extends `s`.
pub open spec fn opt_extends(s: StateModel, o: Option<StateModel>) -> bool {
    match o {
        Some(s2) => extends(s, s2),
        None => true,
    }
}

/// Every state of `ss` extends `s`.
pub open spec fn all_extend(s: StateModel, ss: Seq<StateModel>) -> bool {
    forall|i: int| 0 <= i < ss.len() ==> #[trigger] extends(s, ss[i])
}

proof fn lemma_extends_trans(s1: StateModel, s2: StateModel, s3: StateModel)
    requires
        extends(s1, s2),
        extends(s2, s3),
    ensures
        extends(s1, s3),
{
    lemma_submap_of_trans(s1.values, s2.values, s3.values);
}

proof fn lemma_opt_extends_trans(s1: StateModel, s2: StateModel, o: Option<StateModel>)
    requires
        extends(s1, s2),
        opt_extends(s2, o),
    ensures
        opt_extends(s1, o),
{
    if let Some(s3) = o {
        lemma_extends_trans(s1, s2, s3);
    }
}

proof fn lemma_unify_extends(f: nat, s: StateModel, a: Value, b: Value)
    requires
        bindings_wf(s.values),
    ensures
        opt_extends(s, unify(f, s, a, b)),
    decreases f,
{
    if f > 0 {
        let m = s.values;
        lemma_resolve(m, a);
        lemma_resolve(m, b);
        let ra = resolve_in(s, a);
        let rb = resolve_in(s, b);
        match ra {
            Value::Resolved(ta) => match rb {
                Value::Resolved(tb) => lemma_unify_terms_extends((f - 1) as nat, s, unrc(ta), unrc(tb)),
                Value::Var(y) => lemma_bind_extends((f - 1) as nat, s, y.id, ra),
            },
            Value::Var(x) => match rb {
                Value::Var(y) => if x.id != y.id {
                    lemma_bind_extends((f - 1) as nat, s, x.id, rb);
                },
                Value::Resolved(_) => lemma_bind_extends((f - 1) as nat, s, x.id, rb),
            },
        }
    }
}

proof fn lemma_unify_terms_extends(f: nat, s: StateModel, ta: Term, tb: Term)
    requires
        bindings_wf(s.values),
    ensures
        opt_extends(s, unify_terms(f, s, ta, tb)),
    decreases f,
{
    if f > 0 {
        match (ta, tb) {
            (Term::LVec(va), Term::LVec(vb)) => if va@.len() == vb@.len() {
                lemma_unify_seqs_extends((f - 1) as nat, s, va@, vb@);
            },
            (Term::LMap(ma), Term::LMap(mb)) => lemma_unify_maps_extends((f - 1) as nat, s, ma, mb),
            _ => {},
        }
    }
}

proof fn lemma_unify_seqs_extends(f: nat, s: StateModel, xs: Seq<Value>, ys: Seq<Value>)
    requires
        bindings_wf(s.values),
    ensures
        opt_extends(s, unify_seqs(f, s, xs, ys)),
    decreases f,
{
    if f > 0 && xs.len() > 0 && ys.len() > 0 {
        lemma_unify_extends((f - 1) as nat, s, xs[0], ys[0]);
        if let Some(s2) = unify((f - 1) as nat, s, xs[0], ys[0]) {
            lemma_unify_seqs_extends((f - 1) as nat, s2, xs.drop_first(), ys.drop_first());
            lemma_opt_extends_trans(
                s,
                s2,
                unify_seqs((f - 1) as nat, s2, xs.drop_first(), ys.drop_first()),
            );
        }
    }
}

proof fn lemma_unify_maps_extends(f: nat, s: StateModel, ma: LMap, mb: LMap)
    requires
        bindings_wf(s.values),
    ensures
        opt_extends(s, unify_maps(f, s, ma, mb)),
    decreases f,
{
    if f > 0 {
        let g = (f - 1) as nat;
        lemma_resolve_entries_extends(g, s, ma@, Seq::empty());
        if let Some((s1, ra)) = resolve_entries(g, s, ma@, Seq::empty()) {
            lemma_resolve_entries_extends(g, s1, mb@, Seq::empty());
            if let Some((s2, rb)) = resolve_entries(g, s1, mb@, Seq::empty()) {
                lemma_extends_trans(s, s1, s2);
                lemma_unify_entries_extends(g, s2, ra, LMap::from_seq_spec(rb));
                if let Some(s3) = unify_entries(g, s2, ra, LMap::from_seq_spec(rb)) {
                    lemma_extends_trans(s, s2, s3);
                    lemma_unify_entries_extends(g, s3, rb, LMap::from_seq_spec(ra));
                    lemma_opt_extends_trans(
                        s,
                        s3,
                        unify_entries(g, s3, rb, LMap::from_seq_spec(ra)),
                    );
                }
            }
        }
    }
}

proof fn lemma_resolve_entries_extends(
    f: nat,
    s: StateModel,
    es: Seq<(Value, Value)>,
    acc: Seq<(Value, Value)>,
)
    requires
        bindings_wf(s.values),
    ensures
        match resolve_entries(f, s, es, acc) {
            Some((s2, _)) => extends(s, s2),
            None => true,
        },
    decreases f,
{
    if f > 0 && es.len() > 0 {
        let rk = resolve_in(s, es[0].0);
        let rv = resolve_in(s, es[0].1);
        let acc2 = crate::collections::lmap::entries_insert(acc, rk, rv);
        match crate::collections::lmap::entries_get(acc, rk) {
            Some(ev) => {
                lemma_unify_extends((f - 1) as nat, s, es[0].1, ev);
                if let Some(s2) = unify((f - 1) as nat, s, es[0].1, ev) {
                    lemma_resolve_entries_extends((f - 1) as nat, s2, es.drop_first(), acc2);
                    if let Some((s3, _)) = resolve_entries((f - 1) as nat, s2, es.drop_first(), acc2) {
                        lemma_extends_trans(s, s2, s3);
                    }
                }
            },
            None => {
                lemma_resolve_entries_extends((f - 1) as nat, s, es.drop_first(), acc2);
            },
        }
    }
}

proof fn lemma_unify_entries_extends(f: nat, s: StateModel, es: Seq<(Value, Value)>, b: LMap)
    requires
        bindings_wf(s.values),
    ensures
        opt_extends(s, unify_entries(f, s, es, b)),
    decreases f,
{
    if f > 0 && es.len() > 0 {
        match crate::collections::lmap::entries_get(b@, es[0].0) {
            Some(bv) => {
                lemma_unify_extends((f - 1) as nat, s, es[0].1, bv);
                if let Some(s2) = unify((f - 1) as nat, s, es[0].1, bv) {
                    lemma_unify_entries_extends((f - 1) as nat, s2, es.drop_first(), b);
                    lemma_opt_extends_trans(
                        s,
                        s2,
                        unify_entries((f - 1) as nat, s2, es.drop_first(), b),
                    );
                }
            },
            None => {
                let s2 = crate::kernel::semantics::push_fork(
                    s,
                    Fork::LMapEntry(
                        crate::collections::lmap::LMapFork {
                            a_key: es[0].0,
                            a_value: es[0].1,
                            b_map: b,
                        },
                    ),
                );
                lemma_unify_entries_extends((f - 1) as nat, s2, es.drop_first(), b);
            },
        }
    }
}

proof fn lemma_bind_extends(f: nat, s: StateModel, k: VarId, v: Value)
    requires
        bindings_wf(s.values),
        !s.values.contains_key(k),
        !bound(s.values, v),
        v != Value::Var(LVar { id: k }),
    ensures
        opt_extends(s, bind(f, s, k, v)),
        match bind(f, s, k, v) {
            Some(s2) => s.values.insert(k, v).submap_of(s2.values),
            None => true,
        },
    decreases f,
{
    if f > 0 {
        lemma_bind(s.values, k, v);
        let s1 = StateModel { values: s.values.insert(k, v), ..s };
        assert(extends(s, s1));
        if crate::kernel::mkmvmap::watched(s.store.entries).contains(k) {
            let ids = crate::kernel::mkmvmap::watchers(s.store.entries, k);
            let cs = crate::kernel::mkmvmap::data_of(
                s.store.entries,
                crate::kernel::order::sorted_of(ids),
            );
            let s2 = StateModel {
                store: crate::kernel::mkmvmap::StoreModel {
                    next: s.store.next,
                    entries: crate::kernel::mkmvmap::without_ids(s.store.entries, ids),
                },
                ..s1
            };
            lemma_fire_extends((f - 1) as nat, s2, cs);
            lemma_opt_extends_trans(s, s2, fire((f - 1) as nat, s2, cs));
            if let Some(s3) = fire((f - 1) as nat, s2, cs) {
                assert(extends(s2, s3));
            }
        }
    }
}

proof fn lemma_fire_extends(f: nat, s: StateModel, cs: Seq<Rc<Constraint>>)
    requires
        bindings_wf(s.values),
    ensures
        opt_extends(s, fire(f, s, cs)),
    decreases f,
{
    if f > 0 && cs.len() > 0 {
        lemma_constrain_extends((f - 1) as nat, s, cs[0]);
        if let Some(s2) = constrain((f - 1) as nat, s, cs[0]) {
            lemma_fire_extends((f - 1) as nat, s2, cs.drop_first());
            lemma_opt_extends_trans(s, s2, fire((f - 1) as nat, s2, cs.drop_first()));
        }
    }
}

proof fn lemma_constrain_extends(f: nat, s: StateModel, c: Rc<Constraint>)
    requires
        bindings_wf(s.values),
    ensures
        opt_extends(s, constrain(f, s, c)),
    decreases f,
{
    if f > 0 {
        match attempt((f - 1) as nat, s, unrc(c)) {
            Attempt::Run(a) => lemma_run_extends((f - 1) as nat, s, a),
            Attempt::Wait(_) => {},
        }
    }
}

proof fn lemma_run_extends(f: nat, s: StateModel, a: Action)
    requires
        bindings_wf(s.values),
    ensures
        opt_extends(s, run(f, s, a)),
    decreases f,
{
    if f > 0 {
        match a {
            Action::Unify(x, y) => lemma_unify_extends((f - 1) as nat, s, x, y),
            Action::Apply(g) => lemma_apply_extends((f - 1) as nat, g, s),
            Action::Entries(ma, mb) => lemma_unify_entries_extends((f - 1) as nat, s, ma@, mb),
            _ => {},
        }
    }
}

proof fn lemma_apply_extends(f: nat, g: Goal, s: StateModel)
    requires
        bindings_wf(s.values),
    ensures
        opt_extends(s, apply(f, g, s)),
    decreases f,
{
    if f > 0 {
        let h = (f - 1) as nat;
        match g {
            Goal::Unify(a, b) => lemma_unify_extends(h, s, a, b),
            Goal::Both(a, b) => {
                lemma_apply_extends(h, unrc(a), s);
                if let Some(s2) = apply(h, unrc(a), s) {
                    lemma_apply_extends(h, unrc(b), s2);
                    lemma_opt_extends_trans(s, s2, apply(h, unrc(b), s2));
                }
            },
            Goal::All(gs) => lemma_apply_all_extends(h, crate::list::list_seq(unrc(gs)), s),
            Goal::Not(n) => match n {
                Not::Fail => {},
                Not::Maybe(nc) => lemma_constrain_extends(
                    h,
                    s,
                    crate::kernel::semantics::not_constraint(s, unrc(nc)),
                ),
            },
            Goal::Constraint(c) => lemma_constrain_extends(h, s, c),
            _ => {},
        }
    }
}

proof fn lemma_apply_all_extends(f: nat, gs: Seq<Goal>, s: StateModel)
    requires
        bindings_wf(s.values),
    ensures
        opt_extends(s, apply_all(f, gs, s)),
    decreases f,
{
    if f > 0 && gs.len() > 0 {
        lemma_apply_extends((f - 1) as nat, gs[0], s);
        if let Some(s2) = apply((f - 1) as nat, gs[0], s) {
            lemma_apply_all_extends((f - 1) as nat, gs.drop_first(), s2);
            lemma_opt_extends_trans(s, s2, apply_all((f - 1) as nat, gs.drop_first(), s2));
        }
    }
}

proof fn lemma_opt_seq_extends(s: StateModel, o: Option<StateModel>)
    requires
        opt_extends(s, o),
    ensures
        all_extend(s, opt_seq(o)),
{
}

proof fn lemma_into_states_extends(f: nat, s: StateModel)
    requires
        bindings_wf(s.values),
    ensures
        all_extend(s, into_states(f, s)),
    decreases f,
{
    if f > 0 && s.forks.len() > 0 {
        let s1 = StateModel { forks: s.forks.drop_first(), ..s };
        let fss = fork_states((f - 1) as nat, s.forks[0], s1);
        lemma_fork_states_extends((f - 1) as nat, s.forks[0], s1);
        lemma_expand_extends((f - 1) as nat, fss, Seq::empty(), s1);
        let r = expand((f - 1) as nat, fss, Seq::empty());
        assert forall|i: int| 0 <= i < r.len() implies #[trigger] extends(s, r[i]) by {
            assert(extends(s1, r[i]));
        }
    } else if f > 0 {
        assert(extends(s, s));
    }
}

proof fn lemma_expand_extends(f: nat, ss: Seq<StateModel>, acc: Seq<StateModel>, base: StateModel)
    requires
        all_extend(base, ss),
        all_extend(base, acc),
    ensures
        all_extend(base, expand(f, ss, acc)),
    decreases f,
{
    if f > 0 && ss.len() > 0 {
        assert(extends(base, ss[0]));
        lemma_into_states_extends((f - 1) as nat, ss[0]);
        let more = crate::kernel::semantics::into_states((f - 1) as nat, ss[0]);
        let acc2 = acc + more;
        assert forall|i: int| 0 <= i < acc2.len() implies #[trigger] extends(base, acc2[i]) by {
            if i < acc.len() {
                assert(acc2[i] == acc[i]);
            } else {
                assert(acc2[i] == more[i - acc.len()]);
                assert(extends(ss[0], more[i - acc.len()]));
                lemma_extends_trans(base, ss[0], more[i - acc.len()]);
            }
        }
        assert forall|i: int| 0 <= i < ss.drop_first().len() implies #[trigger] extends(
            base,
            ss.drop_first()[i],
        ) by {
            assert(ss.drop_first()[i] == ss[i + 1]);
        }
        lemma_expand_extends((f - 1) as nat, ss.drop_first(), acc2, base);
    }
}

proof fn lemma_concat_extend(s: StateModel, a: Seq<StateModel>, b: Seq<StateModel>)
    requires
        all_extend(s, a),
        all_extend(s, b),
    ensures
        all_extend(s, a + b),
{
    assert forall|i: int| 0 <= i < (a + b).len() implies #[trigger] extends(s, (a + b)[i]) by {
        if i < a.len() {
            assert((a + b)[i] == a[i]);
        } else {
            assert((a + b)[i] == b[i - a.len()]);
        }
    }
}

proof fn lemma_fork_states_extends(f: nat, fork: Fork, s: StateModel)
    requires
        bindings_wf(s.values),
    ensures
        all_extend(s, fork_states(f, fork, s)),
    decreases f,
{
    if f > 0 {
        let h = (f - 1) as nat;
        match fork {
            Fork::Either(a, b) => {
                lemma_apply_extends(h, unrc(a), s);
                lemma_apply_extends(h, unrc(b), s);
                lemma_opt_seq_extends(s, apply(h, unrc(a), s));
                lemma_opt_seq_extends(s, apply(h, unrc(b), s));
                lemma_concat_extend(s, opt_seq(apply(h, unrc(a), s)), opt_seq(apply(h, unrc(b), s)));
            },
            Fork::Any(gs) => lemma_any_states_extends(
                h,
                crate::list::list_seq(unrc(gs)),
                s,
                Seq::empty(),
            ),
            Fork::LMapEntry(lf) => lemma_entry_states_extends(
                h,
                lf.a_key,
                lf.a_value,
                lf.b_map@,
                s,
                Seq::empty(),
            ),
        }
    }
}

proof fn lemma_any_states_extends(f: nat, gs: Seq<Goal>, s: StateModel, acc: Seq<StateModel>)
    requires
        bindings_wf(s.values),
        all_extend(s, acc),
    ensures
        all_extend(s, any_states(f, gs, s, acc)),
    decreases f,
{
    if f > 0 && gs.len() > 0 {
        let h = (f - 1) as nat;
        lemma_apply_extends(h, gs[0], s);
        lemma_opt_seq_extends(s, apply(h, gs[0], s));
        lemma_concat_extend(s, acc, opt_seq(apply(h, gs[0], s)));
        lemma_any_states_extends(h, gs.drop_first(), s, acc + opt_seq(apply(h, gs[0], s)));
    }
}

proof fn lemma_entry_states_extends(
    f: nat,
    k: Value,
    v: Value,
    es: Seq<(Value, Value)>,
    s: StateModel,
    acc: Seq<StateModel>,
)
    requires
        bindings_wf(s.values),
        all_extend(s, acc),
    ensures
        all_extend(s, entry_states(f, k, v, es, s, acc)),
    decreases f,
{
    if f > 0 && es.len() > 0 {
        let h = (f - 1) as nat;
        let o = unify_entry(h, s, k, v, es[0]);
        if h > 0 {
            lemma_unify_extends((h - 1) as nat, s, k, es[0].0);
            if let Some(s2) = unify((h - 1) as nat, s, k, es[0].0) {
                lemma_unify_extends((h - 1) as nat, s2, v, es[0].1);
                lemma_opt_extends_trans(s, s2, unify((h - 1) as nat, s2, v, es[0].1));
            }
        }
        lemma_opt_seq_extends(s, o);
        lemma_concat_extend(s, acc, opt_seq(o));
        lemma_entry_states_extends(h, k, v, es.drop_first(), s, acc + opt_seq(o));
    }
}

// ---------------------------------------------------------------------------
// Resolution in larger bindings.

/// Walking in bindings that hold more leads to the same resolution.
proof fn lemma_resolve_walk(m1: Map<VarId, Value>, m2: Map<VarId, Value>, v: Value, k: nat)
    requires
        bindings_wf(m2),
        m1.submap_of(m2),
    ensures
        resolve_spec(m2, v) == resolve_spec(m2, walk(m1, v, k)),
    decreases k,
{
    if k > 0 {
        if let Value::Var(x) = v {
            if m1.contains_key(x.id) {
                assert(m2.contains_key(x.id));
                assert(v == Value::Var(LVar { id: x.id }));
                lemma_resolve_step(m2, x.id);
                lemma_resolve_walk(m1, m2, m1[x.id], (k - 1) as nat);
            }
        }
    }
}

/// Resolving in bindings that hold more is resolving the resolution in the
/// smaller bindings.
proof fn lemma_resolve_extend(m1: Map<VarId, Value>, m2: Map<VarId, Value>, v: Value)
    requires
        bindings_wf(m1),
        bindings_wf(m2),
        m1.submap_of(m2),
    ensures
        resolve_spec(m2, v) == resolve_spec(m2, resolve_spec(m1, v)),
{
    lemma_resolve(m1, v);
    let n = choose|n: nat| rooted(m1, v, n);
    lemma_resolve_walk(m1, m2, v, n);
}

/// A resolved value resolves to itself in any bindings.
proof fn lemma_resolved_fixed(m: Map<VarId, Value>, t: Rc<Term>)
    requires
        bindings_wf(m),
    ensures
        resolve_spec(m, Value::Resolved(t)) == Value::Resolved(t),
{
    lemma_resolve(m, Value::Resolved(t));
}

// ---------------------------------------------------------------------------
// The laws.

/// Unifying never drops or changes a binding: the state it gives holds every
/// binding of the state it started from, and its bindings stay free of
/// cycles.
pub proof fn law_unify_keeps_bindings(f: nat, s: StateModel, a: Value, b: Value)
    requires
        bindings_wf(s.values),
    ensures
        opt_extends(s, unify(f, s, a, b)),
{
    lemma_unify_extends(f, s, a, b);
}

/// Applying a goal never drops or changes a binding.
pub proof fn law_apply_keeps_bindings(f: nat, g: Goal, s: StateModel)
    requires
        bindings_wf(s.values),
    ensures
        opt_extends(s, apply(f, g, s)),
{
    lemma_apply_extends(f, g, s);
}

/// Adding a constraint never drops or changes a binding.
pub proof fn law_constrain_keeps_bindings(f: nat, s: StateModel, c: Rc<Constraint>)
    requires
        bindings_wf(s.values),
    ensures
        opt_extends(s, constrain(f, s, c)),
{
    lemma_constrain_extends(f, s, c);
}

/// Every state a state stands for, once its forks are enumerated, holds
/// every binding of that state.
pub proof fn law_states_keep_bindings(f: nat, s: StateModel)
    requires
        bindings_wf(s.values),
    ensures
        all_extend(s, into_states(f, s)),
{
    lemma_into_states_extends(f, s);
}

/// After a successful unification the two values resolve to the same value,
/// or both to resolved terms; they resolve to the same value whenever one of
/// them was a variable without binding before.
pub proof fn law_unify_agrees(f: nat, s: StateModel, a: Value, b: Value)
    requires
        bindings_wf(s.values),
    ensures
        match unify(f, s, a, b) {
            Some(s2) => {
                &&& resolve_in(s2, a) == resolve_in(s2, b) || (resolve_in(s2, a) is Resolved
                    && resolve_in(s2, b) is Resolved)
                &&& (resolve_in(s, a) is Var || resolve_in(s, b) is Var) ==> resolve_in(s2, a)
                    == resolve_in(s2, b)
            },
            None => true,
        },
{
    if f > 0 {
        let m = s.values;
        lemma_resolve(m, a);
        lemma_resolve(m, b);
        lemma_unify_extends(f, s, a, b);
        let ra = resolve_in(s, a);
        let rb = resolve_in(s, b);
        if let Some(s2) = unify(f, s, a, b) {
            let m2 = s2.values;
            lemma_resolve_extend(m, m2, a);
            lemma_resolve_extend(m, m2, b);
            match ra {
                Value::Resolved(ta) => match rb {
                    Value::Resolved(tb) => {
                        lemma_resolved_fixed(m2, ta);
                        lemma_resolved_fixed(m2, tb);
                    },
                    Value::Var(y) => {
                        lemma_bind_extends((f - 1) as nat, s, y.id, ra);
                        lemma_bind(m, y.id, ra);
                        let m1 = m.insert(y.id, ra);
                        assert(resolve_spec(m1, b) == ra);
                        assert(resolve_spec(m1, a) == ra);
                        lemma_resolve_extend(m1, m2, a);
                        lemma_resolve_extend(m1, m2, b);
                    },
                },
                Value::Var(x) => {
                    if rb != ra {
                        lemma_bind_extends((f - 1) as nat, s, x.id, rb);
                        lemma_bind(m, x.id, rb);
                        let m1 = m.insert(x.id, rb);
                        assert(ra == Value::Var(LVar { id: x.id }));
                        assert(resolve_spec(m1, a) == rb);
                        assert(resolve_spec(m1, b) == rb);
                        lemma_resolve_extend(m1, m2, a);
                        lemma_resolve_extend(m1, m2, b);
                    }
                },
            }
        }
    }
}

/// What a unification with an integer writes is what resolution reads back:
/// after `a` is unified with the integer `n`, `a` resolves to `n`.
pub proof fn law_unify_int_reads_back(f: nat, s: StateModel, a: Value, n: i64)
    requires
        bindings_wf(s.values),
    ensures
        match unify(f, s, a, int_value(n)) {
            Some(s2) => resolve_in(s2, a) == int_value(n),
            None => true,
        },
{
    let b = int_value(n);
    if let Some(s2) = unify(f, s, a, b) {
        let m = s.values;
        lemma_unify_extends(f, s, a, b);
        law_unify_agrees(f, s, a, b);
        lemma_resolve(m, a);
        let t = Rc::new(Term::Int(n));
        lemma_resolved_fixed(m, t);
        lemma_resolved_fixed(s2.values, t);
        lemma_resolve_extend(m, s2.values, a);
        if let Value::Resolved(ta) = resolve_in(s, a) {
            lemma_resolved_fixed(s2.values, ta);
            assert(resolve_in(s, b) == b);
            assert(unify_terms((f - 1) as nat, s, unrc(ta), Term::Int(n)) is Some);
            assert(unrc(ta) == Term::Int(n));
        }
    }
}

/// Two different integers never unify.
pub proof fn law_distinct_ints_fail(f: nat, s: StateModel, x: i64, y: i64)
    requires
        bindings_wf(s.values),
        x != y,
    ensures
        unify(f, s, int_value(x), int_value(y)) is None,
{
    lemma_resolved_fixed(s.values, Rc::new(Term::Int(x)));
    lemma_resolved_fixed(s.values, Rc::new(Term::Int(y)));
}

/// Resolving a resolved value changes nothing: resolution is idempotent.
pub proof fn law_resolve_idempotent(s: StateModel, v: Value)
    requires
        bindings_wf(s.values),
    ensures
        resolve_in(s, resolve_in(s, v)) == resolve_in(s, v),
{
    lemma_resolve(s.values, v);
    lemma_resolve(s.values, resolve_in(s, v));
}

/// The goal that always succeeds leaves the state as it is; the goal that
/// always fails gives no state.
pub proof fn law_succeed_and_fail(f: nat, s: StateModel)
    ensures
        apply(f + 1, Goal::Succeed, s) == Some(s),
        apply(f, Goal::Fail, s) is None,
{
}

/// `both(a, b)` applies `a`, then `b` to what `a` gave.
pub proof fn law_both_in_sequence(f: nat, a: Goal, b: Goal, s: StateModel)
    ensures
        apply(f + 1, Goal::Both(Rc::new(a), Rc::new(b)), s) == match apply(f, a, s) {
            Some(s2) => apply(f, b, s2),
            None => None,
        },
{
}

} // verus!

verus! {

/// A state without pending forks stands for itself alone.
proof fn lemma_no_forks_states(f: nat, s: StateModel)
    requires
        f > 0,
        s.forks.len() == 0,
    ensures
        into_states(f, s) == seq![s],
{
}

/// `either(a, b)` stands for the state `a` gives and then the state `b`
/// gives, each where it succeeds: applied to a state without pending forks,
/// when neither goal leaves a fork, its states are exactly those.
pub proof fn law_either_states(f: nat, a: Goal, b: Goal, s: StateModel)
    requires
        f >= 2,
        s.forks.len() == 0,
        forall|x: StateModel| opt_seq(apply(f, a, s)).contains(x) ==> x.forks.len() == 0,
        forall|x: StateModel| opt_seq(apply(f, b, s)).contains(x) ==> x.forks.len() == 0,
    ensures
        into_states(f + 2, crate::kernel::semantics::push_fork(s, Fork::Either(Rc::new(a), Rc::new(b))))
            == opt_seq(apply(f, a, s)) + opt_seq(apply(f, b, s)),
{
    let s2 = crate::kernel::semantics::push_fork(s, Fork::Either(Rc::new(a), Rc::new(b)));
    let s1 = StateModel { forks: s2.forks.drop_first(), ..s2 };
    assert(s2.forks.drop_first() =~= s.forks);
    assert(s1 == s);
    let oa = opt_seq(apply(f, a, s));
    let ob = opt_seq(apply(f, b, s));
    let ss = oa + ob;
    assert(fork_states(f + 1, s2.forks[0], s1) == ss);
    assert forall|i: int| 0 <= i < ss.len() implies #[trigger] ss[i].forks.len() == 0 by {
        if i < oa.len() {
            assert(oa.contains(ss[i]));
        } else {
            assert(ss[i] == ob[i - oa.len()]);
            assert(ob.contains(ss[i]));
        }
    }
    lemma_expand_plain(f + 1, ss, Seq::empty());
    assert(Seq::<StateModel>::empty() + ss =~= ss);
}

/// Expanding states without pending forks keeps them as they are, given a
/// budget larger than their number.
proof fn lemma_expand_plain(f: nat, ss: Seq<StateModel>, acc: Seq<StateModel>)
    requires
        f > ss.len(),
        forall|i: int| 0 <= i < ss.len() ==> #[trigger] ss[i].forks.len() == 0,
    ensures
        expand(f, ss, acc) == acc + ss,
    decreases ss.len(),
{
    if ss.len() == 0 {
        assert(acc + ss =~= acc);
    } else {
        lemma_no_forks_states((f - 1) as nat, ss[0]);
        assert forall|i: int| 0 <= i < ss.drop_first().len() implies #[trigger] ss.drop_first()[i].forks.len()
            == 0 by {
            assert(ss.drop_first()[i] == ss[i + 1]);
        }
        lemma_expand_plain((f - 1) as nat, ss.drop_first(), acc + seq![ss[0]]);
        assert(acc + seq![ss[0]] + ss.drop_first() =~= acc + ss);
    }
}

/// The negation of a goal that yields no state from a new state succeeds on
/// every state and leaves it as it is.
pub proof fn law_not_of_failing_goal(f: nat, h: nat, g: Goal, s: StateModel)
    requires
        crate::kernel::semantics::states_of(
            f,
            apply(f, g, crate::kernel::semantics::empty_state()),
        ).len() == 0,
    ensures
        apply(h + 1, Goal::Not(crate::goals::not::not_spec(f, g)), s) == Some(s),
{
}

} // verus!

verus! {

/// A query answers only from ready states: every answer is the reified
/// value of the query in a state of the sequence that has no pending fork
/// and no waiting constraint.
pub proof fn law_answers_from_ready_states(f: nat, ss: Seq<StateModel>, v: Value, acc: Seq<Value>)
    ensures
        crate::kernel::semantics::answers(f, ss, v, acc).len() >= acc.len(),
        forall|i: int|
            0 <= i < acc.len() ==> #[trigger] crate::kernel::semantics::answers(f, ss, v, acc)[i]
                == acc[i],
        forall|i: int|
            #![trigger crate::kernel::semantics::answers(f, ss, v, acc)[i]]
            0 <= i < crate::kernel::semantics::answers(f, ss, v, acc).len() ==> i < acc.len()
                || exists|j: int|
                #![trigger ss[j]]
                0 <= j < ss.len() && crate::kernel::semantics::ready(ss[j])
                    && crate::kernel::semantics::reify(f, ss[j].values, v) == Some(
                    crate::kernel::semantics::answers(f, ss, v, acc)[i],
                ),
    decreases ss.len(),
{
    if ss.len() > 0 {
        let a = if crate::kernel::semantics::ready(ss[0]) {
            match crate::kernel::semantics::reify(f, ss[0].values, v) {
                Some(r) => seq![r],
                None => Seq::empty(),
            }
        } else {
            Seq::empty()
        };
        let acc2 = acc + a;
        law_answers_from_ready_states(f, ss.drop_first(), v, acc2);
        let res = crate::kernel::semantics::answers(f, ss, v, acc);
        assert(res == crate::kernel::semantics::answers(f, ss.drop_first(), v, acc2));
        assert forall|i: int| 0 <= i < acc.len() implies #[trigger] res[i] == acc[i] by {
            assert(res[i] == acc2[i]);
        }
        assert forall|i: int| #![trigger res[i]] 0 <= i < res.len() implies i < acc.len() || exists|j: int|
            #![trigger ss[j]] 0 <= j < ss.len() && crate::kernel::semantics::ready(ss[j])
                && crate::kernel::semantics::reify(f, ss[j].values, v) == Some(res[i]) by {
            if i >= acc.len() {
                if i < acc2.len() {
                    assert(res[i] == acc2[i]);
                    assert(res[i] == a[i - acc.len()]);
                    assert(crate::kernel::semantics::ready(ss[0]));
                } else {
                    let j = choose|j: int|
                        0 <= j < ss.drop_first().len() && crate::kernel::semantics::ready(
                            ss.drop_first()[j],
                        ) && crate::kernel::semantics::reify(f, ss.drop_first()[j].values, v)
                            == Some(res[i]);
                    assert(ss.drop_first()[j] == ss[j + 1]);
                }
            }
        }
    }
}

} // verus!

verus! {

/// Unifying the integer `n` with a value makes that value resolve to `n`.
pub proof fn law_int_unify_reads_back(f: nat, s: StateModel, n: i64, b: Value)
    requires
        bindings_wf(s.values),
    ensures
        match unify(f, s, int_value(n), b) {
            Some(s2) => resolve_in(s2, b) == int_value(n),
            None => true,
        },
{
    let a = int_value(n);
    if let Some(s2) = unify(f, s, a, b) {
        let m = s.values;
        lemma_unify_extends(f, s, a, b);
        law_unify_agrees(f, s, a, b);
        lemma_resolve(m, b);
        let t = Rc::new(Term::Int(n));
        lemma_resolved_fixed(m, t);
        lemma_resolved_fixed(s2.values, t);
        lemma_resolve_extend(m, s2.values, b);
        if let Value::Resolved(tb) = resolve_in(s, b) {
            lemma_resolved_fixed(s2.values, tb);
            assert(resolve_in(s, a) == a);
            assert(unify_terms((f - 1) as nat, s, Term::Int(n), unrc(tb)) is Some);
            assert(unrc(tb) == Term::Int(n));
        }
    }
}

/// A comparison of two values that resolve to integers succeeds exactly
/// when the relation holds, and then leaves the state as it is.
pub proof fn law_compare_resolved(
    f: nat,
    s: StateModel,
    a: Value,
    b: Value,
    rel: crate::goals::project::Relation,
    x: i64,
    y: i64,
)
    requires
        resolve_in(s, a) == int_value(x),
        resolve_in(s, b) == int_value(y),
    ensures
        apply(
            f + 3,
            Goal::Constraint(
                Rc::new(Constraint::Assert2(crate::goals::project::Assert2 { a, b, rel })),
            ),
            s,
        ) == if crate::goals::project::holds(rel, x, y) {
            Some(s)
        } else {
            None
        },
{
    let c = Constraint::Assert2(crate::goals::project::Assert2 { a, b, rel });
    let ta = Rc::new(Term::Int(x));
    let tb = Rc::new(Term::Int(y));
    assert(crate::kernel::semantics::resolve_2_spec(s, a, b) == Ok::<(Rc<Term>, Rc<Term>), crate::kernel::lvarlist::LVarList>((ta, tb)));
    assert(crate::kernel::semantics::term_int(unrc(ta)) == Some(x));
    assert(crate::kernel::semantics::term_int(unrc(tb)) == Some(y));
    let act = crate::kernel::semantics::test_action(crate::goals::project::holds(rel, x, y));
    assert(crate::kernel::semantics::attempt_plain(s, c) == Attempt::Run(act));
    assert(attempt(f + 1, s, c) == Attempt::Run(act));
    assert(constrain(f + 2, s, Rc::new(c)) == run(f + 1, s, act));
}

/// Once `a` of `map_1` resolves to an integer `x`, whatever `b` resolves
/// to, `b` is derived from `a`: a state the goal reaches has `b` resolved to
/// `a_to_b(x)`, and where `a_to_b(x)` has no integer result the goal fails.
pub proof fn law_map_1_derives(f: nat, s: StateModel, p: crate::goals::project::Map1, x: i64)
    requires
        bindings_wf(s.values),
        resolve_in(s, p.a) == int_value(x),
    ensures
        match crate::goals::project::op1_spec(p.a_to_b, x) {
            Some(r) => match apply(f, Goal::Constraint(Rc::new(Constraint::Map1(p))), s) {
                Some(s2) => resolve_in(s2, p.b) == int_value(r),
                None => true,
            },
            None => apply(f, Goal::Constraint(Rc::new(Constraint::Map1(p))), s) is None,
        },
{
    let c = Constraint::Map1(p);
    let ta = Rc::new(Term::Int(x));
    let rb = resolve_in(s, p.b);
    assert(crate::kernel::semantics::one_of_two_spec(s, p.a, p.b) == Ok::<
        crate::kernel::semantics::OneOfTwo,
        crate::kernel::lvarlist::LVarList,
    >(crate::kernel::semantics::OneOfTwo::A(ta, rb)));
    let act = crate::kernel::semantics::derive_1(unrc(ta), p.a_to_b, rb);
    lemma_derived_value(f, s, c, act, p.b);
}

/// Once `b` of `map_1` resolves to an integer `y` while `a` is still a
/// variable, `a` is derived from `b`: a state the goal reaches has `a`
/// resolved to `b_to_a(y)`, and where `b_to_a(y)` has no integer result the
/// goal fails.
pub proof fn law_map_1_derives_back(f: nat, s: StateModel, p: crate::goals::project::Map1, y: i64)
    requires
        bindings_wf(s.values),
        resolve_in(s, p.a) is Var,
        resolve_in(s, p.b) == int_value(y),
    ensures
        match crate::goals::project::op1_spec(p.b_to_a, y) {
            Some(r) => match apply(f, Goal::Constraint(Rc::new(Constraint::Map1(p))), s) {
                Some(s2) => resolve_in(s2, p.a) == int_value(r),
                None => true,
            },
            None => apply(f, Goal::Constraint(Rc::new(Constraint::Map1(p))), s) is None,
        },
{
    let c = Constraint::Map1(p);
    let tb = Rc::new(Term::Int(y));
    let ra = resolve_in(s, p.a);
    assert(crate::kernel::semantics::one_of_two_spec(s, p.a, p.b) == Ok::<
        crate::kernel::semantics::OneOfTwo,
        crate::kernel::lvarlist::LVarList,
    >(crate::kernel::semantics::OneOfTwo::B(ra, tb)));
    let act = crate::kernel::semantics::derive_1(unrc(tb), p.b_to_a, ra);
    lemma_derived_value(f, s, c, act, p.a);
}

/// A constraint whose attempt derives an integer and unifies it with the
/// resolution of `target` leaves `target` resolved to that integer, and one
/// whose attempt fails fails.
proof fn lemma_derived_value(f: nat, s: StateModel, c: Constraint, act: Action, target: Value)
    requires
        bindings_wf(s.values),
        crate::kernel::semantics::attempt_plain(s, c) == Attempt::Run(act),
        !(c is Not),
        act is Fail || (act matches Action::Unify(v, t) && t == resolve_in(s, target) && (
        v matches Value::Resolved(tv) && *tv is Int)),
    ensures
        match act {
            Action::Unify(v, _) => match apply(f, Goal::Constraint(Rc::new(c)), s) {
                Some(s2) => resolve_in(s2, target) == v,
                None => true,
            },
            _ => apply(f, Goal::Constraint(Rc::new(c)), s) is None,
        },
{
    let g = Goal::Constraint(Rc::new(c));
    if f >= 2 {
        assert(attempt((f - 2) as nat, s, c) == Attempt::Run(act));
        assert(apply(f, g, s) == constrain((f - 1) as nat, s, Rc::new(c)));
        assert(constrain((f - 1) as nat, s, Rc::new(c)) == run((f - 2) as nat, s, act));
    }
    lemma_resolve(s.values, target);
    if let Action::Unify(v, rt) = act {
        if let Value::Resolved(tv) = v {
            if let Term::Int(n) = unrc(tv) {
                assert(v == int_value(n));
                if f >= 3 {
                    let h = (f - 3) as nat;
                    assert(apply(f, g, s) == unify(h, s, v, rt));
                    law_int_unify_reads_back(h, s, n, rt);
                    law_unify_agrees(h, s, v, rt);
                    if let Some(s2) = unify(h, s, v, rt) {
                        lemma_unify_extends(h, s, v, rt);
                        lemma_resolve_extend(s.values, s2.values, target);
                    }
                }
            }
        }
    }
}

/// Once the part and the collection of `subset` resolve to vectors, the
/// goal fails if the collection is shorter than the part; otherwise it
/// leaves the state as it was with one more fork at the back: a choice,
/// for every position `i` from the first to the last at which the part
/// fits (the whole collection when both have the same length), of unifying
/// a vector of the part's items with the run of the collection's items
/// that starts at `i`.
pub proof fn law_subset_windows(
    f: nat,
    s: StateModel,
    p: crate::collections::lvec::Subset,
    sv: crate::collections::lvec::LVec,
    cv: crate::collections::lvec::LVec,
)
    requires
        resolve_in(s, p.subset) == Value::Resolved(Rc::new(Term::LVec(sv))),
        resolve_in(s, p.collection) == Value::Resolved(Rc::new(Term::LVec(cv))),
    ensures
        cv@.len() < sv@.len() ==> apply(f, Goal::Constraint(Rc::new(Constraint::Subset(p))), s) is None,
        sv@.len() <= cv@.len() && f >= 4 ==> (apply(
            f,
            Goal::Constraint(Rc::new(Constraint::Subset(p))),
            s,
        ) matches Some(s2) && s2.values == s.values && s2.store == s.store && s2.forks.drop_last()
            == s.forks && (s2.forks.last() matches Fork::Any(gs) && crate::list::list_seq(
            *gs,
        ).len() == cv@.len() - sv@.len() + 1 && forall|i: int|
            0 <= i < crate::list::list_seq(*gs).len() ==> #[trigger] crate::list::list_seq(*gs)[i]
                == Goal::Unify(
                crate::kernel::semantics::vec_value(sv@),
                crate::kernel::semantics::vec_value(cv@.subrange(i, i + sv@.len())),
            ))),
{
    let c = Constraint::Subset(p);
    let g = Goal::Constraint(Rc::new(c));
    let act = if cv@.len() < sv@.len() {
        Action::Fail
    } else {
        Action::Apply(
            Goal::Any(
                Rc::new(
                    crate::list::list_from_seq(
                        crate::kernel::semantics::window_goals(sv@, cv@),
                    ),
                ),
            ),
        )
    };
    assert(crate::kernel::semantics::attempt_plain(s, c) == Attempt::Run(act));
    if f >= 2 {
        assert(attempt((f - 2) as nat, s, c) == Attempt::Run(act));
        assert(apply(f, g, s) == constrain((f - 1) as nat, s, Rc::new(c)));
        assert(constrain((f - 1) as nat, s, Rc::new(c)) == run((f - 2) as nat, s, act));
    }
    if sv@.len() <= cv@.len() && f >= 4 {
        let ws = crate::kernel::semantics::window_goals(sv@, cv@);
        crate::list::lemma_list_from_seq(ws);
        let gs = Rc::new(crate::list::list_from_seq(ws));
        assert(apply(f, g, s) == apply((f - 3) as nat, Goal::Any(gs), s));
        let s2 = crate::kernel::semantics::push_fork(s, Fork::Any(gs));
        assert(apply(f, g, s) == Some(s2));
        assert(s2.forks.drop_last() =~= s.forks);
        assert(crate::list::list_seq(unrc(gs)) == ws);
    }
}

/// Once two of the values of `map_2` resolve to integers `x` and `y`, the
/// third resolves to the matching function of them: for `a` and `b` given,
/// `c` becomes `ab_to_c(x, y)`. Where that function has no integer result
/// the goal fails.
pub proof fn law_map_2_derives(f: nat, s: StateModel, p: crate::goals::project::Map2, x: i64, y: i64)
    requires
        bindings_wf(s.values),
        resolve_in(s, p.a) == int_value(x),
        resolve_in(s, p.b) == int_value(y),
    ensures
        match crate::goals::project::op2_spec(p.ab_to_c, x, y) {
            Some(r) => match apply(f, Goal::Constraint(Rc::new(Constraint::Map2(p))), s) {
                Some(s2) => resolve_in(s2, p.c) == int_value(r),
                None => true,
            },
            None => apply(f, Goal::Constraint(Rc::new(Constraint::Map2(p))), s) is None,
        },
{
    let c = Constraint::Map2(p);
    let g = Goal::Constraint(Rc::new(c));
    let ta = Rc::new(Term::Int(x));
    let tb = Rc::new(Term::Int(y));
    let rc = resolve_in(s, p.c);
    assert(crate::kernel::semantics::two_of_three_spec(s, p.a, p.b, p.c) == Ok::<
        crate::kernel::semantics::TwoOfThree,
        crate::kernel::lvarlist::LVarList,
    >(crate::kernel::semantics::TwoOfThree::AB(ta, tb, rc)));
    assert(crate::kernel::semantics::term_int(unrc(ta)) == Some(x));
    assert(crate::kernel::semantics::term_int(unrc(tb)) == Some(y));
    let act = crate::kernel::semantics::derive_2(unrc(ta), unrc(tb), p.ab_to_c, rc);
    assert(crate::kernel::semantics::attempt_plain(s, c) == Attempt::Run(act));
    if f >= 2 {
        assert(attempt((f - 2) as nat, s, c) == Attempt::Run(act));
        assert(apply(f, g, s) == constrain((f - 1) as nat, s, Rc::new(c)));
        assert(constrain((f - 1) as nat, s, Rc::new(c)) == run((f - 2) as nat, s, act));
    }
    lemma_resolve(s.values, p.c);
    if let Some(r) = crate::goals::project::op2_spec(p.ab_to_c, x, y) {
        assert(act == Action::Unify(int_value(r), rc));
        if f >= 3 {
            let h = (f - 3) as nat;
            assert(apply(f, g, s) == unify(h, s, int_value(r), rc));
            law_int_unify_reads_back(h, s, r, rc);
            if let Some(s2) = unify(h, s, int_value(r), rc) {
                lemma_unify_extends(h, s, int_value(r), rc);
                lemma_resolve_extend(s.values, s2.values, p.c);
            }
        }
    } else {
        assert(act == Action::Fail);
    }
}

} // verus!

verus! {

/// `any(gs)` stands for the state of each goal of `gs` that succeeds, in
/// order: applied to a state without pending forks, when no goal leaves a
/// fork, its states are exactly those the goals give.
pub proof fn law_any_states(f: nat, gs: Rc<crate::list::List<Goal>>, s: StateModel)
    requires
        f > crate::list::list_seq(unrc(gs)).len(),
        s.forks.len() == 0,
        forall|i: int|
            #![trigger any_states(f, crate::list::list_seq(unrc(gs)), s, Seq::empty())[i]]
            0 <= i < any_states(f, crate::list::list_seq(unrc(gs)), s, Seq::empty()).len()
                ==> any_states(f, crate::list::list_seq(unrc(gs)), s, Seq::empty())[i].forks.len()
                == 0,
    ensures
        into_states(f + 2, crate::kernel::semantics::push_fork(s, Fork::Any(gs))) == any_states(
            f,
            crate::list::list_seq(unrc(gs)),
            s,
            Seq::empty(),
        ),
{
    let gseq = crate::list::list_seq(unrc(gs));
    let s2 = crate::kernel::semantics::push_fork(s, Fork::Any(gs));
    let s1 = StateModel { forks: s2.forks.drop_first(), ..s2 };
    assert(s2.forks.drop_first() =~= s.forks);
    assert(s1 == s);
    let ss = any_states(f, gseq, s, Seq::empty());
    assert(fork_states(f + 1, s2.forks[0], s1) == ss);
    lemma_any_states_len(f, gseq, s, Seq::empty());
    lemma_expand_plain(f + 1, ss, Seq::empty());
    assert(Seq::<StateModel>::empty() + ss =~= ss);
}

/// `any_states` adds at most one state per goal.
proof fn lemma_any_states_len(f: nat, gs: Seq<Goal>, s: StateModel, acc: Seq<StateModel>)
    ensures
        any_states(f, gs, s, acc).len() <= acc.len() + gs.len(),
    decreases f,
{
    if f > 0 && gs.len() > 0 {
        lemma_any_states_len(
            (f - 1) as nat,
            gs.drop_first(),
            s,
            acc + opt_seq(apply((f - 1) as nat, gs[0], s)),
        );
    }
}

} // verus!

verus! {

/// Where `a` and `b` both reify in `m` within the budget `g` to values that
/// hold no map, they reify to the same value.
pub open spec fn reify_agree(m: Map<VarId, Value>, a: Value, b: Value, g: nat) -> bool {
    reify(g, m, a) is Some && reify(g, m, b) is Some && crate::collections::lvec::value_map_free(
        reify(g, m, a)->0,
    ) && crate::collections::lvec::value_map_free(reify(g, m, b)->0) ==> reify(g, m, a) == reify(
        g,
        m,
        b,
    )
}

proof fn lemma_reify_by_resolution(g: nat, m: Map<VarId, Value>, a: Value, b: Value)
    requires
        resolve_spec(m, a) == resolve_spec(m, b),
    ensures
        reify(g, m, a) == reify(g, m, b),
{
}

proof fn lemma_reify_seq_items(h: nat, m: Map<VarId, Value>, xs: Seq<Value>, acc: Seq<Value>)
    ensures
        reify_seq(h, m, xs, acc) matches Some(out) ==> out.len() == acc.len() + xs.len() && (forall|
            i: int,
        |
            0 <= i < xs.len() ==> h >= i + 1 && #[trigger] reify((h - 1 - i) as nat, m, xs[i])
                == Some(out[acc.len() + i])),
    decreases h,
{
    if h > 0 && xs.len() > 0 {
        if let Some(x) = reify((h - 1) as nat, m, xs[0]) {
            lemma_reify_seq_items((h - 1) as nat, m, xs.drop_first(), acc.push(x));
            if let Some(out) = reify_seq(h, m, xs, acc) {
                lemma_reify_seq_prefix((h - 1) as nat, m, xs.drop_first(), acc.push(x));
                assert(reify_seq((h - 1) as nat, m, xs.drop_first(), acc.push(x)) == Some(out));
                assert forall|i: int| 0 <= i < xs.len() implies h >= i + 1 && #[trigger] reify(
                    (h - 1 - i) as nat,
                    m,
                    xs[i],
                ) == Some(out[acc.len() + i]) by {
                    if i == 0 {
                        assert(out[acc.len() as int] == acc.push(x)[acc.len() as int]);
                    } else {
                        assert(xs[i] == xs.drop_first()[i - 1]);
                        let j = i - 1;
                        assert(0 <= j < xs.drop_first().len());
                        assert(reify((h - 1 - 1 - j) as nat, m, xs.drop_first()[j]) == Some(
                            out[acc.push(x).len() + j],
                        ));
                        assert((h - 1 - 1 - j) as nat == (h - 1 - i) as nat);
                        assert(acc.push(x).len() + j == acc.len() + i);
                    }
                }
            }
        }
    }
}

proof fn lemma_reify_seq_prefix(h: nat, m: Map<VarId, Value>, xs: Seq<Value>, acc: Seq<Value>)
    ensures
        reify_seq(h, m, xs, acc) matches Some(out) ==> out.len() >= acc.len() && forall|i: int|
            0 <= i < acc.len() ==> #[trigger] out[i] == acc[i],
    decreases h,
{
    if h > 0 && xs.len() > 0 {
        if let Some(x) = reify((h - 1) as nat, m, xs[0]) {
            lemma_reify_seq_prefix((h - 1) as nat, m, xs.drop_first(), acc.push(x));
            if let Some(out) = reify_seq(h, m, xs, acc) {
                assert forall|i: int| 0 <= i < acc.len() implies #[trigger] out[i] == acc[i] by {
                    assert(acc.push(x)[i] == acc[i]);
                }
            }
        }
    }
}

proof fn lemma_unify_reify_agree(
    f: nat,
    s: StateModel,
    a: Value,
    b: Value,
    m: Map<VarId, Value>,
    g: nat,
)
    requires
        bindings_wf(s.values),
        unify(f, s, a, b) is Some,
        bindings_wf(m),
        unify(f, s, a, b)->0.values.submap_of(m),
    ensures
        reify_agree(m, a, b, g),
    decreases f,
{
    let s2 = unify(f, s, a, b)->0;
    lemma_unify_extends(f, s, a, b);
    law_unify_agrees(f, s, a, b);
    lemma_resolve(s.values, a);
    lemma_resolve(s.values, b);
    lemma_submap_of_trans(s.values, s2.values, m);
    lemma_resolve_extend(s2.values, m, a);
    lemma_resolve_extend(s2.values, m, b);
    lemma_resolve_extend(s.values, m, a);
    lemma_resolve_extend(s.values, m, b);
    let ra = resolve_in(s, a);
    let rb = resolve_in(s, b);
    if ra is Var || rb is Var {
        lemma_reify_by_resolution(g, m, a, b);
    } else {
        let ta = ra->Resolved_0;
        let tb = rb->Resolved_0;
        lemma_resolved_fixed(m, ta);
        lemma_resolved_fixed(m, tb);
        assert(unify_terms((f - 1) as nat, s, unrc(ta), unrc(tb)) == Some(s2));
        match (unrc(ta), unrc(tb)) {
            (Term::LVec(va), Term::LVec(vb)) => {
                let h = (f - 2) as nat;
                assert(unify_seqs(h, s, va@, vb@) == Some(s2));
                if g > 0 {
                    if let (Some(oa), Some(ob)) = (
                        reify_seq((g - 1) as nat, m, va@, Seq::empty()),
                        reify_seq((g - 1) as nat, m, vb@, Seq::empty()),
                    ) {
                        let rav = crate::kernel::semantics::vec_value(oa);
                        let rbv = crate::kernel::semantics::vec_value(ob);
                        assert(reify(g, m, a) == Some(rav));
                        assert(reify(g, m, b) == Some(rbv));
                        crate::collections::lvec::lemma_map_free(a, oa);
                        crate::collections::lvec::lemma_map_free(a, ob);
                        lemma_reify_seq_items((g - 1) as nat, m, va@, Seq::empty());
                        lemma_reify_seq_items((g - 1) as nat, m, vb@, Seq::empty());
                        if crate::collections::lvec::value_map_free(rav)
                            && crate::collections::lvec::value_map_free(rbv) {
                            assert forall|i: int| 0 <= i < oa.len() implies oa[i] == ob[i] by {
                                assert(reify((g - 2 - i) as nat, m, va@[i]) == Some(oa[i]));
                                assert(reify((g - 2 - i) as nat, m, vb@[i]) == Some(ob[i]));
                                assert(crate::collections::lvec::value_map_free(oa[i]));
                                assert(crate::collections::lvec::value_map_free(ob[i]));
                                lemma_unify_seqs_reify_agree(
                                    h,
                                    s,
                                    va@,
                                    vb@,
                                    m,
                                    (g - 2 - i) as nat,
                                    i,
                                );
                            }
                            assert(oa =~= ob);
                        }
                    }
                }
            },
            (Term::LMap(ma), Term::LMap(mb)) => {
                if g > 0 {
                    if let Some(r) = reify(g, m, a) {
                        crate::collections::lvec::lemma_map_free(r, Seq::empty());
                    }
                }
            },
            (Term::Int(x), Term::Int(y)) => {
                assert(ta == tb);
                lemma_reify_by_resolution(g, m, a, b);
            },
            (Term::Range(x1, x2), Term::Range(y1, y2)) => {
                assert(ta == tb);
                lemma_reify_by_resolution(g, m, a, b);
            },
            _ => {},
        }
    }
}

proof fn lemma_unify_seqs_reify_agree(
    f: nat,
    s: StateModel,
    xs: Seq<Value>,
    ys: Seq<Value>,
    m: Map<VarId, Value>,
    g: nat,
    i: int,
)
    requires
        bindings_wf(s.values),
        unify_seqs(f, s, xs, ys) is Some,
        xs.len() == ys.len(),
        0 <= i < xs.len(),
        bindings_wf(m),
        unify_seqs(f, s, xs, ys)->0.values.submap_of(m),
    ensures
        reify_agree(m, xs[i], ys[i], g),
    decreases f,
{
    let s2 = unify_seqs(f, s, xs, ys)->0;
    let s1 = unify((f - 1) as nat, s, xs[0], ys[0])->0;
    lemma_unify_extends((f - 1) as nat, s, xs[0], ys[0]);
    lemma_unify_seqs_extends((f - 1) as nat, s1, xs.drop_first(), ys.drop_first());
    lemma_submap_of_trans(s1.values, s2.values, m);
    if i == 0 {
        lemma_unify_reify_agree((f - 1) as nat, s, xs[0], ys[0], m, g);
    } else {
        assert(xs.drop_first()[i - 1] == xs[i]);
        assert(ys.drop_first()[i - 1] == ys[i]);
        lemma_unify_seqs_reify_agree(
            (f - 1) as nat,
            s1,
            xs.drop_first(),
            ys.drop_first(),
            m,
            g,
            i - 1,
        );
    }
}

/// After a successful unification, the two values reify to the same value
/// in the state it gives and in any bindings that hold its bindings,
/// wherever both reify to values that hold no map. Maps are left out: two
/// maps with the same entries in different orders unify but are different
/// values, and a map entry without a matching key leaves a fork that only
/// the enumeration of states decides.
pub proof fn law_unify_reified_agree(
    f: nat,
    s: StateModel,
    a: Value,
    b: Value,
    m: Map<VarId, Value>,
    g: nat,
)
    requires
        bindings_wf(s.values),
        unify(f, s, a, b) is Some,
        bindings_wf(m),
        unify(f, s, a, b)->0.values.submap_of(m),
    ensures
        reify_agree(m, a, b, g),
{
    lemma_unify_reify_agree(f, s, a, b, m, g);
}

} // verus!

verus! {

/// Entries `i` and `j` of `es`, `i` before `j`, have keys that resolve in
/// `s` to the same value, and no entry between them has that key.
pub open spec fn next_same_key(s: StateModel, es: Seq<(Value, Value)>, i: int, j: int) -> bool {
    &&& 0 <= i < j < es.len()
    &&& resolve_in(s, es[i].0) == resolve_in(s, es[j].0)
    &&& forall|l: int| #![trigger es[l]] i < l < j ==> resolve_in(s, es[l].0) != resolve_in(s, es[i].0)
}

/// Every key of `es` resolves in `s` to a term.
pub open spec fn keys_resolved(s: StateModel, es: Seq<(Value, Value)>) -> bool {
    forall|l: int| #![trigger es[l]] 0 <= l < es.len() ==> resolve_in(s, es[l].0) is Resolved
}

/// Keys that resolve to terms resolve to the same terms in a larger state.
proof fn lemma_keys_stay(s: StateModel, s1: StateModel, es: Seq<(Value, Value)>)
    requires
        bindings_wf(s.values),
        extends(s, s1),
        keys_resolved(s, es),
    ensures
        keys_resolved(s1, es),
        forall|l: int| #![trigger es[l]] 0 <= l < es.len() ==> resolve_in(s1, es[l].0) == resolve_in(s, es[l].0),
{
    assert forall|l: int| #![trigger es[l]] 0 <= l < es.len() implies resolve_in(s1, es[l].0) == resolve_in(s, es[l].0) by {
        lemma_resolve_extend(s.values, s1.values, es[l].0);
        if let Value::Resolved(t) = resolve_in(s, es[l].0) {
            lemma_resolved_fixed(s1.values, t);
        }
    }
}

#[verifier::rlimit(60)]
proof fn lemma_resolve_entries_merge(
    f: nat,
    s: StateModel,
    es: Seq<(Value, Value)>,
    acc: Seq<(Value, Value)>,
    m: Map<VarId, Value>,
    g: nat,
)
    requires
        bindings_wf(s.values),
        keys_resolved(s, es),
        resolve_entries(f, s, es, acc) is Some,
        bindings_wf(m),
        (resolve_entries(f, s, es, acc)->0).0.values.submap_of(m),
    ensures
        forall|i: int, j: int| #[trigger] next_same_key(s, es, i, j) ==> reify_agree(m, es[i].1, es[j].1, g),
        forall|j: int|
            #![trigger es[j]]
            0 <= j < es.len() && (forall|l: int| #![trigger es[l]] 0 <= l < j ==> resolve_in(s, es[l].0) != resolve_in(s, es[j].0))
                ==> (crate::collections::lmap::entries_get(acc, resolve_in(s, es[j].0)) matches Some(ev)
                ==> reify_agree(m, ev, es[j].1, g)),
    decreases f,
{
    if es.len() > 0 {
        let h = (f - 1) as nat;
        let rk = resolve_in(s, es[0].0);
        let rv = resolve_in(s, es[0].1);
        let acc2 = crate::collections::lmap::entries_insert(acc, rk, rv);
        let tail = es.drop_first();
        let s1 = match crate::collections::lmap::entries_get(acc, rk) {
            Some(ev) => unify(h, s, es[0].1, ev)->0,
            None => s,
        };
        assert(resolve_entries(f, s, es, acc) == resolve_entries(h, s1, tail, acc2));
        if let Some(ev) = crate::collections::lmap::entries_get(acc, rk) {
            lemma_unify_extends(h, s, es[0].1, ev);
        }
        assert(extends(s, s1));
        lemma_resolve_entries_extends(h, s1, tail, acc2);
        let s2 = (resolve_entries(h, s1, tail, acc2)->0).0;
        lemma_submap_of_trans(s1.values, s2.values, m);
        lemma_submap_of_trans(s.values, s1.values, m);
        lemma_keys_stay(s, s1, es);
        assert forall|l: int| #![trigger tail[l]] 0 <= l < tail.len() implies resolve_in(s1, tail[l].0) == resolve_in(s, es[l + 1].0) && resolve_in(s1, tail[l].0) is Resolved by {
            assert(tail[l] == es[l + 1]);
        }
        lemma_resolve_entries_merge(h, s1, tail, acc2, m, g);
        if let Some(ev) = crate::collections::lmap::entries_get(acc, rk) {
            lemma_unify_reify_agree(h, s, es[0].1, ev, m, g);
        }
        lemma_resolve_extend(s.values, m, es[0].1);
        lemma_reify_by_resolution(g, m, rv, es[0].1);
        crate::collections::lmap::law_insert_then_get(acc, rk, rv, rk);
        assert forall|i: int, j: int| #[trigger] next_same_key(s, es, i, j) implies reify_agree(
            m,
            es[i].1,
            es[j].1,
            g,
        ) by {
            assert(tail[j - 1] == es[j]);
            if i == 0 {
                assert forall|l: int| #![trigger tail[l]] 0 <= l < j - 1 implies resolve_in(s1, tail[l].0)
                    != resolve_in(s1, tail[j - 1].0) by {
                    assert(tail[l] == es[l + 1]);
                }
                assert(crate::collections::lmap::entries_get(acc2, resolve_in(s1, tail[j - 1].0)) == Some(rv));
            } else {
                assert(tail[i - 1] == es[i]);
                assert forall|l: int| #![trigger tail[l]] i - 1 < l < j - 1 implies resolve_in(s1, tail[l].0)
                    != resolve_in(s1, tail[i - 1].0) by {
                    assert(tail[l] == es[l + 1]);
                }
                assert(next_same_key(s1, tail, i - 1, j - 1));
            }
        }
        assert forall|j: int|
            #![trigger es[j]]
            0 <= j < es.len() && (forall|l: int| #![trigger es[l]] 0 <= l < j ==> resolve_in(s, es[l].0) != resolve_in(s, es[j].0))
            implies (crate::collections::lmap::entries_get(acc, resolve_in(s, es[j].0)) matches Some(ev)
                ==> reify_agree(m, ev, es[j].1, g)) by {
            if j > 0 {
                assert(tail[j - 1] == es[j]);
                assert(resolve_in(s, es[0].0) != resolve_in(s, es[j].0));
                crate::collections::lmap::law_insert_then_get(acc, rk, rv, resolve_in(s, es[j].0));
                assert forall|l: int| #![trigger tail[l]] 0 <= l < j - 1 implies resolve_in(s1, tail[l].0)
                    != resolve_in(s1, tail[j - 1].0) by {
                    assert(tail[l] == es[l + 1]);
                }
            }
        }
    }
}

/// Unifying two maps merges the entries of each map whose keys resolve to
/// the same key only by unifying their values: where the keys of a map
/// resolve to terms, of two such entries with no entry of that key between
/// them, the values reify alike (wherever both reify to values without maps)
/// in any bindings that hold the state the unification reached.
pub proof fn law_map_merge_unifies(
    f: nat,
    s: StateModel,
    ma: LMap,
    mb: LMap,
    m: Map<VarId, Value>,
    g: nat,
)
    requires
        bindings_wf(s.values),
        unify_maps(f, s, ma, mb) is Some,
        bindings_wf(m),
        unify_maps(f, s, ma, mb)->0.values.submap_of(m),
    ensures
        keys_resolved(s, ma@) ==> forall|i: int, j: int|
            #[trigger] next_same_key(s, ma@, i, j) ==> reify_agree(m, ma@[i].1, ma@[j].1, g),
        keys_resolved(s, mb@) ==> forall|i: int, j: int|
            #[trigger] next_same_key(s, mb@, i, j) ==> reify_agree(m, mb@[i].1, mb@[j].1, g),
{
    let h = (f - 1) as nat;
    lemma_resolve_entries_extends(h, s, ma@, Seq::empty());
    let (s1, ra) = resolve_entries(h, s, ma@, Seq::empty())->0;
    lemma_resolve_entries_extends(h, s1, mb@, Seq::empty());
    let (s2, rb) = resolve_entries(h, s1, mb@, Seq::empty())->0;
    lemma_unify_entries_extends(h, s2, ra, LMap::from_seq_spec(rb));
    let s3 = unify_entries(h, s2, ra, LMap::from_seq_spec(rb))->0;
    lemma_unify_entries_extends(h, s3, rb, LMap::from_seq_spec(ra));
    let s4 = unify_maps(f, s, ma, mb)->0;
    lemma_submap_of_trans(s3.values, s4.values, m);
    lemma_submap_of_trans(s2.values, s3.values, m);
    lemma_submap_of_trans(s1.values, s2.values, m);
    if keys_resolved(s, ma@) {
        lemma_resolve_entries_merge(h, s, ma@, Seq::empty(), m, g);
    }
    if keys_resolved(s, mb@) {
        lemma_keys_stay(s, s1, mb@);
        lemma_resolve_entries_merge(h, s1, mb@, Seq::empty(), m, g);
        assert forall|i: int, j: int| #[trigger] next_same_key(s, mb@, i, j) implies reify_agree(
            m,
            mb@[i].1,
            mb@[j].1,
            g,
        ) by {
            assert(next_same_key(s1, mb@, i, j));
        }
    }
}

/// The same for two values that resolve to maps: unifying them succeeds only
/// where the values of entries of either map whose keys resolve to the same
/// key are unified.
pub proof fn law_unify_maps_merge(
    f: nat,
    s: StateModel,
    a: Value,
    b: Value,
    ma: LMap,
    mb: LMap,
    m: Map<VarId, Value>,
    g: nat,
)
    requires
        bindings_wf(s.values),
        resolve_in(s, a) == Value::Resolved(Rc::new(Term::LMap(ma))),
        resolve_in(s, b) == Value::Resolved(Rc::new(Term::LMap(mb))),
        unify(f, s, a, b) is Some,
        bindings_wf(m),
        unify(f, s, a, b)->0.values.submap_of(m),
    ensures
        keys_resolved(s, ma@) ==> forall|i: int, j: int|
            #[trigger] next_same_key(s, ma@, i, j) ==> reify_agree(m, ma@[i].1, ma@[j].1, g),
        keys_resolved(s, mb@) ==> forall|i: int, j: int|
            #[trigger] next_same_key(s, mb@, i, j) ==> reify_agree(m, mb@[i].1, mb@[j].1, g),
{
    assert(unify(f, s, a, b) == unify_maps((f - 2) as nat, s, ma, mb));
    law_map_merge_unifies((f - 2) as nat, s, ma, mb, m, g);
}

} // verus!
