//! What reification gives holds no variable: reifying it again, with no
//! bindings at all, gives it back unchanged. Queries therefore only answer
//! with fully resolved values.
use crate::collections::lmap::{distinct_keys, entries_insert, key_index, lemma_key_index, LMap};
use crate::collections::lvec::LVec;
use crate::goals::Goal;
use crate::kernel::bindings::{bindings_wf, lemma_resolve, resolve_spec};
use crate::kernel::laws::{
    extends, law_answers_from_ready_states, law_apply_keeps_bindings,
    law_states_keep_bindings,
};
use crate::kernel::semantics::{
    answers, apply, empty_state, query, reify, reify_entries, reify_seq, states_of, vec_value,
    };
use crate::list::unrc;
use crate::value::{Term, Value, VarId};
use std::rc::Rc;
use vstd::prelude::*;

verus! {

/// `v` reifies to itself with no bindings and the budget `f`: it holds no
/// variable.
pub open spec fn ground(f: nat, v: Value) -> bool {
    reify(f, Map::empty(), v) == Some(v)
}

/// Entry `j` of `es` is ground with the budget `top - j`.
pub open spec fn ground_from(es: Seq<(Value, Value)>, top: int) -> bool {
    forall|j: int|
        #![trigger es[j]]
        0 <= j < es.len() ==> j <= top && ground((top - j) as nat, es[j].0) && ground(
            (top - j) as nat,
            es[j].1,
        )
}

proof fn lemma_empty_wf()
    ensures
        bindings_wf(Map::<VarId, Value>::empty()),
{
    assert(Map::<VarId, Value>::empty().dom() =~= Set::<VarId>::empty());
}

proof fn lemma_reify_mono(f1: nat, f2: nat, m: Map<VarId, Value>, v: Value)
    requires
        f1 <= f2,
        reify(f1, m, v) is Some,
    ensures
        reify(f2, m, v) == reify(f1, m, v),
    decreases f1,
{
    if f1 > 0 {
        if let Value::Resolved(t) = resolve_spec(m, v) {
            match unrc(t) {
                Term::LVec(l) => lemma_reify_seq_mono(
                    (f1 - 1) as nat,
                    (f2 - 1) as nat,
                    m,
                    l@,
                    Seq::empty(),
                ),
                Term::LMap(mp) => lemma_reify_entries_mono(
                    (f1 - 1) as nat,
                    (f2 - 1) as nat,
                    m,
                    mp@,
                    Seq::empty(),
                ),
                _ => {},
            }
        }
    }
}

proof fn lemma_reify_seq_mono(
    f1: nat,
    f2: nat,
    m: Map<VarId, Value>,
    xs: Seq<Value>,
    acc: Seq<Value>,
)
    requires
        f1 <= f2,
        reify_seq(f1, m, xs, acc) is Some,
    ensures
        reify_seq(f2, m, xs, acc) == reify_seq(f1, m, xs, acc),
    decreases f1,
{
    if f1 > 0 && xs.len() > 0 {
        lemma_reify_mono((f1 - 1) as nat, (f2 - 1) as nat, m, xs[0]);
        if let Some(x) = reify((f1 - 1) as nat, m, xs[0]) {
            lemma_reify_seq_mono(
                (f1 - 1) as nat,
                (f2 - 1) as nat,
                m,
                xs.drop_first(),
                acc.push(x),
            );
        }
    }
}

proof fn lemma_reify_entries_mono(
    f1: nat,
    f2: nat,
    m: Map<VarId, Value>,
    es: Seq<(Value, Value)>,
    acc: Seq<(Value, Value)>,
)
    requires
        f1 <= f2,
        reify_entries(f1, m, es, acc) is Some,
    ensures
        reify_entries(f2, m, es, acc) == reify_entries(f1, m, es, acc),
    decreases f1,
{
    if f1 > 0 && es.len() > 0 {
        let g1 = (f1 - 1) as nat;
        let g2 = (f2 - 1) as nat;
        if let (Some(k), Some(v)) = (reify(g1, m, es[0].0), reify(g1, m, es[0].1)) {
            lemma_reify_mono(g1, g2, m, es[0].0);
            lemma_reify_mono(g1, g2, m, es[0].1);
            lemma_reify_entries_mono(g1, g2, m, es.drop_first(), entries_insert(acc, k, v));
        }
    }
}

proof fn lemma_ground_lift(p: nat, q: nat, v: Value)
    requires
        ground(p, v),
        p <= q,
    ensures
        ground(q, v),
{
    lemma_reify_mono(p, q, Map::empty(), v);
}

proof fn lemma_reify_ground(f: nat, m: Map<VarId, Value>, v: Value)
    requires
        bindings_wf(m),
    ensures
        match reify(f, m, v) {
            Some(r) => ground(f, r),
            None => true,
        },
    decreases f,
{
    if f > 0 {
        lemma_empty_wf();
        lemma_resolve(m, v);
        if let Value::Resolved(t) = resolve_spec(m, v) {
            match unrc(t) {
                Term::LVec(l) => {
                    lemma_reify_seq_ground((f - 1) as nat, m, l@, Seq::empty(), Seq::empty());
                    if let Some(items) = reify_seq((f - 1) as nat, m, l@, Seq::empty()) {
                        let r = vec_value(items);
                        lemma_resolve(Map::empty(), r);
                        LVec::lemma_from_seq(items);
                        assert(items.skip(0) =~= items);
                        assert(Seq::<Value>::empty() + items =~= items);
                    }
                },
                Term::LMap(mp) => {
                    if f >= 2 {
                        lemma_entries_produce(
                            (f - 1) as nat,
                            m,
                            mp@,
                            Seq::empty(),
                            f - 2,
                            0,
                        );
                        if let Some(out) = reify_entries((f - 1) as nat, m, mp@, Seq::empty()) {
                            let r = Value::Resolved(Rc::new(Term::LMap(LMap::from_seq_spec(out))));
                            lemma_resolve(Map::empty(), r);
                            LMap::lemma_from_seq(out);
                            assert(Seq::<(Value, Value)>::empty() + out =~= out);
                            lemma_entries_rebuild((f - 1) as nat, out, Seq::empty());
                        }
                    }
                },
                _ => {
                    lemma_resolve(Map::empty(), Value::Resolved(t));
                },
            }
        }
    }
}

proof fn lemma_reify_seq_ground(
    f: nat,
    m: Map<VarId, Value>,
    xs: Seq<Value>,
    acc: Seq<Value>,
    acc2: Seq<Value>,
)
    requires
        bindings_wf(m),
    ensures
        match reify_seq(f, m, xs, acc) {
            Some(out) => out.len() >= acc.len() && out.take(acc.len() as int) == acc && reify_seq(
                f,
                Map::empty(),
                out.skip(acc.len() as int),
                acc2,
            ) == Some(acc2 + out.skip(acc.len() as int)),
            None => true,
        },
    decreases f,
{
    if f > 0 {
        if xs.len() == 0 {
            assert(acc.take(acc.len() as int) =~= acc);
            assert(acc.skip(acc.len() as int) =~= Seq::<Value>::empty());
            assert(acc2 + Seq::<Value>::empty() =~= acc2);
        } else {
            lemma_reify_ground((f - 1) as nat, m, xs[0]);
            if let Some(x) = reify((f - 1) as nat, m, xs[0]) {
                lemma_reify_seq_ground(
                    (f - 1) as nat,
                    m,
                    xs.drop_first(),
                    acc.push(x),
                    acc2.push(x),
                );
                if let Some(out) = reify_seq((f - 1) as nat, m, xs.drop_first(), acc.push(x)) {
                    let n = acc.len() as int;
                    assert(out.take(n + 1)[n] == x);
                    assert(out[n] == x);
                    assert(out.take(n) =~= out.take(n + 1).take(n));
                    let rest = out.skip(n);
                    assert(rest[0] == x);
                    assert(rest.drop_first() =~= out.skip(n + 1));
                    assert(acc2.push(x) + out.skip(n + 1) =~= acc2 + rest);
                }
            }
        }
    }
}

proof fn lemma_entries_produce(
    g: nat,
    m: Map<VarId, Value>,
    es: Seq<(Value, Value)>,
    acc: Seq<(Value, Value)>,
    top: int,
    i: int,
)
    requires
        bindings_wf(m),
        distinct_keys(acc),
        ground_from(acc, top),
        0 <= i,
        acc.len() <= i,
        g + i == top + 1,
    ensures
        match reify_entries(g, m, es, acc) {
            Some(out) => distinct_keys(out) && ground_from(out, top) && out.len() <= i + es.len()
                && g > es.len(),
            None => true,
        },
    decreases g,
{
    if g > 0 && es.len() > 0 {
        let h = (g - 1) as nat;
        lemma_reify_ground(h, m, es[0].0);
        lemma_reify_ground(h, m, es[0].1);
        if let (Some(k), Some(v)) = (reify(h, m, es[0].0), reify(h, m, es[0].1)) {
            let acc2 = entries_insert(acc, k, v);
            lemma_key_index(acc, k);
            match key_index(acc, k) {
                Some(p) => {
                    assert(acc2 == acc.update(p, (k, v)));
                    assert forall|a: int, b: int| 0 <= a < b < acc2.len() implies acc2[a].0
                        != acc2[b].0 by {
                        assert(acc2[a].0 == acc[a].0);
                        assert(acc2[b].0 == acc[b].0);
                    }
                    assert forall|j: int| #![trigger acc2[j]] 0 <= j < acc2.len() implies j <= top
                        && ground((top - j) as nat, acc2[j].0) && ground(
                        (top - j) as nat,
                        acc2[j].1,
                    ) by {
                        assert(acc[j] == acc[j]);
                        if j == p {
                            assert(acc2[j] == (k, v));
                            assert(acc[j].0 == k);
                            lemma_ground_lift(h, (top - j) as nat, v);
                        } else {
                            assert(acc2[j] == acc[j]);
                        }
                    }
                },
                None => {
                    assert(acc2 == acc.push((k, v)));
                    assert forall|a: int, b: int| 0 <= a < b < acc2.len() implies acc2[a].0
                        != acc2[b].0 by {
                        if b == acc.len() {
                            assert(acc2[a] == acc[a]);
                        } else {
                            assert(acc2[a] == acc[a]);
                            assert(acc2[b] == acc[b]);
                        }
                    }
                    assert forall|j: int| #![trigger acc2[j]] 0 <= j < acc2.len() implies j <= top
                        && ground((top - j) as nat, acc2[j].0) && ground(
                        (top - j) as nat,
                        acc2[j].1,
                    ) by {
                        if j == acc.len() {
                            assert(acc2[j] == (k, v));
                            lemma_ground_lift(h, (top - j) as nat, k);
                            lemma_ground_lift(h, (top - j) as nat, v);
                        } else {
                            assert(acc2[j] == acc[j]);
                        }
                    }
                },
            }
            lemma_entries_produce(h, m, es.drop_first(), acc2, top, i + 1);
        }
    }
}

proof fn lemma_entries_rebuild(g: nat, es: Seq<(Value, Value)>, acc: Seq<(Value, Value)>)
    requires
        distinct_keys(acc + es),
        forall|t: int|
            #![trigger es[t]]
            0 <= t < es.len() ==> g >= t + 1 && ground((g - 1 - t) as nat, es[t].0) && ground(
                (g - 1 - t) as nat,
                es[t].1,
            ),
        g > es.len(),
    ensures
        reify_entries(g, Map::empty(), es, acc) == Some(acc + es),
    decreases es.len(),
{
    if es.len() == 0 {
        assert(acc + es =~= acc);
    } else {
        let k = es[0].0;
        let v = es[0].1;
        assert(ground((g - 1) as nat, k));
        assert(ground((g - 1) as nat, v));
        lemma_key_index(acc, k);
        assert(key_index(acc, k) is None) by {
            if let Some(p) = key_index(acc, k) {
                assert((acc + es)[p] == acc[p]);
                assert((acc + es)[acc.len() as int] == es[0]);
            }
        }
        let acc2 = acc.push(es[0]);
        assert(entries_insert(acc, k, v) == acc2);
        assert(acc2 + es.drop_first() =~= acc + es);
        assert forall|t: int| #![trigger es.drop_first()[t]] 0 <= t < es.drop_first().len() implies (
        g - 1) >= t + 1 && ground((g - 1 - 1 - t) as nat, es.drop_first()[t].0) && ground(
            (g - 1 - 1 - t) as nat,
            es.drop_first()[t].1,
        ) by {
            assert(es.drop_first()[t] == es[t + 1]);
        }
        lemma_entries_rebuild((g - 1) as nat, es.drop_first(), acc2);
    }
}

/// What reification gives holds no variable: reifying it again with no
/// bindings at all gives it back unchanged.
pub proof fn law_reified_is_ground(f: nat, m: Map<VarId, Value>, v: Value)
    requires
        bindings_wf(m),
    ensures
        match reify(f, m, v) {
            Some(r) => reify(f, Map::empty(), r) == Some(r),
            None => true,
        },
{
    lemma_reify_ground(f, m, v);
}

/// Every answer of a query is fully resolved: it holds no variable.
pub proof fn law_query_answers_are_ground(f: nat, g: Goal, v: Value)
    ensures
        forall|i: int|
            0 <= i < query(f, g, v).len() ==> #[trigger] reify(
                f,
                Map::empty(),
                query(f, g, v)[i],
            ) == Some(query(f, g, v)[i]),
{
    let s0 = empty_state();
    lemma_empty_wf();
    assert(s0.values == Map::<VarId, Value>::empty());
    law_apply_keeps_bindings(f, g, s0);
    let ss = states_of(f, apply(f, g, s0));
    if let Some(s1) = apply(f, g, s0) {
        law_states_keep_bindings(f, s1);
    }
    law_answers_from_ready_states(f, ss, v, Seq::empty());
    let res = query(f, g, v);
    assert(res == answers(f, ss, v, Seq::empty()));
    assert forall|i: int| 0 <= i < res.len() implies #[trigger] reify(f, Map::empty(), res[i])
        == Some(res[i]) by {
        let j = choose|j: int|
            #![trigger ss[j]]
            0 <= j < ss.len() && crate::kernel::semantics::ready(ss[j]) && reify(
                f,
                ss[j].values,
                v,
            ) == Some(res[i]);
        assert(extends(apply(f, g, s0)->0, ss[j]));
        lemma_reify_ground(f, ss[j].values, v);
    }
}

} // verus!
