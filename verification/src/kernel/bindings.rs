//! Variable bindings: following a chain of variable-to-variable bindings to
//! the value at its end.
use crate::value::{LVar, Value, VarId};
use vstd::prelude::*;

verus! {

/// The value is a variable that has a binding.
pub open spec fn bound(m: Map<VarId, Value>, v: Value) -> bool {
    match v {
        Value::Var(x) => m.contains_key(x.id),
        Value::Resolved(_) => false,
    }
}

/// Follow at most `n` bindings from `v`.
pub open spec fn walk(m: Map<VarId, Value>, v: Value, n: nat) -> Value
    decreases n,
{
    if n == 0 {
        v
    } else {
        match v {
            Value::Var(x) => if m.contains_key(x.id) {
                walk(m, m[x.id], (n - 1) as nat)
            } else {
                v
            },
            Value::Resolved(_) => v,
        }
    }
}

/// Following at most `n` bindings from `v` reaches a value without binding.
pub open spec fn rooted(m: Map<VarId, Value>, v: Value, n: nat) -> bool {
    !bound(m, walk(m, v, n))
}

/// Every chain of bindings ends: the bindings hold no cycle.
pub open spec fn bindings_wf(m: Map<VarId, Value>) -> bool {
    &&& m.dom().finite()
    &&& forall|x: VarId| #[trigger]
        m.contains_key(x) ==> exists|n: nat| rooted(m, Value::Var(LVar { id: x }), n)
}

/// The value at the end of the chain of bindings that starts at `v`: a
/// resolved value or a variable without binding.
pub open spec fn resolve_spec(m: Map<VarId, Value>, v: Value) -> Value {
    if exists|n: nat| rooted(m, v, n) {
        walk(m, v, choose|n: nat| rooted(m, v, n))
    } else {
        v
    }
}

/// Once a walk reaches a value without binding, walking further changes
/// nothing.
pub proof fn lemma_walk_stable(m: Map<VarId, Value>, v: Value, n: nat, n2: nat)
    requires
        rooted(m, v, n),
        n <= n2,
    ensures
        walk(m, v, n2) == walk(m, v, n),
        rooted(m, v, n2),
    decreases n,
{
    if n == 0 {
        lemma_walk_unbound(m, v, n2);
    } else {
        match v {
            Value::Var(x) => {
                if m.contains_key(x.id) {
                    lemma_walk_stable(m, m[x.id], (n - 1) as nat, (n2 - 1) as nat);
                }
            },
            Value::Resolved(_) => {},
        }
    }
}

/// Walking from a value without binding stays there.
pub proof fn lemma_walk_unbound(m: Map<VarId, Value>, v: Value, n: nat)
    requires
        !bound(m, v),
    ensures
        walk(m, v, n) == v,
{
}

/// In well formed bindings, every value resolves to a value without binding.
pub proof fn lemma_resolve(m: Map<VarId, Value>, v: Value)
    requires
        bindings_wf(m),
    ensures
        exists|n: nat| rooted(m, v, n),
        !bound(m, resolve_spec(m, v)),
        !bound(m, v) ==> resolve_spec(m, v) == v,
{
    if bound(m, v) {
        let x = v->Var_0;
        assert(m.contains_key(x.id));
        assert(v == Value::Var(LVar { id: x.id }));
    } else {
        assert(rooted(m, v, 0));
        let n = choose|n: nat| rooted(m, v, n);
        lemma_walk_unbound(m, v, n);
    }
}

/// Resolving a bound variable is resolving its binding.
pub proof fn lemma_resolve_step(m: Map<VarId, Value>, x: VarId)
    requires
        bindings_wf(m),
        m.contains_key(x),
    ensures
        resolve_spec(m, Value::Var(LVar { id: x })) == resolve_spec(m, m[x]),
{
    let v = Value::Var(LVar { id: x });
    lemma_resolve(m, v);
    lemma_resolve(m, m[x]);
    let n = choose|n: nat| rooted(m, v, n);
    let n2 = choose|n: nat| rooted(m, m[x], n);
    assert(n > 0);
    assert(rooted(m, m[x], (n - 1) as nat));
    if n - 1 <= n2 {
        lemma_walk_stable(m, m[x], (n - 1) as nat, n2);
    } else {
        lemma_walk_stable(m, m[x], n2, (n - 1) as nat);
    }
}

/// Binding a variable without binding to a value without binding keeps the
/// bindings free of cycles, and changes the resolution of exactly those
/// values that resolved to that variable.
pub proof fn lemma_bind(m: Map<VarId, Value>, k: VarId, val: Value)
    requires
        bindings_wf(m),
        !m.contains_key(k),
        !bound(m, val),
        val != Value::Var(LVar { id: k }),
    ensures
        bindings_wf(m.insert(k, val)),
        forall|v: Value| #[trigger]
            resolve_spec(m.insert(k, val), v) == (if resolve_spec(m, v) == Value::Var(
                LVar { id: k },
            ) {
                val
            } else {
                resolve_spec(m, v)
            }),
{
    let m2 = m.insert(k, val);
    assert forall|x: VarId| #[trigger] m2.contains_key(x) implies exists|n: nat|
        rooted(m2, Value::Var(LVar { id: x }), n) by {
        let v = Value::Var(LVar { id: x });
        lemma_resolve(m, v);
        let n = choose|n: nat| rooted(m, v, n);
        lemma_walk_bind(m, k, val, v, n);
    }
    assert forall|v: Value| #[trigger]
        resolve_spec(m2, v) == (if resolve_spec(m, v) == Value::Var(LVar { id: k }) {
            val
        } else {
            resolve_spec(m, v)
        }) by {
        lemma_resolve(m, v);
        let n = choose|n: nat| rooted(m, v, n);
        lemma_walk_bind(m, k, val, v, n);
        assert(exists|n: nat| rooted(m2, v, n));
        let n2 = choose|n: nat| rooted(m2, v, n);
        if walk(m, v, n) == Value::Var(LVar { id: k }) {
            if n + 1 <= n2 {
                lemma_walk_stable(m2, v, n + 1, n2);
            } else {
                lemma_walk_stable(m2, v, n2, n + 1);
            }
        } else {
            if n <= n2 {
                lemma_walk_stable(m2, v, n, n2);
            } else {
                lemma_walk_stable(m2, v, n2, n);
            }
        }
    }
}

proof fn lemma_walk_bind(m: Map<VarId, Value>, k: VarId, val: Value, v: Value, n: nat)
    requires
        !m.contains_key(k),
        !bound(m, val),
        val != Value::Var(LVar { id: k }),
        rooted(m, v, n),
    ensures
        walk(m, v, n) == Value::Var(LVar { id: k }) ==> rooted(m.insert(k, val), v, n + 1)
            && walk(m.insert(k, val), v, n + 1) == val,
        walk(m, v, n) != Value::Var(LVar { id: k }) ==> rooted(m.insert(k, val), v, n) && walk(
            m.insert(k, val),
            v,
            n,
        ) == walk(m, v, n),
    decreases n,
{
    let m2 = m.insert(k, val);
    if n == 0 {
        if v == Value::Var(LVar { id: k }) {
            assert(walk(m2, v, 1) == walk(m2, val, 0));
            assert(!bound(m2, val));
        }
    } else {
        match v {
            Value::Var(x) => {
                if m.contains_key(x.id) {
                    assert(x.id != k);
                    lemma_walk_bind(m, k, val, m[x.id], (n - 1) as nat);
                } else {
                    lemma_walk_unbound(m, v, n);
                    if x.id == k {
                        assert(v == Value::Var(LVar { id: k }));
                        assert(walk(m2, v, n + 1) == walk(m2, val, n));
                        lemma_walk_unbound(m2, val, n);
                    } else {
                        lemma_walk_unbound(m2, v, n);
                    }
                }
            },
            Value::Resolved(_) => {},
        }
    }
}

} // verus!
