//! Logical variables and the values they can be bound to.
use crate::collections::lmap::LMap;
use crate::collections::lvec::LVec;
use crate::list::{
    share, List,
};
use std::rc::Rc;
use vstd::prelude::*;

verus! {

/// The identity of a logical variable.
pub type VarId = usize;

/// A logical variable.
///
/// Its identity is the `id`; two variables with the same id are the same
/// variable. Fresh ids come from an [`LVarSource`].
#[derive(Debug, Clone, Copy, PartialEq, Eq, Structural, Hash)]
pub struct LVar {
    pub id: VarId,
}

/// A supply of fresh logical variables: every variable it hands out has an id
/// that it never handed out before.
#[derive(Debug)]
pub struct LVarSource {
    next: VarId,
}

impl LVarSource {
    /// The ids this source has not handed out yet start here.
    pub closed spec fn next_id(&self) -> nat {
        self.next as nat
    }

    /// Ids start at 1, so a source never hands out 0.
    #[verifier::type_invariant]
    closed spec fn inv(self) -> bool {
        self.next >= 1
    }

    /// A new source; its first variable has id 1.
    pub fn new() -> (res: LVarSource)
        ensures
            res.next_id() == 1,
    {
        LVarSource { next: 1 }
    }

    /// Take the next fresh variable.
    pub fn fresh(&mut self) -> (res: LVar)
        requires
            old(self).next_id() < usize::MAX,
        ensures
            res.id == old(self).next_id(),
            res.id >= 1,
            final(self).next_id() == old(self).next_id() + 1,
    {
        proof {
            use_type_invariant(&*self);
        }
        let mut next = self.next;
        let id = get_id(&mut next);
        self.next = next;
        LVar { id }
    }
}

/// Hand out the current id of a counter and advance it.
pub fn get_id(counter: &mut VarId) -> (res: VarId)
    requires
        *old(counter) < usize::MAX,
    ensures
        res == *old(counter),
        *final(counter) == *old(counter) + 1,
{
    let id = *counter;
    *counter = *counter + 1;
    id
}

impl LVar {
    /// Create a new logical variable taken from `source`.
    pub fn new(source: &mut LVarSource) -> (res: LVar)
        requires
            old(source).next_id() < usize::MAX,
        ensures
            res.id == old(source).next_id(),
            res.id >= 1,
            final(source).next_id() == old(source).next_id() + 1,
    {
        source.fresh()
    }
}

/// A resolved value: an integer, a vector or map of logical values, or a
/// half-open range of indices.
#[derive(Debug, PartialEq, Clone)]
pub enum Term {
    Int(i64),
    LVec(LVec),
    LMap(LMap),
    Range(usize, usize),
}

/// Either a logical variable or a resolved value.
#[derive(Debug, PartialEq, Clone)]
pub enum Value {
    Var(LVar),
    Resolved(Rc<Term>),
}

impl Value {
    /// A resolved value wrapping `t`.
    pub fn new(t: Term) -> (res: Value)
        ensures
            res == Value::Resolved(Rc::new(t)),
    {
        Value::Resolved(Rc::new(t))
    }

    /// A resolved integer.
    pub fn of_int(n: i64) -> (res: Value)
        ensures
            res == Value::Resolved(Rc::new(Term::Int(n))),
    {
        Value::Resolved(Rc::new(Term::Int(n)))
    }

    /// A fresh variable taken from `source`.
    pub fn var(source: &mut LVarSource) -> (res: Value)
        requires
            old(source).next_id() < usize::MAX,
        ensures
            res == Value::Var(LVar { id: old(source).next_id() as usize }),
            old(source).next_id() >= 1,
            final(source).next_id() == old(source).next_id() + 1,
    {
        proof {
            use_type_invariant(&*source);
        }
        Value::Var(LVar::new(source))
    }

    /// The variable `v` as a value.
    pub fn from_var(v: LVar) -> (res: Value)
        ensures
            res == Value::Var(v),
    {
        Value::Var(v)
    }

    /// The resolved term, if this value is not a variable.
    pub fn resolved(&self) -> (res: Option<&Term>)
        ensures
            res == (match *self {
                Value::Var(_) => None,
                Value::Resolved(t) => Some(&*t),
            }),
    {
        match self {
            Value::Var(_) => None,
            Value::Resolved(t) => Some(&**t),
        }
    }

    /// A copy of the value that shares its contents: it is the same value.
    pub fn share(&self) -> (res: Value)
        ensures
            res == *self,
    {
        match self {
            Value::Var(v) => Value::Var(*v),
            Value::Resolved(t) => Value::Resolved(share(t)),
        }
    }

    /// Whether the value is a variable.
    pub fn is_var(&self) -> (res: bool)
        ensures
            res == (*self is Var),
    {
        match self {
            Value::Var(_) => true,
            Value::Resolved(_) => false,
        }
    }
}


/// Whether two values are the same value (structural equality).
pub fn values_same(a: &Value, b: &Value) -> (res: bool)
    ensures
        res == (*a == *b),
    decreases *a,
{
    match (a, b) {
        (Value::Var(x), Value::Var(y)) => x.id == y.id,
        (Value::Resolved(ta), Value::Resolved(tb)) => terms_same(&**ta, &**tb),
        _ => false,
    }
}

/// Whether two terms are the same term (structural equality).
pub fn terms_same(a: &Term, b: &Term) -> (res: bool)
    ensures
        res == (*a == *b),
    decreases *a,
{
    match (a, b) {
        (Term::Int(x), Term::Int(y)) => *x == *y,
        (Term::Range(s1, e1), Term::Range(s2, e2)) => *s1 == *s2 && *e1 == *e2,
        (Term::LVec(x), Term::LVec(y)) => x.same_as(y),
        (Term::LMap(x), Term::LMap(y)) => x.same_as(y),
        _ => false,
    }
}

/// Whether two lists of values are the same list.
pub fn value_lists_same(a: &List<Value>, b: &List<Value>) -> (res: bool)
    ensures
        res == (*a == *b),
    decreases *a,
{
    match (a, b) {
        (List::Nil, List::Nil) => true,
        (List::Cons(ha, ta), List::Cons(hb, tb)) => {
            if values_same(ha, hb) {
                value_lists_same(&**ta, &**tb)
            } else {
                false
            }
        },
        _ => false,
    }
}

/// Whether two lists of key/value pairs are the same list.
pub fn entry_lists_same(a: &List<(Value, Value)>, b: &List<(Value, Value)>) -> (res: bool)
    ensures
        res == (*a == *b),
    decreases *a,
{
    match (a, b) {
        (List::Nil, List::Nil) => true,
        (List::Cons(ha, ta), List::Cons(hb, tb)) => {
            if values_same(&ha.0, &hb.0) && values_same(&ha.1, &hb.1) {
                entry_lists_same(&**ta, &**tb)
            } else {
                false
            }
        },
        _ => false,
    }
}

/// A list of values whose nodes are shared with `l`: the same list.
pub fn share_values(l: &Rc<List<Value>>) -> (res: Rc<List<Value>>)
    ensures
        res == *l,
{
    share(l)
}

} // verus!
