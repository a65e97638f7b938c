//! A `Vec`-like data structure with logical values.
use crate::list::{
    lemma_list_canonical, lemma_list_from_seq, list_from_seq, list_seq, share, unrc, lemma_list_node, List,
};
use crate::goals::Goal;
use crate::kernel::constraints::Constraint;
use crate::value::{value_lists_same, Term, Value};
use std::rc::Rc;
use vstd::prelude::*;

verus! {

/// A `Vec`-like data structure whose items are logical values.
#[derive(Debug, PartialEq)]
pub struct LVec {
    items: Rc<List<Value>>,
    len: usize,
}

impl View for LVec {
    type V = Seq<Value>;

    closed spec fn view(&self) -> Seq<Value> {
        list_seq(*self.items)
    }
}

impl Clone for LVec {
    fn clone(&self) -> (res: Self)
        ensures
            res == *self,
            res == LVec::from_seq_spec(self@),
    {
        proof {
            use_type_invariant(self);
            LVec::lemma_from_seq(self@);
            LVec::lemma_ext(*self, LVec::from_seq_spec(self@));
        }
        LVec { items: share(&self.items), len: self.len }
    }
}

impl LVec {
    #[verifier::type_invariant]
    closed spec fn inv(self) -> bool {
        list_seq(*self.items).len() == self.len
    }

    /// The vector holding exactly the values of `s`.
    pub closed spec fn from_seq_spec(s: Seq<Value>) -> LVec {
        LVec { items: Rc::new(list_from_seq(s)), len: s.len() as usize }
    }

    /// The stored length.
    pub closed spec fn len_spec(self) -> usize {
        self.len
    }

    /// Two vectors with the same items are the same vector.
    pub proof fn lemma_ext(a: LVec, b: LVec)
        requires
            a@ == b@,
            a.len_spec() == b.len_spec(),
        ensures
            a == b,
    {
        lemma_list_canonical(unrc(a.items));
        lemma_list_canonical(unrc(b.items));
    }

    /// The vector built from `s` holds exactly `s`.
    pub proof fn lemma_from_seq(s: Seq<Value>)
        ensures
            Self::from_seq_spec(s)@ == s,
    {
        lemma_list_from_seq(s);
    }


    /// Whether two vectors are the same vector.
    pub fn same_as(&self, other: &LVec) -> (res: bool)
        ensures
            res == (*self == *other),
        decreases *self,
    {
        proof {
            use_type_invariant(self);
            use_type_invariant(other);
        }
        if self.len != other.len {
            return false;
        }
        value_lists_same(&*self.items, &*other.items)
    }

    /// Create a new, empty vector.
    pub fn new() -> (res: LVec)
        ensures
            res@ == Seq::<Value>::empty(),
            res == LVec::from_seq_spec(Seq::empty()),
    {
        LVec { items: Rc::new(List::Nil), len: 0 }
    }

    /// Returns the number of elements in the vector.
    pub fn len(&self) -> (res: usize)
        ensures
            res == self@.len(),
    {
        proof {
            use_type_invariant(self);
        }
        self.len
    }

    /// Returns true if the vector contains no elements.
    pub fn is_empty(&self) -> (res: bool)
        ensures
            res == (self@.len() == 0),
    {
        proof {
            use_type_invariant(self);
        }
        self.len == 0
    }

    /// The vector holding the values of `v`, in order.
    pub fn from_vec(v: Vec<Value>) -> (res: LVec)
        ensures
            res@ == v@,
            res == LVec::from_seq_spec(v@),
    {
        let mut l: List<Value> = List::Nil;
        let n = v.len();
        let mut i = n;
        while i > 0
            invariant
                i <= n,
                n == v@.len(),
                list_seq(l) == v@.skip(i as int),
            decreases i,
        {
            i = i - 1;
            let item = v[i].share();
            proof {
                assert(seq![item] + v@.skip(i + 1) =~= v@.skip(i as int));
            }
            l = List::Cons(item, Rc::new(l));
        }
        proof {
            assert(v@.skip(0) =~= v@);
            lemma_list_canonical(l);
        }
        LVec { items: Rc::new(l), len: n }
    }

    /// The values of the vector, in order.
    pub fn to_vec(&self) -> (res: Vec<Value>)
        ensures
            res@ == self@,
    {
        proof {
            use_type_invariant(self);
        }
        let mut out: Vec<Value> = Vec::new();
        let mut cur: &List<Value> = &*self.items;
        let ghost all = self@;
        loop
            invariant
                out@ + list_seq(*cur) == all,
            ensures
                out@ == all,
            decreases list_seq(*cur).len(),
        {
            proof {
                lemma_list_node(*cur);
            }
            match cur {
                List::Cons(h, t) => {
                    proof {
                        assert(out@.push(*h) + list_seq(**t) =~= out@ + list_seq(*cur));
                    }
                    out.push(h.share());
                    cur = &**t;
                },
                List::Nil => {
                    proof {
                        assert(out@ =~= all);
                    }
                    break;
                },
            }
        }
        proof {
            assert(out@ =~= all);
        }
        out
    }

    /// Add a value at the end of the vector.
    pub fn push(&mut self, value: Value)
        requires
            old(self)@.len() < usize::MAX,
        ensures
            final(self)@ == old(self)@.push(value),
    {
        let mut v = self.to_vec();
        v.push(value);
        *self = LVec::from_vec(v);
    }

    /// The item at `index`, if there is one.
    pub fn get(&self, index: usize) -> (res: Option<Value>)
        ensures
            res == (if index < self@.len() {
                Some(self@[index as int])
            } else {
                None
            }),
    {
        proof {
            use_type_invariant(self);
        }
        if index >= self.len {
            return None;
        }
        let mut cur: &List<Value> = &*self.items;
        let mut i: usize = 0;
        while i < index
            invariant
                i <= index,
                index < self@.len(),
                list_seq(*cur) == self@.skip(i as int),
            decreases index - i,
        {
            proof {
                lemma_list_node(*cur);
            }
            match cur {
                List::Cons(_, t) => {
                    proof {
                        assert(list_seq(**t) =~= self@.skip(i + 1));
                    }
                    cur = &**t;
                },
                List::Nil => {
                    proof {
                        assert(false);
                    }
                },
            }
            i = i + 1;
        }
        proof {
            lemma_list_node(*cur);
        }
        match cur {
            List::Cons(h, _) => Some(h.share()),
            List::Nil => None,
        }
    }

    /// The vector of the items in `start..end`, if that range lies within the
    /// vector.
    pub fn slice(&self, start: usize, end: usize) -> (res: Option<LVec>)
        ensures
            res == (if start <= end && end <= self@.len() {
                Some(LVec::from_seq_spec(self@.subrange(start as int, end as int)))
            } else {
                None
            }),
    {
        proof {
            use_type_invariant(self);
        }
        if start <= end && end <= self.len {
            let v = self.to_vec();
            let mut out: Vec<Value> = Vec::new();
            let mut i = start;
            while i < end
                invariant
                    start <= i <= end,
                    end <= v@.len(),
                    out@ == v@.subrange(start as int, i as int),
                decreases end - i,
            {
                out.push(v[i].share());
                proof {
                    assert(out@ =~= v@.subrange(start as int, i + 1));
                }
                i = i + 1;
            }
            Some(LVec::from_vec(out))
        } else {
            None
        }
    }
}

} // verus!

verus! {

/// A goal that unifies `item` with the item at position `index` of the
/// vector `collection`. Create with `get`.
#[derive(Debug, Clone)]
pub struct Get {
    pub item: Value,
    pub index: Value,
    pub collection: Value,
}

/// A goal that unifies the vector `part` with the items of the vector
/// `collection` in the range `range`. Create with `slice`.
#[derive(Debug, Clone)]
pub struct Slice {
    pub slice: Value,
    pub range: Value,
    pub collection: Value,
}

/// A goal asserting that the vector `subset` unifies with a contiguous run of
/// items of the vector `collection`. Create with `subset`.
#[derive(Debug, Clone)]
pub struct Subset {
    pub subset: Value,
    pub collection: Value,
}

} // verus!

verus! {

/// A goal that unifies `item` with the item at position `index` of the
/// vector `collection`, once both `index` and `collection` are resolved; it
/// fails if the position is out of range.
pub fn get(item: Value, index: Value, collection: Value) -> (res: Goal)
    ensures
        res == Goal::Constraint(Rc::new(Constraint::Get(Get { item, index, collection }))),
{
    Goal::Constraint(Rc::new(Constraint::Get(Get { item, index, collection })))
}

/// A goal that unifies the vector `part` with the items of the vector
/// `collection` in `range`, once both are resolved; it fails if the range
/// does not lie within the vector.
pub fn slice(part: Value, range: Value, collection: Value) -> (res: Goal)
    ensures
        res == Goal::Constraint(Rc::new(Constraint::Slice(Slice { slice: part, range, collection }))),
{
    Goal::Constraint(Rc::new(Constraint::Slice(Slice { slice: part, range, collection })))
}

/// A goal that yields a state for each run of consecutive items of the
/// vector `collection` that the vector `part` unifies with.
pub fn subset(part: Value, collection: Value) -> (res: Goal)
    ensures
        res == Goal::Constraint(Rc::new(Constraint::Subset(Subset { subset: part, collection }))),
{
    Goal::Constraint(Rc::new(Constraint::Subset(Subset { subset: part, collection })))
}

} // verus!

verus! {

/// The value holds no map, at any depth.
pub closed spec fn value_map_free(v: Value) -> bool
    decreases v,
{
    match v {
        Value::Var(_) => true,
        Value::Resolved(t) => match *t {
            Term::LMap(_) => false,
            Term::LVec(l) => items_map_free(*l.items),
            _ => true,
        },
    }
}

/// No value of the list holds a map.
pub closed spec fn items_map_free(l: List<Value>) -> bool
    decreases l,
{
    match l {
        List::Nil => true,
        List::Cons(h, t) => value_map_free(h) && items_map_free(*t),
    }
}

proof fn lemma_items_map_free(s: Seq<Value>)
    ensures
        items_map_free(list_from_seq(s)) <==> forall|i: int|
            0 <= i < s.len() ==> #[trigger] value_map_free(s[i]),
    decreases s.len(),
{
    if s.len() > 0 {
        lemma_items_map_free(s.drop_first());
        assert(list_from_seq(s) == List::Cons(s[0], Rc::new(list_from_seq(s.drop_first()))));
        if items_map_free(list_from_seq(s)) {
            assert forall|i: int| 0 <= i < s.len() implies #[trigger] value_map_free(s[i]) by {
                if i > 0 {
                    assert(s[i] == s.drop_first()[i - 1]);
                }
            }
        }
        if forall|i: int| 0 <= i < s.len() ==> #[trigger] value_map_free(s[i]) {
            assert forall|i: int| 0 <= i < s.drop_first().len() implies #[trigger] value_map_free(
                s.drop_first()[i],
            ) by {
                assert(s.drop_first()[i] == s[i + 1]);
            }
            assert(value_map_free(s[0]));
        }
    } else {
        assert(list_from_seq(s) == List::<Value>::Nil);
    }
}

/// A vector holds no map exactly when none of its items does; a map holds
/// one; an integer, a range and a variable hold none.
pub proof fn lemma_map_free(v: Value, items: Seq<Value>)
    ensures
        value_map_free(Value::Resolved(Rc::new(Term::LVec(LVec::from_seq_spec(items)))))
            <==> forall|i: int| 0 <= i < items.len() ==> #[trigger] value_map_free(items[i]),
        v matches Value::Resolved(t) && (*t is LMap) ==> !value_map_free(v),
        v matches Value::Resolved(t) && (*t is Int || *t is Range) ==> value_map_free(v),
        v is Var ==> value_map_free(v),
{
    lemma_items_map_free(items);
}

} // verus!
