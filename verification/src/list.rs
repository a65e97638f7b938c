//! An immutable, shareable singly linked list.
//!
//! Logical values, goals and variable lists are built from these lists so
//! that a copy of a value is the very same value: cloning only shares the
//! `Rc` nodes.
use std::rc::Rc;
use vstd::prelude::*;

verus! {

/// A persistent cons list.
#[derive(Debug, PartialEq, Clone)]
pub enum List<T> {
    Nil,
    Cons(T, Rc<List<T>>),
}

/// The value behind an `Rc`.
pub open spec fn unrc<T>(r: Rc<T>) -> T {
    *r
}

/// The elements of a list, front to back.
pub open spec fn list_seq<T>(l: List<T>) -> Seq<T>
    decreases l,
{
    match l {
        List::Nil => Seq::empty(),
        List::Cons(h, t) => seq![h] + list_seq(*t),
    }
}

/// The canonical list holding the elements of `s`.
pub open spec fn list_from_seq<T>(s: Seq<T>) -> List<T>
    decreases s.len(),
{
    if s.len() == 0 {
        List::Nil
    } else {
        List::Cons(s[0], Rc::new(list_from_seq(s.drop_first())))
    }
}

impl<T> View for List<T> {
    type V = Seq<T>;

    open spec fn view(&self) -> Seq<T> {
        list_seq(*self)
    }
}

/// Unfolding one node of a list.
pub proof fn lemma_list_node<T>(l: List<T>)
    ensures
        match l {
            List::Nil => list_seq(l) == Seq::<T>::empty(),
            List::Cons(h, t) => list_seq(l) == seq![h] + list_seq(*t) && list_seq(l).len() > 0
                && list_seq(l)[0] == h && list_seq(*t) == list_seq(l).drop_first(),
        },
{
    match l {
        List::Nil => {},
        List::Cons(h, t) => {
            assert(list_seq(l) == seq![h] + list_seq(*t));
            assert(list_seq(*t) =~= list_seq(l).drop_first());
        },
    }
}

/// The list built from `s` holds exactly `s`.
pub proof fn lemma_list_from_seq<T>(s: Seq<T>)
    ensures
        list_seq(list_from_seq(s)) == s,
    decreases s.len(),
{
    if s.len() > 0 {
        lemma_list_from_seq(s.drop_first());
        assert(list_seq(list_from_seq(s)) =~= s);
    }
}

/// A list is the list built from its elements.
pub proof fn lemma_list_canonical<T>(l: List<T>)
    ensures
        list_from_seq(list_seq(l)) == l,
    decreases l,
{
    match l {
        List::Nil => {},
        List::Cons(h, t) => {
            lemma_list_canonical(unrc(t));
            let s = list_seq(l);
            assert(s.drop_first() =~= list_seq(*t));
        },
    }
}

/// The list holding the elements of `v`, in order.
pub fn list_from_vec<T>(v: Vec<T>) -> (res: List<T>)
    ensures
        res == list_from_seq(v@),
{
    let ghost all = v@;
    let mut v = v;
    let mut l: List<T> = List::Nil;
    proof {
        assert(all.subrange(all.len() as int, all.len() as int) =~= Seq::<T>::empty());
    }
    while v.len() > 0
        invariant
            v@.len() <= all.len(),
            v@ == all.subrange(0, v@.len() as int),
            l == list_from_seq(all.subrange(v@.len() as int, all.len() as int)),
        decreases v.len(),
    {
        let ghost n = v@.len();
        let ghost before = v@;
        let x = v.pop();
        match x {
            Some(h) => {
                proof {
                    let rest = all.subrange(n as int, all.len() as int);
                    assert(h == all[n - 1]);
                    assert(all.subrange(n - 1, all.len() as int) =~= seq![h] + rest);
                    assert((seq![h] + rest).drop_first() =~= rest);
                    assert(v@ =~= all.subrange(0, n - 1));
                }
                l = List::Cons(h, Rc::new(l));
            },
            None => {},
        }
    }
    proof {
        assert(all.subrange(0, all.len() as int) =~= all);
    }
    l
}

/// Share an `Rc`: the copy is the same value.
#[verifier::external_body]
pub fn share<T>(r: &Rc<T>) -> (res: Rc<T>)
    ensures
        res == *r,
{
    Rc::clone(r)
}

} // verus!
