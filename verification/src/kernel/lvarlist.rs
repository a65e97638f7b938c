//! Lists of logical variable ids.
use crate::list::{lemma_list_canonical, lemma_list_from_seq, lemma_list_node, list_from_seq, list_seq, share, List};
use crate::value::{LVar, VarId};
use std::rc::Rc;
use vstd::prelude::*;

verus! {

/// An opaque list of untyped logical variables.
///
/// Used to name the variables a constraint waits for, and returned by
/// `State::vars`.
#[derive(Debug, PartialEq)]
pub struct LVarList {
    ids: Rc<List<VarId>>,
    len: usize,
}

/// The variables a constraint waits for: another name for a list of
/// variables.
pub type VarWatch = LVarList;

impl View for LVarList {
    type V = Seq<VarId>;

    closed spec fn view(&self) -> Seq<VarId> {
        list_seq(*self.ids)
    }
}

impl Clone for LVarList {
    fn clone(&self) -> (res: Self)
        ensures
            res == *self,
    {
        proof {
            use_type_invariant(self);
        }
        LVarList { ids: share(&self.ids), len: self.len }
    }
}

impl LVarList {
    #[verifier::type_invariant]
    closed spec fn inv(self) -> bool {
        list_seq(*self.ids).len() == self.len
    }

    /// The list holding exactly the ids `s`.
    pub closed spec fn from_seq_spec(s: Seq<VarId>) -> LVarList {
        LVarList { ids: Rc::new(list_from_seq(s)), len: s.len() as usize }
    }

    /// The list built from `s` holds exactly `s`.
    pub proof fn lemma_from_seq(s: Seq<VarId>)
        ensures
            Self::from_seq_spec(s)@ == s,
    {
        lemma_list_from_seq(s);
    }

    /// The list of the ids in `v`, in order.
    pub fn from_vec(v: Vec<VarId>) -> (res: LVarList)
        ensures
            res@ == v@,
            res == LVarList::from_seq_spec(v@),
    {
        let mut l: List<VarId> = List::Nil;
        let n = v.len();
        let mut i = n;
        while i > 0
            invariant
                i <= n,
                n == v@.len(),
                list_seq(l) == v@.skip(i as int),
            decreases i,
        {
            i = i - 1;
            let item = v[i];
            proof {
                assert(seq![item] + v@.skip(i + 1) =~= v@.skip(i as int));
            }
            l = List::Cons(item, Rc::new(l));
        }
        proof {
            assert(v@.skip(0) =~= v@);
            lemma_list_canonical(l);
        }
        LVarList { ids: Rc::new(l), len: n }
    }

    /// The ids of the list, in order.
    pub fn to_vec(&self) -> (res: Vec<VarId>)
        ensures
            res@ == self@,
    {
        let mut out: Vec<VarId> = Vec::new();
        let mut cur: &List<VarId> = &*self.ids;
        let ghost all = self@;
        loop
            invariant
                out@ + list_seq(*cur) == all,
            ensures
                out@ == all,
            decreases list_seq(*cur).len(),
        {
            proof {
                lemma_list_node(*cur);
            }
            match cur {
                List::Cons(h, t) => {
                    proof {
                        assert(out@.push(*h) + list_seq(**t) =~= out@ + list_seq(*cur));
                    }
                    out.push(*h);
                    cur = &**t;
                },
                List::Nil => {
                    proof {
                        assert(out@ =~= all);
                    }
                    break;
                },
            }
        }
        out
    }

    /// Create an `LVarList` from a single variable.
    pub fn one(a: &LVar) -> (res: LVarList)
        ensures
            res@ == seq![a.id],
            res == LVarList::from_seq_spec(seq![a.id]),
    {
        let mut v: Vec<VarId> = Vec::new();
        v.push(a.id);
        LVarList::from_vec(v)
    }

    /// Create an `LVarList` from two variables.
    pub fn two(a: &LVar, b: &LVar) -> (res: LVarList)
        ensures
            res@ == seq![a.id, b.id],
            res == LVarList::from_seq_spec(seq![a.id, b.id]),
    {
        let mut v: Vec<VarId> = Vec::new();
        v.push(a.id);
        v.push(b.id);
        proof {
            assert(v@ =~= seq![a.id, b.id]);
        }
        LVarList::from_vec(v)
    }

    /// Returns the number of variables.
    pub fn len(&self) -> (res: usize)
        ensures
            res == self@.len(),
    {
        proof {
            use_type_invariant(self);
        }
        self.len
    }

    /// Returns true if the list holds no variables.
    pub fn is_empty(&self) -> (res: bool)
        ensures
            res == (self@.len() == 0),
    {
        proof {
            use_type_invariant(self);
        }
        self.len == 0
    }
}

} // verus!
