//! A `HashMap`-like data structure with logical keys and values.
use crate::list::{
    lemma_list_canonical, lemma_list_from_seq, list_from_seq, list_seq, share, unrc, lemma_list_node, List,
};
use crate::goals::Goal;
use crate::kernel::constraints::Constraint;
use crate::value::{entry_lists_same, values_same, Term, Value};
use std::rc::Rc;
use vstd::prelude::*;

verus! {

/// A map whose keys and values are logical values. Its entries are kept in
/// insertion order; inserting an existing key replaces its value, so no key
/// occurs twice.
#[derive(Debug, PartialEq)]
pub struct LMap {
    entries: Rc<List<(Value, Value)>>,
}

impl View for LMap {
    type V = Seq<(Value, Value)>;

    closed spec fn view(&self) -> Seq<(Value, Value)> {
        list_seq(*self.entries)
    }
}

/// The position of the first entry whose key is `k`, if any.
pub open spec fn key_index(entries: Seq<(Value, Value)>, k: Value) -> Option<int>
    decreases entries.len(),
{
    if entries.len() == 0 {
        None
    } else if entries[0].0 == k {
        Some(0)
    } else {
        match key_index(entries.drop_first(), k) {
            Some(i) => Some(i + 1),
            None => None,
        }
    }
}

/// `key_index` finds the first entry with the key, and only fails when no
/// entry has it.
pub proof fn lemma_key_index(entries: Seq<(Value, Value)>, k: Value)
    ensures
        match key_index(entries, k) {
            Some(i) => 0 <= i < entries.len() && entries[i].0 == k && forall|j: int|
                0 <= j < i ==> entries[j].0 != k,
            None => forall|j: int| 0 <= j < entries.len() ==> entries[j].0 != k,
        },
    decreases entries.len(),
{
    if entries.len() > 0 {
        lemma_key_index(entries.drop_first(), k);
        if entries[0].0 != k {
            match key_index(entries.drop_first(), k) {
                Some(i) => {
                    assert forall|j: int| 0 <= j < i + 1 implies entries[j].0 != k by {
                        if j > 0 {
                            assert(entries[j] == entries.drop_first()[j - 1]);
                        }
                    }
                },
                None => {
                    assert forall|j: int| 0 <= j < entries.len() implies entries[j].0 != k by {
                        if j > 0 {
                            assert(entries[j] == entries.drop_first()[j - 1]);
                        }
                    }
                },
            }
        }
    }
}

/// The entries after inserting `k => v`: the value of an existing key is
/// replaced in place, a new key is appended.
pub open spec fn entries_insert(entries: Seq<(Value, Value)>, k: Value, v: Value) -> Seq<
    (Value, Value),
> {
    match key_index(entries, k) {
        Some(i) => entries.update(i, (k, v)),
        None => entries.push((k, v)),
    }
}

/// The value stored under `k`, if any.
pub open spec fn entries_get(entries: Seq<(Value, Value)>, k: Value) -> Option<Value> {
    match key_index(entries, k) {
        Some(i) => Some(entries[i].1),
        None => None,
    }
}

/// No two entries share a key.
pub open spec fn distinct_keys(es: Seq<(Value, Value)>) -> bool {
    forall|i: int, j: int| 0 <= i < j < es.len() ==> es[i].0 != es[j].0
}

/// The entries of `s` inserted one after the other into no entries.
pub open spec fn entries_from(s: Seq<(Value, Value)>) -> Seq<(Value, Value)>
    decreases s.len(),
{
    if s.len() == 0 {
        Seq::empty()
    } else {
        let r = entries_from(s.drop_last());
        entries_insert(r, s.last().0, s.last().1)
    }
}

/// Inserting keeps keys distinct.
pub proof fn lemma_insert_distinct(es: Seq<(Value, Value)>, k: Value, v: Value)
    requires
        distinct_keys(es),
    ensures
        distinct_keys(entries_insert(es, k, v)),
{
    lemma_key_index(es, k);
    let es2 = entries_insert(es, k, v);
    match key_index(es, k) {
        Some(p) => {
            assert forall|i: int, j: int| 0 <= i < j < es2.len() implies es2[i].0 != es2[j].0 by {
                assert(es2[i].0 == es[i].0);
                assert(es2[j].0 == es[j].0);
            }
        },
        None => {
            assert forall|i: int, j: int| 0 <= i < j < es2.len() implies es2[i].0 != es2[j].0 by {
                assert(es2[i] == es[i]);
                if j < es.len() {
                    assert(es2[j] == es[j]);
                }
            }
        },
    }
}

impl Clone for LMap {
    fn clone(&self) -> (res: Self)
        ensures
            res == *self,
    {
        self.share()
    }
}

impl LMap {
    #[verifier::type_invariant]
    closed spec fn inv(self) -> bool {
        distinct_keys(list_seq(*self.entries))
    }

    /// The map holding exactly the entries `s`.
    pub closed spec fn from_seq_spec(s: Seq<(Value, Value)>) -> LMap {
        LMap { entries: Rc::new(list_from_seq(s)) }
    }

    /// The map built from `s` holds exactly the entries `s`.
    pub proof fn lemma_from_seq(s: Seq<(Value, Value)>)
        ensures
            Self::from_seq_spec(s)@ == s,
    {
        lemma_list_from_seq(s);
    }

    /// Two maps with the same entries are the same map.
    pub proof fn lemma_ext(a: LMap, b: LMap)
        requires
            a@ == b@,
        ensures
            a == b,
    {
        lemma_list_canonical(unrc(a.entries));
        lemma_list_canonical(unrc(b.entries));
    }

    /// A copy of the map that shares its entries: the same map.
    pub fn share(&self) -> (res: LMap)
        ensures
            res == *self,
    {
        proof {
            use_type_invariant(self);
        }
        LMap { entries: share(&self.entries) }
    }

    /// Whether two maps are the same map (same entries in the same order).
    pub fn same_as(&self, other: &LMap) -> (res: bool)
        ensures
            res == (*self == *other),
        decreases *self,
    {
        entry_lists_same(&*self.entries, &*other.entries)
    }

    /// Create a new, empty map.
    pub fn new() -> (res: LMap)
        ensures
            res@ == Seq::<(Value, Value)>::empty(),
    {
        LMap { entries: Rc::new(List::Nil) }
    }

    /// The map holding the entries of `v` inserted in order: a later entry
    /// with the key of an earlier one replaces its value.
    pub fn from_vec(v: Vec<(Value, Value)>) -> (res: LMap)
        ensures
            res@ == entries_from(v@),
    {
        let mut m = LMap::new();
        let mut i: usize = 0;
        while i < v.len()
            invariant
                i <= v@.len(),
                m@ == entries_from(v@.take(i as int)),
            decreases v.len() - i,
        {
            proof {
                assert(v@.take(i + 1).drop_last() =~= v@.take(i as int));
            }
            m.insert(v[i].0.share(), v[i].1.share());
            i = i + 1;
        }
        proof {
            assert(v@.take(v@.len() as int) =~= v@);
        }
        m
    }

    /// The map holding exactly the entries of `v`, whose keys are distinct.
    fn from_entries(v: Vec<(Value, Value)>) -> (res: LMap)
        requires
            distinct_keys(v@),
        ensures
            res@ == v@,
            res == LMap::from_seq_spec(v@),
    {
        let mut l: List<(Value, Value)> = List::Nil;
        let n = v.len();
        let mut i = n;
        while i > 0
            invariant
                i <= n,
                n == v@.len(),
                list_seq(l) == v@.skip(i as int),
            decreases i,
        {
            i = i - 1;
            let item = (v[i].0.share(), v[i].1.share());
            proof {
                assert(item == v@[i as int]);
                assert(seq![item] + v@.skip(i + 1) =~= v@.skip(i as int));
            }
            l = List::Cons(item, Rc::new(l));
        }
        proof {
            assert(v@.skip(0) =~= v@);
            lemma_list_canonical(l);
        }
        LMap { entries: Rc::new(l) }
    }

    /// The entries of the map, in order; no key occurs twice.
    pub fn to_vec(&self) -> (res: Vec<(Value, Value)>)
        ensures
            res@ == self@,
            distinct_keys(res@),
    {
        proof {
            use_type_invariant(self);
        }
        let mut out: Vec<(Value, Value)> = Vec::new();
        let mut cur: &List<(Value, Value)> = &*self.entries;
        let ghost all = self@;
        loop
            invariant
                out@ + list_seq(*cur) == all,
            ensures
                out@ == all,
            decreases list_seq(*cur).len(),
        {
            proof {
                lemma_list_node(*cur);
            }
            match cur {
                List::Cons(h, t) => {
                    let item = (h.0.share(), h.1.share());
                    proof {
                        assert(item == *h);
                        assert(out@.push(*h) + list_seq(**t) =~= out@ + list_seq(*cur));
                    }
                    out.push(item);
                    cur = &**t;
                },
                List::Nil => {
                    proof {
                        assert(out@ =~= all);
                    }
                    break;
                },
            }
        }
        proof {
            assert(out@ =~= all);
        }
        out
    }

    /// Add a key/value pair: an existing key gets the new value, a new key is
    /// added after the others.
    pub fn insert(&mut self, key: Value, value: Value)
        ensures
            final(self)@ == entries_insert(old(self)@, key, value),
    {
        let mut v = self.to_vec();
        proof {
            lemma_insert_distinct(v@, key, value);
        }
        let found = find_key(&v, &key);
        proof {
            lemma_key_index(v@, key);
        }
        let ghost old_v = v@;
        assert(old_v.len() == v.len());
        match found {
            Some(i) => {
                proof {
                    match key_index(old_v, key) {
                        Some(j) => {
                            assert(0 <= j < old_v.len());
                            assert(j == i as int);
                        },
                        None => {},
                    }
                }
                v.set(i, (key, value));
                assert(v@ == entries_insert(old_v, key, value));
            },
            None => {
                v.push((key, value));
                assert(v@ == entries_insert(old_v, key, value));
            },
        }
        *self = LMap::from_entries(v);
    }

    /// The value stored under `key`, if any.
    pub fn get(&self, key: &Value) -> (res: Option<Value>)
        ensures
            res == entries_get(self@, *key),
    {
        let v = self.to_vec();
        proof {
            lemma_key_index(v@, *key);
        }
        match find_key(&v, key) {
            Some(i) => Some(v[i].1.share()),
            None => None,
        }
    }
}

/// The position of the first entry of `v` whose key is `key`.
pub fn find_key(v: &Vec<(Value, Value)>, key: &Value) -> (res: Option<usize>)
    ensures
        match key_index(v@, *key) {
            Some(i) => res == Some(i as usize),
            None => res is None,
        },
        res matches Some(i) ==> i < v@.len(),
{
    proof {
        lemma_key_index(v@, *key);
    }
    let mut i: usize = 0;
    while i < v.len()
        invariant
            i <= v@.len(),
            forall|j: int| 0 <= j < i ==> v@[j].0 != *key,
        decreases v@.len() - i,
    {
        if values_same(&v[i].0, key) {
            proof {
                lemma_key_index_unique(v@, *key, i as int);
            }
            return Some(i);
        }
        i = i + 1;
    }
    proof {
        lemma_key_index(v@, *key);
    }
    None
}

/// The first entry with the key is the one `key_index` finds.
pub proof fn lemma_key_index_unique(entries: Seq<(Value, Value)>, k: Value, i: int)
    requires
        0 <= i < entries.len(),
        entries[i].0 == k,
        forall|j: int| 0 <= j < i ==> entries[j].0 != k,
    ensures
        key_index(entries, k) == Some(i),
{
    lemma_key_index(entries, k);
    match key_index(entries, k) {
        Some(m) => {
            if m < i {
            } else if m > i {
            }
        },
        None => {},
    }
}

} // verus!

verus! {

/// A goal asserting that every entry of the map `a` unifies with an entry of
/// the map `b`. Create with `lmap::subset`.
#[derive(Debug, Clone)]
pub struct MapSubset {
    pub a: Value,
    pub b: Value,
}

/// The alternatives for one entry of a map that has no equal key in the
/// other map: each entry of `b_map` it could unify with.
#[derive(Debug, Clone)]
pub struct LMapFork {
    pub a_key: Value,
    pub a_value: Value,
    pub b_map: LMap,
}

} // verus!

verus! {

/// A goal that succeeds for each way every entry of the map `a` unifies
/// with an entry of the map `b`.
pub fn subset(a: Value, b: Value) -> (res: Goal)
    ensures
        res == Goal::Constraint(Rc::new(Constraint::MapSubset(MapSubset { a, b }))),
{
    Goal::Constraint(Rc::new(Constraint::MapSubset(MapSubset { a, b })))
}

/// A goal that succeeds for each way every entry of the map `b` unifies
/// with an entry of the map `a`.
pub fn superset(a: Value, b: Value) -> (res: Goal)
    ensures
        res == Goal::Constraint(Rc::new(Constraint::MapSubset(MapSubset { a: b, b: a }))),
{
    subset(b, a)
}

/// A goal that succeeds for each entry of the map `b` that `key` and `value`
/// unify with.
pub fn get(key: Value, value: Value, b: Value) -> (res: Goal)
    ensures
        res == Goal::Constraint(
            Rc::new(
                Constraint::MapSubset(
                    MapSubset {
                        a: Value::Resolved(
                            Rc::new(Term::LMap(LMap::from_seq_spec(seq![(key, value)]))),
                        ),
                        b,
                    },
                ),
            ),
        ),
{
    let mut m = LMap::new();
    m.insert(key, value);
    proof {
        LMap::lemma_from_seq(seq![(key, value)]);
        LMap::lemma_ext(m, LMap::from_seq_spec(seq![(key, value)]));
    }
    subset(Value::Resolved(Rc::new(Term::LMap(m))), b)
}

} // verus!

verus! {

/// Reading a key back after inserting it gives the inserted value, and
/// inserting leaves what every other key reads unchanged.
pub proof fn law_insert_then_get(es: Seq<(Value, Value)>, k: Value, v: Value, other: Value)
    ensures
        entries_get(entries_insert(es, k, v), k) == Some(v),
        other != k ==> entries_get(entries_insert(es, k, v), other) == entries_get(es, other),
{
    lemma_key_index(es, k);
    lemma_key_index(es, other);
    let es2 = entries_insert(es, k, v);
    lemma_key_index(es2, k);
    lemma_key_index(es2, other);
    match key_index(es, k) {
        Some(i) => {
            assert(es2[i].0 == k);
            match key_index(es2, k) {
                Some(j) => {
                    if j < i {
                        assert(es2[j] == es[j]);
                    }
                },
                None => {},
            }
            if other != k {
                match key_index(es, other) {
                    Some(j) => {
                        assert(es2[j] == es[j]);
                        match key_index(es2, other) {
                            Some(j2) => {
                                if j2 != i {
                                    assert(es2[j2] == es[j2]);
                                }
                            },
                            None => {},
                        }
                    },
                    None => {
                        match key_index(es2, other) {
                            Some(j2) => {
                                if j2 != i {
                                    assert(es2[j2] == es[j2]);
                                }
                            },
                            None => {},
                        }
                    },
                }
            }
        },
        None => {
            assert(es2[es.len() as int].0 == k);
            match key_index(es2, k) {
                Some(j) => {
                    if j < es.len() {
                        assert(es2[j] == es[j]);
                    }
                },
                None => {},
            }
            if other != k {
                match key_index(es, other) {
                    Some(j) => {
                        assert(es2[j] == es[j]);
                        match key_index(es2, other) {
                            Some(j2) => {
                                if j2 < es.len() {
                                    assert(es2[j2] == es[j2]);
                                }
                            },
                            None => {},
                        }
                    },
                    None => {
                        match key_index(es2, other) {
                            Some(j2) => {
                                if j2 < es.len() {
                                    assert(es2[j2] == es[j2]);
                                }
                            },
                            None => {},
                        }
                    },
                }
            }
        },
    }
}

} // verus!
