//! The persistent collections of `im_rc` that hold a state's bindings,
//! watch lists and pending forks, and the other outside calls the kernel
//! makes.
use crate::kernel::fork::Fork;
use crate::kernel::mkmvmap::Entry;
use crate::value::{Value, VarId};
use itertools::Itertools;
use vstd::prelude::*;

verus! {

#[verifier::external_type_specification]
#[verifier::external_body]
#[verifier::reject_recursive_types(K)]
#[verifier::reject_recursive_types(V)]
#[verifier::reject_recursive_types(S)]
pub struct ExImHashMap<K, V, S>(im_rc::HashMap<K, V, S>);

#[verifier::external_type_specification]
#[verifier::external_body]
#[verifier::reject_recursive_types(A)]
#[verifier::reject_recursive_types(S)]
pub struct ExImHashSet<A, S>(im_rc::HashSet<A, S>);

#[verifier::external_type_specification]
#[verifier::external_body]
#[verifier::reject_recursive_types(A)]
pub struct ExImVector<A>(im_rc::Vector<A>);

/// The bindings a map of variable ids to values holds.
pub uninterp spec fn binding_map(m: im_rc::HashMap<VarId, Value>) -> Map<VarId, Value>;

/// The watch lists an index of variable ids to sets of entry ids holds: for
/// each key, the ids its set holds.
pub uninterp spec fn watch_index(m: im_rc::HashMap<VarId, im_rc::HashSet<usize>>) -> Map<
    VarId,
    Set<usize>,
>;

/// The entry ids a set holds.
pub uninterp spec fn id_set(s: im_rc::HashSet<usize>) -> Set<usize>;

/// The entries a map of entry ids to entries holds.
pub uninterp spec fn entry_map(m: im_rc::HashMap<usize, Entry>) -> Map<usize, Entry>;

/// The forks a queue holds, front first.
pub uninterp spec fn fork_queue(v: im_rc::Vector<Fork>) -> Seq<Fork>;

// ---------------------------------------------------------------------------
// Bindings: im_rc::HashMap<VarId, Value>
/// `im_rc::HashMap::new`: an empty map.
#[verifier::external_body]
pub fn bindings_new() -> (res: im_rc::HashMap<VarId, Value>)
    ensures
        binding_map(res).dom() == Set::<VarId>::empty(),
{
    im_rc::HashMap::new()
}

/// `im_rc::HashMap::get`: the value stored under `k`, if any.
#[verifier::external_body]
pub fn bindings_get(m: &im_rc::HashMap<VarId, Value>, k: VarId) -> (res: Option<&Value>)
    ensures
        match res {
            Some(v) => binding_map(*m).contains_key(k) && *v == binding_map(*m)[k],
            None => !binding_map(*m).contains_key(k),
        },
{
    m.get(&k)
}

/// `im_rc::HashMap::insert`: store `v` under `k`, replacing any earlier value.
#[verifier::external_body]
pub fn bindings_insert(m: &mut im_rc::HashMap<VarId, Value>, k: VarId, v: Value)
    ensures
        binding_map(*final(m)) == binding_map(*old(m)).insert(k, v),
{
    m.insert(k, v);
}

/// `im_rc::HashMap::keys`: every key of the map once, in an unspecified
/// order.
#[verifier::external_body]
pub fn bindings_keys(m: &im_rc::HashMap<VarId, Value>) -> (res: Vec<VarId>)
    ensures
        res@.no_duplicates(),
        res@.to_set() == binding_map(*m).dom(),
{
    m.keys().copied().collect()
}

/// `im_rc::HashMap::clone`: a map with the same bindings.
#[verifier::external_body]
pub fn bindings_clone(m: &im_rc::HashMap<VarId, Value>) -> (res: im_rc::HashMap<VarId, Value>)
    ensures
        binding_map(res) == binding_map(*m),
{
    m.clone()
}

// ---------------------------------------------------------------------------
// Watch index: im_rc::HashMap<VarId, im_rc::HashSet<usize>>
/// `im_rc::HashMap::new`: an empty index.
#[verifier::external_body]
pub fn index_new() -> (res: im_rc::HashMap<VarId, im_rc::HashSet<usize>>)
    ensures
        watch_index(res).dom() == Set::<VarId>::empty(),
{
    im_rc::HashMap::new()
}

/// `im_rc::HashMap::get`: the set stored under `k`, if any.
#[verifier::external_body]
pub fn index_get(m: &im_rc::HashMap<VarId, im_rc::HashSet<usize>>, k: VarId) -> (res: Option<
    &im_rc::HashSet<usize>,
>)
    ensures
        match res {
            Some(s) => watch_index(*m).contains_key(k) && id_set(*s) == watch_index(*m)[k],
            None => !watch_index(*m).contains_key(k),
        },
{
    m.get(&k)
}

/// `im_rc::HashMap::insert`: store the set `s` under `k`.
#[verifier::external_body]
pub fn index_insert(
    m: &mut im_rc::HashMap<VarId, im_rc::HashSet<usize>>,
    k: VarId,
    s: im_rc::HashSet<usize>,
)
    ensures
        watch_index(*final(m)) == watch_index(*old(m)).insert(k, id_set(s)),
{
    m.insert(k, s);
}

/// `im_rc::HashMap::remove`: remove `k` and return its set, if any.
#[verifier::external_body]
pub fn index_remove(m: &mut im_rc::HashMap<VarId, im_rc::HashSet<usize>>, k: VarId) -> (res:
    Option<im_rc::HashSet<usize>>)
    ensures
        watch_index(*final(m)) == watch_index(*old(m)).remove(k),
        match res {
            Some(s) => watch_index(*old(m)).contains_key(k) && id_set(s) == watch_index(*old(m))[k],
            None => !watch_index(*old(m)).contains_key(k),
        },
{
    m.remove(&k)
}

/// `im_rc::HashMap::is_empty`: whether the index holds no key.
#[verifier::external_body]
pub fn index_is_empty(m: &im_rc::HashMap<VarId, im_rc::HashSet<usize>>) -> (res: bool)
    ensures
        res == (watch_index(*m).dom() == Set::<VarId>::empty()),
{
    m.is_empty()
}

/// `im_rc::HashMap::keys`: every key of the index once, in an unspecified
/// order.
#[verifier::external_body]
pub fn index_keys(m: &im_rc::HashMap<VarId, im_rc::HashSet<usize>>) -> (res: Vec<VarId>)
    ensures
        res@.no_duplicates(),
        res@.to_set() == watch_index(*m).dom(),
{
    m.keys().copied().collect()
}

/// `im_rc::HashMap::clone`: an index with the same sets.
#[verifier::external_body]
pub fn index_clone(m: &im_rc::HashMap<VarId, im_rc::HashSet<usize>>) -> (res: im_rc::HashMap<
    VarId,
    im_rc::HashSet<usize>,
>)
    ensures
        watch_index(res) == watch_index(*m),
{
    m.clone()
}

// ---------------------------------------------------------------------------
// Id sets: im_rc::HashSet<usize>
/// `im_rc::HashSet::new`: an empty set.
#[verifier::external_body]
pub fn id_set_new() -> (res: im_rc::HashSet<usize>)
    ensures
        id_set(res) == Set::<usize>::empty(),
{
    im_rc::HashSet::new()
}

/// `im_rc::HashSet::update`: the set with `id` added.
#[verifier::external_body]
pub fn id_set_update(s: &im_rc::HashSet<usize>, id: usize) -> (res: im_rc::HashSet<usize>)
    ensures
        id_set(res) == id_set(*s).insert(id),
{
    s.update(id)
}

/// `im_rc::HashSet::without`: the set with `id` removed.
#[verifier::external_body]
pub fn id_set_without(s: &im_rc::HashSet<usize>, id: usize) -> (res: im_rc::HashSet<usize>)
    ensures
        id_set(res) == id_set(*s).remove(id),
{
    s.without(&id)
}

/// `im_rc::HashSet::is_empty`: whether the set holds no id.
#[verifier::external_body]
pub fn id_set_is_empty(s: &im_rc::HashSet<usize>) -> (res: bool)
    ensures
        res == (id_set(*s) == Set::<usize>::empty()),
{
    s.is_empty()
}

/// `im_rc::HashSet::iter`: every id of the set once, in an unspecified order.
#[verifier::external_body]
pub fn id_set_to_vec(s: &im_rc::HashSet<usize>) -> (res: Vec<usize>)
    ensures
        res@.no_duplicates(),
        res@.to_set() == id_set(*s),
{
    s.iter().copied().collect()
}

// ---------------------------------------------------------------------------
// Entries: im_rc::HashMap<usize, Entry>
/// `im_rc::HashMap::new`: an empty map.
#[verifier::external_body]
pub fn entry_table_new() -> (res: im_rc::HashMap<usize, Entry>)
    ensures
        entry_map(res).dom() == Set::<usize>::empty(),
{
    im_rc::HashMap::new()
}

/// `im_rc::HashMap::insert`: store `e` under `id`.
#[verifier::external_body]
pub fn entry_table_insert(m: &mut im_rc::HashMap<usize, Entry>, id: usize, e: Entry)
    ensures
        entry_map(*final(m)) == entry_map(*old(m)).insert(id, e),
{
    m.insert(id, e);
}

/// `im_rc::HashMap::remove`: remove `id` and return its entry, if any.
#[verifier::external_body]
pub fn entry_table_remove(m: &mut im_rc::HashMap<usize, Entry>, id: usize) -> (res: Option<Entry>)
    ensures
        entry_map(*final(m)) == entry_map(*old(m)).remove(id),
        match res {
            Some(e) => entry_map(*old(m)).contains_key(id) && e == entry_map(*old(m))[id],
            None => !entry_map(*old(m)).contains_key(id),
        },
{
    m.remove(&id)
}

/// `im_rc::HashMap::clone`: a map with the same entries.
#[verifier::external_body]
pub fn entry_table_clone(m: &im_rc::HashMap<usize, Entry>) -> (res: im_rc::HashMap<usize, Entry>)
    ensures
        entry_map(res) == entry_map(*m),
{
    m.clone()
}

// ---------------------------------------------------------------------------
// Fork queue: im_rc::Vector<Fork>
/// `im_rc::Vector::new`: an empty queue.
#[verifier::external_body]
pub fn forks_new() -> (res: im_rc::Vector<Fork>)
    ensures
        fork_queue(res) == Seq::<Fork>::empty(),
{
    im_rc::Vector::new()
}

/// `im_rc::Vector::push_back`: add `f` at the back.
#[verifier::external_body]
pub fn forks_push_back(v: &mut im_rc::Vector<Fork>, f: Fork)
    ensures
        fork_queue(*final(v)) == fork_queue(*old(v)).push(f),
{
    v.push_back(f);
}

/// `im_rc::Vector::pop_front`: remove and return the front fork, if any.
#[verifier::external_body]
pub fn forks_pop_front(v: &mut im_rc::Vector<Fork>) -> (res: Option<Fork>)
    ensures
        fork_queue(*old(v)).len() == 0 ==> res is None && fork_queue(*final(v)) == fork_queue(
            *old(v),
        ),
        fork_queue(*old(v)).len() > 0 ==> res == Some(fork_queue(*old(v))[0]) && fork_queue(
            *final(v),
        ) == fork_queue(*old(v)).drop_first(),
{
    v.pop_front()
}

/// `im_rc::Vector::is_empty`: whether the queue holds no fork.
#[verifier::external_body]
pub fn forks_is_empty(v: &im_rc::Vector<Fork>) -> (res: bool)
    ensures
        res == (fork_queue(*v).len() == 0),
{
    v.is_empty()
}

/// `im_rc::Vector::clone`: a queue with the same forks.
#[verifier::external_body]
pub fn forks_clone(v: &im_rc::Vector<Fork>) -> (res: im_rc::Vector<Fork>)
    ensures
        fork_queue(res) == fork_queue(*v),
{
    v.clone()
}

// ---------------------------------------------------------------------------
/// The elements of `s` with every repeated occurrence removed, keeping the
/// first occurrence of each.
pub open spec fn first_occurrences(s: Seq<VarId>) -> Seq<VarId>
    decreases s.len(),
{
    if s.len() == 0 {
        s
    } else {
        let r = first_occurrences(s.drop_last());
        if r.contains(s.last()) {
            r
        } else {
            r.push(s.last())
        }
    }
}

/// `itertools::Itertools::unique`: the ids in order, each one only at its
/// first occurrence.
#[verifier::external_body]
pub fn unique_ids(v: Vec<VarId>) -> (res: Vec<VarId>)
    ensures
        res@ == first_occurrences(v@),
{
    v.into_iter().unique().collect()
}

} // verus!
