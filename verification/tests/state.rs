use canrun::kernel::reading::Query;
use canrun::goals::project::{Assert1, Relation};
use canrun::goals::{both, unify, Goal};
use canrun::kernel::constraints::Constraint;
use canrun::kernel::fork::Fork;
use canrun::kernel::lvarlist::LVarList;
use canrun::kernel::mkmvmap::MKMVMap;
use canrun::kernel::state::State;
use canrun::value::{LVar, LVarSource, Value};
use std::rc::Rc;

fn num(n: i64) -> Value {
    Value::of_int(n)
}

fn limit(a: Value, rel: Relation, bound: i64) -> Rc<Constraint> {
    Rc::new(Constraint::Assert1(Assert1 { a, rel, bound }))
}

#[test]
fn basic_unify() {
    let mut src = LVarSource::new();
    let x = Value::var(&mut src);
    let state = State::new().unify(&x, &num(1)).unwrap();
    assert_eq!(state.resolve(&x), num(1));
}

#[test]
fn unify_two_different_values_fails() {
    assert!(State::new().unify(&num(1), &num(2)).is_none());
}

#[test]
fn resolve_follows_chains() {
    let mut src = LVarSource::new();
    let x = Value::var(&mut src);
    let y = Value::var(&mut src);
    let state = State::new().unify(&x, &y).unwrap();
    assert_eq!(state.resolve(&x), y);
    let state = state.unify(&y, &num(4)).unwrap();
    assert_eq!(state.resolve(&x), num(4));
    assert_eq!(state.reify(&x), Some(num(4)));
}

#[test]
fn basic_fork() {
    let mut src = LVarSource::new();
    let x = Value::var(&mut src);
    let fork = Fork::Either(Rc::new(unify(x.clone(), num(1))), Rc::new(unify(x.clone(), num(2))));
    let results: Vec<Value> = State::new()
        .fork(fork)
        .unwrap()
        .into_states()
        .iter()
        .map(|s| s.resolve(&x))
        .collect();
    assert_eq!(results, vec![num(1), num(2)]);
}

#[test]
fn basic_constrain_succeeds() {
    let mut src = LVarSource::new();
    let x = Value::var(&mut src);
    for order in 0..3 {
        let state = State::new();
        let state = match order {
            0 => state
                .unify(&num(2), &x)
                .and_then(|s| s.constrain(limit(x.clone(), Relation::Greater, 1)))
                .and_then(|s| s.constrain(limit(x.clone(), Relation::Greater, 0))),
            1 => state
                .constrain(limit(x.clone(), Relation::Greater, 1))
                .and_then(|s| s.unify(&num(2), &x))
                .and_then(|s| s.constrain(limit(x.clone(), Relation::Greater, 0))),
            _ => state
                .constrain(limit(x.clone(), Relation::Greater, 1))
                .and_then(|s| s.constrain(limit(x.clone(), Relation::Greater, 0)))
                .and_then(|s| s.unify(&num(2), &x)),
        };
        assert_eq!(state.unwrap().query(&x), vec![num(2)]);
    }
}

#[test]
fn basic_constrain_fails() {
    let mut src = LVarSource::new();
    let x = Value::var(&mut src);
    let s1 = State::new()
        .unify(&num(2), &x)
        .and_then(|s| s.constrain(limit(x.clone(), Relation::Greater, 1)))
        .and_then(|s| s.constrain(limit(x.clone(), Relation::Greater, 3)));
    assert!(s1.is_none());
    let s2 = State::new()
        .constrain(limit(x.clone(), Relation::Greater, 3))
        .and_then(|s| s.unify(&num(2), &x));
    assert!(s2.is_none());
}

#[test]
fn waiting_constraint_is_not_ready() {
    let mut src = LVarSource::new();
    let x = Value::var(&mut src);
    let state = State::new().constrain(limit(x.clone(), Relation::Less, 3)).unwrap();
    assert!(state.ready().is_none());
    let state = State::new().unify(&x, &num(1)).unwrap();
    let ready = state.ready().unwrap();
    assert_eq!(ready.reify(&x), Some(num(1)));
    assert_eq!(ready.resolve(&x), num(1));
}

#[test]
fn vars_lists_bound_and_watched() {
    let mut src = LVarSource::new();
    let x = Value::var(&mut src);
    let y = Value::var(&mut src);
    let state = State::new()
        .unify(&y, &num(1))
        .unwrap()
        .constrain(limit(x.clone(), Relation::Less, 3))
        .unwrap();
    assert_eq!(state.vars().to_vec(), vec![1, 2]);
}

#[test]
fn goal_apply_matches_state_unify() {
    let mut src = LVarSource::new();
    let x = Value::var(&mut src);
    let goal: Goal = both(unify(x.clone(), num(3)), unify(num(3), x.clone()));
    let state = goal.apply(State::new()).unwrap();
    assert_eq!(state.resolve(&x), num(3));
}

#[test]
fn fresh_variables_are_distinct() {
    let mut src = LVarSource::new();
    let a = LVar::new(&mut src);
    let b = LVar::new(&mut src);
    assert_ne!(a, b);
    assert_eq!(a.id, 1);
    assert_eq!(b.id, 2);
}

#[test]
fn lvarlist_basics() {
    let mut src = LVarSource::new();
    let a = LVar::new(&mut src);
    let b = LVar::new(&mut src);
    assert_eq!(LVarList::one(&a).len(), 1);
    assert_eq!(LVarList::two(&a, &b).to_vec(), vec![1, 2]);
    assert!(LVarList::from_vec(vec![]).is_empty());
    let flat = LVarList::flatten(vec![LVarList::two(&b, &a), LVarList::two(&a, &b), LVarList::one(&a)]);
    assert_eq!(flat.to_vec(), vec![2, 1]);
}

#[test]
fn lvarlist_without_resolved_in() {
    let mut src = LVarSource::new();
    let a = LVar::new(&mut src);
    let b = LVar::new(&mut src);
    let state = State::new().unify(&Value::from_var(a), &num(1)).unwrap();
    assert_eq!(LVarList::two(&a, &b).without_resolved_in(&state).to_vec(), vec![2]);
}

#[test]
fn without_resolved_in_twice_is_once() {
    let mut src = LVarSource::new();
    let a = LVar::new(&mut src);
    let b = LVar::new(&mut src);
    let c = LVar::new(&mut src);
    let state = State::new().unify(&Value::from_var(b), &num(7)).unwrap();
    let list = LVarList::from_vec(vec![a.id, b.id, c.id]);
    let once = list.without_resolved_in(&state);
    let twice = once.without_resolved_in(&state);
    assert_eq!(once.to_vec(), vec![1, 3]);
    assert_eq!(twice.to_vec(), once.to_vec());
}

#[test]
fn fresh_ids_start_at_one() {
    let mut src = LVarSource::new();
    let a = LVar::new(&mut src);
    let b = LVar::new(&mut src);
    assert_eq!(a.id, 1);
    assert_eq!(b.id, 2);
    assert_ne!(a, b);
}

#[test]
fn empty() {
    let mut map = MKMVMap::new();
    assert!(map.extract(1).is_none());
    assert!(map.is_empty());
}

#[test]
fn add_and_extract() {
    let mut map = MKMVMap::new();
    let c = limit(num(0), Relation::Less, 1);
    map.add(LVarList::from_vec(vec![1, 2]), c.clone());
    assert_eq!(map.keys(), vec![1, 2]);
    let values = map.extract(1).unwrap();
    assert_eq!(values.len(), 1);
    assert!(Rc::ptr_eq(&values[0], &c));
    assert!(map.is_empty());
    assert!(map.extract(2).is_none());
}

#[test]
fn mkmvmap_debug_impl() {
    let mut map = MKMVMap::new();
    map.add(LVarList::from_vec(vec![1]), limit(num(0), Relation::Less, 1));
    assert_ne!(format!("{map:?}"), "");
}

#[test]
fn apply_chains_updates() {
    let mut src = LVarSource::new();
    let x = Value::var(&mut src);
    let state = State::new().apply(|s| s.unify(&x, &num(1))?.unify(&num(1), &x));
    assert_eq!(state.unwrap().query(&x), vec![num(1)]);
}

#[test]
fn default_state_is_empty() {
    let state = State::default();
    assert!(state.vars().is_empty());
    assert!(state.ready().is_some());
}
