use canrun::goals::project::{assert_1, Relation};
use canrun::collections::lvec::LVec;
use canrun::value::Term;
use canrun::collections::lmap::LMap;
use canrun::goals::not::not;
use canrun::goals::{both, either, fail, succeed, unify};
use canrun::kernel::lvarlist::LVarList;
use canrun::kernel::reading::Query;
use canrun::kernel::state::State;
use canrun::value::{LVar, LVarSource, Value};

fn num(n: i64) -> Value {
    Value::of_int(n)
}

#[test]
fn unify_keeps_earlier_bindings() {
    let mut src = LVarSource::new();
    let x = Value::var(&mut src);
    let y = Value::var(&mut src);
    let state = State::new().unify(&x, &num(1)).unwrap();
    let state = state.unify(&y, &num(2)).unwrap();
    assert_eq!(state.resolve(&x), num(1));
    assert_eq!(state.resolve(&y), num(2));
}

#[test]
fn unified_variables_agree() {
    let mut src = LVarSource::new();
    let x = Value::var(&mut src);
    let y = Value::var(&mut src);
    let state = State::new().unify(&x, &y).unwrap();
    assert_eq!(state.resolve(&x), state.resolve(&y));
    let state = state.unify(&y, &num(8)).unwrap();
    assert_eq!(state.resolve(&x), num(8));
    assert_eq!(state.resolve(&y), num(8));
}

#[test]
fn unify_int_reads_back() {
    let mut src = LVarSource::new();
    let x = Value::var(&mut src);
    let state = State::new().unify(&num(-3), &x).unwrap();
    assert_eq!(state.resolve(&x), num(-3));
}

#[test]
fn distinct_ints_fail() {
    assert!(State::new().unify(&num(3), &num(4)).is_none());
    assert!(State::new().unify(&num(3), &num(3)).is_some());
}

#[test]
fn resolve_is_idempotent() {
    let mut src = LVarSource::new();
    let x = Value::var(&mut src);
    let y = Value::var(&mut src);
    let state = State::new().unify(&x, &y).unwrap();
    let once = state.resolve(&x);
    assert_eq!(state.resolve(&once), once);
}

#[test]
fn succeed_and_fail() {
    let mut src = LVarSource::new();
    let x = Value::var(&mut src);
    let state = State::new().unify(&x, &num(1)).unwrap();
    let after = succeed().apply(state).unwrap();
    assert_eq!(after.resolve(&x), num(1));
    assert!(fail().apply(State::new()).is_none());
}

#[test]
fn both_applies_in_sequence() {
    let mut src = LVarSource::new();
    let x = Value::var(&mut src);
    let y = Value::var(&mut src);
    let goal = both(unify(x.clone(), num(1)), unify(y.clone(), x.clone()));
    let state = goal.apply(State::new()).unwrap();
    assert_eq!(state.resolve(&y), num(1));
}

#[test]
fn either_states_are_both_branches() {
    let mut src = LVarSource::new();
    let x = Value::var(&mut src);
    let goal = either(unify(x.clone(), num(1)), unify(x.clone(), num(2)));
    let states = goal.apply(State::new()).unwrap().into_states();
    let found: Vec<Value> = states.iter().map(|s| s.resolve(&x)).collect();
    assert_eq!(found, vec![num(1), num(2)]);
}

#[test]
fn not_of_failing_goal_keeps_state() {
    let mut src = LVarSource::new();
    let x = Value::var(&mut src);
    let state = State::new().unify(&x, &num(1)).unwrap();
    let after = not(fail()).apply(state).unwrap();
    assert_eq!(after.resolve(&x), num(1));
    assert_eq!(after.query(&x), vec![num(1)]);
}

#[test]
fn insert_then_get() {
    let mut m = LMap::new();
    m.insert(num(1), num(10));
    m.insert(num(2), num(20));
    m.insert(num(1), num(11));
    assert_eq!(m.get(&num(1)), Some(num(11)));
    assert_eq!(m.get(&num(2)), Some(num(20)));
}

#[test]
fn flatten_keeps_each_variable_once() {
    let mut src = LVarSource::new();
    let a = LVar::new(&mut src);
    let b = LVar::new(&mut src);
    let c = LVar::new(&mut src);
    let flat = LVarList::flatten(vec![
        LVarList::two(&c, &a),
        LVarList::two(&a, &b),
        LVarList::two(&b, &c),
    ]);
    assert_eq!(flat.to_vec(), vec![3, 1, 2]);
}

#[test]
fn fresh_variables_differ() {
    let mut src = LVarSource::new();
    let a = src.fresh();
    let b = src.fresh();
    assert_ne!(a.id, b.id);
}

#[test]
fn answers_hold_no_variables() {
    let mut src = LVarSource::new();
    let x = Value::var(&mut src);
    let y = Value::var(&mut src);
    let inner = Value::new(Term::LVec(LVec::from_vec(vec![y.clone()])));
    assert_eq!(unify(x.clone(), inner.clone()).query(&x), vec![]);
    let goal = both(unify(x.clone(), inner), unify(y.clone(), num(4)));
    let answers = goal.query(&x);
    assert_eq!(answers, vec![Value::new(Term::LVec(LVec::from_vec(vec![num(4)])))]);
    assert_eq!(State::new().reify(&answers[0]), Some(answers[0].clone()));
}

#[test]
fn map_from_vec_keeps_keys_distinct() {
    let m = LMap::from_vec(vec![(num(1), num(2)), (num(3), num(4)), (num(1), num(5))]);
    assert_eq!(m.to_vec(), vec![(num(1), num(5)), (num(3), num(4))]);
}

#[test]
fn store_extracts_each_constraint_once() {
    use_store();
}

fn use_store() {
    let mut map = canrun::kernel::mkmvmap::MKMVMap::new();
    let c = std::rc::Rc::new(canrun::kernel::constraints::Constraint::Assert1(
        canrun::goals::project::Assert1 { a: num(0), rel: canrun::goals::project::Relation::Less, bound: 1 },
    ));
    map.add(LVarList::from_vec(vec![1, 2]), c);
    assert_eq!(map.keys(), vec![1, 2]);
    assert_eq!(map.extract(2).map(|v| v.len()), Some(1));
    assert!(map.extract(1).is_none());
    assert!(map.keys().is_empty());
}

#[test]
fn unified_vectors_reify_alike() {
    let mut src = LVarSource::new();
    let x = Value::var(&mut src);
    let y = Value::var(&mut src);
    let a = Value::new(Term::LVec(LVec::from_vec(vec![x.clone(), num(2)])));
    let b = Value::new(Term::LVec(LVec::from_vec(vec![num(1), y.clone()])));
    let state = State::new().unify(&a, &b).unwrap();
    assert_eq!(state.reify(&a), state.reify(&b));
    assert_eq!(state.reify(&a), Some(Value::new(Term::LVec(LVec::from_vec(vec![num(1), num(2)])))));
}

#[test]
fn assert_and_unify_commute() {
    let mut src = LVarSource::new();
    let x = Value::var(&mut src);
    for (n, expected) in [(2, vec![num(2)]), (1, vec![])] {
        let g1 = both(unify(x.clone(), num(n)), assert_1(x.clone(), Relation::Greater, 1));
        let g2 = both(assert_1(x.clone(), Relation::Greater, 1), unify(x.clone(), num(n)));
        assert_eq!(g1.query(&x), expected);
        assert_eq!(g2.query(&x), expected);
    }
}

#[test]
fn state_is_well_formed() {
    let state = State::new();
    state.well_formed();
    assert!(state.ready().is_some());
}
