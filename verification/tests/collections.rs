use canrun::kernel::reading::Query;
use canrun::collections::lmap::{self, LMap};
use canrun::collections::lvec::{self, LVec};
use canrun::goals::{all, either, unify, Goal};
use canrun::value::{LVarSource, Term, Value};

fn num(n: i64) -> Value {
    Value::of_int(n)
}

fn lvec_of(items: Vec<Value>) -> Value {
    Value::new(Term::LVec(LVec::from_vec(items)))
}

fn ints(ns: &[i64]) -> Value {
    lvec_of(ns.iter().map(|n| num(*n)).collect())
}

fn lmap_of(entries: Vec<(Value, Value)>) -> Value {
    let mut m = LMap::new();
    for (k, v) in entries {
        m.insert(k, v);
    }
    Value::new(Term::LMap(m))
}

fn range(lo: usize, hi: usize) -> Value {
    Value::new(Term::Range(lo, hi))
}

fn permutations(goals: Vec<Goal>) -> Vec<Vec<Goal>> {
    if goals.len() <= 1 {
        return vec![goals];
    }
    let mut out = Vec::new();
    for i in 0..goals.len() {
        let mut rest = goals.clone();
        let first = rest.remove(i);
        for mut p in permutations(rest) {
            p.insert(0, first.clone());
            out.push(p);
        }
    }
    out
}

/// Two maps are equal as maps when they hold the same key/value pairs.
fn same_value(a: &Value, b: &Value) -> bool {
    match (a.resolved(), b.resolved()) {
        (Some(Term::LMap(x)), Some(Term::LMap(y))) => {
            let (xs, ys) = (x.to_vec(), y.to_vec());
            xs.len() == ys.len()
                && xs.iter().all(|(k, v)| ys.iter().any(|(k2, v2)| same_value(k, k2) && same_value(v, v2)))
        }
        (Some(Term::LVec(x)), Some(Term::LVec(y))) => {
            let (xs, ys) = (x.to_vec(), y.to_vec());
            xs.len() == ys.len() && xs.iter().zip(ys.iter()).all(|(p, q)| same_value(p, q))
        }
        _ => a == b,
    }
}

fn same_answers(found: &[Value], expected: &[Value]) -> bool {
    found.len() == expected.len()
        && expected.iter().all(|e| {
            found.iter().filter(|f| same_value(f, e)).count()
                == expected.iter().filter(|x| same_value(x, e)).count()
        })
}

fn assert_permutations_resolve_to(goals: Vec<Goal>, query: &Value, expected: Vec<Value>) {
    for p in permutations(goals) {
        let found = all(p.clone()).query(query);
        assert!(same_answers(&found, &expected), "{:?} gave {:?}, expected {:?}", p, found, expected);
    }
}

#[test]
fn basic_get() {
    let mut src = LVarSource::new();
    let x = Value::var(&mut src);
    let goal = lvec::get(x.clone(), num(0), ints(&[1, 2, 3]));
    assert_eq!(goal.query(&x), vec![num(1)]);
}

#[test]
fn get_with_lh_var() {
    let mut src = LVarSource::new();
    let x = Value::var(&mut src);
    let goal = lvec::get(x.clone(), num(1), ints(&[1, 2, 3]));
    assert_eq!(goal.query(&x), vec![num(2)]);
}

#[test]
fn get_with_rh_var() {
    let mut src = LVarSource::new();
    let x = Value::var(&mut src);
    let goal = lvec::get(num(3), num(2), lvec_of(vec![num(1), num(2), x.clone()]));
    assert_eq!(goal.query(&x), vec![num(3)]);
}

#[test]
fn get_fails() {
    let mut src = LVarSource::new();
    let x = Value::var(&mut src);
    let goal = lvec::get(x.clone(), num(3), ints(&[1, 2]));
    assert_eq!(goal.query(&x), vec![]);
}

#[test]
fn get_negative_index_fails() {
    let mut src = LVarSource::new();
    let x = Value::var(&mut src);
    let goal = lvec::get(x.clone(), num(-1), ints(&[1, 2]));
    assert_eq!(goal.query(&x), vec![]);
}

#[test]
fn is_empty() {
    let empty = LVec::new();
    assert!(empty.is_empty());
    assert_eq!(empty.len(), 0);
}

#[test]
fn from_iter_value_t() {
    let from_iter = LVec::from_vec((1..3).map(|n| num(n)).collect());
    assert_eq!(from_iter.to_vec(), vec![num(1), num(2)]);
}

#[test]
fn from_iter_t() {
    let from_iter = LVec::from_vec((1..3).map(|n| Value::new(Term::Int(n))).collect());
    assert_eq!(from_iter.to_vec(), vec![Value::of_int(1), Value::of_int(2)]);
}

#[test]
fn push_appends() {
    let mut v = LVec::new();
    v.push(num(4));
    v.push(num(5));
    assert_eq!(v.len(), 2);
    assert_eq!(v.get(1), Some(num(5)));
    assert_eq!(v.get(2), None);
}

#[test]
fn basic_slice() {
    let mut src = LVarSource::new();
    let x = Value::var(&mut src);
    let goals = vec![lvec::slice(lvec_of(vec![x.clone()]), range(0, 1), ints(&[1, 2, 3]))];
    assert_permutations_resolve_to(goals, &x, vec![num(1)]);
}

#[test]
fn slice_with_lh_var() {
    let mut src = LVarSource::new();
    let x = Value::var(&mut src);
    let goals = vec![
        unify(x.clone(), num(3)),
        lvec::slice(lvec_of(vec![num(2), x.clone()]), range(1, 3), ints(&[1, 2, 3])),
    ];
    assert_permutations_resolve_to(goals, &x, vec![num(3)]);
}

#[test]
fn slice_with_rh_var() {
    let mut src = LVarSource::new();
    let x = Value::var(&mut src);
    let goals = vec![
        unify(x.clone(), num(3)),
        lvec::slice(ints(&[2, 3]), range(1, 3), lvec_of(vec![num(1), num(2), x.clone()])),
    ];
    assert_permutations_resolve_to(goals, &x, vec![num(3)]);
}

#[test]
fn slice_with_out_of_range() {
    let mut src = LVarSource::new();
    let x = Value::var(&mut src);
    let goals = vec![
        unify(x.clone(), num(3)),
        lvec::slice(ints(&[2, 3]), range(1, 4), lvec_of(vec![num(1), num(2), x.clone()])),
    ];
    assert_permutations_resolve_to(goals, &x, vec![]);
}

#[test]
fn slice_debug_impl() {
    let slice = lvec::slice(ints(&[2, 3]), range(1, 4), ints(&[1, 2, 3]));
    assert_ne!(format!("{slice:?}"), "");
}

#[test]
fn basic_subset() {
    let mut src = LVarSource::new();
    let x = Value::var(&mut src);
    let goals = vec![lvec::subset(lvec_of(vec![x.clone(), num(2)]), ints(&[1, 2, 3]))];
    assert_permutations_resolve_to(goals, &x, vec![num(1)]);
}

#[test]
fn subset_with_conditions() {
    let mut src = LVarSource::new();
    let x = Value::var(&mut src);
    let goals = vec![
        unify(x.clone(), num(3)),
        lvec::subset(lvec_of(vec![num(2), x.clone()]), ints(&[1, 2, 3])),
    ];
    assert_permutations_resolve_to(goals, &x, vec![num(3)]);
}

#[test]
fn unify_two_subsets_1() {
    let mut src = LVarSource::new();
    let x = Value::var(&mut src);
    let goals = vec![
        lvec::subset(ints(&[1]), x.clone()),
        lvec::subset(ints(&[2]), x.clone()),
        unify(x.clone(), ints(&[1, 2, 3])),
    ];
    assert_permutations_resolve_to(goals, &x, vec![ints(&[1, 2, 3])]);
}

#[test]
fn unify_two_subsets_2() {
    let mut src = LVarSource::new();
    let x = Value::var(&mut src);
    let goals = vec![
        lvec::subset(ints(&[1]), x.clone()),
        lvec::subset(ints(&[2]), x.clone()),
        unify(x.clone(), ints(&[1, 2, 3])),
    ];
    assert_permutations_resolve_to(goals, &x, vec![ints(&[1, 2, 3])]);
}

#[test]
fn unify_two_subsets_3() {
    let mut src = LVarSource::new();
    let x = Value::var(&mut src);
    let goals = vec![
        either(lvec::subset(ints(&[1, 2]), x.clone()), lvec::subset(ints(&[4]), x.clone())),
        lvec::subset(ints(&[2, 3]), x.clone()),
        unify(x.clone(), ints(&[1, 2, 3])),
    ];
    assert_permutations_resolve_to(goals, &x, vec![ints(&[1, 2, 3])]);
}

#[test]
fn unify_two_subsets_4() {
    let mut src = LVarSource::new();
    let x = Value::var(&mut src);
    let goals = vec![
        lvec::subset(ints(&[1, 2]), x.clone()),
        lvec::subset(ints(&[4]), x.clone()),
        unify(x.clone(), ints(&[1, 2, 3])),
    ];
    assert_permutations_resolve_to(goals, &x, vec![]);
}

#[test]
fn subset_against_smaller() {
    let mut src = LVarSource::new();
    let x = Value::var(&mut src);
    let goals = vec![lvec::subset(lvec_of(vec![x.clone(), num(2)]), ints(&[1]))];
    assert_permutations_resolve_to(goals, &x, vec![]);
}

#[test]
fn subset_debug_impl() {
    let goal = lvec::subset(ints(&[1]), ints(&[1, 2]));
    assert_ne!(format!("{goal:?}"), "");
}

#[test]
fn lvec_succeeds() {
    let mut src = LVarSource::new();
    let x = Value::var(&mut src);
    let goals = vec![unify(x.clone(), ints(&[1, 2])), unify(x.clone(), ints(&[1, 2]))];
    assert_permutations_resolve_to(goals, &x, vec![ints(&[1, 2])]);
}

#[test]
fn lvec_fails() {
    let mut src = LVarSource::new();
    let x = Value::var(&mut src);
    let goals = vec![unify(x.clone(), ints(&[1, 3])), unify(x.clone(), ints(&[1, 2]))];
    assert_permutations_resolve_to(goals, &x, vec![]);
}

#[test]
fn nested_var() {
    let mut src = LVarSource::new();
    let x = Value::var(&mut src);
    let y = Value::var(&mut src);
    let goals = vec![
        unify(x.clone(), lvec_of(vec![num(1), y.clone()])),
        unify(x.clone(), ints(&[1, 2])),
    ];
    assert_permutations_resolve_to(goals, &y, vec![num(2)]);
}

#[test]
fn mod_succeeds() {
    let mut src = LVarSource::new();
    let x = Value::var(&mut src);
    let goal = unify(lvec_of(vec![x.clone(), num(2)]), ints(&[1, 2]));
    assert_eq!(goal.query(&x), vec![num(1)]);
}

#[test]
fn mod_fails() {
    let mut src = LVarSource::new();
    let x = Value::var(&mut src);
    let goal = unify(lvec_of(vec![x.clone(), num(1)]), ints(&[1, 2]));
    assert_eq!(goal.query(&x).len(), 0);
}

#[test]
fn get_succeeds() {
    let mut src = LVarSource::new();
    let x = Value::var(&mut src);
    let goal = lmap::get(num(1), x.clone(), lmap_of(vec![(num(1), num(2))]));
    assert_eq!(goal.query(&x), vec![num(2)]);
}

#[test]
fn subset_succeeds() {
    let mut src = LVarSource::new();
    let x = Value::var(&mut src);
    let goal = lmap::subset(
        lmap_of(vec![(x.clone(), num(2))]),
        lmap_of(vec![(num(1), num(2)), (num(3), num(4))]),
    );
    assert_eq!(goal.query(&x), vec![num(1)]);
}

#[test]
fn superset_succeeds() {
    let mut src = LVarSource::new();
    let x = Value::var(&mut src);
    let goal = lmap::superset(
        lmap_of(vec![(x.clone(), num(2)), (num(3), num(4))]),
        lmap_of(vec![(num(1), num(2))]),
    );
    assert_eq!(goal.query(&x), vec![num(1)]);
}

#[test]
fn succeeds_with_identical() {
    let goal = unify(lmap_of(vec![(num(1), num(2))]), lmap_of(vec![(num(1), num(2))]));
    assert_eq!(goal.into_states().len(), 1);
}

#[test]
fn fails_with_different() {
    let goal = unify(lmap_of(vec![(num(1), num(2))]), lmap_of(vec![(num(1), num(2))]));
    assert_eq!(goal.into_states().len(), 1);
}

#[test]
fn differing_values_fail() {
    let goal = unify(lmap_of(vec![(num(1), num(2))]), lmap_of(vec![(num(1), num(3))]));
    assert_eq!(goal.into_states().len(), 0);
}

#[test]
fn succeeds_with_variable_value() {
    let mut src = LVarSource::new();
    let x = Value::var(&mut src);
    let goal = unify(lmap_of(vec![(num(1), num(2))]), lmap_of(vec![(num(1), x.clone())]));
    assert_eq!(goal.query(&x), vec![num(2)]);
}

#[test]
fn succeeds_with_variable_key() {
    let mut src = LVarSource::new();
    let x = Value::var(&mut src);
    let goal = unify(lmap_of(vec![(num(1), num(2))]), lmap_of(vec![(x.clone(), num(2))]));
    assert_eq!(goal.query(&x), vec![num(1)]);
}

#[test]
fn succeeds_with_variable_key_and_value() {
    let mut src = LVarSource::new();
    let x = Value::var(&mut src);
    let y = Value::var(&mut src);
    let goal = unify(lmap_of(vec![(num(1), num(2))]), lmap_of(vec![(x.clone(), y.clone())]));
    assert_eq!(goal.query(&lvec_of(vec![x, y])), vec![ints(&[1, 2])]);
}

#[test]
fn succeeds_with_crisscrossed_variable_key_and_value() {
    let mut src = LVarSource::new();
    let x = Value::var(&mut src);
    let y = Value::var(&mut src);
    let goal = unify(lmap_of(vec![(num(1), y.clone())]), lmap_of(vec![(x.clone(), num(2))]));
    assert_eq!(goal.query(&lvec_of(vec![x, y])), vec![ints(&[1, 2])]);
}

#[test]
fn succeeds_with_stress_test() {
    let mut src = LVarSource::new();
    let m = Value::var(&mut src);
    let w = Value::var(&mut src);
    let x = Value::var(&mut src);
    let y = Value::var(&mut src);
    let z = Value::var(&mut src);
    let goals = vec![
        unify(
            m.clone(),
            lmap_of(vec![(num(1), x.clone()), (num(2), w.clone()), (y.clone(), x.clone()), (num(4), x.clone())]),
        ),
        unify(
            m.clone(),
            lmap_of(vec![(w.clone(), num(2)), (x.clone(), num(1)), (num(3), x.clone()), (z.clone(), x.clone())]),
        ),
    ];
    let first = lvec_of(vec![
        lmap_of(vec![(num(1), num(2)), (num(2), num(1)), (num(3), num(2)), (num(4), num(2))]),
        num(1),
        num(2),
        num(3),
        num(4),
    ]);
    let second = lvec_of(vec![
        lmap_of(vec![(num(2), num(2)), (num(1), num(1)), (num(3), num(1)), (num(4), num(1))]),
        num(2),
        num(1),
        num(3),
        num(4),
    ]);
    assert_permutations_resolve_to(goals, &lvec_of(vec![m, w, x, y, z]), vec![first, second]);
}

#[test]
fn mergeable_keys() {
    let mut src = LVarSource::new();
    let m = Value::var(&mut src);
    let x = Value::var(&mut src);
    let goals = vec![
        unify(m.clone(), lmap_of(vec![(x.clone(), num(1)), (num(1), num(1))])),
        unify(m.clone(), lmap_of(vec![(num(1), num(1))])),
    ];
    assert_permutations_resolve_to(
        goals,
        &lvec_of(vec![m, x]),
        vec![lvec_of(vec![lmap_of(vec![(num(1), num(1))]), num(1)])],
    );
}

#[test]
fn unmergeable_keys() {
    let mut src = LVarSource::new();
    let m = Value::var(&mut src);
    let x = Value::var(&mut src);
    let goals = vec![
        unify(m.clone(), lmap_of(vec![(x.clone(), num(1)), (num(1), num(2))])),
        unify(m.clone(), lmap_of(vec![(num(1), num(2))])),
    ];
    assert_permutations_resolve_to(goals, &lvec_of(vec![m, x]), vec![]);
}

#[test]
fn mod_debug_impl() {
    let mut src = LVarSource::new();
    let m = Value::var(&mut src);
    let x = Value::var(&mut src);
    let goal = unify(m, lmap_of(vec![(x, num(1)), (num(1), num(2))]));
    assert_ne!(format!("{goal:?}"), "");
}

#[test]
fn lmap_insert_replaces() {
    let mut m = LMap::new();
    m.insert(num(1), num(2));
    m.insert(num(3), num(4));
    m.insert(num(1), num(5));
    assert_eq!(m.to_vec(), vec![(num(1), num(5)), (num(3), num(4))]);
    assert_eq!(m.get(&num(3)), Some(num(4)));
    assert_eq!(m.get(&num(7)), None);
}

#[test]
fn mismatched_terms_do_not_unify() {
    assert_eq!(unify(num(1), ints(&[1])).into_states().len(), 0);
    assert_eq!(unify(ints(&[1]), lmap_of(vec![(num(1), num(1))])).into_states().len(), 0);
    assert_eq!(unify(range(0, 1), range(0, 2)).into_states().len(), 0);
    assert_eq!(unify(range(0, 1), range(0, 1)).into_states().len(), 1);
    assert_eq!(unify(ints(&[1, 2]), ints(&[1])).into_states().len(), 0);
}

#[test]
fn get_with_non_integer_index_fails() {
    let mut src = LVarSource::new();
    let x = Value::var(&mut src);
    let goal = lvec::get(x.clone(), ints(&[0]), ints(&[1, 2]));
    assert_eq!(goal.query(&x), vec![]);
}

#[test]
fn slice_with_non_range_fails() {
    let mut src = LVarSource::new();
    let x = Value::var(&mut src);
    let goal = lvec::slice(x.clone(), num(0), ints(&[1, 2]));
    assert_eq!(goal.query(&x), vec![]);
}

#[test]
fn map_subset_of_non_maps_fails() {
    let goal = lmap::subset(num(1), lmap_of(vec![(num(1), num(2))]));
    assert_eq!(goal.into_states().len(), 0);
}

#[test]
fn subset_yields_each_window() {
    let mut src = LVarSource::new();
    let x = Value::var(&mut src);
    let goal = lvec::subset(lvec_of(vec![x.clone()]), ints(&[4, 5, 6]));
    assert_eq!(goal.query(&x), vec![num(4), num(5), num(6)]);
}

fn pairs(entries: &[(Value, Value)]) -> Value {
    lmap_of(entries.to_vec())
}

#[test]
fn subset_should_succeed_on() {
    let mut src = LVarSource::new();
    let x = Value::var(&mut src);
    let cases = vec![
        (pairs(&[(num(1), num(2))]), pairs(&[(num(1), num(2))])),
        (pairs(&[(num(1), num(2))]), pairs(&[(num(1), num(2)), (num(3), num(4))])),
        (pairs(&[(x.clone(), num(2))]), pairs(&[(num(1), num(2)), (num(3), num(4))])),
        (pairs(&[(x.clone(), num(2))]), pairs(&[(x.clone(), num(2)), (num(3), num(4))])),
    ];
    for (a, b) in cases {
        let goal = lmap::subset(a.clone(), b.clone());
        assert_eq!(goal.into_states().len(), 1, "case: {a:?} {b:?}");
    }
}

#[test]
fn subset_should_fail_on() {
    let mut src = LVarSource::new();
    let x = Value::var(&mut src);
    let cases = vec![
        (pairs(&[(num(1), num(2)), (num(3), num(4))]), pairs(&[(num(1), num(2))])),
        (pairs(&[(x.clone(), num(2))]), pairs(&[(num(1), num(1))])),
        (pairs(&[(x.clone(), num(2))]), pairs(&[(num(1), num(2)), (x.clone(), num(4))])),
    ];
    for (a, b) in cases {
        let goal = lmap::subset(a.clone(), b.clone());
        assert_eq!(goal.into_states().len(), 0, "case: {a:?} {b:?}");
    }
}

#[test]
fn superset_should_succeed_on() {
    let mut src = LVarSource::new();
    let x = Value::var(&mut src);
    let cases = vec![
        (pairs(&[(num(1), num(2))]), pairs(&[(num(1), num(2))])),
        (pairs(&[(num(1), num(2)), (num(3), num(4))]), pairs(&[(num(1), num(2))])),
        (pairs(&[(x.clone(), num(2)), (num(3), num(4))]), pairs(&[(x.clone(), num(2))])),
    ];
    for (a, b) in cases {
        let goal = lmap::superset(a.clone(), b.clone());
        assert_eq!(goal.into_states().len(), 1, "case: {a:?} {b:?}");
    }
}

#[test]
fn superset_should_fail_on() {
    let mut src = LVarSource::new();
    let x = Value::var(&mut src);
    let cases = vec![
        (pairs(&[(num(1), num(2))]), pairs(&[(num(1), num(2)), (num(3), num(4))])),
        (pairs(&[(x.clone(), num(2))]), pairs(&[(num(1), num(1))])),
        (pairs(&[(num(1), num(2)), (x.clone(), num(4))]), pairs(&[(x.clone(), num(2))])),
    ];
    for (a, b) in cases {
        let goal = lmap::superset(a.clone(), b.clone());
        assert_eq!(goal.into_states().len(), 0, "case: {a:?} {b:?}");
    }
}

#[test]
fn reify_vec() {
    let x = ints(&[1, 2]);
    let state = canrun::kernel::state::State::new();
    assert_eq!(state.reify(&x), Some(ints(&[1, 2])));
}
