use canrun::kernel::reading::Query;
use canrun::goals::cmp::{gt, gte, lt, lte, max, min};
use canrun::goals::not::not;
use canrun::goals::ops::{add, div, mul, sub};
use canrun::goals::project::{assert_1, assert_2, map_1, map_2, Op1, Op2, Relation};
use canrun::goals::{all, any, both, either, fail, succeed, unify, Goal};
use canrun::kernel::state::State;
use canrun::collections::lvec::LVec;
use canrun::value::{LVarSource, Term, Value};

fn num(n: i64) -> Value {
    Value::of_int(n)
}

fn tuple(items: Vec<Value>) -> Value {
    Value::new(Term::LVec(LVec::from_vec(items)))
}

fn permutations(goals: Vec<Goal>) -> Vec<Vec<Goal>> {
    if goals.len() <= 1 {
        return vec![goals];
    }
    let mut out = Vec::new();
    for i in 0..goals.len() {
        let mut rest = goals.clone();
        let first = rest.remove(i);
        for mut p in permutations(rest) {
            p.insert(0, first.clone());
            out.push(p);
        }
    }
    out
}

fn same_answers(found: &[Value], expected: &[Value]) -> bool {
    if found.len() != expected.len() {
        return false;
    }
    expected.iter().all(|e| {
        found.iter().filter(|f| *f == e).count() == expected.iter().filter(|x| *x == e).count()
    })
}

fn assert_permutations_resolve_to(goals: Vec<Goal>, query: &Value, expected: Vec<Value>) {
    for p in permutations(goals) {
        let found = all(p.clone()).query(query);
        assert!(same_answers(&found, &expected), "{:?} gave {:?}, expected {:?}", p, found, expected);
    }
}

#[test]
fn gt_succeeds() {
    let mut src = LVarSource::new();
    let (x, y) = (Value::var(&mut src), Value::var(&mut src));
    let goals = vec![unify(x.clone(), num(2)), unify(y.clone(), num(1)), gt(x.clone(), y.clone())];
    assert_permutations_resolve_to(goals, &tuple(vec![x, y]), vec![tuple(vec![num(2), num(1)])]);
}

#[test]
fn gt_fails() {
    let mut src = LVarSource::new();
    let (x, y) = (Value::var(&mut src), Value::var(&mut src));
    let goals = vec![unify(x.clone(), num(1)), unify(y.clone(), num(2)), gt(x.clone(), y.clone())];
    assert_permutations_resolve_to(goals, &tuple(vec![x, y]), vec![]);
}

#[test]
fn gte_succeeds() {
    let mut src = LVarSource::new();
    let (x, y, z) = (Value::var(&mut src), Value::var(&mut src), Value::var(&mut src));
    let goals = vec![
        unify(x.clone(), num(2)),
        unify(y.clone(), num(1)),
        unify(z.clone(), num(1)),
        gte(x.clone(), y.clone()),
        gte(y.clone(), z.clone()),
    ];
    assert_permutations_resolve_to(goals, &tuple(vec![x, y, z]), vec![tuple(vec![num(2), num(1), num(1)])]);
}

#[test]
fn gte_fails() {
    let mut src = LVarSource::new();
    let (x, y) = (Value::var(&mut src), Value::var(&mut src));
    let goals = vec![unify(x.clone(), num(1)), unify(y.clone(), num(2)), gte(x.clone(), y.clone())];
    assert_permutations_resolve_to(goals, &tuple(vec![x, y]), vec![]);
}

#[test]
fn lt_succeeds() {
    let mut src = LVarSource::new();
    let (x, y) = (Value::var(&mut src), Value::var(&mut src));
    let goals = vec![unify(x.clone(), num(1)), unify(y.clone(), num(2)), lt(x.clone(), y.clone())];
    assert_permutations_resolve_to(goals, &tuple(vec![x, y]), vec![tuple(vec![num(1), num(2)])]);
}

#[test]
fn lt_fails() {
    let mut src = LVarSource::new();
    let (x, y) = (Value::var(&mut src), Value::var(&mut src));
    let goals = vec![unify(x.clone(), num(2)), unify(y.clone(), num(1)), lt(x.clone(), y.clone())];
    assert_permutations_resolve_to(goals, &tuple(vec![x, y]), vec![]);
}

#[test]
fn lte_succeeds() {
    let mut src = LVarSource::new();
    let (x, y, z) = (Value::var(&mut src), Value::var(&mut src), Value::var(&mut src));
    let goals = vec![
        unify(x.clone(), num(1)),
        unify(y.clone(), num(2)),
        unify(z.clone(), num(2)),
        lte(x.clone(), y.clone()),
        lte(y.clone(), z.clone()),
    ];
    assert_permutations_resolve_to(goals, &tuple(vec![x, y, z]), vec![tuple(vec![num(1), num(2), num(2)])]);
}

#[test]
fn lte_fails() {
    let mut src = LVarSource::new();
    let (x, y) = (Value::var(&mut src), Value::var(&mut src));
    let goals = vec![unify(x.clone(), num(2)), unify(y.clone(), num(1)), lte(x.clone(), y.clone())];
    assert_permutations_resolve_to(goals, &tuple(vec![x, y]), vec![]);
}

fn three(a: i64, b: i64, c: i64, f: fn(Value, Value, Value) -> Goal) -> (Vec<Goal>, Value) {
    let mut src = LVarSource::new();
    let (x, y, z) = (Value::var(&mut src), Value::var(&mut src), Value::var(&mut src));
    let goals = vec![
        unify(x.clone(), num(a)),
        unify(y.clone(), num(b)),
        unify(z.clone(), num(c)),
        f(x.clone(), y.clone(), z.clone()),
    ];
    (goals, tuple(vec![x, y, z]))
}

#[test]
fn max_succeeds_gt() {
    let (goals, q) = three(1, 2, 2, max);
    assert_permutations_resolve_to(goals, &q, vec![tuple(vec![num(1), num(2), num(2)])]);
}

#[test]
fn max_succeeds_gte() {
    let (goals, q) = three(1, 1, 1, max);
    assert_permutations_resolve_to(goals, &q, vec![tuple(vec![num(1), num(1), num(1)])]);
}

#[test]
fn max_fails() {
    let (goals, q) = three(2, 1, 1, max);
    assert_permutations_resolve_to(goals, &q, vec![]);
}

#[test]
fn min_succeeds_lt() {
    let (goals, q) = three(1, 2, 1, min);
    assert_permutations_resolve_to(goals, &q, vec![tuple(vec![num(1), num(2), num(1)])]);
}

#[test]
fn min_succeeds_lte() {
    let (goals, q) = three(1, 1, 1, min);
    assert_permutations_resolve_to(goals, &q, vec![tuple(vec![num(1), num(1), num(1)])]);
}

#[test]
fn min_fails() {
    let (goals, q) = three(2, 1, 2, min);
    assert_permutations_resolve_to(goals, &q, vec![]);
}

#[test]
fn add_succeeds() {
    let (goals, q) = three(1, 2, 3, add);
    assert_permutations_resolve_to(goals, &q, vec![tuple(vec![num(1), num(2), num(3)])]);
}

#[test]
fn add_fails() {
    let (goals, q) = three(1, 2, 4, add);
    assert_permutations_resolve_to(goals, &q, vec![]);
}

#[test]
fn sub_succeeds() {
    let (goals, q) = three(3, 2, 1, sub);
    assert_permutations_resolve_to(goals, &q, vec![tuple(vec![num(3), num(2), num(1)])]);
}

#[test]
fn sub_fails() {
    let (goals, q) = three(3, 2, 4, sub);
    assert_permutations_resolve_to(goals, &q, vec![]);
}

#[test]
fn mul_succeeds() {
    let (goals, q) = three(2, 3, 6, mul);
    assert_permutations_resolve_to(goals, &q, vec![tuple(vec![num(2), num(3), num(6)])]);
}

#[test]
fn mul_fails() {
    let (goals, q) = three(2, 3, 5, mul);
    assert_permutations_resolve_to(goals, &q, vec![]);
}

#[test]
fn div_succeeds() {
    let (goals, q) = three(6, 3, 2, div);
    assert_permutations_resolve_to(goals, &q, vec![tuple(vec![num(6), num(3), num(2)])]);
}

#[test]
fn div_fails() {
    let (goals, q) = three(6, 3, 5, div);
    assert_permutations_resolve_to(goals, &q, vec![]);
}

#[test]
fn either_succeed() {
    let result = either(succeed(), succeed()).apply(State::new());
    assert_eq!(result.map_or(0, |s| s.into_states().len()), 2);
}

#[test]
fn either_succeed_or_fail() {
    let result = either(succeed(), fail()).apply(State::new());
    assert_eq!(result.map_or(0, |s| s.into_states().len()), 1);
}

#[test]
fn either_fail_or_succeed() {
    let result = either(fail(), succeed()).apply(State::new());
    assert_eq!(result.map_or(0, |s| s.into_states().len()), 1);
}

#[test]
fn either_fail() {
    let result = either(fail(), fail()).apply(State::new());
    assert_eq!(result.map_or(0, |s| s.into_states().len()), 0);
}

#[test]
fn any_both_succeed() {
    let mut src = LVarSource::new();
    let x = Value::var(&mut src);
    let goal = any(vec![unify(x.clone(), num(5)), unify(x.clone(), num(7))]);
    assert_eq!(goal.query(&x), vec![num(5), num(7)]);
}

#[test]
fn one_succeeds() {
    let mut src = LVarSource::new();
    let x = Value::var(&mut src);
    let goal = any(vec![unify(x.clone(), num(5)), both(fail(), unify(x.clone(), num(7)))]);
    assert_eq!(goal.query(&x), vec![num(5)]);
}

#[test]
fn all_fail() {
    let mut src = LVarSource::new();
    let x = Value::var(&mut src);
    let goal = any(vec![both(fail(), unify(x.clone(), num(5))), both(fail(), unify(x.clone(), num(7)))]);
    assert_eq!(goal.query(&x), vec![]);
}

#[test]
fn both_both_succeed() {
    assert!(both(succeed(), succeed()).apply(State::new()).is_some());
}

#[test]
fn both_succeed_then_fail() {
    assert!(both(succeed(), fail()).apply(State::new()).is_none());
}

#[test]
fn both_fail_then_succeed() {
    assert!(both(fail(), succeed()).apply(State::new()).is_none());
}

#[test]
fn all_succeeds() {
    let mut src = LVarSource::new();
    let (x, y) = (Value::var(&mut src), Value::var(&mut src));
    let goal = all(vec![unify(y.clone(), x.clone()), unify(y.clone(), num(1))]);
    assert_eq!(goal.query(&tuple(vec![x, y])), vec![tuple(vec![num(1), num(1)])]);
}

#[test]
fn all_fails() {
    let mut src = LVarSource::new();
    let x = Value::var(&mut src);
    let goal = all(vec![unify(x.clone(), num(5)), unify(x.clone(), num(7))]);
    assert_eq!(goal.query(&x), vec![]);
}

#[test]
fn both_with_negation_is_sequence() {
    let mut src = LVarSource::new();
    let x = Value::var(&mut src);
    let a = not(unify(x.clone(), num(2)));
    let b = unify(x.clone(), num(1));
    let together = both(a.clone(), b.clone()).apply(State::new()).unwrap();
    let in_turn = b.apply(a.apply(State::new()).unwrap()).unwrap();
    assert_eq!(together.query(&x), vec![num(1)]);
    assert_eq!(in_turn.query(&x), together.query(&x));
    let refused = both(not(unify(x.clone(), num(1))), b.clone()).apply(State::new());
    assert!(refused.is_none());
}

#[test]
fn fail_goal_fails() {
    assert!(fail().apply(State::new()).is_none());
}

#[test]
fn succeeds_when_child_fails() {
    assert!(not(fail()).apply(State::new()).is_some());
}

#[test]
fn fails_when_child_succeeds() {
    assert!(not(succeed()).apply(State::new()).is_none());
}

#[test]
fn succeeds_with_unify() {
    let mut src = LVarSource::new();
    let x = Value::var(&mut src);
    let goals = vec![not(unify(x.clone(), num(2))), unify(x.clone(), num(1))];
    assert_permutations_resolve_to(goals, &x, vec![num(1)]);
}

#[test]
fn succeeds_with_constraints() {
    let mut src = LVarSource::new();
    let x = Value::var(&mut src);
    let goals = vec![not(assert_1(x.clone(), Relation::Equal, 2)), unify(x.clone(), num(1))];
    assert_permutations_resolve_to(goals, &x, vec![num(1)]);
}

#[test]
fn fails_with_unify() {
    let mut src = LVarSource::new();
    let x = Value::var(&mut src);
    let goals = vec![not(unify(x.clone(), num(1))), unify(x.clone(), num(1))];
    assert_permutations_resolve_to(goals, &x, vec![]);
}

#[test]
fn fails_with_constraints() {
    let mut src = LVarSource::new();
    let x = Value::var(&mut src);
    let goals = vec![not(assert_1(x.clone(), Relation::Equal, 1)), unify(x.clone(), num(1))];
    assert_permutations_resolve_to(goals, &x, vec![]);
}

#[test]
fn succeeds_with_forking_goals() {
    let mut src = LVarSource::new();
    let x = Value::var(&mut src);
    let goals = vec![
        unify(x.clone(), num(1)),
        not(any(vec![unify(x.clone(), num(2)), unify(x.clone(), num(3))])),
    ];
    assert_permutations_resolve_to(goals, &x, vec![num(1)]);
}

#[test]
fn fails_with_forking_goals() {
    let mut src = LVarSource::new();
    let x = Value::var(&mut src);
    let goals = vec![
        not(any(vec![unify(x.clone(), num(1)), unify(x.clone(), num(2))])),
        unify(x.clone(), num(1)),
    ];
    assert_permutations_resolve_to(goals, &num(1), vec![]);
}

#[test]
fn succeeds_with_adjacent_forking_goals() {
    let mut src = LVarSource::new();
    let x = Value::var(&mut src);
    let goals = vec![
        any(vec![unify(x.clone(), num(1)), unify(x.clone(), num(2))]),
        not(any(vec![unify(x.clone(), num(1)), unify(x.clone(), num(3))])),
    ];
    assert_permutations_resolve_to(goals, &x, vec![num(2)]);
}

#[test]
fn fails_with_adjacent_forking_goals() {
    let mut src = LVarSource::new();
    let x = Value::var(&mut src);
    let y = Value::var(&mut src);
    let goals = vec![
        not(any(vec![unify(x.clone(), num(1)), unify(y.clone(), num(1))])),
        any(vec![unify(x.clone(), num(1)), unify(x.clone(), num(1))]),
        unify(y.clone(), num(1)),
    ];
    assert_permutations_resolve_to(goals, &x, vec![]);
}

#[test]
fn assert_1_succeeds() {
    let mut src = LVarSource::new();
    let x = Value::var(&mut src);
    let goal = both(unify(x.clone(), num(2)), assert_1(x.clone(), Relation::Greater, 1));
    assert_eq!(goal.query(&x), vec![num(2)]);
}

#[test]
fn assert_1_fails() {
    let mut src = LVarSource::new();
    let x = Value::var(&mut src);
    let goal = both(unify(x.clone(), num(1)), assert_1(x.clone(), Relation::Greater, 1));
    assert_eq!(goal.query(&x).len(), 0);
}

#[test]
fn assert_2_succeeds() {
    let mut src = LVarSource::new();
    let x = Value::var(&mut src);
    let goal = both(unify(x.clone(), num(2)), assert_2(x.clone(), num(1), Relation::Greater));
    assert_eq!(goal.query(&x), vec![num(2)]);
}

#[test]
fn assert_2_fails() {
    let mut src = LVarSource::new();
    let x = Value::var(&mut src);
    let goal = both(unify(x.clone(), num(1)), assert_2(x.clone(), num(1), Relation::Greater));
    assert_eq!(goal.query(&x).len(), 0);
}

#[test]
fn map_1_succeeds() {
    let mut src = LVarSource::new();
    let (x, y) = (Value::var(&mut src), Value::var(&mut src));
    let goal = both(
        both(unify(num(1), x.clone()), unify(num(2), y.clone())),
        map_1(x.clone(), y.clone(), Op1::Add(1), Op1::Sub(1)),
    );
    assert_eq!(goal.query(&tuple(vec![x, y])), vec![tuple(vec![num(1), num(2)])]);
}

#[test]
fn debug() {
    let mut src = LVarSource::new();
    let (x, y) = (Value::var(&mut src), Value::var(&mut src));
    let goal = map_1(x, y, Op1::Add(1), Op1::Sub(1));
    assert_ne!(format!("{goal:?}"), "");
}

#[test]
fn map_2_succeeds() {
    let mut src = LVarSource::new();
    let (x, y, z) = (Value::var(&mut src), Value::var(&mut src), Value::var(&mut src));
    let goal = both(
        both(both(unify(num(1), x.clone()), unify(num(2), y.clone())), unify(num(3), z.clone())),
        map_2(x.clone(), y.clone(), z.clone(), Op2::Add, Op2::RevSub, Op2::RevSub),
    );
    assert_eq!(goal.query(&tuple(vec![x, y])), vec![tuple(vec![num(1), num(2)])]);
}

#[test]
fn map_1_derives_missing_value() {
    let mut src = LVarSource::new();
    let (x, y) = (Value::var(&mut src), Value::var(&mut src));
    let goal = both(unify(y.clone(), num(10)), map_1(x.clone(), y.clone(), Op1::Mul(2), Op1::Div(2)));
    assert_eq!(goal.query(&x), vec![num(5)]);
}

#[test]
fn add_derives_each_value() {
    let mut src = LVarSource::new();
    let (x, y, z) = (Value::var(&mut src), Value::var(&mut src), Value::var(&mut src));
    let g1 = all(vec![unify(x.clone(), num(4)), unify(y.clone(), num(5)), add(x.clone(), y.clone(), z.clone())]);
    assert_eq!(g1.query(&z), vec![num(9)]);
    let g2 = all(vec![unify(x.clone(), num(4)), unify(z.clone(), num(9)), add(x.clone(), y.clone(), z.clone())]);
    assert_eq!(g2.query(&y), vec![num(5)]);
    let g3 = all(vec![unify(y.clone(), num(5)), unify(z.clone(), num(9)), add(x.clone(), y.clone(), z.clone())]);
    assert_eq!(g3.query(&x), vec![num(4)]);
}

#[test]
fn div_by_zero_fails() {
    let mut src = LVarSource::new();
    let z = Value::var(&mut src);
    let goal = div(num(6), num(0), z.clone());
    assert_eq!(goal.query(&z), vec![]);
}

#[test]
fn add_overflow_fails() {
    let mut src = LVarSource::new();
    let z = Value::var(&mut src);
    let goal = add(num(i64::MAX), num(1), z.clone());
    assert_eq!(goal.query(&z), vec![]);
}

#[test]
fn unsatisfied_constrain_fails() {
    let mut src = LVarSource::new();
    let x = Value::var(&mut src);
    let y = Value::var(&mut src);
    let goal = both(unify(x.clone(), num(1)), assert_1(y.clone(), Relation::Less, 3));
    assert_eq!(goal.query(&x), vec![]);
    assert_eq!(goal.query(&y), vec![]);
}

#[test]
fn comparison_of_non_integers_fails() {
    let goal = gt(tuple(vec![num(1)]), num(0));
    assert_eq!(goal.query(&num(0)), vec![]);
}
