use copper::props::{Add, LessThanOrEquals, Prop, PropId, Sum};
use copper::search::{split_on_unassigned, Agenda, Brancher, Choice, Mutation};
use copper::views::{Term, ViewExt};
use copper::{Context, Model, Solution, Var, VarId, Vars};

fn store(doms: &[(i32, i32)]) -> Context {
    let mut vars = Vars::new();
    for &(min, max) in doms {
        vars.new_var_with_bounds(min, max);
    }
    Context::new(vars)
}

#[test]
fn trivial_domain_strict_constructor() {
    let mut m = Model::new();
    assert!(m.new_var(1, 1).is_none());
    let x = m.new_var(0, 1);
    assert!(x.is_some());
    assert_eq!(x.unwrap().index(), 0);
}

#[test]
fn binary_variables_are_zero_or_one() {
    let mut m = Model::new();
    let b = m.new_var_binary();
    let mut sols = m.enumerate();
    sols.sort();
    assert_eq!(sols, vec![Solution::from(vec![0]), Solution::from(vec![1])]);
    assert!(!sols[0].get_value_binary(b));
    assert!(sols[1].get_value_binary(b));
}

#[test]
fn enumerate_has_no_duplicates_and_only_solutions() {
    let mut m = Model::new();
    let x = m.new_var(0, 3).unwrap();
    let y = m.new_var(0, 3).unwrap();
    m.less_than(x, y);
    let mut sols = m.enumerate();
    sols.sort();
    let mut expected = Vec::new();
    for a in 0..=3 {
        for b in 0..=3 {
            if a < b {
                expected.push(Solution::from(vec![a, b]));
            }
        }
    }
    assert_eq!(sols, expected);
}

#[test]
fn less_than_matches_leq_of_plus_one() {
    let mut m1 = Model::new();
    let x = m1.new_var(-3, 4).unwrap();
    let y = m1.new_var(-2, 2).unwrap();
    m1.less_than(x, y);
    let mut s1 = m1.enumerate();
    s1.sort();

    let mut m2 = Model::new();
    let x = m2.new_var(-3, 4).unwrap();
    let y = m2.new_var(-2, 2).unwrap();
    m2.less_than_or_equals(x.plus(1), y);
    let mut s2 = m2.enumerate();
    s2.sort();

    assert_eq!(s1, s2);
    assert_eq!(s1.len(), 15);
}

#[test]
fn maximize_is_minimize_of_opposite() {
    let build = || {
        let mut m = Model::new();
        let x = m.new_var(-5, 6).unwrap();
        let y = m.new_var(0, 4).unwrap();
        let s = m.add(x, y.times(-3));
        m.less_than_or_equals(s, 2);
        (m, s)
    };
    let (m, s) = build();
    let best_max = m.maximize(s).unwrap().get(s);
    let (m, s) = build();
    let best_min_opp = m.minimize(s.opposite()).unwrap().get(s);
    assert_eq!(best_max, best_min_opp);
    assert_eq!(best_max, 2);
}

#[test]
fn minimize_and_iterate_strictly_improves() {
    let mut m = Model::new();
    let x = m.new_var(-4, 4).unwrap();
    let sols = m.minimize_and_iterate(x);
    assert!(!sols.is_empty());
    for w in sols.windows(2) {
        assert!(w[1].get(x) < w[0].get(x));
    }
    assert_eq!(sols.last().unwrap().get(x), -4);
}

#[test]
fn maximize_and_iterate_strictly_improves() {
    let mut m = Model::new();
    let x = m.new_var(-4, 4).unwrap();
    let sols = m.maximize_and_iterate(x);
    for w in sols.windows(2) {
        assert!(w[1].get(x) > w[0].get(x));
    }
    assert_eq!(sols.last().unwrap().get(x), 4);
}

#[test]
fn infeasible_linear() {
    let mut m = Model::new();
    let x = m.new_var(-7, 9).unwrap();
    m.equals(x.plus(10), 1);
    assert!(m.solve().is_none());
}

#[test]
fn infeasible_model_enumerates_nothing() {
    let mut m = Model::new();
    let x = m.new_var(0, 5).unwrap();
    m.greater_than(x, 5);
    assert!(m.enumerate().is_empty());
    let mut m = Model::new();
    let x = m.new_var(0, 5).unwrap();
    m.greater_than(x, 5);
    assert!(m.minimize(x).is_none());
}

#[test]
fn knapsack() {
    let weights = [10, 60, 30, 40, 30, 20, 20, 2];
    let values = [1, 10, 15, 40, 60, 90, 100, 15];
    let mut m = Model::new();
    let xs = m.new_vars_binary(weights.len());
    let weight = m.linear(&xs, &weights);
    m.less_than_or_equals(weight, 102);
    let value = m.linear(&xs, &values);
    let solution = m.maximize(value).unwrap();
    assert_eq!(
        solution.get_values_binary(&xs),
        vec![false, false, true, false, true, true, true, true]
    );
    assert_eq!(solution.get(weight), 102);
    assert_eq!(solution.get(value), 280);
}

#[test]
fn pc_build() {
    let mut m = Model::new();
    let n_monitors = m.new_var(1, 3).unwrap();
    let monitor_price = 100;
    let monitor_score = 250;
    let gpu_prices = [150, 250, 500];
    let gpu_scores = [100, 400, 800];
    let gpus = m.new_vars_binary(gpu_scores.len());
    let price_terms: Vec<Term> = gpus.iter().zip(gpu_prices).map(|(x, p)| x.times(p)).collect();
    let score_terms: Vec<Term> = gpus.iter().zip(gpu_scores).map(|(x, s)| x.times(s)).collect();
    let gpu_price = m.sum_iter(price_terms);
    let gpu_score = m.sum_iter(score_terms);
    let price = m.add(gpu_price, n_monitors.times(monitor_price));
    let score = m.add(gpu_score, n_monitors.times(monitor_score));
    let n_gpus = m.sum(&gpus);
    m.equals(n_gpus, 1);
    m.less_than_or_equals(price, 600);
    let solution = m.maximize(score).unwrap();
    assert_eq!(solution.get(n_monitors), 3);
    assert_eq!(solution.get_values_binary(&gpus), vec![false, true, false]);
    assert_eq!(solution.get(score), 1150);
    assert_eq!(solution.get(price), 550);
}

#[test]
fn linear_with_negative_and_zero_coefficients() {
    let mut m = Model::new();
    let xs = m.new_vars(3, 0, 2).unwrap();
    let e = m.linear(&xs, &[2, 0, -1]);
    let sol = m.maximize(e).unwrap();
    assert_eq!(sol.get(e), 4);
    assert_eq!(sol.get(xs[0]), 2);
    assert_eq!(sol.get(xs[2]), 0);
}

#[test]
fn get_values_reads_in_slice_order() {
    let mut m = Model::new();
    let x = m.new_var(3, 4).unwrap();
    let y = m.new_var(-2, -1).unwrap();
    m.equals(x, 4);
    m.equals(y, -2);
    let s = m.solve().unwrap();
    assert_eq!(s.get_values(&[y, x, y]), vec![-2, 4, -2]);
    assert_eq!(s.len(), 2);
}

#[test]
fn store_try_set_min_and_max() {
    let mut c = store(&[(-7, 9)]);
    let v = VarId(0);
    assert_eq!(c.try_set_min(v, -9), Some(-7));
    assert!(c.drain_events().is_empty());
    assert_eq!(c.try_set_min(v, 2), Some(2));
    assert_eq!(c.try_set_max(v, 5), Some(5));
    assert_eq!(c.try_set_max(v, 8), Some(5));
    let evs = c.drain_events();
    assert_eq!(evs, vec![v]);
    assert!(c.drain_events().is_empty());
    assert_eq!(c.try_set_min(v, 6), None);
    assert_eq!(c.try_set_max(v, 1), None);
    assert_eq!((c.min(v), c.max(v)), (2, 5));
    assert_eq!(c.try_set(v, 3), Some(3));
    assert_eq!((c.min(v), c.max(v)), (3, 3));
}

#[test]
fn midpoint_without_overflow() {
    let v = Var { min: i32::MIN, max: i32::MAX };
    assert_eq!(v.mid(), -1);
    assert_eq!(Var { min: -7, max: 9 }.mid(), 1);
    assert_eq!(Var { min: -8, max: -7 }.mid(), -8);
    assert!(Var { min: 4, max: 4 }.is_assigned());
    assert_eq!(Var { min: 4, max: 4 }.get_assignment(), 4);
}

#[test]
fn view_bounds() {
    let c = store(&[(-7, 9)]);
    let x = VarId(0);
    let opp = x.opposite();
    assert_eq!((opp.min(&c), opp.max(&c)), (-9, 7));
    let p = x.plus(3);
    assert_eq!((p.min(&c), p.max(&c)), (-4, 12));
    let t = x.times(-2);
    assert_eq!((t.min(&c), t.max(&c)), (-18, 14));
    let z = x.times(0);
    assert_eq!((z.min(&c), z.max(&c)), (0, 0));
    assert_eq!(z.get_underlying_var(), None);
    assert_eq!(t.get_underlying_var(), Some(x));
}

#[test]
fn opposite_of_opposite_has_same_bounds() {
    let c = store(&[(-7, 9)]);
    let x = VarId(0);
    let v = x.plus(2).opposite().opposite();
    let w = x.plus(2);
    assert_eq!((v.min(&c), v.max(&c)), (w.min(&c), w.max(&c)));
    let u = x.plus(5).plus(-5);
    assert_eq!((u.min(&c), u.max(&c)), (-7, 9));
}

#[test]
fn times_pos_rounds_bounds_inward() {
    // x in [-7, 9]; 2 * x >= -7 gives x >= ceil(-7 / 2) = -3
    let mut c = store(&[(-7, 9)]);
    let t = VarId(0).times_pos(2);
    assert!(t.try_set_min(-7, &mut c));
    assert_eq!(c.min(VarId(0)), -3);
    // 2 * x <= -7 would give x <= floor(-7 / 2) = -4, which is below -3
    assert!(!t.try_set_max(-7, &mut c));
    assert_eq!((c.min(VarId(0)), c.max(VarId(0))), (-3, 9));
    assert!(t.try_set_max(7, &mut c));
    assert_eq!(c.max(VarId(0)), 3);
}

#[test]
fn constant_view_never_narrows() {
    let mut c = store(&[(0, 1)]);
    let k = 5.into_term();
    assert!(k.try_set_min(5, &mut c));
    assert!(!k.try_set_min(6, &mut c));
    assert!(k.try_set_max(5, &mut c));
    assert!(!k.try_set_max(4, &mut c));
    assert!(c.drain_events().is_empty());
}

#[test]
fn leq_prune_narrows_both_sides() {
    let mut c = store(&[(-7, 9), (1, 3)]);
    let p = Prop::Leq(LessThanOrEquals::new(Term::Var(VarId(0)), Term::Var(VarId(1))));
    assert!(p.prune(&mut c));
    assert_eq!((c.min(VarId(0)), c.max(VarId(0))), (-7, 3));
    assert_eq!((c.min(VarId(1)), c.max(VarId(1))), (1, 3));
    let mut c = store(&[(5, 9), (1, 3)]);
    assert!(!p.prune(&mut c));
}

#[test]
fn agenda_is_fifo_without_duplicates() {
    let mut a = Agenda::new(4);
    a.schedule(PropId(2));
    a.schedule(PropId(0));
    a.schedule(PropId(2));
    a.schedule(PropId(3));
    assert_eq!(a.len(), 3);
    assert_eq!(a.pop(), Some(PropId(2)));
    a.schedule(PropId(2));
    assert_eq!(a.pop(), Some(PropId(0)));
    assert_eq!(a.pop(), Some(PropId(3)));
    assert_eq!(a.pop(), Some(PropId(2)));
    assert_eq!(a.pop(), None);
    let b = Agenda::with_props(3);
    assert_eq!(b.len(), 3);
}

#[test]
fn expression_builders() {
    let mut m = Model::new();
    let x = m.new_var(-3, 4).unwrap();
    let y = m.new_var(1, 2).unwrap();
    let o = m.opposite(x);
    let s = m.scale(x, -3);
    let d = m.minus(x, y);
    let k = m.cst(7);
    m.leq(x, 2);
    m.equals(y, 2);
    let sol = m.minimize(o).unwrap();
    assert_eq!(sol.get(x), 2);
    assert_eq!(sol.get(o), -2);
    assert_eq!(sol.get(s), -6);
    assert_eq!(sol.get(d), 0);
    assert_eq!(sol.get(k), 7);
}

#[test]
fn split_on_first_unassigned_at_midpoint() {
    let mut c = store(&[(4, 4), (-7, 9), (0, 1)]);
    let (l, r) = split_on_unassigned(&c).unwrap();
    assert_eq!(l, Choice::new(VarId(1), Mutation::Max(1)));
    assert_eq!(r, Choice::new(VarId(1), Mutation::Min(2)));
    assert!(l.apply(&mut c));
    assert_eq!((c.min(VarId(1)), c.max(VarId(1))), (-7, 1));
    assert!(Choice::new(VarId(1), Mutation::Assign(-2)).apply(&mut c));
    assert_eq!((c.min(VarId(1)), c.max(VarId(1))), (-2, -2));
    assert!(!Choice::new(VarId(2), Mutation::Assign(3)).apply(&mut c));
    assert!(Choice::new(VarId(2), Mutation::Assign(1)).apply(&mut c));
    assert!(split_on_unassigned(&c).is_none());
}

#[test]
fn widest_domain() {
    let mut m = Model::new();
    let x = m.new_var(i32::MIN, i32::MAX).unwrap();
    m.equals(x.plus(-5), 12345);
    assert_eq!(m.solve().unwrap().get(x), 12350);
    let mut m = Model::new();
    let x = m.new_var(i32::MIN, i32::MAX).unwrap();
    assert_eq!(m.minimize(x).unwrap().get(x), i32::MIN);
}

#[test]
fn sum_prune_narrows_terms() {
    // x, y in [0, 5], s in [8, 9]: each term must be at least 3
    let mut c = store(&[(0, 5), (0, 5), (8, 9)]);
    let p = Prop::Sum(Sum::new(vec![Term::Var(VarId(0)), Term::Var(VarId(1))], VarId(2)));
    assert!(p.prune(&mut c));
    assert_eq!((c.min(VarId(0)), c.max(VarId(0))), (3, 5));
    assert_eq!((c.min(VarId(1)), c.max(VarId(1))), (3, 5));
    assert_eq!((c.min(VarId(2)), c.max(VarId(2))), (8, 9));
    let mut c = store(&[(0, 1), (0, 1), (3, 9)]);
    assert!(!p.prune(&mut c));
}

#[test]
fn add_prune_narrows_all_sides() {
    let mut c = store(&[(-7, 9), (-7, 9), (16, 30)]);
    let p = Prop::Add(Add::new(Term::Var(VarId(0)), Term::Var(VarId(1)), VarId(2)));
    assert!(p.prune(&mut c));
    assert_eq!((c.min(VarId(0)), c.max(VarId(0))), (7, 9));
    assert_eq!((c.min(VarId(1)), c.max(VarId(1))), (7, 9));
    assert_eq!((c.min(VarId(2)), c.max(VarId(2))), (16, 18));
}

fn run_to_fixpoint(props: &[Prop], order: &[usize], doms: &[(i32, i32)]) -> Option<Vec<(i32, i32)>> {
    let mut c = store(doms);
    loop {
        let before: Vec<(i32, i32)> = (0..doms.len()).map(|i| (c.min(VarId(i)), c.max(VarId(i)))).collect();
        for &k in order {
            if !props[k].prune(&mut c) {
                return None;
            }
        }
        let after: Vec<(i32, i32)> = (0..doms.len()).map(|i| (c.min(VarId(i)), c.max(VarId(i)))).collect();
        for (b, a) in before.iter().zip(after.iter()) {
            assert!(b.0 <= a.0 && a.1 <= b.1);
            assert!(a.0 <= a.1);
        }
        if after == before {
            return Some(after);
        }
    }
}

#[test]
fn propagation_fixpoint_is_order_independent() {
    // x + y = s, s <= 2 * y + 4, x >= y + 1 over x, y in [0, 10], s in [0, 12]
    let props = vec![
        Prop::Add(Add::new(Term::Var(VarId(0)), Term::Var(VarId(1)), VarId(2))),
        Prop::Leq(LessThanOrEquals::new(Term::Var(VarId(2)), VarId(1).times(2).plus(4))),
        Prop::Leq(LessThanOrEquals::new(VarId(1).plus(1), Term::Var(VarId(0)))),
    ];
    let doms = [(0, 10), (0, 10), (0, 12)];
    let a = run_to_fixpoint(&props, &[0, 1, 2], &doms);
    let b = run_to_fixpoint(&props, &[2, 1, 0], &doms);
    let c = run_to_fixpoint(&props, &[1, 0, 2], &doms);
    assert_eq!(a, Some(vec![(1, 10), (0, 9), (1, 12)]));
    assert_eq!(a, b);
    assert_eq!(a, c);
    // x + y = s, s <= 2 * y, x >= y + 1 has no solution: every order fails
    let props = vec![
        Prop::Add(Add::new(Term::Var(VarId(0)), Term::Var(VarId(1)), VarId(2))),
        Prop::Leq(LessThanOrEquals::new(Term::Var(VarId(2)), VarId(1).times(2))),
        Prop::Leq(LessThanOrEquals::new(VarId(1).plus(1), Term::Var(VarId(0)))),
    ];
    assert_eq!(run_to_fixpoint(&props, &[0, 1, 2], &doms), None);
    assert_eq!(run_to_fixpoint(&props, &[2, 1, 0], &doms), None);
}

fn small_model() -> (Model, VarId, VarId) {
    let mut m = Model::new();
    let x = m.new_var(-3, 4).unwrap();
    let y = m.new_var(0, 5).unwrap();
    m.less_than(x, y);
    let s = m.add(x, y);
    m.less_than_or_equals(s, 6);
    (m, x, y)
}

#[test]
fn branchers_enumerate_the_same_solutions() {
    let (m, _, _) = small_model();
    let mut reference = m.enumerate();
    reference.sort();
    assert!(!reference.is_empty());
    for b in [Brancher::SplitOnUnassigned, Brancher::SetMinToMax, Brancher::SetMaxToMin] {
        let (m, _, _) = small_model();
        let mut sols = m.with_brancher(b).enumerate();
        let n = sols.len();
        sols.sort();
        sols.dedup();
        assert_eq!(sols.len(), n);
        assert_eq!(sols, reference);
    }
}

#[test]
fn value_branchers_find_first_solution_in_their_order() {
    let (m, x, _) = small_model();
    assert_eq!(m.with_brancher(Brancher::SetMinToMax).solve().unwrap().get(x), -3);
    let (m, x, y) = small_model();
    let s = m.with_brancher(Brancher::SetMaxToMin).solve().unwrap();
    assert_eq!((s.get(x), s.get(y)), (2, 4));
}

#[test]
fn branchers_reach_the_same_optimum() {
    for b in [Brancher::SplitOnUnassigned, Brancher::SetMinToMax, Brancher::SetMaxToMin] {
        let (m, x, _) = small_model();
        assert_eq!(m.with_brancher(b).maximize(x).unwrap().get(x), 2);
        let (m, _, y) = small_model();
        assert_eq!(m.with_brancher(b).minimize(y).unwrap().get(y), 0);
    }
    let weights = [10, 60, 30, 40, 30, 20, 20, 2];
    let values = [1, 10, 15, 40, 60, 90, 100, 15];
    let mut m = Model::new();
    let xs = m.new_vars_binary(weights.len());
    let weight = m.linear(&xs, &weights);
    m.less_than_or_equals(weight, 102);
    let value = m.linear(&xs, &values);
    let solution = m.with_brancher(Brancher::SetMaxToMin).maximize(value).unwrap();
    assert_eq!(solution.get(value), 280);
}

fn bounds_and_events(t: &Term, lower: bool, m: i128) -> (bool, i32, i32, Vec<VarId>) {
    let mut c = store(&[(-7, 9)]);
    let ok = if lower { t.try_set_min(m, &mut c) } else { t.try_set_max(m, &mut c) };
    (ok, c.min(VarId(0)), c.max(VarId(0)), c.drain_events())
}

#[test]
fn rewritten_views_set_bounds_alike() {
    let x = VarId(0);
    for m in [-20, -8, -7, -3, 0, 4, 9, 10, 25] {
        for lower in [true, false] {
            let base = bounds_and_events(&x.into_term(), lower, m);
            assert_eq!(bounds_and_events(&x.opposite().opposite(), lower, m), base);
            assert_eq!(bounds_and_events(&x.plus(6).plus(-6), lower, m), base);
            assert_eq!(bounds_and_events(&x.times_pos(3), lower, 3 * m), base);
        }
    }
    assert_eq!(bounds_and_events(&x.into_term(), true, 4), (true, 4, 9, vec![x]));
    assert_eq!(bounds_and_events(&x.into_term(), true, 10).0, false);
}

#[test]
fn events_record_each_change_once() {
    let mut c = store(&[(0, 9), (0, 9)]);
    assert_eq!(c.try_set_min(VarId(1), 2), Some(2));
    assert_eq!(c.try_set_max(VarId(0), 5), Some(5));
    assert_eq!(c.try_set_max(VarId(1), 7), Some(7));
    assert_eq!(c.try_set_min(VarId(0), 0), Some(0));
    assert_eq!(c.drain_events(), vec![VarId(1), VarId(0)]);
}
