//! Propagators: one bounds-consistent pruning procedure per constraint kind,
//! and the registry that records which propagators each variable wakes.
use vstd::prelude::*;

use crate::vars::{all_assigned, assignment_of, contains, narrower, size, wf_doms, Context, Var, VarId};
use crate::views::{
    bounds, fits, hi, lemma_bounds_local, lemma_bounds_narrower, lemma_fits_extend, lemma_fits_narrower, lemma_lo_le_hi, lemma_val_in_bounds, lo, underlying,
    val, valid, Term,
};

verus! {

/// `x + y == s`.
#[derive(Debug)]
pub struct Add {
    pub x: Term,
    pub y: Term,
    pub s: VarId,
}

/// `sum(xs) == s`.
#[derive(Debug)]
pub struct Sum {
    pub xs: Vec<Term>,
    pub s: VarId,
}

/// `x == y`.
#[derive(Debug)]
pub struct Equals {
    pub x: Term,
    pub y: Term,
}

/// `x <= y`.
#[derive(Debug)]
pub struct LessThanOrEquals {
    pub x: Term,
    pub y: Term,
}

/// A posted constraint, one variant per propagator kind.
#[derive(Debug)]
pub enum Prop {
    Add(Add),
    Sum(Sum),
    Equals(Equals),
    Leq(LessThanOrEquals),
}

/// Handle of a posted propagator, in registration order.
#[derive(Clone, Copy, Debug, PartialEq, Eq, Structural)]
pub struct PropId(pub usize);

/// Posted propagators, with the list of propagators each variable wakes.
#[derive(Debug)]
pub struct Propagators {
    state: Vec<Prop>,
    dependencies: Vec<Vec<PropId>>,
}

/// Sum of the values of the views under `a`.
pub open spec fn sum_val(xs: Seq<Term>, a: Seq<int>) -> int
    decreases xs.len(),
{
    if xs.len() == 0 {
        0
    } else {
        sum_val(xs.drop_last(), a) + val(xs.last(), a)
    }
}

/// Sum of the lower bounds of the views.
pub open spec fn sum_lo(xs: Seq<Term>, d: Seq<Var>) -> int
    decreases xs.len(),
{
    if xs.len() == 0 {
        0
    } else {
        sum_lo(xs.drop_last(), d) + lo(xs.last(), d)
    }
}

/// Sum of the upper bounds of the views.
pub open spec fn sum_hi(xs: Seq<Term>, d: Seq<Var>) -> int
    decreases xs.len(),
{
    if xs.len() == 0 {
        0
    } else {
        sum_hi(xs.drop_last(), d) + hi(xs.last(), d)
    }
}

/// The assignment `a` satisfies the constraint.
pub open spec fn sat(p: Prop, a: Seq<int>) -> bool {
    match p {
        Prop::Add(c) => val(c.x, a) + val(c.y, a) == a[c.s.0 as int],
        Prop::Sum(c) => sum_val(c.xs@, a) == a[c.s.0 as int],
        Prop::Equals(c) => val(c.x, a) == val(c.y, a),
        Prop::Leq(c) => val(c.x, a) <= val(c.y, a),
    }
}

/// Every constraint's operands fit the domains `d`.
pub open spec fn all_fit(ps: Seq<Prop>, d: Seq<Var>) -> bool {
    forall|i: int| 0 <= i < ps.len() ==> prop_fits(#[trigger] ps[i], d)
}

/// The assignment satisfies every constraint of the list.
pub open spec fn sat_all(ps: Seq<Prop>, a: Seq<int>) -> bool {
    forall|i: int| 0 <= i < ps.len() ==> sat(#[trigger] ps[i], a)
}

/// Every operand of the constraint fits the domains `d`.
pub open spec fn prop_fits(p: Prop, d: Seq<Var>) -> bool {
    match p {
        Prop::Add(c) => fits(c.x, d) && fits(c.y, d) && c.s.0 < d.len(),
        Prop::Sum(c) => (forall|i: int| 0 <= i < c.xs@.len() ==> fits(#[trigger] c.xs@[i], d)) && c.s.0 < d.len(),
        Prop::Equals(c) => fits(c.x, d) && fits(c.y, d),
        Prop::Leq(c) => fits(c.x, d) && fits(c.y, d),
    }
}

/// The variables whose domain changes wake the propagator: the underlying
/// variables of its views, and its result variable.
pub open spec fn trigger_vars(p: Prop) -> Set<VarId> {
    match p {
        Prop::Add(c) => opt_set(underlying(c.x)) + opt_set(underlying(c.y)) + set![c.s],
        Prop::Sum(c) => terms_vars(c.xs@) + set![c.s],
        Prop::Equals(c) => opt_set(underlying(c.x)) + opt_set(underlying(c.y)),
        Prop::Leq(c) => opt_set(underlying(c.x)) + opt_set(underlying(c.y)),
    }
}

/// Underlying variables of a list of views.
pub open spec fn terms_vars(xs: Seq<Term>) -> Set<VarId> {
    Set::new(|v: VarId| exists|i: int| 0 <= i < xs.len() && underlying(xs[i]) == Some(v))
}

pub open spec fn opt_set(o: Option<VarId>) -> Set<VarId> {
    match o {
        Some(v) => set![v],
        None => Set::empty(),
    }
}

/// `n` is `o` with exactly the assignments removed whose value of `v` is below `m`.
pub open spec fn cut_below(o: Seq<Var>, n: Seq<Var>, v: Term, m: int) -> bool {
    &&& wf_doms(n)
    &&& n.len() == o.len()
    &&& forall|a: Seq<int>| contains(n, a) <==> contains(o, a) && val(v, a) >= m
}

/// `n` is `o` with exactly the assignments removed whose value of `v` is above `m`.
pub open spec fn cut_above(o: Seq<Var>, n: Seq<Var>, v: Term, m: int) -> bool {
    &&& wf_doms(n)
    &&& n.len() == o.len()
    &&& forall|a: Seq<int>| contains(n, a) <==> contains(o, a) && val(v, a) <= m
}

/// The cuts a sum makes on its terms, in order, from the domains `o` to `n`:
/// each term `x` is cut below `min - (u - x.max)`, then above
/// `max - (l - x.min)`, its bounds read from the store the previous cut left.
pub open spec fn terms_rule(xs: Seq<Term>, o: Seq<Var>, n: Seq<Var>, l: int, u: int, min: int, max: int) -> bool
    decreases xs.len(),
{
    if xs.len() == 0 {
        n == o
    } else {
        let x = xs.last();
        exists|m: Seq<Var>, s1: Seq<Var>|
            terms_rule(xs.drop_last(), o, m, l, u, min, max) && #[trigger] cut_below(m, s1, x, min - (u - hi(x, m)))
                && #[trigger] cut_above(s1, n, x, max - (l - lo(x, s1)))
    }
}

/// The pruning rule of each constraint kind, as the sequence of cuts it makes
/// from the domains `o`, each bound read from the store the previous cut left;
/// `n` is the store after the last cut. A sum first cuts its result variable
/// to the sums of the terms' bounds, then cuts each term.
pub open spec fn follows_rule(p: Prop, o: Seq<Var>, n: Seq<Var>) -> bool {
    match p {
        Prop::Leq(c) => exists|s1: Seq<Var>|
            cut_above(o, s1, c.x, hi(c.y, o)) && #[trigger] cut_below(s1, n, c.y, lo(c.x, s1)),
        Prop::Equals(c) => exists|s1: Seq<Var>, s2: Seq<Var>, s3: Seq<Var>|
            cut_below(o, s1, c.x, lo(c.y, o)) && #[trigger] cut_above(s1, s2, c.x, hi(c.y, s1))
                && #[trigger] cut_below(s2, s3, c.y, lo(c.x, s2)) && #[trigger] cut_above(s3, n, c.y, hi(c.x, s3)),
        Prop::Add(c) => {
            let s = Term::Var(c.s);
            exists|s1: Seq<Var>, s2: Seq<Var>, s3: Seq<Var>, s4: Seq<Var>, s5: Seq<Var>|
                cut_below(o, s1, s, lo(c.x, o) + lo(c.y, o)) && #[trigger] cut_above(s1, s2, s, hi(c.x, s1) + hi(c.y, s1))
                    && #[trigger] cut_below(s2, s3, c.x, lo(s, s2) - hi(c.y, s2))
                    && #[trigger] cut_above(s3, s4, c.x, hi(s, s3) - lo(c.y, s3))
                    && #[trigger] cut_below(s4, s5, c.y, lo(s, s4) - hi(c.x, s4))
                    && #[trigger] cut_above(s5, n, c.y, hi(s, s5) - lo(c.x, s5))
        },
        Prop::Sum(c) => exists|s1: Seq<Var>, s2: Seq<Var>|
            cut_below(o, s1, Term::Var(c.s), sum_lo(c.xs@, o)) && #[trigger] cut_above(s1, s2, Term::Var(c.s), sum_hi(c.xs@, o))
                && terms_rule(c.xs@, s2, n, sum_lo(c.xs@, o), sum_hi(c.xs@, o), lo(Term::Var(c.s), s2), hi(Term::Var(c.s), s2)),
    }
}

/// The store is a fixed point of the constraint's pruning rule: every bound
/// the rule would set already holds, so pruning changes nothing.
pub open spec fn at_fixpoint(p: Prop, d: Seq<Var>) -> bool {
    match p {
        Prop::Leq(c) => hi(c.x, d) <= hi(c.y, d) && lo(c.x, d) <= lo(c.y, d),
        Prop::Equals(c) => lo(c.x, d) == lo(c.y, d) && hi(c.x, d) == hi(c.y, d),
        Prop::Add(c) => {
            let s = Term::Var(c.s);
            &&& lo(s, d) >= lo(c.x, d) + lo(c.y, d)
            &&& hi(s, d) <= hi(c.x, d) + hi(c.y, d)
            &&& lo(c.x, d) >= lo(s, d) - hi(c.y, d)
            &&& hi(c.x, d) <= hi(s, d) - lo(c.y, d)
            &&& lo(c.y, d) >= lo(s, d) - hi(c.x, d)
            &&& hi(c.y, d) <= hi(s, d) - lo(c.x, d)
        },
        Prop::Sum(c) => {
            let s = Term::Var(c.s);
            let (l, u) = (sum_lo(c.xs@, d), sum_hi(c.xs@, d));
            &&& lo(s, d) >= l
            &&& hi(s, d) <= u
            &&& forall|i: int| 0 <= i < c.xs@.len() ==> lo(#[trigger] c.xs@[i], d) >= lo(s, d) - (u - hi(c.xs@[i], d))
                && hi(c.xs@[i], d) <= hi(s, d) - (l - lo(c.xs@[i], d))
        },
    }
}

proof fn lemma_sums_local(xs: Seq<Term>, d: Seq<Var>, e: Seq<Var>)
    requires
        forall|i: int| 0 <= i < xs.len() ==> valid(#[trigger] xs[i], d.len()),
        d.len() == e.len(),
        forall|i: int| 0 <= i < xs.len() ==> (underlying(#[trigger] xs[i]) matches Some(x) ==> e[x.0 as int] == d[x.0 as int]),
    ensures
        sum_lo(xs, e) == sum_lo(xs, d),
        sum_hi(xs, e) == sum_hi(xs, d),
    decreases xs.len(),
{
    if xs.len() > 0 {
        let ys = xs.drop_last();
        assert forall|i: int| 0 <= i < ys.len() implies valid(#[trigger] ys[i], d.len()) by {
            assert(ys[i] == xs[i]);
        }
        assert forall|i: int| 0 <= i < ys.len() implies (underlying(#[trigger] ys[i]) matches Some(x) ==> e[x.0 as int] == d[x.0 as int]) by {
            assert(ys[i] == xs[i]);
        }
        lemma_sums_local(ys, d, e);
        lemma_bounds_local(xs.last(), d, e);
    }
}

/// Whether a constraint is at its fixed point depends only on the domains of
/// the variables that wake it.
pub proof fn lemma_fixpoint_local(p: Prop, r: Seq<Var>, d: Seq<Var>, e: Seq<Var>)
    requires
        prop_fits(p, r),
        r.len() == d.len(),
        d.len() == e.len(),
        forall|v: VarId| #[trigger] trigger_vars(p).contains(v) ==> e[v.0 as int] == d[v.0 as int],
        at_fixpoint(p, d),
    ensures
        at_fixpoint(p, e),
{
    lemma_triggers(p);
    match p {
        Prop::Leq(c) => {
            lemma_bounds_local(c.x, d, e);
            lemma_bounds_local(c.y, d, e);
        },
        Prop::Equals(c) => {
            lemma_bounds_local(c.x, d, e);
            lemma_bounds_local(c.y, d, e);
        },
        Prop::Add(c) => {
            lemma_bounds_local(c.x, d, e);
            lemma_bounds_local(c.y, d, e);
            lemma_bounds_local(Term::Var(c.s), d, e);
        },
        Prop::Sum(c) => {
            let xs = c.xs@;
            assert forall|i: int| 0 <= i < xs.len() implies valid(#[trigger] xs[i], d.len()) by {
                assert(fits(xs[i], r));
            }
            assert forall|i: int| 0 <= i < xs.len() implies (underlying(#[trigger] xs[i]) matches Some(x) ==> e[x.0 as int] == d[x.0 as int]) by {
                if let Some(x) = underlying(xs[i]) {
                    assert(trigger_vars(p).contains(x));
                }
            }
            lemma_sums_local(xs, d, e);
            lemma_bounds_local(Term::Var(c.s), d, e);
            assert forall|i: int| 0 <= i < xs.len() implies lo(#[trigger] xs[i], e) >= lo(Term::Var(c.s), e) - (sum_hi(xs, e) - hi(xs[i], e))
                && hi(xs[i], e) <= hi(Term::Var(c.s), e) - (sum_lo(xs, e) - lo(xs[i], e)) by {
                lemma_bounds_local(xs[i], d, e);
            }
        },
    }
}

/// `e` is a store of non-empty domains inside `o` at which `p` is at its fixed point.
pub open spec fn fix_below(p: Prop, o: Seq<Var>, e: Seq<Var>) -> bool {
    wf_doms(e) && narrower(e, o) && at_fixpoint(p, e)
}

/// Every constraint of the list is at its fixed point in `e`.
pub open spec fn fix_all(ps: Seq<Prop>, e: Seq<Var>) -> bool {
    forall|p: int| 0 <= p < ps.len() ==> at_fixpoint(#[trigger] ps[p], e)
}

/// `e` is a store of non-empty domains inside `d` at which every constraint is
/// at its fixed point.
pub open spec fn common_fixpoint_below(ps: Seq<Prop>, d: Seq<Var>, e: Seq<Var>) -> bool {
    wf_doms(e) && narrower(e, d) && fix_all(ps, e)
}

/// A store whose assignments all lie in `c` is inside `c`.
pub proof fn lemma_subset_narrower(e: Seq<Var>, c: Seq<Var>)
    requires
        wf_doms(e),
        e.len() == c.len(),
        forall|a: Seq<int>| contains(e, a) ==> contains(c, a),
    ensures
        narrower(e, c),
{
    assert forall|i: int| 0 <= i < e.len() implies c[i].min <= #[trigger] e[i].min && e[i].max <= c[i].max by {
        let lo_a = Seq::new(e.len(), |j: int| e[j].min as int);
        let hi_a = lo_a.update(i, e[i].max as int);
        assert(e[i].min <= e[i].max);
        assert(contains(e, lo_a));
        assert(contains(e, hi_a)) by {
            assert forall|j: int| 0 <= j < e.len() implies e[j].min <= #[trigger] hi_a[j] <= e[j].max by {
                assert(e[j].min <= e[j].max);
            }
        }
        assert(contains(c, lo_a));
        assert(contains(c, hi_a));
        assert(c[i].min <= lo_a[i]);
        assert(hi_a[i] <= c[i].max);
    }
}

/// A cut below `m`, where a store `e` inside `c` has its view already at least
/// `m`, succeeds and keeps `e` inside.
pub proof fn lemma_cut_below_keeps(e: Seq<Var>, c: Seq<Var>, n: Seq<Var>, v: Term, m: int, ok: bool)
    requires
        wf_doms(e),
        narrower(e, c),
        valid(v, c.len()),
        lo(v, e) >= m,
        ok == (m <= hi(v, c)),
        ok ==> cut_below(c, n, v, m),
    ensures
        ok,
        narrower(e, n),
{
    lemma_bounds_narrower(v, e, c);
    lemma_lo_le_hi(v, e);
    assert forall|a: Seq<int>| contains(e, a) implies contains(n, a) by {
        lemma_contains_narrower(e, c, a);
        lemma_val_in_bounds(v, e, a);
    }
    lemma_subset_narrower(e, n);
}

/// A cut above `m`, where a store `e` inside `c` has its view already at most
/// `m`, succeeds and keeps `e` inside.
pub proof fn lemma_cut_above_keeps(e: Seq<Var>, c: Seq<Var>, n: Seq<Var>, v: Term, m: int, ok: bool)
    requires
        wf_doms(e),
        narrower(e, c),
        valid(v, c.len()),
        hi(v, e) <= m,
        ok == (m >= lo(v, c)),
        ok ==> cut_above(c, n, v, m),
    ensures
        ok,
        narrower(e, n),
{
    lemma_bounds_narrower(v, e, c);
    lemma_lo_le_hi(v, e);
    assert forall|a: Seq<int>| contains(e, a) implies contains(n, a) by {
        lemma_contains_narrower(e, c, a);
        lemma_val_in_bounds(v, e, a);
    }
    lemma_subset_narrower(e, n);
}

/// What a pruning step owes: the store only narrows, every assignment of the
/// starting store that satisfies `p` survives, failure means none exists, and
/// only the variables that wake `p` change.
pub open spec fn prunes(p: Prop, o: Context, n: Context, ok: bool) -> bool {
    &&& n.wf()
    &&& Context::event_step(o, n)
    &&& forall|i: int| 0 <= i < o.doms().len() && !trigger_vars(p).contains(VarId(i as usize))
        ==> #[trigger] n.doms()[i] == o.doms()[i]
    &&& ok ==> forall|a: Seq<int>| contains(o.doms(), a) && sat(p, a) ==> contains(n.doms(), a)
    &&& !ok ==> forall|a: Seq<int>| contains(o.doms(), a) ==> !sat(p, a)
}

pub proof fn lemma_event_step_trans(a: Context, b: Context, c: Context)
    requires
        Context::event_step(a, b),
        Context::event_step(b, c),
    ensures
        Context::event_step(a, c),
{
    crate::vars::lemma_size_narrower(c.doms(), b.doms());
    crate::vars::lemma_size_narrower(b.doms(), a.doms());
    assert forall|i: int| 0 <= i < c.doms().len() && #[trigger] c.doms()[i] != a.doms()[i]
        implies c.events().contains(i as usize) by {
        if b.doms()[i] != a.doms()[i] {
            assert(b.events().contains(i as usize));
        }
    }
}

/// Every assignment in a narrower store is in the wider one.
pub proof fn lemma_contains_narrower(n: Seq<Var>, o: Seq<Var>, a: Seq<int>)
    requires
        narrower(n, o),
        contains(n, a),
    ensures
        contains(o, a),
{
    assert forall|i: int| 0 <= i < o.len() implies o[i].min <= #[trigger] a[i] <= o[i].max by {
        assert(n[i].min <= a[i] <= n[i].max);
    }
}

/// Bounds of a view hold for every assignment of the store.
proof fn lemma_all_in_bounds(v: Term, d: Seq<Var>)
    requires
        valid(v, d.len()),
    ensures
        forall|a: Seq<int>| contains(d, a) ==> lo(v, d) <= #[trigger] val(v, a) <= hi(v, d),
{
    assert forall|a: Seq<int>| contains(d, a) implies lo(v, d) <= #[trigger] val(v, a) <= hi(v, d) by {
        lemma_val_in_bounds(v, d, a);
    }
}

/// Inside the domains the sum lies between the sums of bounds, and the slack
/// of the whole sum covers the slack of each of its terms.
pub proof fn lemma_sum_bounds(xs: Seq<Term>, d: Seq<Var>, a: Seq<int>)
    requires
        forall|i: int| 0 <= i < xs.len() ==> valid(#[trigger] xs[i], d.len()),
        contains(d, a),
    ensures
        sum_lo(xs, d) <= sum_val(xs, a) <= sum_hi(xs, d),
        forall|i: int| 0 <= i < xs.len() ==> sum_hi(xs, d) - sum_val(xs, a) >= hi(#[trigger] xs[i], d) - val(xs[i], a),
        forall|i: int| 0 <= i < xs.len() ==> sum_val(xs, a) - sum_lo(xs, d) >= val(#[trigger] xs[i], a) - lo(xs[i], d),
    decreases xs.len(),
{
    if xs.len() > 0 {
        let ys = xs.drop_last();
        assert forall|i: int| 0 <= i < ys.len() implies valid(#[trigger] ys[i], d.len()) by {
            assert(ys[i] == xs[i]);
        }
        lemma_sum_bounds(ys, d, a);
        lemma_val_in_bounds(xs.last(), d, a);
        assert forall|i: int| 0 <= i < xs.len() implies sum_hi(xs, d) - sum_val(xs, a) >= hi(#[trigger] xs[i], d) - val(xs[i], a)
            && sum_val(xs, a) - sum_lo(xs, d) >= val(xs[i], a) - lo(xs[i], d) by {
            if i < ys.len() {
                assert(ys[i] == xs[i]);
                lemma_val_in_bounds(xs[i], d, a);
            }
        }
    }
}

/// In a narrower store the sums of bounds narrow, and each term's narrowing
/// is covered by the narrowing of the sum.
pub proof fn lemma_sums_narrower(xs: Seq<Term>, e: Seq<Var>, o: Seq<Var>)
    requires
        forall|i: int| 0 <= i < xs.len() ==> valid(#[trigger] xs[i], o.len()),
        narrower(e, o),
    ensures
        sum_lo(xs, e) >= sum_lo(xs, o),
        sum_hi(xs, e) <= sum_hi(xs, o),
        forall|i: int| 0 <= i < xs.len() ==> sum_hi(xs, o) - sum_hi(xs, e) >= hi(#[trigger] xs[i], o) - hi(xs[i], e),
        forall|i: int| 0 <= i < xs.len() ==> sum_lo(xs, e) - sum_lo(xs, o) >= lo(#[trigger] xs[i], e) - lo(xs[i], o),
    decreases xs.len(),
{
    if xs.len() > 0 {
        let ys = xs.drop_last();
        assert forall|i: int| 0 <= i < ys.len() implies valid(#[trigger] ys[i], o.len()) by {
            assert(ys[i] == xs[i]);
        }
        lemma_sums_narrower(ys, e, o);
        lemma_bounds_narrower(xs.last(), e, o);
        assert forall|i: int| 0 <= i < xs.len() implies sum_hi(xs, o) - sum_hi(xs, e) >= hi(#[trigger] xs[i], o) - hi(xs[i], e)
            && sum_lo(xs, e) - sum_lo(xs, o) >= lo(xs[i], e) - lo(xs[i], o) by {
            if i < ys.len() {
                assert(ys[i] == xs[i]);
                lemma_bounds_narrower(xs[i], e, o);
            }
        }
    }
}

/// Raise the lower bound of view `v` to `m`, where `m` is implied by `p` for
/// every assignment of the current store.
fn narrow_min(v: &Term, m: i128, ctx: &mut Context, Ghost(p): Ghost<Prop>, Ghost(orig): Ghost<Seq<Var>>) -> (ok: bool)
    requires
        old(ctx).wf(),
        underlying(*v) matches Some(x) ==> trigger_vars(p).contains(x),
        fits(*v, orig),
        narrower(old(ctx).doms(), orig),
        forall|a: Seq<int>| contains(old(ctx).doms(), a) && sat(p, a) ==> val(*v, a) >= m,
    ensures
        prunes(p, *old(ctx), *final(ctx), ok),
        narrower(final(ctx).doms(), orig),
        ok ==> forall|a: Seq<int>| contains(final(ctx).doms(), a) ==> contains(old(ctx).doms(), a),
        ok ==> cut_below(old(ctx).doms(), final(ctx).doms(), *v, m as int),
        ok == (m <= hi(*v, old(ctx).doms())),
        ok ==> (final(ctx).doms() == old(ctx).doms() <==> m <= lo(*v, old(ctx).doms())),
        forall|i: int| 0 <= i < old(ctx).doms().len() && underlying(*v) != Some(VarId(i as usize))
            ==> #[trigger] final(ctx).doms()[i] == old(ctx).doms()[i],
{
    proof {
        old(ctx).lemma_wf();
        lemma_fits_narrower(*v, old(ctx).doms(), orig);
    }
    let ok = v.try_set_min(m, ctx);
    proof { ctx.lemma_wf(); }
    proof {
        if !ok {
            lemma_all_in_bounds(*v, old(ctx).doms());
        }
    }
    ok
}

/// Lower the upper bound of view `v` to `m`, where `m` is implied by `p` for
/// every assignment of the current store.
fn narrow_max(v: &Term, m: i128, ctx: &mut Context, Ghost(p): Ghost<Prop>, Ghost(orig): Ghost<Seq<Var>>) -> (ok: bool)
    requires
        old(ctx).wf(),
        underlying(*v) matches Some(x) ==> trigger_vars(p).contains(x),
        fits(*v, orig),
        narrower(old(ctx).doms(), orig),
        forall|a: Seq<int>| contains(old(ctx).doms(), a) && sat(p, a) ==> val(*v, a) <= m,
    ensures
        prunes(p, *old(ctx), *final(ctx), ok),
        narrower(final(ctx).doms(), orig),
        ok ==> forall|a: Seq<int>| contains(final(ctx).doms(), a) ==> contains(old(ctx).doms(), a),
        ok ==> cut_above(old(ctx).doms(), final(ctx).doms(), *v, m as int),
        ok == (m >= lo(*v, old(ctx).doms())),
        ok ==> (final(ctx).doms() == old(ctx).doms() <==> m >= hi(*v, old(ctx).doms())),
        forall|i: int| 0 <= i < old(ctx).doms().len() && underlying(*v) != Some(VarId(i as usize))
            ==> #[trigger] final(ctx).doms()[i] == old(ctx).doms()[i],
{
    proof {
        old(ctx).lemma_wf();
        lemma_fits_narrower(*v, old(ctx).doms(), orig);
    }
    let ok = v.try_set_max(m, ctx);
    proof { ctx.lemma_wf(); }
    proof {
        if !ok {
            lemma_all_in_bounds(*v, old(ctx).doms());
        }
    }
    ok
}

/// Chain two pruning steps for the same constraint.
proof fn lemma_prunes_chain(p: Prop, a: Context, b: Context, c: Context, ok: bool)
    requires
        prunes(p, a, b, true),
        prunes(p, b, c, ok),
    ensures
        prunes(p, a, c, ok),
{
    lemma_event_step_trans(a, b, c);
    assert forall|i: int| 0 <= i < a.doms().len() && !trigger_vars(p).contains(VarId(i as usize))
        implies #[trigger] c.doms()[i] == a.doms()[i] by {
        assert(b.doms()[i] == a.doms()[i]);
    }
}

/// The variables of each operand of a constraint wake it.
proof fn lemma_triggers(p: Prop)
    ensures
        p matches Prop::Leq(c) ==> (underlying(c.x) matches Some(v) ==> trigger_vars(p).contains(v))
            && (underlying(c.y) matches Some(v) ==> trigger_vars(p).contains(v)),
        p matches Prop::Equals(c) ==> (underlying(c.x) matches Some(v) ==> trigger_vars(p).contains(v))
            && (underlying(c.y) matches Some(v) ==> trigger_vars(p).contains(v)),
        p matches Prop::Add(c) ==> (underlying(c.x) matches Some(v) ==> trigger_vars(p).contains(v))
            && (underlying(c.y) matches Some(v) ==> trigger_vars(p).contains(v)) && trigger_vars(p).contains(c.s),
        p matches Prop::Sum(c) ==> trigger_vars(p).contains(c.s) && forall|i: int| 0 <= i < c.xs@.len()
            ==> (underlying(#[trigger] c.xs@[i]) matches Some(v) ==> trigger_vars(p).contains(v)),
{
    match p {
        Prop::Sum(c) => {
            assert forall|i: int| 0 <= i < c.xs@.len() implies (underlying(#[trigger] c.xs@[i]) matches Some(v) ==> trigger_vars(p).contains(v)) by {
                if let Some(v) = underlying(c.xs@[i]) {
                    assert(terms_vars(c.xs@).contains(v));
                }
            }
        },
        _ => {},
    }
}

/// Read the bounds of a view in a store narrowed from the one it fits.
fn min_of(v: &Term, ctx: &Context, Ghost(orig): Ghost<Seq<Var>>) -> (r: i32)
    requires
        ctx.wf(),
        fits(*v, orig),
        narrower(ctx.doms(), orig),
    ensures
        r == lo(*v, ctx.doms()),
        fits(*v, ctx.doms()),
{
    proof {
        ctx.lemma_wf();
        lemma_fits_narrower(*v, ctx.doms(), orig);
    }
    v.min(ctx)
}

fn max_of(v: &Term, ctx: &Context, Ghost(orig): Ghost<Seq<Var>>) -> (r: i32)
    requires
        ctx.wf(),
        fits(*v, orig),
        narrower(ctx.doms(), orig),
    ensures
        r == hi(*v, ctx.doms()),
        fits(*v, ctx.doms()),
{
    proof {
        ctx.lemma_wf();
        lemma_fits_narrower(*v, ctx.doms(), orig);
    }
    v.max(ctx)
}

fn push_underlying(v: &Term, r: &mut Vec<VarId>)
    ensures
        final(r)@ == old(r)@ + match underlying(*v) {
            Some(x) => seq![x],
            None => Seq::<VarId>::empty(),
        },
{
    if let Some(x) = v.get_underlying_var() {
        r.push(x);
    } else {
        assert(final(r)@ =~= old(r)@ + Seq::<VarId>::empty());
    }
}

/// On a fully assigned store a view's bounds both equal its value.
pub proof fn lemma_assigned_exact(v: Term, d: Seq<Var>)
    requires
        valid(v, d.len()),
        all_assigned(d),
    ensures
        lo(v, d) == val(v, assignment_of(d)),
        hi(v, d) == val(v, assignment_of(d)),
    decreases v,
{
    match v {
        Term::Cst(_) => {},
        Term::Var(x) => {
            assert(d[x.0 as int].min == d[x.0 as int].max);
        },
        Term::Opposite(w) => lemma_assigned_exact(*w, d),
        Term::Plus(w, _) => lemma_assigned_exact(*w, d),
        Term::TimesPos(w, _) => lemma_assigned_exact(*w, d),
    }
}

proof fn lemma_sum_assigned(xs: Seq<Term>, d: Seq<Var>)
    requires
        forall|i: int| 0 <= i < xs.len() ==> valid(#[trigger] xs[i], d.len()),
        all_assigned(d),
    ensures
        sum_lo(xs, d) == sum_val(xs, assignment_of(d)),
    decreases xs.len(),
{
    if xs.len() > 0 {
        let ys = xs.drop_last();
        assert forall|i: int| 0 <= i < ys.len() implies valid(#[trigger] ys[i], d.len()) by {
            assert(ys[i] == xs[i]);
        }
        lemma_sum_assigned(ys, d);
        lemma_assigned_exact(xs.last(), d);
    }
}

/// Constraint operands fit every store narrower than one they fit.
pub proof fn lemma_prop_fits_narrower(p: Prop, n: Seq<Var>, o: Seq<Var>)
    requires
        prop_fits(p, o),
        narrower(n, o),
        wf_doms(n),
    ensures
        prop_fits(p, n),
{
    match p {
        Prop::Add(c) => {
            lemma_fits_narrower(c.x, n, o);
            lemma_fits_narrower(c.y, n, o);
        },
        Prop::Sum(c) => {
            assert forall|i: int| 0 <= i < c.xs@.len() implies fits(#[trigger] c.xs@[i], n) by {
                lemma_fits_narrower(c.xs@[i], n, o);
            }
        },
        Prop::Equals(c) => {
            lemma_fits_narrower(c.x, n, o);
            lemma_fits_narrower(c.y, n, o);
        },
        Prop::Leq(c) => {
            lemma_fits_narrower(c.x, n, o);
            lemma_fits_narrower(c.y, n, o);
        },
    }
}

/// The variable of a view is one of the store's.
pub proof fn lemma_underlying_valid(t: Term, n: nat)
    requires
        valid(t, n),
    ensures
        underlying(t) matches Some(v) ==> v.0 < n,
    decreases t,
{
    match t {
        Term::Cst(_) => {},
        Term::Var(_) => {},
        Term::Opposite(w) => lemma_underlying_valid(*w, n),
        Term::Plus(w, _) => lemma_underlying_valid(*w, n),
        Term::TimesPos(w, _) => lemma_underlying_valid(*w, n),
    }
}

/// Every variable that wakes a fitting constraint is one of the store's.
pub proof fn lemma_trigger_vars_valid(p: Prop, d: Seq<Var>, v: VarId)
    requires
        prop_fits(p, d),
        trigger_vars(p).contains(v),
    ensures
        v.0 < d.len(),
{
    match p {
        Prop::Add(c) => {
            lemma_underlying_valid(c.x, d.len());
            lemma_underlying_valid(c.y, d.len());
        },
        Prop::Sum(c) => {
            if v != c.s {
                let i = choose|i: int| 0 <= i < c.xs@.len() && underlying(c.xs@[i]) == Some(v);
                assert(fits(c.xs@[i], d));
                lemma_underlying_valid(c.xs@[i], d.len());
            }
        },
        Prop::Equals(c) => {
            lemma_underlying_valid(c.x, d.len());
            lemma_underlying_valid(c.y, d.len());
        },
        Prop::Leq(c) => {
            lemma_underlying_valid(c.x, d.len());
            lemma_underlying_valid(c.y, d.len());
        },
    }
}

/// Appending variables keeps the operands of posted constraints fitting.
pub proof fn lemma_prop_fits_extend(p: Prop, d: Seq<Var>, e: Seq<Var>)
    requires
        prop_fits(p, d),
        d.len() <= e.len(),
        forall|i: int| 0 <= i < d.len() ==> #[trigger] e[i] == d[i],
    ensures
        prop_fits(p, e),
{
    match p {
        Prop::Add(c) => {
            lemma_fits_extend(c.x, d, e);
            lemma_fits_extend(c.y, d, e);
        },
        Prop::Sum(c) => {
            assert forall|i: int| 0 <= i < c.xs@.len() implies fits(#[trigger] c.xs@[i], e) by {
                lemma_fits_extend(c.xs@[i], d, e);
            }
        },
        Prop::Equals(c) => {
            lemma_fits_extend(c.x, d, e);
            lemma_fits_extend(c.y, d, e);
        },
        Prop::Leq(c) => {
            lemma_fits_extend(c.x, d, e);
            lemma_fits_extend(c.y, d, e);
        },
    }
}

impl Propagators {
    /// Posted constraints, in registration order.
    pub closed spec fn props(&self) -> Seq<Prop> {
        self.state@
    }

    /// Propagators that the variable at `v` wakes.
    pub closed spec fn dependents(&self, v: int) -> Seq<PropId> {
        self.dependencies@[v]@
    }

    /// One dependents list per variable of `d`, every listed propagator
    /// registered, and every constraint's operands fitting `d`.
    pub closed spec fn wf(&self, d: Seq<Var>) -> bool {
        &&& self.dependencies@.len() == d.len()
        &&& forall|v: int, k: int| 0 <= v < d.len() && 0 <= k < self.dependencies@[v]@.len()
            ==> (#[trigger] self.dependencies@[v]@[k]).0 < self.state@.len()
        &&& all_fit(self.state@, d)
        &&& forall|p: int, v: VarId| 0 <= p < self.state@.len() && #[trigger] trigger_vars(self.state@[p]).contains(v)
            ==> self.dependencies@[v.0 as int]@.contains(PropId(p as usize))
    }

    /// What a well-formed registry gives its users.
    pub proof fn lemma_wf(&self, d: Seq<Var>)
        requires
            self.wf(d),
        ensures
            all_fit(self.props(), d),
            forall|p: int, v: VarId| 0 <= p < self.props().len() && #[trigger] trigger_vars(self.props()[p]).contains(v)
                ==> self.dependents(v.0 as int).contains(PropId(p as usize)),
    {
    }

    /// Whether a fully assigned store satisfies every registered constraint.
    pub fn check_all(&self, ctx: &Context, Ghost(root): Ghost<Seq<Var>>) -> (r: bool)
        requires
            ctx.wf(),
            all_assigned(ctx.doms()),
            self.wf(root),
            narrower(ctx.doms(), root),
        ensures
            r == sat_all(self.props(), assignment_of(ctx.doms())),
    {
        proof { ctx.lemma_wf(); }
        let mut i: usize = 0;
        while i < self.state.len()
            invariant
                ctx.wf(),
                wf_doms(ctx.doms()),
                all_assigned(ctx.doms()),
                self.wf(root),
                narrower(ctx.doms(), root),
                i <= self.state@.len(),
                forall|j: int| 0 <= j < i ==> sat(#[trigger] self.state@[j], assignment_of(ctx.doms())),
            decreases self.state@.len() - i,
        {
            proof {
                assert(prop_fits(self.state@[i as int], root));
                lemma_prop_fits_narrower(self.state@[i as int], ctx.doms(), root);
            }
            if !self.state[i].is_satisfied(ctx) {
                return false;
            }
            i = i + 1;
        }
        true
    }

    pub fn new() -> (r: Propagators)
        ensures
            r.props().len() == 0,
            r.wf(Seq::<Var>::empty()),
    {
        Propagators { state: Vec::new(), dependencies: Vec::new() }
    }

    /// Number of registered propagators.
    pub fn len(&self) -> (r: usize)
        ensures
            r == self.props().len(),
    {
        self.state.len()
    }

    /// The registered propagator `p`.
    pub fn get_state(&self, p: PropId) -> (r: &Prop)
        requires
            p.0 < self.props().len(),
        ensures
            *r == self.props()[p.0 as int],
    {
        &self.state[p.0]
    }

    /// Propagators to schedule when a bound of `v` changes.
    pub fn on_bound_change(&self, v: VarId, Ghost(d): Ghost<Seq<Var>>) -> (r: &Vec<PropId>)
        requires
            self.wf(d),
            v.0 < d.len(),
        ensures
            forall|k: int| 0 <= k < r@.len() ==> (#[trigger] r@[k]).0 < self.props().len(),
            r@ == self.dependents(v.0 as int),
    {
        &self.dependencies[v.0]
    }

    /// Extend the dependents with a row for a new variable of domain `x`.
    pub fn on_new_var(&mut self, Ghost(d): Ghost<Seq<Var>>, Ghost(x): Ghost<Var>)
        requires
            old(self).wf(d),
        ensures
            final(self).wf(d.push(x)),
            final(self).props() == old(self).props(),
    {
        self.dependencies.push(Vec::new());
        proof {
            let e = d.push(x);
            assert forall|i: int| 0 <= i < self.state@.len() implies prop_fits(#[trigger] self.state@[i], e) by {
                assert(prop_fits(self.state@[i], d));
                assert forall|j: int| 0 <= j < d.len() implies #[trigger] e[j] == d[j] by {}
                lemma_prop_fits_extend(self.state@[i], d, e);
            }
            assert forall|v: int, k: int| 0 <= v < e.len() && 0 <= k < self.dependencies@[v]@.len()
                implies (#[trigger] self.dependencies@[v]@[k]).0 < self.state@.len() by {
                if v < d.len() {
                    assert(self.dependencies@[v] == old(self).dependencies@[v]);
                }
            }
            assert forall|p: int, v: VarId| 0 <= p < self.state@.len() && #[trigger] trigger_vars(self.state@[p]).contains(v)
                implies self.dependencies@[v.0 as int]@.contains(PropId(p as usize)) by {
                assert(prop_fits(self.state@[p], d));
                lemma_trigger_vars_valid(self.state@[p], d, v);
                assert(self.dependencies@[v.0 as int] == old(self).dependencies@[v.0 as int]);
            }
        }
    }

    /// Register a propagator and wire it to the variables that wake it.
    pub fn push_new_prop(&mut self, p: Prop, Ghost(d): Ghost<Seq<Var>>) -> (id: PropId)
        requires
            old(self).wf(d),
            prop_fits(p, d),
        ensures
            final(self).wf(d),
            final(self).props() == old(self).props().push(p),
            id.0 == old(self).props().len(),
    {
        let id = PropId(self.state.len());
        let vs = p.list_trigger_vars();
        let mut k: usize = 0;
        while k < vs.len()
            invariant
                self.state@ == old(self).state@,
                id.0 == self.state@.len(),
                self.dependencies@.len() == d.len(),
                forall|v: int, j: int| 0 <= v < d.len() && 0 <= j < self.dependencies@[v]@.len()
                    ==> (#[trigger] self.dependencies@[v]@[j]).0 <= self.state@.len(),
                forall|j: int| 0 <= j < vs@.len() ==> trigger_vars(p).contains(#[trigger] vs@[j]),
                forall|v: VarId| trigger_vars(p).contains(v) ==> vs@.contains(v),
                k <= vs@.len(),
                forall|w: int, q: PropId| 0 <= w < d.len() && #[trigger] old(self).dependencies@[w]@.contains(q)
                    ==> self.dependencies@[w]@.contains(q),
                forall|j: int| 0 <= j < k && (#[trigger] vs@[j]).0 < d.len() ==> self.dependencies@[vs@[j].0 as int]@.contains(id),
            decreases vs@.len() - k,
        {
            let v = vs[k];
            if v.0 < self.dependencies.len() {
                let ghost before = self.dependencies@;
                let mut row: Vec<PropId> = Vec::new();
                self.dependencies.set_and_swap(v.0, &mut row);
                row.push(id);
                self.dependencies.set(v.0, row);
                proof {
                    assert(self.dependencies@ == before.update(v.0 as int, self.dependencies@[v.0 as int]));
                    assert(self.dependencies@[v.0 as int]@ == before[v.0 as int]@.push(id));
                    assert forall|w: int, j: int| 0 <= w < d.len() && 0 <= j < self.dependencies@[w]@.len()
                        implies (#[trigger] self.dependencies@[w]@[j]).0 <= self.state@.len() by {
                        if w != v.0 as int {
                            assert(self.dependencies@[w] == before[w]);
                        } else if j < before[w]@.len() {
                            assert(self.dependencies@[w]@[j] == before[w]@[j]);
                        }
                    }
                    assert forall|w: int, q: PropId| 0 <= w < d.len() && #[trigger] old(self).dependencies@[w]@.contains(q)
                        implies self.dependencies@[w]@.contains(q) by {
                        assert(before[w]@.contains(q));
                        if w == v.0 as int {
                            let i = choose|i: int| 0 <= i < before[w]@.len() && before[w]@[i] == q;
                            assert(self.dependencies@[w]@[i] == q);
                        } else {
                            assert(self.dependencies@[w] == before[w]);
                        }
                    }
                    assert forall|j: int| 0 <= j < k + 1 && (#[trigger] vs@[j]).0 < d.len() implies self.dependencies@[vs@[j].0 as int]@.contains(id) by {
                        let w = vs@[j].0 as int;
                        if w == v.0 as int {
                            assert(self.dependencies@[w]@[self.dependencies@[w]@.len() - 1] == id);
                        } else {
                            assert(before[w]@.contains(id));
                            assert(self.dependencies@[w] == before[w]);
                        }
                    }
                }
            }
            k = k + 1;
        }
        self.state.push(p);
        proof {
            assert forall|v: int, j: int| 0 <= v < d.len() && 0 <= j < self.dependencies@[v]@.len()
                implies (#[trigger] self.dependencies@[v]@[j]).0 < self.state@.len() by {}
            assert forall|i: int| 0 <= i < self.state@.len() implies prop_fits(#[trigger] self.state@[i], d) by {
                if i < old(self).state@.len() {
                    assert(prop_fits(old(self).state@[i], d));
                }
            }
            assert forall|q: int, v: VarId| 0 <= q < self.state@.len() && #[trigger] trigger_vars(self.state@[q]).contains(v)
                implies self.dependencies@[v.0 as int]@.contains(PropId(q as usize)) by {
                if q < old(self).state@.len() {
                    assert(self.state@[q] == old(self).state@[q]);
                    assert(prop_fits(old(self).state@[q], d));
                    lemma_trigger_vars_valid(old(self).state@[q], d, v);
                    assert(old(self).dependencies@[v.0 as int]@.contains(PropId(q as usize)));
                } else {
                    lemma_trigger_vars_valid(p, d, v);
                    let j = choose|j: int| 0 <= j < vs@.len() && vs@[j] == v;
                    assert(vs@[j].0 < d.len());
                }
            }
        }
        id
    }
}

impl LessThanOrEquals {
    pub fn new(x: Term, y: Term) -> (r: Self)
        ensures
            r.x == x && r.y == y,
    {
        LessThanOrEquals { x, y }
    }

    /// `x.max <- y.max`, then `y.min <- x.min`.
    fn prune(&self, ctx: &mut Context, Ghost(o): Ghost<Seq<Var>>) -> (ok: bool)
        requires
            old(ctx).wf(),
            o == old(ctx).doms(),
            prop_fits(Prop::Leq(*self), o),
        ensures
            prunes(Prop::Leq(*self), *old(ctx), *final(ctx), ok),
            ok ==> follows_rule(Prop::Leq(*self), o, final(ctx).doms()),
            ok && final(ctx).doms() == o ==> at_fixpoint(Prop::Leq(*self), o),
            forall|e: Seq<Var>| #[trigger] fix_below(Prop::Leq(*self), o, e) ==> ok && narrower(e, final(ctx).doms()),
    {
        let ghost p = Prop::Leq(*self);
        proof { lemma_triggers(p); }
        let ghost c0 = *ctx;
        let m = max_of(&self.y, ctx, Ghost(o));
        proof { lemma_all_in_bounds(self.y, ctx.doms()); }
        let ok1 = narrow_max(&self.x, m as i128, ctx, Ghost(p), Ghost(o));
        proof {
            assert forall|e: Seq<Var>| #[trigger] fix_below(p, o, e) implies ok1 && narrower(e, ctx.doms()) by {
                lemma_bounds_narrower(self.y, e, o);
                lemma_cut_above_keeps(e, o, ctx.doms(), self.x, m as int, ok1);
            }
        }
        if !ok1 {
            return false;
        }
        let ghost c1 = *ctx;
        let m = min_of(&self.x, ctx, Ghost(o));
        proof { lemma_all_in_bounds(self.x, ctx.doms()); }
        let ok = narrow_min(&self.y, m as i128, ctx, Ghost(p), Ghost(o));
        proof {
            assert forall|e: Seq<Var>| #[trigger] fix_below(p, o, e) implies ok && narrower(e, ctx.doms()) by {
                lemma_bounds_narrower(self.x, e, c1.doms());
                lemma_cut_below_keeps(e, c1.doms(), ctx.doms(), self.y, m as int, ok);
            }
            lemma_prunes_chain(p, c0, c1, *ctx, ok);
            if ok {
                assert(cut_below(c1.doms(), ctx.doms(), self.y, lo(self.x, c1.doms())));
            }
        }
        ok
    }
}

impl Equals {
    pub fn new(x: Term, y: Term) -> (r: Self)
        ensures
            r.x == x && r.y == y,
    {
        Equals { x, y }
    }

    /// `x <- [y.min, y.max]`, then `y <- [x.min, x.max]`.
    fn prune(&self, ctx: &mut Context, Ghost(o): Ghost<Seq<Var>>) -> (ok: bool)
        requires
            old(ctx).wf(),
            o == old(ctx).doms(),
            prop_fits(Prop::Equals(*self), o),
        ensures
            prunes(Prop::Equals(*self), *old(ctx), *final(ctx), ok),
            ok ==> follows_rule(Prop::Equals(*self), o, final(ctx).doms()),
            ok && final(ctx).doms() == o ==> at_fixpoint(Prop::Equals(*self), o),
            forall|e: Seq<Var>| #[trigger] fix_below(Prop::Equals(*self), o, e) ==> ok && narrower(e, final(ctx).doms()),
    {
        let ghost p = Prop::Equals(*self);
        proof { lemma_triggers(p); }
        let ghost c0 = *ctx;
        proof { lemma_all_in_bounds(self.y, ctx.doms()); }
        let m = min_of(&self.y, ctx, Ghost(o)) as i128;
        let ok1 = narrow_min(&self.x, m, ctx, Ghost(p), Ghost(o));
        proof {
            assert forall|e: Seq<Var>| #[trigger] fix_below(p, o, e) implies ok1 && narrower(e, ctx.doms()) by {
                lemma_bounds_narrower(self.y, e, c0.doms());
                lemma_cut_below_keeps(e, c0.doms(), ctx.doms(), self.x, m as int, ok1);
            }
        }
        if !ok1 {
            return false;
        }
        let ghost c1 = *ctx;
        proof { lemma_all_in_bounds(self.y, ctx.doms()); }
        let m = max_of(&self.y, ctx, Ghost(o)) as i128;
        let ok2 = narrow_max(&self.x, m, ctx, Ghost(p), Ghost(o));
        proof {
            assert forall|e: Seq<Var>| #[trigger] fix_below(p, o, e) implies ok2 && narrower(e, ctx.doms()) by {
                lemma_bounds_narrower(self.y, e, c1.doms());
                lemma_cut_above_keeps(e, c1.doms(), ctx.doms(), self.x, m as int, ok2);
            }
        }
        if !ok2 {
            proof { lemma_prunes_chain(p, c0, c1, *ctx, false); }
            return false;
        }
        let ghost c2 = *ctx;
        proof {
            lemma_prunes_chain(p, c0, c1, c2, true);
            lemma_all_in_bounds(self.x, ctx.doms());
        }
        let m = min_of(&self.x, ctx, Ghost(o)) as i128;
        let ok3 = narrow_min(&self.y, m, ctx, Ghost(p), Ghost(o));
        proof {
            assert forall|e: Seq<Var>| #[trigger] fix_below(p, o, e) implies ok3 && narrower(e, ctx.doms()) by {
                lemma_bounds_narrower(self.x, e, c2.doms());
                lemma_cut_below_keeps(e, c2.doms(), ctx.doms(), self.y, m as int, ok3);
            }
        }
        if !ok3 {
            proof { lemma_prunes_chain(p, c0, c2, *ctx, false); }
            return false;
        }
        let ghost c3 = *ctx;
        proof {
            lemma_prunes_chain(p, c0, c2, c3, true);
            lemma_all_in_bounds(self.x, ctx.doms());
        }
        let m = max_of(&self.x, ctx, Ghost(o)) as i128;
        let ok = narrow_max(&self.y, m, ctx, Ghost(p), Ghost(o));
        proof {
            assert forall|e: Seq<Var>| #[trigger] fix_below(p, o, e) implies ok && narrower(e, ctx.doms()) by {
                lemma_bounds_narrower(self.x, e, c3.doms());
                lemma_cut_above_keeps(e, c3.doms(), ctx.doms(), self.y, m as int, ok);
            }
        }
        proof {
            lemma_prunes_chain(p, c0, c3, *ctx, ok);
            if ok {
                assert(cut_above(c1.doms(), c2.doms(), self.x, hi(self.y, c1.doms())));
                assert(cut_below(c2.doms(), c3.doms(), self.y, lo(self.x, c2.doms())));
                assert(cut_above(c3.doms(), ctx.doms(), self.y, hi(self.x, c3.doms())));
            }
        }
        ok
    }
}

impl Add {
    pub fn new(x: Term, y: Term, s: VarId) -> (r: Self)
        ensures
            r.x == x && r.y == y && r.s == s,
    {
        Add { x, y, s }
    }

    /// `s <- [x.min + y.min, x.max + y.max]`, then `x <- [s.min - y.max, s.max - y.min]`,
    /// then `y <- [s.min - x.max, s.max - x.min]`.
    fn prune(&self, ctx: &mut Context, Ghost(o): Ghost<Seq<Var>>) -> (ok: bool)
        requires
            old(ctx).wf(),
            o == old(ctx).doms(),
            prop_fits(Prop::Add(*self), o),
        ensures
            prunes(Prop::Add(*self), *old(ctx), *final(ctx), ok),
            ok ==> follows_rule(Prop::Add(*self), o, final(ctx).doms()),
            ok && final(ctx).doms() == o ==> at_fixpoint(Prop::Add(*self), o),
            forall|e: Seq<Var>| #[trigger] fix_below(Prop::Add(*self), o, e) ==> ok && narrower(e, final(ctx).doms()),
    {
        let ghost p = Prop::Add(*self);
        proof { lemma_triggers(p); }
        let sv = Term::Var(self.s);
        let ghost c0 = *ctx;
        proof {
            lemma_all_in_bounds(self.x, ctx.doms());
            lemma_all_in_bounds(self.y, ctx.doms());
        }
        let m = min_of(&self.x, ctx, Ghost(o)) as i128 + min_of(&self.y, ctx, Ghost(o)) as i128;
        let ok1 = narrow_min(&sv, m, ctx, Ghost(p), Ghost(o));
        proof {
            assert forall|e: Seq<Var>| #[trigger] fix_below(p, o, e) implies ok1 && narrower(e, ctx.doms()) by {
                lemma_bounds_narrower(self.x, e, c0.doms());
                lemma_bounds_narrower(self.y, e, c0.doms());
                lemma_cut_below_keeps(e, c0.doms(), ctx.doms(), sv, m as int, ok1);
            }
        }
        if !ok1 {
            return false;
        }
        let ghost c1 = *ctx;
        proof {
            lemma_all_in_bounds(self.x, ctx.doms());
            lemma_all_in_bounds(self.y, ctx.doms());
        }
        let m = max_of(&self.x, ctx, Ghost(o)) as i128 + max_of(&self.y, ctx, Ghost(o)) as i128;
        let ok2 = narrow_max(&sv, m, ctx, Ghost(p), Ghost(o));
        proof {
            assert forall|e: Seq<Var>| #[trigger] fix_below(p, o, e) implies ok2 && narrower(e, ctx.doms()) by {
                lemma_bounds_narrower(self.x, e, c1.doms());
                lemma_bounds_narrower(self.y, e, c1.doms());
                lemma_cut_above_keeps(e, c1.doms(), ctx.doms(), sv, m as int, ok2);
            }
        }
        if !ok2 {
            proof { lemma_prunes_chain(p, c0, c1, *ctx, false); }
            return false;
        }
        let ghost c2 = *ctx;
        proof {
            lemma_prunes_chain(p, c0, c1, c2, true);
            lemma_all_in_bounds(sv, ctx.doms());
            lemma_all_in_bounds(self.y, ctx.doms());
        }
        let m = min_of(&sv, ctx, Ghost(o)) as i128 - max_of(&self.y, ctx, Ghost(o)) as i128;
        let ok3 = narrow_min(&self.x, m, ctx, Ghost(p), Ghost(o));
        proof {
            assert forall|e: Seq<Var>| #[trigger] fix_below(p, o, e) implies ok3 && narrower(e, ctx.doms()) by {
                lemma_bounds_narrower(sv, e, c2.doms());
                lemma_bounds_narrower(self.y, e, c2.doms());
                lemma_cut_below_keeps(e, c2.doms(), ctx.doms(), self.x, m as int, ok3);
            }
        }
        if !ok3 {
            proof { lemma_prunes_chain(p, c0, c2, *ctx, false); }
            return false;
        }
        let ghost c3 = *ctx;
        proof {
            lemma_prunes_chain(p, c0, c2, c3, true);
            lemma_all_in_bounds(sv, ctx.doms());
            lemma_all_in_bounds(self.y, ctx.doms());
        }
        let m = max_of(&sv, ctx, Ghost(o)) as i128 - min_of(&self.y, ctx, Ghost(o)) as i128;
        let ok4 = narrow_max(&self.x, m, ctx, Ghost(p), Ghost(o));
        proof {
            assert forall|e: Seq<Var>| #[trigger] fix_below(p, o, e) implies ok4 && narrower(e, ctx.doms()) by {
                lemma_bounds_narrower(sv, e, c3.doms());
                lemma_bounds_narrower(self.y, e, c3.doms());
                lemma_cut_above_keeps(e, c3.doms(), ctx.doms(), self.x, m as int, ok4);
            }
        }
        if !ok4 {
            proof { lemma_prunes_chain(p, c0, c3, *ctx, false); }
            return false;
        }
        let ghost c4 = *ctx;
        proof {
            lemma_prunes_chain(p, c0, c3, c4, true);
            lemma_all_in_bounds(sv, ctx.doms());
            lemma_all_in_bounds(self.x, ctx.doms());
        }
        let m = min_of(&sv, ctx, Ghost(o)) as i128 - max_of(&self.x, ctx, Ghost(o)) as i128;
        let ok5 = narrow_min(&self.y, m, ctx, Ghost(p), Ghost(o));
        proof {
            assert forall|e: Seq<Var>| #[trigger] fix_below(p, o, e) implies ok5 && narrower(e, ctx.doms()) by {
                lemma_bounds_narrower(sv, e, c4.doms());
                lemma_bounds_narrower(self.x, e, c4.doms());
                lemma_cut_below_keeps(e, c4.doms(), ctx.doms(), self.y, m as int, ok5);
            }
        }
        if !ok5 {
            proof { lemma_prunes_chain(p, c0, c4, *ctx, false); }
            return false;
        }
        let ghost c5 = *ctx;
        proof {
            lemma_prunes_chain(p, c0, c4, c5, true);
            lemma_all_in_bounds(sv, ctx.doms());
            lemma_all_in_bounds(self.x, ctx.doms());
        }
        let m = max_of(&sv, ctx, Ghost(o)) as i128 - min_of(&self.x, ctx, Ghost(o)) as i128;
        let ok = narrow_max(&self.y, m, ctx, Ghost(p), Ghost(o));
        proof {
            assert forall|e: Seq<Var>| #[trigger] fix_below(p, o, e) implies ok && narrower(e, ctx.doms()) by {
                lemma_bounds_narrower(sv, e, c5.doms());
                lemma_bounds_narrower(self.x, e, c5.doms());
                lemma_cut_above_keeps(e, c5.doms(), ctx.doms(), self.y, m as int, ok);
            }
        }
        proof {
            lemma_prunes_chain(p, c0, c5, *ctx, ok);
            if ok {
                assert(cut_above(c1.doms(), c2.doms(), sv, hi(self.x, c1.doms()) + hi(self.y, c1.doms())));
                assert(cut_below(c2.doms(), c3.doms(), self.x, lo(sv, c2.doms()) - hi(self.y, c2.doms())));
                assert(cut_above(c3.doms(), c4.doms(), self.x, hi(sv, c3.doms()) - lo(self.y, c3.doms())));
                assert(cut_below(c4.doms(), c5.doms(), self.y, lo(sv, c4.doms()) - hi(self.x, c4.doms())));
                assert(cut_above(c5.doms(), ctx.doms(), self.y, hi(sv, c5.doms()) - lo(self.x, c5.doms())));
            }
        }
        ok
    }
}

impl Sum {
    pub fn new(xs: Vec<Term>, s: VarId) -> (r: Self)
        ensures
            r == (Sum { xs, s }),
    {
        Sum { xs, s }
    }

    /// Let `L` and `U` be the sums of the lower and upper bounds of the terms:
    /// `s` is narrowed to `[L, U]`, then each term `x` to
    /// `[s.min - (U - x.max), s.max - (L - x.min)]`.
    fn prune(&self, ctx: &mut Context, Ghost(o): Ghost<Seq<Var>>) -> (ok: bool)
        requires
            old(ctx).wf(),
            o == old(ctx).doms(),
            prop_fits(Prop::Sum(*self), o),
        ensures
            prunes(Prop::Sum(*self), *old(ctx), *final(ctx), ok),
            ok ==> follows_rule(Prop::Sum(*self), o, final(ctx).doms()),
            ok && final(ctx).doms() == o ==> at_fixpoint(Prop::Sum(*self), o),
            forall|e: Seq<Var>| #[trigger] fix_below(Prop::Sum(*self), o, e) ==> ok && narrower(e, final(ctx).doms()),
    {
        let ghost p = Prop::Sum(*self);
        proof { lemma_triggers(p); }
        let ghost xs = self.xs@;
        let ghost c0 = *ctx;
        let n = self.xs.len();
        let mut l: i128 = 0;
        let mut u: i128 = 0;
        let mut i: usize = 0;
        while i < n
            invariant
                ctx.wf(),
                *ctx == c0,
                c0 == *old(ctx),
                o == c0.doms(),
                n == xs.len(),
                xs == self.xs@,
                p == Prop::Sum(*self),
                prop_fits(p, o),
                i <= n,
                l == sum_lo(xs.subrange(0, i as int), o),
                u == sum_hi(xs.subrange(0, i as int), o),
                -(i as int) * 0x8000_0000 <= l <= (i as int) * 0x8000_0000,
                -(i as int) * 0x8000_0000 <= u <= (i as int) * 0x8000_0000,
            decreases n - i,
        {
            assert(fits(xs[i as int], o));
            let x = &self.xs[i];
            l = l + x.min(ctx) as i128;
            u = u + x.max(ctx) as i128;
            assert(xs.subrange(0, i as int + 1).drop_last() =~= xs.subrange(0, i as int));
            i = i + 1;
        }
        assert(xs.subrange(0, n as int) =~= xs);
        proof {
            assert forall|j: int| 0 <= j < xs.len() implies valid(#[trigger] xs[j], o.len()) by {
                assert(fits(xs[j], o));
            }
            assert forall|a: Seq<int>| contains(o, a) implies sum_lo(xs, o) <= sum_val(xs, a) <= sum_hi(xs, o) by {
                lemma_sum_bounds(xs, o, a);
            }
        }
        let sv = Term::Var(self.s);
        let ok1 = narrow_min(&sv, l, ctx, Ghost(p), Ghost(o));
        proof {
            assert forall|e: Seq<Var>| #[trigger] fix_below(p, o, e) implies ok1 && narrower(e, ctx.doms()) by {
                lemma_sums_narrower(xs, e, o);
                lemma_cut_below_keeps(e, o, ctx.doms(), sv, l as int, ok1);
            }
        }
        if !ok1 {
            return false;
        }
        let ghost c1 = *ctx;
        let ok2 = narrow_max(&sv, u, ctx, Ghost(p), Ghost(o));
        proof {
            assert forall|e: Seq<Var>| #[trigger] fix_below(p, o, e) implies ok2 && narrower(e, ctx.doms()) by {
                lemma_sums_narrower(xs, e, o);
                lemma_cut_above_keeps(e, c1.doms(), ctx.doms(), sv, u as int, ok2);
            }
        }
        if !ok2 {
            proof { lemma_prunes_chain(p, c0, c1, *ctx, false); }
            return false;
        }
        proof {
            lemma_prunes_chain(p, c0, c1, *ctx, true);
            assert(cut_above(c1.doms(), ctx.doms(), sv, u as int));
        }
        let ghost c2 = *ctx;
        let min = ctx.min(self.s);
        let max = ctx.max(self.s);
        let mut i: usize = 0;
        while i < n
            invariant
                ctx.wf(),
                o == c0.doms(),
                n == xs.len(),
                xs == self.xs@,
                p == Prop::Sum(*self),
                c0 == *old(ctx),
                prop_fits(p, o),
                forall|j: int| 0 <= j < xs.len() ==> valid(#[trigger] xs[j], o.len()),
                i <= n,
                l == sum_lo(xs, o),
                u == sum_hi(xs, o),
                -(n as int) * 0x8000_0000 <= l <= (n as int) * 0x8000_0000,
                -(n as int) * 0x8000_0000 <= u <= (n as int) * 0x8000_0000,
                self.s.0 < o.len(),
                min == c2.doms()[self.s.0 as int].min,
                max == c2.doms()[self.s.0 as int].max,
                narrower(c2.doms(), o),
                narrower(ctx.doms(), c2.doms()),
                terms_rule(xs.subrange(0, i as int), c2.doms(), ctx.doms(), l as int, u as int, min as int, max as int),
                min == lo(sv, c2.doms()),
                max == hi(sv, c2.doms()),
                sv == Term::Var(self.s),
                c1.doms() == c0.doms() || size(c1.doms()) < size(c0.doms()),
                c2.doms() == c1.doms() || size(c2.doms()) < size(c1.doms()),
                c1.doms() == c0.doms() ==> l <= lo(sv, c0.doms()),
                c2.doms() == c1.doms() ==> u >= hi(sv, c1.doms()),
                ctx.doms() == c2.doms() || size(ctx.doms()) < size(c2.doms()),
                ctx.doms() == c2.doms() ==> forall|j: int| 0 <= j < i ==> lo(#[trigger] xs[j], c2.doms()) >= min - (u - hi(xs[j], c2.doms()))
                    && hi(xs[j], c2.doms()) <= max - (l - lo(xs[j], c2.doms())),
                forall|e: Seq<Var>| #[trigger] fix_below(p, o, e) ==> narrower(e, ctx.doms()),
                narrower(ctx.doms(), o),
                prunes(p, c0, *ctx, true),
            decreases n - i,
        {
            assert(fits(xs[i as int], o));
            let x = &self.xs[i];
            let ghost ci = *ctx;
            proof {
                lemma_bounds_narrower(xs[i as int], ctx.doms(), o);
                assert forall|a: Seq<int>| contains(ctx.doms(), a) && sat(p, a) implies val(xs[i as int], a) >= min - (u - hi(xs[i as int], ctx.doms())) by {
                    lemma_contains_narrower(ctx.doms(), o, a);
                    lemma_sum_bounds(xs, o, a);
                    assert(ctx.doms()[self.s.0 as int].min <= a[self.s.0 as int]);
                }
            }
            let m = min as i128 - (u - max_of(x, ctx, Ghost(o)) as i128);
            let ok3 = narrow_min(x, m, ctx, Ghost(p), Ghost(o));
            proof {
                assert forall|e: Seq<Var>| #[trigger] fix_below(p, o, e) implies ok3 && narrower(e, ctx.doms()) by {
                    lemma_sums_narrower(xs, e, o);
                    lemma_bounds_narrower(xs[i as int], ci.doms(), o);
                    lemma_bounds_narrower(sv, e, c2.doms());
                    lemma_cut_below_keeps(e, ci.doms(), ctx.doms(), xs[i as int], m as int, ok3);
                }
            }
            if !ok3 {
                proof {
                    lemma_prunes_chain(p, c0, ci, *ctx, false);
                }
                return false;
            }
            proof { lemma_prunes_chain(p, c0, ci, *ctx, true); }
            let ghost cj = *ctx;
            proof {
                lemma_bounds_narrower(xs[i as int], ctx.doms(), o);
                assert forall|a: Seq<int>| contains(ctx.doms(), a) && sat(p, a) implies val(xs[i as int], a) <= max - (l - lo(xs[i as int], ctx.doms())) by {
                    lemma_contains_narrower(ctx.doms(), o, a);
                    lemma_sum_bounds(xs, o, a);
                    assert(a[self.s.0 as int] <= ctx.doms()[self.s.0 as int].max);
                }
            }
            let m = max as i128 - (l - min_of(x, ctx, Ghost(o)) as i128);
            let ok4 = narrow_max(x, m, ctx, Ghost(p), Ghost(o));
            proof {
                assert forall|e: Seq<Var>| #[trigger] fix_below(p, o, e) implies ok4 && narrower(e, ctx.doms()) by {
                    lemma_sums_narrower(xs, e, o);
                    lemma_bounds_narrower(xs[i as int], cj.doms(), o);
                    lemma_bounds_narrower(sv, e, c2.doms());
                    lemma_cut_above_keeps(e, cj.doms(), ctx.doms(), xs[i as int], m as int, ok4);
                }
            }
            if !ok4 {
                proof { lemma_prunes_chain(p, c0, cj, *ctx, false); }
                return false;
            }
            proof {
                lemma_prunes_chain(p, c0, cj, *ctx, true);
                crate::vars::lemma_size_narrower(ctx.doms(), cj.doms());
                crate::vars::lemma_size_narrower(cj.doms(), ci.doms());
                let ys = xs.subrange(0, i as int + 1);
                assert(ys.drop_last() =~= xs.subrange(0, i as int));
                assert(ys.last() == xs[i as int]);
                assert(cut_below(ci.doms(), cj.doms(), xs[i as int], min - (u - hi(xs[i as int], ci.doms()))));
                assert(cut_above(cj.doms(), ctx.doms(), xs[i as int], max - (l - lo(xs[i as int], cj.doms()))));
            }
            i = i + 1;
        }
        assert(xs.subrange(0, n as int) =~= xs);
        assert(cut_below(o, c1.doms(), sv, l as int));
        assert(cut_above(c1.doms(), c2.doms(), sv, u as int));
        true
    }
}

impl Prop {
    /// Whether the fully assigned store satisfies the constraint.
    pub fn is_satisfied(&self, ctx: &Context) -> (r: bool)
        requires
            ctx.wf(),
            all_assigned(ctx.doms()),
            prop_fits(*self, ctx.doms()),
        ensures
            r == sat(*self, assignment_of(ctx.doms())),
    {
        let ghost d = ctx.doms();
        proof { ctx.lemma_wf(); }
        match self {
            Prop::Add(c) => {
                proof {
                    lemma_assigned_exact(c.x, d);
                    lemma_assigned_exact(c.y, d);
                }
                c.x.min(ctx) as i64 + c.y.min(ctx) as i64 == ctx.min(c.s) as i64
            },
            Prop::Sum(c) => {
                let ghost xs = c.xs@;
                let mut t: i128 = 0;
                let mut i: usize = 0;
                while i < c.xs.len()
                    invariant
                        ctx.wf(),
                        d == ctx.doms(),
                        xs == c.xs@,
                        forall|j: int| 0 <= j < xs.len() ==> fits(#[trigger] xs[j], d),
                        i <= xs.len(),
                        t == sum_lo(xs.subrange(0, i as int), d),
                        -(i as int) * 0x8000_0000 <= t <= (i as int) * 0x8000_0000,
                    decreases xs.len() - i,
                {
                    assert(fits(xs[i as int], d));
                    t = t + c.xs[i].min(ctx) as i128;
                    assert(xs.subrange(0, i as int + 1).drop_last() =~= xs.subrange(0, i as int));
                    i = i + 1;
                }
                assert(xs.subrange(0, xs.len() as int) =~= xs);
                proof {
                    assert forall|j: int| 0 <= j < xs.len() implies valid(#[trigger] xs[j], d.len()) by {
                        assert(fits(xs[j], d));
                    }
                    lemma_sum_assigned(xs, d);
                }
                t == ctx.min(c.s) as i128
            },
            Prop::Equals(c) => {
                proof {
                    lemma_assigned_exact(c.x, d);
                    lemma_assigned_exact(c.y, d);
                }
                c.x.min(ctx) == c.y.min(ctx)
            },
            Prop::Leq(c) => {
                proof {
                    lemma_assigned_exact(c.x, d);
                    lemma_assigned_exact(c.y, d);
                }
                c.x.min(ctx) <= c.y.min(ctx)
            },
        }
    }

    /// Variables whose domain changes wake this propagator.
    pub fn list_trigger_vars(&self) -> (r: Vec<VarId>)
        ensures
            forall|k: int| 0 <= k < r@.len() ==> trigger_vars(*self).contains(#[trigger] r@[k]),
            forall|v: VarId| trigger_vars(*self).contains(v) ==> r@.contains(v),
    {
        let mut r: Vec<VarId> = Vec::new();
        match self {
            Prop::Add(c) => {
                push_underlying(&c.x, &mut r);
                push_underlying(&c.y, &mut r);
                r.push(c.s);
                proof {
                    assert(r@.last() == c.s);
                    assert forall|v: VarId| trigger_vars(*self).contains(v) implies r@.contains(v) by {
                        if v == c.s {
                            assert(r@[r@.len() - 1] == v);
                        } else if underlying(c.x) == Some(v) {
                            assert(r@[0] == v);
                        } else {
                            assert(underlying(c.y) == Some(v));
                            if underlying(c.x).is_some() {
                                assert(r@[1] == v);
                            } else {
                                assert(r@[0] == v);
                            }
                        }
                    }
                }
            },
            Prop::Sum(c) => {
                let mut i: usize = 0;
                while i < c.xs.len()
                    invariant
                        i <= c.xs@.len(),
                        trigger_vars(*self) == terms_vars(c.xs@) + set![c.s],
                        forall|k: int| 0 <= k < r@.len() ==> trigger_vars(*self).contains(#[trigger] r@[k]),
                        forall|j: int| 0 <= j < i ==> (#[trigger] underlying(c.xs@[j])).is_some() ==> r@.contains(underlying(c.xs@[j]).unwrap()),
                    decreases c.xs@.len() - i,
                {
                    let ghost before = r@;
                    if let Some(v) = c.xs[i].get_underlying_var() {
                        r.push(v);
                        proof {
                            assert(r@[r@.len() - 1] == v);
                            assert forall|j: int| 0 <= j < i + 1 && (#[trigger] underlying(c.xs@[j])).is_some() implies r@.contains(underlying(c.xs@[j]).unwrap()) by {
                                if j < i {
                                    let k = choose|k: int| 0 <= k < before.len() && before[k] == underlying(c.xs@[j]).unwrap();
                                    assert(r@[k] == before[k]);
                                }
                            }
                            assert forall|k: int| 0 <= k < r@.len() implies trigger_vars(*self).contains(#[trigger] r@[k]) by {
                                if k < before.len() {
                                    assert(r@[k] == before[k]);
                                } else {
                                    assert(underlying(c.xs@[i as int]) == Some(v));
                                    assert(r@[k] == v);
                                    assert(terms_vars(c.xs@).contains(v));
                                }
                            }
                        }
                    }
                    i = i + 1;
                }
                let ghost before = r@;
                r.push(c.s);
                proof {
                    assert forall|v: VarId| trigger_vars(*self).contains(v) implies r@.contains(v) by {
                        if v == c.s {
                            assert(r@[r@.len() - 1] == v);
                        } else {
                            let j = choose|j: int| 0 <= j < c.xs@.len() && underlying(c.xs@[j]) == Some(v);
                            assert(underlying(c.xs@[j]).is_some());
                            let k = choose|k: int| 0 <= k < before.len() && before[k] == v;
                            assert(r@[k] == v);
                        }
                    }
                    assert forall|k: int| 0 <= k < r@.len() implies trigger_vars(*self).contains(#[trigger] r@[k]) by {
                        if k < before.len() {
                            assert(r@[k] == before[k]);
                        }
                    }
                }
            },
            Prop::Equals(c) => {
                push_underlying(&c.x, &mut r);
                push_underlying(&c.y, &mut r);
                proof {
                    assert forall|v: VarId| trigger_vars(*self).contains(v) implies r@.contains(v) by {
                        if underlying(c.x) == Some(v) {
                            assert(r@[0] == v);
                        } else if underlying(c.x).is_some() {
                            assert(r@[1] == v);
                        } else {
                            assert(r@[0] == v);
                        }
                    }
                }
            },
            Prop::Leq(c) => {
                push_underlying(&c.x, &mut r);
                push_underlying(&c.y, &mut r);
                proof {
                    assert forall|v: VarId| trigger_vars(*self).contains(v) implies r@.contains(v) by {
                        if underlying(c.x) == Some(v) {
                            assert(r@[0] == v);
                        } else if underlying(c.x).is_some() {
                            assert(r@[1] == v);
                        } else {
                            assert(r@[0] == v);
                        }
                    }
                }
            },
        }
        r
    }
    /// Prune the domains to enforce the constraint: narrow the store, keep every
    /// assignment that satisfies the constraint, fail only when none does.
    /// A success that changes nothing means the store was a fixed point.
    pub fn prune(&self, ctx: &mut Context) -> (ok: bool)
        requires
            old(ctx).wf(),
            prop_fits(*self, old(ctx).doms()),
        ensures
            prunes(*self, *old(ctx), *final(ctx), ok),
            ok ==> follows_rule(*self, old(ctx).doms(), final(ctx).doms()),
            ok && final(ctx).doms() == old(ctx).doms() ==> at_fixpoint(*self, old(ctx).doms()),
            forall|e: Seq<Var>| #[trigger] fix_below(*self, old(ctx).doms(), e) ==> ok && narrower(e, final(ctx).doms()),
    {
        let ghost o = ctx.doms();
        match self {
            Prop::Leq(c) => c.prune(ctx, Ghost(o)),
            Prop::Equals(c) => c.prune(ctx, Ghost(o)),
            Prop::Add(c) => c.prune(ctx, Ghost(o)),
            Prop::Sum(c) => c.prune(ctx, Ghost(o)),
        }
    }
}

} // verus!
