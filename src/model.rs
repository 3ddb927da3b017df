//! The model: decision variables and posted constraints, and the entry points
//! that search it.
use vstd::prelude::*;

use crate::props::{all_fit, sat, sat_all, sum_hi, sum_lo, Add, Equals, LessThanOrEquals, Prop, Propagators, Sum};
use crate::search::{distinct, explore, explore_min, improving, is_solution, Agenda, Brancher, Minimize};
use crate::solution::Solution;
use crate::vars::{Context, Var, VarId, VarIdBinary};
use crate::views::{fits, hi, in_i32, lo, times_spec, val, Term, ViewExt};

verus! {

/// Decision variables with their domains, and the constraints posted on them.
#[derive(Debug)]
pub struct Model {
    ctx: Context,
    props: Propagators,
}

impl Model {
    /// Initial domains, indexed by variable.
    pub closed spec fn doms(&self) -> Seq<Var> {
        self.ctx.doms()
    }

    /// Posted constraints, in posting order.
    pub closed spec fn constraints(&self) -> Seq<Prop> {
        self.props.props()
    }

    /// Domains are non-empty, and every constraint refers to variables of
    /// the model through views whose bounds fit `i32`.
    pub closed spec fn wf(&self) -> bool {
        &&& self.ctx.wf()
        &&& self.ctx.events().len() == 0
        &&& self.props.wf(self.ctx.doms())
    }

    /// `a` assigns each variable a value of its domain and satisfies every constraint.
    pub open spec fn is_solution(&self, a: Seq<int>) -> bool {
        is_solution(self.constraints(), self.doms(), a)
    }

    /// Every constraint fits the current domains: what a well-formed model guarantees.
    pub proof fn lemma_wf(&self)
        requires
            self.wf(),
        ensures
            all_fit(self.constraints(), self.doms()),
            crate::vars::wf_doms(self.doms()),
    {
        self.props.lemma_wf(self.ctx.doms());
        self.ctx.lemma_wf();
    }

    /// An empty model.
    pub fn new() -> (r: Model)
        ensures
            r.wf(),
            r.doms().len() == 0,
            r.constraints().len() == 0,
    {
        let ctx = Context::new(crate::vars::Vars::new());
        Model { ctx, props: Propagators::new() }
    }

    fn new_var_unchecked(&mut self, min: i32, max: i32) -> (v: VarId)
        requires
            old(self).wf(),
            min <= max,
        ensures
            final(self).wf(),
            v.0 == old(self).doms().len(),
            final(self).doms() == old(self).doms().push(Var { min, max }),
            final(self).constraints() == old(self).constraints(),
    {
        self.props.on_new_var(Ghost(self.ctx.doms()), Ghost(Var { min, max }));
        self.ctx.push_var(min, max)
    }

    /// Create a variable with domain `[min, max]`, only when `min < max`.
    pub fn new_var(&mut self, min: i32, max: i32) -> (r: Option<VarId>)
        requires
            old(self).wf(),
        ensures
            final(self).wf(),
            final(self).constraints() == old(self).constraints(),
            r.is_some() <==> min < max,
            r.is_some() ==> r.unwrap().0 == old(self).doms().len()
                && final(self).doms() == old(self).doms().push(Var { min, max }),
            r.is_none() ==> final(self).doms() == old(self).doms(),
    {
        if min < max {
            Some(self.new_var_unchecked(min, max))
        } else {
            None
        }
    }

    /// Create `n` variables with domain `[min, max]`, only when `min < max`.
    pub fn new_vars(&mut self, n: usize, min: i32, max: i32) -> (r: Option<Vec<VarId>>)
        requires
            old(self).wf(),
        ensures
            final(self).wf(),
            final(self).constraints() == old(self).constraints(),
            r.is_some() <==> min < max,
            r.is_some() ==> r.unwrap()@.len() == n
                && final(self).doms().len() == old(self).doms().len() + n
                && (forall|k: int| 0 <= k < n ==> (#[trigger] r.unwrap()@[k]).0 == old(self).doms().len() + k)
                && (forall|k: int| 0 <= k < old(self).doms().len() ==> #[trigger] final(self).doms()[k] == old(self).doms()[k])
                && (forall|k: int| old(self).doms().len() <= k < final(self).doms().len() ==> #[trigger] final(self).doms()[k] == (Var { min, max })),
            r.is_none() ==> final(self).doms() == old(self).doms(),
    {
        if min >= max {
            return None;
        }
        let mut vs: Vec<VarId> = Vec::new();
        let mut k: usize = 0;
        while k < n
            invariant
                self.wf(),
                min < max,
                self.constraints() == old(self).constraints(),
                k <= n,
                vs@.len() == k,
                self.doms().len() == old(self).doms().len() + k,
                forall|j: int| 0 <= j < k ==> (#[trigger] vs@[j]).0 == old(self).doms().len() + j,
                forall|j: int| 0 <= j < old(self).doms().len() ==> #[trigger] self.doms()[j] == old(self).doms()[j],
                forall|j: int| old(self).doms().len() <= j < self.doms().len() ==> #[trigger] self.doms()[j] == (Var { min, max }),
            decreases n - k,
        {
            let v = self.new_var_unchecked(min, max);
            vs.push(v);
            k = k + 1;
        }
        Some(vs)
    }

    /// Create a variable with domain `{0, 1}`.
    pub fn new_var_binary(&mut self) -> (r: VarIdBinary)
        requires
            old(self).wf(),
        ensures
            final(self).wf(),
            final(self).constraints() == old(self).constraints(),
            r.0.0 == old(self).doms().len(),
            final(self).doms() == old(self).doms().push(Var { min: 0, max: 1 }),
    {
        VarIdBinary(self.new_var_unchecked(0, 1))
    }

    /// Create `n` variables with domain `{0, 1}`.
    pub fn new_vars_binary(&mut self, n: usize) -> (r: Vec<VarIdBinary>)
        requires
            old(self).wf(),
        ensures
            final(self).wf(),
            final(self).constraints() == old(self).constraints(),
            r@.len() == n,
            final(self).doms().len() == old(self).doms().len() + n,
            forall|k: int| 0 <= k < n ==> (#[trigger] r@[k]).0.0 == old(self).doms().len() + k,
            forall|k: int| 0 <= k < old(self).doms().len() ==> #[trigger] final(self).doms()[k] == old(self).doms()[k],
            forall|k: int| old(self).doms().len() <= k < final(self).doms().len() ==> #[trigger] final(self).doms()[k] == (Var { min: 0, max: 1 }),
    {
        let mut vs: Vec<VarIdBinary> = Vec::new();
        let mut k: usize = 0;
        while k < n
            invariant
                self.wf(),
                self.constraints() == old(self).constraints(),
                k <= n,
                vs@.len() == k,
                self.doms().len() == old(self).doms().len() + k,
                forall|j: int| 0 <= j < k ==> (#[trigger] vs@[j]).0.0 == old(self).doms().len() + j,
                forall|j: int| 0 <= j < old(self).doms().len() ==> #[trigger] self.doms()[j] == old(self).doms()[j],
                forall|j: int| old(self).doms().len() <= j < self.doms().len() ==> #[trigger] self.doms()[j] == (Var { min: 0, max: 1 }),
            decreases n - k,
        {
            let v = self.new_var_binary();
            vs.push(v);
            k = k + 1;
        }
        vs
    }

    /// Create a variable fixed to `value`, for use as a constant in constraints.
    pub fn cst(&mut self, value: i32) -> (r: VarId)
        requires
            old(self).wf(),
        ensures
            final(self).wf(),
            final(self).constraints() == old(self).constraints(),
            r.0 == old(self).doms().len(),
            final(self).doms() == old(self).doms().push(Var { min: value, max: value }),
    {
        self.new_var_unchecked(value, value)
    }

    /// Create a variable `s` equal to the view `v`: its domain is the view's
    /// bounds, and the constraint `s == v` is posted.
    fn define<V: ViewExt>(&mut self, v: V) -> (s: VarId)
        requires
            old(self).wf(),
            fits(v.to_term(), old(self).doms()),
        ensures
            final(self).wf(),
            s.0 == old(self).doms().len(),
            final(self).doms() == old(self).doms().push(Var {
                min: lo(v.to_term(), old(self).doms()) as i32,
                max: hi(v.to_term(), old(self).doms()) as i32,
            }),
            final(self).constraints() == old(self).constraints().push(
                Prop::Equals(Equals { x: Term::Var(s), y: v.to_term() }),
            ),
    {
        let ghost d = self.doms();
        let v = v.into_term();
        proof {
            self.ctx.lemma_wf();
            crate::views::lemma_lo_le_hi(v, d);
        }
        let min = v.min(&self.ctx);
        let max = v.max(&self.ctx);
        let s = self.new_var_unchecked(min, max);
        proof {
            let e = self.doms();
            assert forall|i: int| 0 <= i < d.len() implies #[trigger] e[i] == d[i] by {}
            crate::views::lemma_fits_extend(v, d, e);
        }
        self.post(Prop::Equals(Equals::new(Term::Var(s), v)));
        s
    }

    /// Create the expression `-x` as a new variable.
    pub fn opposite<X: ViewExt>(&mut self, x: X) -> (s: VarId)
        requires
            old(self).wf(),
            fits(x.to_term(), old(self).doms()),
            lo(x.to_term(), old(self).doms()) > i32::MIN,
        ensures
            final(self).wf(),
            s.0 == old(self).doms().len(),
            final(self).doms() == old(self).doms().push(Var {
                min: (-hi(x.to_term(), old(self).doms())) as i32,
                max: (-lo(x.to_term(), old(self).doms())) as i32,
            }),
            final(self).constraints() == old(self).constraints().push(
                Prop::Equals(Equals { x: Term::Var(s), y: Term::Opposite(Box::new(x.to_term())) }),
            ),
    {
        proof {
            self.ctx.lemma_wf();
            crate::views::lemma_lo_le_hi(x.to_term(), self.doms());
        }
        let o = x.opposite();
        self.define(o)
    }

    /// Create the expression `coef * x` as a new variable.
    pub fn scale<X: ViewExt>(&mut self, x: X, coef: i32) -> (s: VarId)
        requires
            old(self).wf(),
            coef > i32::MIN,
            fits(times_spec(x.to_term(), coef), old(self).doms()),
        ensures
            final(self).wf(),
            s.0 == old(self).doms().len(),
            final(self).doms() == old(self).doms().push(Var {
                min: lo(times_spec(x.to_term(), coef), old(self).doms()) as i32,
                max: hi(times_spec(x.to_term(), coef), old(self).doms()) as i32,
            }),
            final(self).constraints() == old(self).constraints().push(
                Prop::Equals(Equals { x: Term::Var(s), y: times_spec(x.to_term(), coef) }),
            ),
    {
        let t = x.times(coef);
        self.define(t)
    }

    /// Create the expression `x - y`: the sum of `x` and the opposite of `y`.
    pub fn minus<X: ViewExt, Y: ViewExt>(&mut self, x: X, y: Y) -> (s: VarId)
        requires
            old(self).wf(),
            fits(x.to_term(), old(self).doms()),
            fits(y.to_term(), old(self).doms()),
            lo(y.to_term(), old(self).doms()) > i32::MIN,
            in_i32(lo(x.to_term(), old(self).doms()) - hi(y.to_term(), old(self).doms())),
            in_i32(hi(x.to_term(), old(self).doms()) - lo(y.to_term(), old(self).doms())),
        ensures
            final(self).wf(),
            s.0 == old(self).doms().len(),
            final(self).doms() == old(self).doms().push(Var {
                min: (lo(x.to_term(), old(self).doms()) - hi(y.to_term(), old(self).doms())) as i32,
                max: (hi(x.to_term(), old(self).doms()) - lo(y.to_term(), old(self).doms())) as i32,
            }),
            final(self).constraints() == old(self).constraints().push(
                Prop::Add(Add { x: x.to_term(), y: Term::Opposite(Box::new(y.to_term())), s }),
            ),
    {
        proof {
            self.ctx.lemma_wf();
            crate::views::lemma_lo_le_hi(y.to_term(), self.doms());
        }
        let o = y.opposite();
        self.add(x, o)
    }

    /// Whether the view's bounds, and those of every view inside it, fit `i32`
    /// under the model's domains: what posting a constraint over it asks.
    pub fn admits(&self, v: &Term) -> (r: bool)
        requires
            self.wf(),
        ensures
            r == fits(*v, self.doms()),
    {
        v.fits_in(&self.ctx)
    }

    /// Domain minimum of a view under the model's domains.
    pub fn min_of(&self, v: &Term) -> (r: i32)
        requires
            self.wf(),
            fits(*v, self.doms()),
        ensures
            r == lo(*v, self.doms()),
    {
        v.min(&self.ctx)
    }

    /// Domain maximum of a view under the model's domains.
    pub fn max_of(&self, v: &Term) -> (r: i32)
        requires
            self.wf(),
            fits(*v, self.doms()),
        ensures
            r == hi(*v, self.doms()),
    {
        v.max(&self.ctx)
    }

    fn post(&mut self, p: Prop)
        requires
            old(self).wf(),
            crate::props::prop_fits(p, old(self).doms()),
        ensures
            final(self).wf(),
            final(self).doms() == old(self).doms(),
            final(self).constraints() == old(self).constraints().push(p),
    {
        let _ = self.props.push_new_prop(p, Ghost(self.ctx.doms()));
    }

    /// Create the expression `x + y`: a new variable `s` whose domain is the
    /// sum of the operands' bounds, and the constraint `x + y == s`.
    pub fn add<X: ViewExt, Y: ViewExt>(&mut self, x: X, y: Y) -> (s: VarId)
        requires
            old(self).wf(),
            fits(x.to_term(), old(self).doms()),
            fits(y.to_term(), old(self).doms()),
            in_i32(lo(x.to_term(), old(self).doms()) + lo(y.to_term(), old(self).doms())),
            in_i32(hi(x.to_term(), old(self).doms()) + hi(y.to_term(), old(self).doms())),
        ensures
            final(self).wf(),
            s.0 == old(self).doms().len(),
            final(self).doms() == old(self).doms().push(Var {
                min: (lo(x.to_term(), old(self).doms()) + lo(y.to_term(), old(self).doms())) as i32,
                max: (hi(x.to_term(), old(self).doms()) + hi(y.to_term(), old(self).doms())) as i32,
            }),
            final(self).constraints() == old(self).constraints().push(Prop::Add(Add { x: x.to_term(), y: y.to_term(), s })),
    {
        let ghost d = self.doms();
        let x = x.into_term();
        let y = y.into_term();
        let min = x.min(&self.ctx) + y.min(&self.ctx);
        let max = x.max(&self.ctx) + y.max(&self.ctx);
        proof {
            self.ctx.lemma_wf();
            crate::views::lemma_lo_le_hi(x, d);
            crate::views::lemma_lo_le_hi(y, d);
        }
        let s = self.new_var_unchecked(min, max);
        proof {
            let e = self.doms();
            assert forall|i: int| 0 <= i < d.len() implies #[trigger] e[i] == d[i] by {}
            crate::views::lemma_fits_extend(x, d, e);
            crate::views::lemma_fits_extend(y, d, e);
        }
        self.post(Prop::Add(Add::new(x, y, s)));
        s
    }

    /// Create the expression `sum(xs)`: a new variable `s` whose domain is the
    /// sum of the terms' bounds, and the constraint `sum(xs) == s`.
    pub fn sum_iter(&mut self, xs: Vec<Term>) -> (s: VarId)
        requires
            old(self).wf(),
            forall|i: int| 0 <= i < xs@.len() ==> fits(#[trigger] xs@[i], old(self).doms()),
            in_i32(sum_lo(xs@, old(self).doms())),
            in_i32(sum_hi(xs@, old(self).doms())),
        ensures
            final(self).wf(),
            s.0 == old(self).doms().len(),
            final(self).doms() == old(self).doms().push(Var {
                min: sum_lo(xs@, old(self).doms()) as i32,
                max: sum_hi(xs@, old(self).doms()) as i32,
            }),
            final(self).constraints() == old(self).constraints().push(Prop::Sum(Sum { xs, s })),
    {
        let ghost d = self.doms();
        let ghost ts = xs@;
        let mut l: i128 = 0;
        let mut u: i128 = 0;
        let mut i: usize = 0;
        proof { self.ctx.lemma_wf(); }
        while i < xs.len()
            invariant
                self.wf(),
                d == self.doms(),
                crate::vars::wf_doms(d),
                ts == xs@,
                forall|j: int| 0 <= j < ts.len() ==> fits(#[trigger] ts[j], d),
                i <= ts.len(),
                l == sum_lo(ts.subrange(0, i as int), d),
                u == sum_hi(ts.subrange(0, i as int), d),
                l <= u,
                -(i as int) * 0x8000_0000 <= l <= (i as int) * 0x8000_0000,
                -(i as int) * 0x8000_0000 <= u <= (i as int) * 0x8000_0000,
            decreases ts.len() - i,
        {
            assert(fits(ts[i as int], d));
            proof { crate::views::lemma_lo_le_hi(ts[i as int], d); }
            l = l + xs[i].min(&self.ctx) as i128;
            u = u + xs[i].max(&self.ctx) as i128;
            assert(ts.subrange(0, i as int + 1).drop_last() =~= ts.subrange(0, i as int));
            i = i + 1;
        }
        assert(ts.subrange(0, ts.len() as int) =~= ts);
        let s = self.new_var_unchecked(l as i32, u as i32);
        proof {
            let e = self.doms();
            assert forall|i: int| 0 <= i < d.len() implies #[trigger] e[i] == d[i] by {}
            assert forall|j: int| 0 <= j < ts.len() implies fits(#[trigger] ts[j], e) by {
                assert(fits(ts[j], d));
                crate::views::lemma_fits_extend(ts[j], d, e);
            }
        }
        self.post(Prop::Sum(Sum::new(xs, s)));
        s
    }

    /// Create the expression `sum(xs)` over variables or views.
    pub fn sum<T: ViewExt + Copy>(&mut self, xs: &[T]) -> (s: VarId)
        requires
            old(self).wf(),
            forall|i: int| 0 <= i < xs@.len() ==> fits((#[trigger] xs@[i]).to_term(), old(self).doms()),
            in_i32(sum_lo(xs@.map_values(|x: T| x.to_term()), old(self).doms())),
            in_i32(sum_hi(xs@.map_values(|x: T| x.to_term()), old(self).doms())),
        ensures
            final(self).wf(),
            s.0 == old(self).doms().len(),
            final(self).doms() == old(self).doms().push(Var {
                min: sum_lo(xs@.map_values(|x: T| x.to_term()), old(self).doms()) as i32,
                max: sum_hi(xs@.map_values(|x: T| x.to_term()), old(self).doms()) as i32,
            }),
            final(self).constraints().len() == old(self).constraints().len() + 1,
            final(self).constraints().drop_last() == old(self).constraints(),
            final(self).constraints().last() matches Prop::Sum(c) && c.s == s
                && c.xs@ == xs@.map_values(|x: T| x.to_term()),
    {
        let mut ts: Vec<Term> = Vec::new();
        let mut i: usize = 0;
        while i < xs.len()
            invariant
                i <= xs@.len(),
                ts@ == xs@.subrange(0, i as int).map_values(|x: T| x.to_term()),
            decreases xs@.len() - i,
        {
            let t = xs[i];
            ts.push(t.into_term());
            assert(ts@ =~= xs@.subrange(0, i as int + 1).map_values(|x: T| x.to_term()));
            i = i + 1;
        }
        assert(ts@ =~= xs@.map_values(|x: T| x.to_term()));
        assert forall|i: int| 0 <= i < ts@.len() implies fits(#[trigger] ts@[i], self.doms()) by {
            assert(ts@[i] == xs@[i].to_term());
        }
        let ghost c0 = self.constraints();
        let s = self.sum_iter(ts);
        assert(self.constraints().drop_last() =~= c0);
        s
    }

    /// Create the linear expression `sum(coefs[i] * xs[i])`.
    pub fn linear<T: ViewExt + Copy>(&mut self, xs: &[T], coefs: &[i32]) -> (s: VarId)
        requires
            old(self).wf(),
            xs@.len() == coefs@.len(),
            forall|i: int| 0 <= i < coefs@.len() ==> #[trigger] coefs@[i] > i32::MIN,
            forall|i: int| 0 <= i < xs@.len() ==> fits(times_spec((#[trigger] xs@[i]).to_term(), coefs@[i]), old(self).doms()),
            in_i32(sum_lo(Seq::new(xs@.len(), |i: int| times_spec(xs@[i].to_term(), coefs@[i])), old(self).doms())),
            in_i32(sum_hi(Seq::new(xs@.len(), |i: int| times_spec(xs@[i].to_term(), coefs@[i])), old(self).doms())),
        ensures
            final(self).wf(),
            s.0 == old(self).doms().len(),
            final(self).doms() == old(self).doms().push(Var {
                min: sum_lo(Seq::new(xs@.len(), |i: int| times_spec(xs@[i].to_term(), coefs@[i])), old(self).doms()) as i32,
                max: sum_hi(Seq::new(xs@.len(), |i: int| times_spec(xs@[i].to_term(), coefs@[i])), old(self).doms()) as i32,
            }),
            final(self).constraints().len() == old(self).constraints().len() + 1,
            final(self).constraints().drop_last() == old(self).constraints(),
            final(self).constraints().last() matches Prop::Sum(c) && c.s == s
                && c.xs@ == Seq::new(xs@.len(), |i: int| times_spec(xs@[i].to_term(), coefs@[i])),
    {
        let ghost want = Seq::new(xs@.len(), |i: int| times_spec(xs@[i].to_term(), coefs@[i]));
        let mut ts: Vec<Term> = Vec::new();
        let mut i: usize = 0;
        while i < xs.len()
            invariant
                i <= xs@.len(),
                xs@.len() == coefs@.len(),
                want == Seq::new(xs@.len(), |i: int| times_spec(xs@[i].to_term(), coefs@[i])),
                forall|j: int| 0 <= j < coefs@.len() ==> #[trigger] coefs@[j] > i32::MIN,
                ts@ == want.subrange(0, i as int),
            decreases xs@.len() - i,
        {
            let x = xs[i];
            ts.push(x.times(coefs[i]));
            assert(ts@ =~= want.subrange(0, i as int + 1));
            i = i + 1;
        }
        assert(ts@ =~= want);
        let ghost c0 = self.constraints();
        let s = self.sum_iter(ts);
        assert(self.constraints().drop_last() =~= c0);
        s
    }

    /// Post `x == y`.
    pub fn equals<X: ViewExt, Y: ViewExt>(&mut self, x: X, y: Y)
        requires
            old(self).wf(),
            fits(x.to_term(), old(self).doms()),
            fits(y.to_term(), old(self).doms()),
        ensures
            final(self).wf(),
            final(self).doms() == old(self).doms(),
            final(self).constraints() == old(self).constraints().push(Prop::Equals(Equals { x: x.to_term(), y: y.to_term() })),
    {
        let x = x.into_term();
        let y = y.into_term();
        self.post(Prop::Equals(Equals::new(x, y)));
    }

    /// Post `x <= y`.
    pub fn less_than_or_equals<X: ViewExt, Y: ViewExt>(&mut self, x: X, y: Y)
        requires
            old(self).wf(),
            fits(x.to_term(), old(self).doms()),
            fits(y.to_term(), old(self).doms()),
        ensures
            final(self).wf(),
            final(self).doms() == old(self).doms(),
            final(self).constraints() == old(self).constraints().push(
                Prop::Leq(LessThanOrEquals { x: x.to_term(), y: y.to_term() }),
            ),
    {
        let x = x.into_term();
        let y = y.into_term();
        self.post(Prop::Leq(LessThanOrEquals::new(x, y)));
    }

    /// Post `x <= y`: the same constraint as `less_than_or_equals`.
    pub fn leq<X: ViewExt, Y: ViewExt>(&mut self, x: X, y: Y)
        requires
            old(self).wf(),
            fits(x.to_term(), old(self).doms()),
            fits(y.to_term(), old(self).doms()),
        ensures
            final(self).wf(),
            final(self).doms() == old(self).doms(),
            final(self).constraints() == old(self).constraints().push(
                Prop::Leq(LessThanOrEquals { x: x.to_term(), y: y.to_term() }),
            ),
    {
        self.less_than_or_equals(x, y);
    }

    /// Post `x < y`, as `x + 1 <= y`.
    pub fn less_than<X: ViewExt, Y: ViewExt>(&mut self, x: X, y: Y)
        requires
            old(self).wf(),
            fits(x.to_term(), old(self).doms()),
            fits(y.to_term(), old(self).doms()),
            hi(x.to_term(), old(self).doms()) < i32::MAX,
        ensures
            final(self).wf(),
            final(self).doms() == old(self).doms(),
            final(self).constraints() == old(self).constraints().push(
                Prop::Leq(LessThanOrEquals { x: Term::Plus(Box::new(x.to_term()), 1), y: y.to_term() }),
            ),
    {
        let x = x.plus(1);
        proof { self.ctx.lemma_wf(); crate::views::lemma_lo_le_hi(x, self.doms()); }
        self.less_than_or_equals(x, y);
    }

    /// Post `x >= y`, as `y <= x`.
    pub fn greater_than_or_equals<X: ViewExt, Y: ViewExt>(&mut self, x: X, y: Y)
        requires
            old(self).wf(),
            fits(x.to_term(), old(self).doms()),
            fits(y.to_term(), old(self).doms()),
        ensures
            final(self).wf(),
            final(self).doms() == old(self).doms(),
            final(self).constraints() == old(self).constraints().push(
                Prop::Leq(LessThanOrEquals { x: y.to_term(), y: x.to_term() }),
            ),
    {
        self.less_than_or_equals(y, x);
    }

    /// Post `x > y`, as `y + 1 <= x`.
    pub fn greater_than<X: ViewExt, Y: ViewExt>(&mut self, x: X, y: Y)
        requires
            old(self).wf(),
            fits(x.to_term(), old(self).doms()),
            fits(y.to_term(), old(self).doms()),
            hi(y.to_term(), old(self).doms()) < i32::MAX,
        ensures
            final(self).wf(),
            final(self).doms() == old(self).doms(),
            final(self).constraints() == old(self).constraints().push(
                Prop::Leq(LessThanOrEquals { x: Term::Plus(Box::new(y.to_term()), 1), y: x.to_term() }),
            ),
    {
        self.less_than(y, x);
    }

    /// Search with the given branching strategy instead of the binary split.
    pub fn with_brancher(self, brancher: Brancher) -> (r: Strategy)
        requires
            self.wf(),
        ensures
            r.model == self,
            r.brancher == brancher,
    {
        Strategy { model: self, brancher }
    }

    /// All assignments that satisfy every constraint, each exactly once, in
    /// no promised order.
    pub fn enumerate(self) -> (r: Vec<Solution>)
        requires
            self.wf(),
        ensures
            forall|k: int| 0 <= k < r@.len() ==> self.is_solution((#[trigger] r@[k]).values()),
            forall|a: Seq<int>| self.is_solution(a) ==> exists|k: int| 0 <= k < r@.len() && (#[trigger] r@[k]).values() == a,
            distinct(r@),
    {
        let ghost m = self;
        let st = Strategy { model: self, brancher: Brancher::SplitOnUnassigned };
        let r = st.enumerate();
        proof {
            assert forall|a: Seq<int>| m.is_solution(a) implies exists|k: int| 0 <= k < r@.len() && (#[trigger] r@[k]).values() == a by {
                assert(st.model.is_solution(a));
            }
        }
        r
    }

    /// An assignment that satisfies every constraint, if there is one.
    pub fn solve(self) -> (r: Option<Solution>)
        requires
            self.wf(),
        ensures
            r.is_some() <==> exists|a: Seq<int>| self.is_solution(a),
            r matches Some(s) ==> self.is_solution(s.values()),
    {
        let ghost m = self;
        let st = Strategy { model: self, brancher: Brancher::SplitOnUnassigned };
        let r = st.solve();
        proof {
            if exists|a: Seq<int>| m.is_solution(a) {
                let a = choose|a: Seq<int>| m.is_solution(a);
                assert(st.model.is_solution(a));
            }
        }
        r
    }

    /// Solutions with a strictly decreasing objective, the last one optimal:
    /// no solution has a smaller objective value.
    pub fn minimize_and_iterate<V: ViewExt>(self, objective: V) -> (r: Vec<Solution>)
        requires
            self.wf(),
            fits(objective.to_term(), self.doms()),
        ensures
            forall|k: int| 0 <= k < r@.len() ==> self.is_solution((#[trigger] r@[k]).values()),
            improving(objective.to_term(), r@, None),
            r@.len() > 0 <==> exists|a: Seq<int>| self.is_solution(a),
            r@.len() > 0 ==> forall|a: Seq<int>| self.is_solution(a)
                ==> val(objective.to_term(), r@.last().values()) <= val(objective.to_term(), a),
    {
        let ghost m = self;
        let st = Strategy { model: self, brancher: Brancher::SplitOnUnassigned };
        let r = st.minimize_and_iterate(objective);
        proof {
            if exists|a: Seq<int>| m.is_solution(a) {
                let a = choose|a: Seq<int>| m.is_solution(a);
                assert(st.model.is_solution(a));
            }
        }
        r
    }

    /// A solution with the smallest objective value, if there is any solution.
    pub fn minimize<V: ViewExt>(self, objective: V) -> (r: Option<Solution>)
        requires
            self.wf(),
            fits(objective.to_term(), self.doms()),
        ensures
            r.is_some() <==> exists|a: Seq<int>| self.is_solution(a),
            r matches Some(s) ==> self.is_solution(s.values())
                && forall|a: Seq<int>| self.is_solution(a) ==> val(objective.to_term(), s.values()) <= val(objective.to_term(), a),
    {
        let ghost m = self;
        let st = Strategy { model: self, brancher: Brancher::SplitOnUnassigned };
        let r = st.minimize(objective);
        proof {
            if exists|a: Seq<int>| m.is_solution(a) {
                let a = choose|a: Seq<int>| m.is_solution(a);
                assert(st.model.is_solution(a));
            }
        }
        r
    }

    /// Solutions with a strictly increasing objective, the last one optimal:
    /// no solution has a larger objective value. Runs as the minimization of
    /// the objective's opposite.
    pub fn maximize_and_iterate<V: ViewExt>(self, objective: V) -> (r: Vec<Solution>)
        requires
            self.wf(),
            fits(objective.to_term(), self.doms()),
            lo(objective.to_term(), self.doms()) > i32::MIN,
        ensures
            forall|k: int| 0 <= k < r@.len() ==> self.is_solution((#[trigger] r@[k]).values()),
            improving(Term::Opposite(Box::new(objective.to_term())), r@, None),
            r@.len() > 0 <==> exists|a: Seq<int>| self.is_solution(a),
            r@.len() > 0 ==> forall|a: Seq<int>| self.is_solution(a)
                ==> val(objective.to_term(), r@.last().values()) >= val(objective.to_term(), a),
    {
        let ghost m = self;
        let st = Strategy { model: self, brancher: Brancher::SplitOnUnassigned };
        let r = st.maximize_and_iterate(objective);
        proof {
            if exists|a: Seq<int>| m.is_solution(a) {
                let a = choose|a: Seq<int>| m.is_solution(a);
                assert(st.model.is_solution(a));
            }
        }
        r
    }

    /// A solution with the largest objective value, if there is any solution:
    /// the minimization of the objective's opposite.
    pub fn maximize<V: ViewExt>(self, objective: V) -> (r: Option<Solution>)
        requires
            self.wf(),
            fits(objective.to_term(), self.doms()),
            lo(objective.to_term(), self.doms()) > i32::MIN,
        ensures
            r.is_some() <==> exists|a: Seq<int>| self.is_solution(a),
            r matches Some(s) ==> self.is_solution(s.values())
                && forall|a: Seq<int>| self.is_solution(a) ==> val(objective.to_term(), s.values()) >= val(objective.to_term(), a),
    {
        let ghost m = self;
        let st = Strategy { model: self, brancher: Brancher::SplitOnUnassigned };
        let r = st.maximize(objective);
        proof {
            if exists|a: Seq<int>| m.is_solution(a) {
                let a = choose|a: Seq<int>| m.is_solution(a);
                assert(st.model.is_solution(a));
            }
        }
        r
    }
}

/// A model together with the brancher its search uses. Every solution set
/// and optimum is the same whatever the brancher; only the order of
/// exploration differs.
#[derive(Debug)]
pub struct Strategy {
    pub model: Model,
    pub brancher: Brancher,
}

impl Strategy {
    /// All assignments that satisfy every constraint, each exactly once, in
    /// no promised order.
    pub fn enumerate(self) -> (r: Vec<Solution>)
        requires
            self.model.wf(),
        ensures
            forall|k: int| 0 <= k < r@.len() ==> self.model.is_solution((#[trigger] r@[k]).values()),
            forall|a: Seq<int>| self.model.is_solution(a) ==> exists|k: int| 0 <= k < r@.len() && (#[trigger] r@[k]).values() == a,
            distinct(r@),
    {
        let ghost d = self.model.doms();
        let agenda = Agenda::with_props(self.model.props.len());
        proof {
            crate::search::lemma_all_scheduled(self.model.props.props(), self.model.ctx.doms(), agenda.queue(), self.model.ctx.events());
        }
        explore(&self.model.props, self.model.ctx, agenda, false, self.brancher, Ghost(d))
    }

    /// An assignment that satisfies every constraint, if there is one.
    pub fn solve(self) -> (r: Option<Solution>)
        requires
            self.model.wf(),
        ensures
            r.is_some() <==> exists|a: Seq<int>| self.model.is_solution(a),
            r matches Some(s) ==> self.model.is_solution(s.values()),
    {
        let ghost d = self.model.doms();
        let agenda = Agenda::with_props(self.model.props.len());
        proof {
            crate::search::lemma_all_scheduled(self.model.props.props(), self.model.ctx.doms(), agenda.queue(), self.model.ctx.events());
        }
        let mut out = explore(&self.model.props, self.model.ctx, agenda, true, self.brancher, Ghost(d));
        proof {
            if out@.len() > 0 {
                assert(self.model.is_solution(out@[0].values()));
            }
        }
        out.pop()
    }

    /// Solutions with a strictly decreasing objective, the last one optimal:
    /// no solution has a smaller objective value.
    pub fn minimize_and_iterate<V: ViewExt>(self, objective: V) -> (r: Vec<Solution>)
        requires
            self.model.wf(),
            fits(objective.to_term(), self.model.doms()),
        ensures
            forall|k: int| 0 <= k < r@.len() ==> self.model.is_solution((#[trigger] r@[k]).values()),
            improving(objective.to_term(), r@, None),
            r@.len() > 0 <==> exists|a: Seq<int>| self.model.is_solution(a),
            r@.len() > 0 ==> forall|a: Seq<int>| self.model.is_solution(a)
                ==> val(objective.to_term(), r@.last().values()) <= val(objective.to_term(), a),
    {
        let ghost d = self.model.doms();
        let agenda = Agenda::with_props(self.model.props.len());
        proof {
            crate::search::lemma_all_scheduled(self.model.props.props(), self.model.ctx.doms(), agenda.queue(), self.model.ctx.events());
        }
        let ghost t = objective.to_term();
        let mut mode = Minimize::new(objective.into_term());
        let out = explore_min(&self.model.props, self.model.ctx, agenda, &mut mode, self.brancher, Ghost(d));
        proof {
            if exists|a: Seq<int>| self.model.is_solution(a) {
                let a = choose|a: Seq<int>| self.model.is_solution(a);
                assert(mode.minimum_opt is Some);
            }
            if out@.len() > 0 {
                assert(self.model.is_solution(out@[0].values()));
            }
        }
        out
    }

    /// A solution with the smallest objective value, if there is any solution.
    pub fn minimize<V: ViewExt>(self, objective: V) -> (r: Option<Solution>)
        requires
            self.model.wf(),
            fits(objective.to_term(), self.model.doms()),
        ensures
            r.is_some() <==> exists|a: Seq<int>| self.model.is_solution(a),
            r matches Some(s) ==> self.model.is_solution(s.values())
                && forall|a: Seq<int>| self.model.is_solution(a) ==> val(objective.to_term(), s.values()) <= val(objective.to_term(), a),
    {
        let ghost m = self.model;
        let mut out = self.minimize_and_iterate(objective);
        proof {
            if out@.len() > 0 {
                assert(m.is_solution(out@.last().values()));
            }
        }
        out.pop()
    }

    /// Solutions with a strictly increasing objective, the last one optimal:
    /// no solution has a larger objective value. Runs as the minimization of
    /// the objective's opposite.
    pub fn maximize_and_iterate<V: ViewExt>(self, objective: V) -> (r: Vec<Solution>)
        requires
            self.model.wf(),
            fits(objective.to_term(), self.model.doms()),
            lo(objective.to_term(), self.model.doms()) > i32::MIN,
        ensures
            forall|k: int| 0 <= k < r@.len() ==> self.model.is_solution((#[trigger] r@[k]).values()),
            improving(Term::Opposite(Box::new(objective.to_term())), r@, None),
            r@.len() > 0 <==> exists|a: Seq<int>| self.model.is_solution(a),
            r@.len() > 0 ==> forall|a: Seq<int>| self.model.is_solution(a)
                ==> val(objective.to_term(), r@.last().values()) >= val(objective.to_term(), a),
    {
        let ghost m = self.model;
        let ghost t = objective.to_term();
        let o = objective.opposite();
        proof {
            self.model.lemma_wf();
            crate::views::lemma_lo_le_hi(objective.to_term(), self.model.doms());
        }
        let r = self.minimize_and_iterate(o);
        proof {
            if r@.len() > 0 {
                assert forall|a: Seq<int>| m.is_solution(a) implies val(t, r@.last().values()) >= val(t, a) by {
                    assert(val(o, r@.last().values()) <= val(o, a));
                }
            }
        }
        r
    }

    /// A solution with the largest objective value, if there is any solution:
    /// the minimization of the objective's opposite.
    pub fn maximize<V: ViewExt>(self, objective: V) -> (r: Option<Solution>)
        requires
            self.model.wf(),
            fits(objective.to_term(), self.model.doms()),
            lo(objective.to_term(), self.model.doms()) > i32::MIN,
        ensures
            r.is_some() <==> exists|a: Seq<int>| self.model.is_solution(a),
            r matches Some(s) ==> self.model.is_solution(s.values())
                && forall|a: Seq<int>| self.model.is_solution(a) ==> val(objective.to_term(), s.values()) >= val(objective.to_term(), a),
    {
        let ghost m = self.model;
        let mut out = self.maximize_and_iterate(objective);
        proof {
            if out@.len() > 0 {
                assert(m.is_solution(out@.last().values()));
            }
        }
        out.pop()
    }
}

/// Posting `x < y` as `x + 1 <= y` keeps exactly the solutions of the other
/// constraints in which `x` is below `y`.
pub proof fn lemma_less_than_solutions(ps: Seq<Prop>, d: Seq<Var>, x: Term, y: Term, a: Seq<int>)
    ensures
        is_solution(ps.push(Prop::Leq(LessThanOrEquals { x: Term::Plus(Box::new(x), 1), y })), d, a)
            <==> is_solution(ps, d, a) && val(x, a) < val(y, a),
{
    let q = Prop::Leq(LessThanOrEquals { x: Term::Plus(Box::new(x), 1), y });
    let qs = ps.push(q);
    assert(val(Term::Plus(Box::new(x), 1), a) == val(x, a) + 1);
    if sat_all(qs, a) {
        assert forall|i: int| 0 <= i < ps.len() implies sat(#[trigger] ps[i], a) by {
            assert(qs[i] == ps[i]);
        }
        assert(sat(qs[ps.len() as int], a));
    }
    if sat_all(ps, a) && val(x, a) < val(y, a) {
        assert forall|i: int| 0 <= i < qs.len() implies sat(#[trigger] qs[i], a) by {
            if i < ps.len() {
                assert(qs[i] == ps[i]);
            }
        }
    }
}

/// The objective value that maximizing reaches is the opposite of the value
/// that minimizing the objective's opposite reaches, on the same model.
pub proof fn lemma_maximize_is_minimize_opposite(m: Model, obj: Term, s: Seq<int>, t: Seq<int>)
    requires
        m.is_solution(s),
        forall|a: Seq<int>| m.is_solution(a) ==> val(obj, s) >= val(obj, a),
        m.is_solution(t),
        forall|a: Seq<int>| m.is_solution(a) ==> val(Term::Opposite(Box::new(obj)), t) <= val(Term::Opposite(Box::new(obj)), a),
    ensures
        val(obj, s) == -val(Term::Opposite(Box::new(obj)), t),
{
    let o = Term::Opposite(Box::new(obj));
    assert(val(o, s) == -val(obj, s));
    assert(val(o, t) == -val(obj, t));
    assert(val(o, t) <= val(o, s));
    assert(val(obj, s) >= val(obj, t));
}

impl Default for Model {
    fn default() -> (r: Model)
        ensures
            r.wf(),
            r.doms().len() == 0,
            r.constraints().len() == 0,
    {
        Model::new()
    }
}

} // verus!
