//! Views: stateless affine transforms of a variable, or constants, that let a
//! single propagator read and narrow `-x`, `x + k` or `s * x` as if it were `x`.
use vstd::prelude::*;

use crate::vars::{contains, narrower, recorded, wf_doms, Context, Var, VarId, VarIdBinary};

verus! {

/// A view: a constant, a variable, or a transform of an inner view.
#[derive(Debug)]
pub enum Term {
    /// The constant `c`.
    Cst(i32),
    /// The variable itself.
    Var(VarId),
    /// `-v`: bounds swap and change sign.
    Opposite(Box<Term>),
    /// `v + k`: bounds shift by `k`.
    Plus(Box<Term>, i32),
    /// `s * v` with `s > 0`: bounds scale by `s`.
    TimesPos(Box<Term>, i32),
}

/// Value of the view under the assignment `a`.
pub open spec fn val(v: Term, a: Seq<int>) -> int
    decreases v,
{
    match v {
        Term::Cst(c) => c as int,
        Term::Var(x) => a[x.0 as int],
        Term::Opposite(w) => -val(*w, a),
        Term::Plus(w, k) => val(*w, a) + k,
        Term::TimesPos(w, s) => val(*w, a) * s,
    }
}

/// Lower and upper bound of the view under the domains `d`.
pub open spec fn bounds(v: Term, d: Seq<Var>) -> (int, int)
    decreases v,
{
    match v {
        Term::Cst(c) => (c as int, c as int),
        Term::Var(x) => (d[x.0 as int].min as int, d[x.0 as int].max as int),
        Term::Opposite(w) => (-bounds(*w, d).1, -bounds(*w, d).0),
        Term::Plus(w, k) => (bounds(*w, d).0 + k, bounds(*w, d).1 + k),
        Term::TimesPos(w, s) => (bounds(*w, d).0 * s, bounds(*w, d).1 * s),
    }
}

pub open spec fn lo(v: Term, d: Seq<Var>) -> int {
    bounds(v, d).0
}

pub open spec fn hi(v: Term, d: Seq<Var>) -> int {
    bounds(v, d).1
}

/// Every variable of the view is one of the `n` variables, every scale is positive.
pub open spec fn valid(v: Term, n: nat) -> bool
    decreases v,
{
    match v {
        Term::Cst(_) => true,
        Term::Var(x) => x.0 < n,
        Term::Opposite(w) => valid(*w, n),
        Term::Plus(w, _) => valid(*w, n),
        Term::TimesPos(w, s) => s > 0 && valid(*w, n),
    }
}

pub open spec fn in_i32(x: int) -> bool {
    i32::MIN <= x <= i32::MAX
}

/// The view and every view inside it has its bounds within `i32` under `d`.
pub open spec fn fits(v: Term, d: Seq<Var>) -> bool
    decreases v,
{
    &&& valid(v, d.len())
    &&& in_i32(lo(v, d))
    &&& in_i32(hi(v, d))
    &&& match v {
        Term::Cst(_) => true,
        Term::Var(_) => true,
        Term::Opposite(w) => fits(*w, d),
        Term::Plus(w, _) => fits(*w, d),
        Term::TimesPos(w, _) => fits(*w, d),
    }
}

/// Index of the variable the view depends on, if any.
pub open spec fn underlying(v: Term) -> Option<VarId>
    decreases v,
{
    match v {
        Term::Cst(_) => None,
        Term::Var(x) => Some(x),
        Term::Opposite(w) => underlying(*w),
        Term::Plus(w, _) => underlying(*w),
        Term::TimesPos(w, _) => underlying(*w),
    }
}

/// The events after setting a bound on `v` took the store from `o` to `n`:
/// unchanged when no domain changed, else the view's variable is recorded.
pub open spec fn events_after(v: Term, o: Context, n: Context) -> Seq<usize> {
    if n.doms() == o.doms() {
        o.events()
    } else {
        recorded(o.events(), underlying(v).unwrap().0, true)
    }
}

/// The view as `times(v, s)` builds it: by the sign of `s`.
pub open spec fn times_spec(v: Term, s: i32) -> Term {
    if s < 0 {
        Term::TimesPos(Box::new(Term::Opposite(Box::new(v))), -s as i32)
    } else if s == 0 {
        Term::Cst(0)
    } else {
        Term::TimesPos(Box::new(v), s)
    }
}

/// Under non-empty domains the lower bound never exceeds the upper bound.
pub proof fn lemma_lo_le_hi(v: Term, d: Seq<Var>)
    requires
        valid(v, d.len()),
        wf_doms(d),
    ensures
        lo(v, d) <= hi(v, d),
    decreases v,
{
    match v {
        Term::Cst(_) => {},
        Term::Var(x) => {
            assert(d[x.0 as int].min <= d[x.0 as int].max);
        },
        Term::Opposite(w) => lemma_lo_le_hi(*w, d),
        Term::Plus(w, _) => lemma_lo_le_hi(*w, d),
        Term::TimesPos(w, s) => {
            lemma_lo_le_hi(*w, d);
            let (l, h) = bounds(*w, d);
            assert(l * s <= h * s) by (nonlinear_arith)
                requires
                    l <= h,
                    s > 0,
            ;
        },
    }
}

/// Inside the domains, the value of a view lies between its bounds.
pub proof fn lemma_val_in_bounds(v: Term, d: Seq<Var>, a: Seq<int>)
    requires
        valid(v, d.len()),
        contains(d, a),
    ensures
        lo(v, d) <= val(v, a) <= hi(v, d),
    decreases v,
{
    match v {
        Term::Cst(_) => {},
        Term::Var(x) => {
            assert(d[x.0 as int].min <= a[x.0 as int] <= d[x.0 as int].max);
        },
        Term::Opposite(w) => lemma_val_in_bounds(*w, d, a),
        Term::Plus(w, _) => lemma_val_in_bounds(*w, d, a),
        Term::TimesPos(w, s) => {
            lemma_val_in_bounds(*w, d, a);
            let (l, h) = bounds(*w, d);
            let x = val(*w, a);
            assert(l * s <= x * s <= h * s) by (nonlinear_arith)
                requires
                    l <= x <= h,
                    s > 0,
            ;
        },
    }
}

/// Narrowing the domains narrows the bounds of every view.
pub proof fn lemma_bounds_narrower(v: Term, n: Seq<Var>, o: Seq<Var>)
    requires
        valid(v, o.len()),
        narrower(n, o),
    ensures
        lo(v, o) <= lo(v, n),
        hi(v, n) <= hi(v, o),
    decreases v,
{
    match v {
        Term::Cst(_) => {},
        Term::Var(x) => {
            assert(o[x.0 as int].min <= n[x.0 as int].min);
        },
        Term::Opposite(w) => lemma_bounds_narrower(*w, n, o),
        Term::Plus(w, _) => lemma_bounds_narrower(*w, n, o),
        Term::TimesPos(w, s) => {
            lemma_bounds_narrower(*w, n, o);
            let (lo_o, hi_o) = bounds(*w, o);
            let (lo_n, hi_n) = bounds(*w, n);
            assert(lo_o * s <= lo_n * s && hi_n * s <= hi_o * s) by (nonlinear_arith)
                requires
                    lo_o <= lo_n,
                    hi_n <= hi_o,
                    s > 0,
            ;
        },
    }
}

/// A view that fits a store fits every narrower store.
pub proof fn lemma_fits_narrower(v: Term, n: Seq<Var>, o: Seq<Var>)
    requires
        fits(v, o),
        narrower(n, o),
        wf_doms(n),
    ensures
        fits(v, n),
    decreases v,
{
    lemma_bounds_narrower(v, n, o);
    lemma_lo_le_hi(v, n);
    match v {
        Term::Cst(_) => {},
        Term::Var(_) => {},
        Term::Opposite(w) => lemma_fits_narrower(*w, n, o),
        Term::Plus(w, _) => lemma_fits_narrower(*w, n, o),
        Term::TimesPos(w, _) => lemma_fits_narrower(*w, n, o),
    }
}

/// Appending variables to a store leaves the bounds and fit of existing views alone.
pub proof fn lemma_fits_extend(v: Term, d: Seq<Var>, e: Seq<Var>)
    requires
        valid(v, d.len()),
        d.len() <= e.len(),
        forall|i: int| 0 <= i < d.len() ==> #[trigger] e[i] == d[i],
    ensures
        bounds(v, e) == bounds(v, d),
        valid(v, e.len()),
        fits(v, d) ==> fits(v, e),
    decreases v,
{
    match v {
        Term::Cst(_) => {},
        Term::Var(x) => {
            assert(e[x.0 as int] == d[x.0 as int]);
        },
        Term::Opposite(w) => lemma_fits_extend(*w, d, e),
        Term::Plus(w, _) => lemma_fits_extend(*w, d, e),
        Term::TimesPos(w, _) => lemma_fits_extend(*w, d, e),
    }
}

/// The bounds of a view depend only on the domain of its variable.
pub proof fn lemma_bounds_local(v: Term, d: Seq<Var>, e: Seq<Var>)
    requires
        valid(v, d.len()),
        d.len() == e.len(),
        underlying(v) matches Some(x) ==> e[x.0 as int] == d[x.0 as int],
    ensures
        bounds(v, e) == bounds(v, d),
    decreases v,
{
    match v {
        Term::Cst(_) => {},
        Term::Var(_) => {},
        Term::Opposite(w) => lemma_bounds_local(*w, d, e),
        Term::Plus(w, _) => lemma_bounds_local(*w, d, e),
        Term::TimesPos(w, _) => lemma_bounds_local(*w, d, e),
    }
}

/// `r` is the floor of `m / s`.
pub open spec fn is_floor_div(r: int, m: int, s: int) -> bool {
    r * s <= m < (r + 1) * s
}

/// `r` is the ceiling of `m / s`.
pub open spec fn is_ceil_div(r: int, m: int, s: int) -> bool {
    (r - 1) * s < m <= r * s
}

proof fn lemma_floor_div_cut(r: int, m: int, s: int, x: int)
    requires
        s > 0,
        is_floor_div(r, m, s),
    ensures
        x <= r <==> x * s <= m,
{
    if x <= r {
        assert(x * s <= r * s) by (nonlinear_arith)
            requires
                x <= r,
                s > 0,
        ;
    } else {
        assert(x * s >= (r + 1) * s) by (nonlinear_arith)
            requires
                x >= r + 1,
                s > 0,
        ;
    }
}

proof fn lemma_ceil_div_cut(r: int, m: int, s: int, x: int)
    requires
        s > 0,
        is_ceil_div(r, m, s),
    ensures
        x >= r <==> x * s >= m,
{
    if x >= r {
        assert(x * s >= r * s) by (nonlinear_arith)
            requires
                x >= r,
                s > 0,
        ;
    } else {
        assert(x * s <= (r - 1) * s) by (nonlinear_arith)
            requires
                x <= r - 1,
                s > 0,
        ;
    }
}

/// Floor of `m / s` for a positive `s`.
fn floor_div(m: i128, s: i32) -> (r: i128)
    requires
        s > 0,
        -0x1_0000_0000_0000 <= m <= 0x1_0000_0000_0000,
    ensures
        is_floor_div(r as int, m as int, s as int),
        -0x1_0000_0000_0000 <= r <= 0x1_0000_0000_0000,
{
    let s: i128 = s as i128;
    if m >= 0 {
        let q = m / s;
        proof {
            let (mi, si, qi) = (m as int, s as int, q as int);
            vstd::arithmetic::div_mod::lemma_fundamental_div_mod(mi, si);
            vstd::arithmetic::div_mod::lemma_mod_pos_bound(mi, si);
            vstd::arithmetic::div_mod::lemma_div_pos_is_pos(mi, si);
            vstd::arithmetic::div_mod::lemma_div_is_ordered_by_denominator(mi, 1, si);
            let r = mi % si;
            assert(qi * si <= mi < (qi + 1) * si) by (nonlinear_arith)
                requires
                    mi == si * qi + r,
                    0 <= r < si,
            ;
        }
        q
    } else {
        let n = -m;
        let q = (n + s - 1) / s;
        proof {
            let (ni, si, qi) = (n as int, s as int, q as int);
            let ti = ni + si - 1;
            vstd::arithmetic::div_mod::lemma_fundamental_div_mod(ti, si);
            vstd::arithmetic::div_mod::lemma_mod_pos_bound(ti, si);
            vstd::arithmetic::div_mod::lemma_div_pos_is_pos(ti, si);
            vstd::arithmetic::div_mod::lemma_div_is_ordered_by_denominator(ti, 1, si);
            let r = ti % si;
            assert((qi - 1) * si < ni <= qi * si) by (nonlinear_arith)
                requires
                    ti == si * qi + r,
                    0 <= r < si,
                    ti == ni + si - 1,
            ;
            assert(qi <= ni) by (nonlinear_arith)
                requires
                    (qi - 1) * si < ni,
                    si >= 1,
                    ni >= 1,
            ;
            let mi = m as int;
            assert((-qi) * si <= mi < (-qi + 1) * si) by (nonlinear_arith)
                requires
                    (qi - 1) * si < ni <= qi * si,
                    mi == -ni,
            ;
        }
        -q
    }
}

/// Ceiling of `m / s` for a positive `s`.
fn ceil_div(m: i128, s: i32) -> (r: i128)
    requires
        s > 0,
        -0x1_0000_0000_0000 <= m <= 0x1_0000_0000_0000,
    ensures
        is_ceil_div(r as int, m as int, s as int),
        -0x1_0000_0000_0000 <= r <= 0x1_0000_0000_0000,
{
    let f = floor_div(-m, s);
    proof {
        let (fi, mi, si) = (f as int, m as int, s as int);
        assert((-fi - 1) * si < mi <= -fi * si) by (nonlinear_arith)
            requires
                fi * si <= -mi < (fi + 1) * si,
        ;
    }
    -f
}

/// Bring a requested bound into `[i32::MIN - 1, i32::MAX + 1]`: against values
/// within `i32` the clamped bound cuts exactly where the requested one does.
fn clamp(m: i128) -> (r: i128)
    ensures
        i32::MIN - 1 <= r <= i32::MAX + 1,
        forall|x: int| in_i32(x) ==> (x >= m <==> x >= r) && (x <= m <==> x <= r),
{
    if m < i32::MIN as i128 - 1 {
        i32::MIN as i128 - 1
    } else if m > i32::MAX as i128 + 1 {
        i32::MAX as i128 + 1
    } else {
        m
    }
}

impl Term {
    /// Constant view.
    pub fn cst(c: i32) -> (r: Term)
        ensures
            r == Term::Cst(c),
    {
        Term::Cst(c)
    }

    /// A copy of the view.
    pub fn copy(&self) -> (r: Term)
        ensures
            r == *self,
        decreases self,
    {
        match self {
            Term::Cst(c) => Term::Cst(*c),
            Term::Var(x) => Term::Var(*x),
            Term::Opposite(w) => Term::Opposite(Box::new(w.copy())),
            Term::Plus(w, k) => Term::Plus(Box::new(w.copy()), *k),
            Term::TimesPos(w, s) => Term::TimesPos(Box::new(w.copy()), *s),
        }
    }

    /// Handle of the variable this view depends on.
    pub fn get_underlying_var(&self) -> (r: Option<VarId>)
        ensures
            r == underlying(*self),
        decreases self,
    {
        match self {
            Term::Cst(_) => None,
            Term::Var(x) => Some(*x),
            Term::Opposite(w) => w.get_underlying_var(),
            Term::Plus(w, _) => w.get_underlying_var(),
            Term::TimesPos(w, _) => w.get_underlying_var(),
        }
    }

    /// Whether the view and every view inside it has its bounds within `i32`
    /// under the current domains.
    pub fn fits_in(&self, ctx: &Context) -> (r: bool)
        requires
            ctx.wf(),
        ensures
            r == fits(*self, ctx.doms()),
        decreases self,
    {
        match self {
            Term::Cst(_) => true,
            Term::Var(x) => x.0 < ctx.len(),
            Term::Opposite(w) => {
                if !w.fits_in(ctx) {
                    return false;
                }
                proof {
                    ctx.lemma_wf();
                    lemma_lo_le_hi(**w, ctx.doms());
                }
                w.min(ctx) > i32::MIN
            },
            Term::Plus(w, k) => {
                if !w.fits_in(ctx) {
                    return false;
                }
                proof {
                    ctx.lemma_wf();
                    lemma_lo_le_hi(**w, ctx.doms());
                }
                let (l, h) = (w.min(ctx) as i64 + *k as i64, w.max(ctx) as i64 + *k as i64);
                i32::MIN as i64 <= l && h <= i32::MAX as i64
            },
            Term::TimesPos(w, s) => {
                if *s <= 0 || !w.fits_in(ctx) {
                    return false;
                }
                proof {
                    ctx.lemma_wf();
                    lemma_lo_le_hi(*self, ctx.doms());
                }
                let (a, b, c) = (w.min(ctx) as i64, w.max(ctx) as i64, *s as i64);
                proof {
                    assert(-0x4000_0000_0000_0000 <= a * c <= 0x4000_0000_0000_0000) by (nonlinear_arith)
                        requires
                            i32::MIN <= a <= i32::MAX,
                            0 < c <= i32::MAX,
                    ;
                    assert(-0x4000_0000_0000_0000 <= b * c <= 0x4000_0000_0000_0000) by (nonlinear_arith)
                        requires
                            i32::MIN <= b <= i32::MAX,
                            0 < c <= i32::MAX,
                    ;
                }
                let (l, h) = (a * c, b * c);
                i32::MIN as i64 <= l && h <= i32::MAX as i64
            },
        }
    }

    /// Domain minimum of the view.
    pub fn min(&self, ctx: &Context) -> (r: i32)
        requires
            ctx.wf(),
            fits(*self, ctx.doms()),
        ensures
            r == lo(*self, ctx.doms()),
        decreases self,
    {
        match self {
            Term::Cst(c) => *c,
            Term::Var(x) => ctx.min(*x),
            Term::Opposite(w) => -w.max(ctx),
            Term::Plus(w, k) => w.min(ctx) + *k,
            Term::TimesPos(w, s) => w.min(ctx) * *s,
        }
    }

    /// Domain maximum of the view.
    pub fn max(&self, ctx: &Context) -> (r: i32)
        requires
            ctx.wf(),
            fits(*self, ctx.doms()),
        ensures
            r == hi(*self, ctx.doms()),
        decreases self,
    {
        match self {
            Term::Cst(c) => *c,
            Term::Var(x) => ctx.max(*x),
            Term::Opposite(w) => -w.min(ctx),
            Term::Plus(w, k) => w.max(ctx) + *k,
            Term::TimesPos(w, s) => w.max(ctx) * *s,
        }
    }

    /// Narrow the view to values `>= m`. Succeeds exactly when some value of
    /// the view reaches `m`; then it removes exactly the assignments whose
    /// value is below `m`. On failure nothing changes.
    pub fn try_set_min(&self, m: i128, ctx: &mut Context) -> (ok: bool)
        requires
            old(ctx).wf(),
            fits(*self, old(ctx).doms()),
        ensures
            final(ctx).wf(),
            Context::event_step(*old(ctx), *final(ctx)),
            ok == (m <= hi(*self, old(ctx).doms())),
            !ok ==> *final(ctx) == *old(ctx),
            ok ==> forall|a: Seq<int>|
                contains(final(ctx).doms(), a) <==> contains(old(ctx).doms(), a) && val(*self, a) >= m,
            ok ==> (final(ctx).doms() == old(ctx).doms() <==> m <= lo(*self, old(ctx).doms())),
            final(ctx).doms() != old(ctx).doms() ==> underlying(*self).is_some(),
            final(ctx).events() == events_after(*self, *old(ctx), *final(ctx)),
            forall|i: int| 0 <= i < old(ctx).doms().len() && underlying(*self) != Some(VarId(i as usize))
                ==> #[trigger] final(ctx).doms()[i] == old(ctx).doms()[i],
            set_min_post(*self, m as int, *old(ctx), *final(ctx), ok),
        decreases self,
    {
        let m = clamp(m);
        proof {
            old(ctx).lemma_wf();
            Self::lemma_cut_at(*self, old(ctx).doms());
        }
        match self {
            Term::Cst(c) => {
                assert(in_i32(*c as int));
                m <= *c as i128
            },
            Term::Var(x) => {
                let ok = ctx.set_min_wide(*x, m);
                proof {
                    let xi = x.0 as int;
                    assert(in_i32(old(ctx).doms()[xi].min as int));
                    if ok {
                        if m <= old(ctx).doms()[xi].min {
                            assert(ctx.doms() =~= old(ctx).doms());
                        } else {
                            assert(ctx.doms()[xi] != old(ctx).doms()[xi]);
                        }
                        assert forall|a: Seq<int>| contains(ctx.doms(), a) <==> contains(old(ctx).doms(), a) && val(*self, a) >= m by {
                            if contains(old(ctx).doms(), a) && val(*self, a) >= m {
                                assert forall|i: int| 0 <= i < ctx.doms().len() implies ctx.doms()[i].min <= #[trigger] a[i] <= ctx.doms()[i].max by {
                                    assert(old(ctx).doms()[i].min <= a[i] <= old(ctx).doms()[i].max);
                                }
                            }
                            if contains(ctx.doms(), a) {
                                assert forall|i: int| 0 <= i < old(ctx).doms().len() implies old(ctx).doms()[i].min <= #[trigger] a[i] <= old(ctx).doms()[i].max by {
                                    assert(ctx.doms()[i].min <= a[i] <= ctx.doms()[i].max);
                                }
                                assert(ctx.doms()[x.0 as int].min <= a[x.0 as int]);
                            }
                        }
                    }
                }
                ok
            },
            Term::Opposite(w) => w.try_set_max(-m, ctx),
            Term::Plus(w, k) => w.try_set_min(m - *k as i128, ctx),
            Term::TimesPos(w, s) => {
                let q = ceil_div(m, *s);
                let ok = w.try_set_min(q, ctx);
                proof {
                    assert forall|x: int| #![trigger x * (*s as int)] x >= q <==> x * (*s as int) >= m by {
                        lemma_ceil_div_cut(q as int, m as int, *s as int, x);
                    }
                    lemma_ceil_div_cut(q as int, m as int, *s as int, lo(**w, old(ctx).doms()));
                }
                ok
            },
        }
    }

    /// Narrow the view to values `<= m`. Succeeds exactly when some value of
    /// the view is at most `m`; then it removes exactly the assignments whose
    /// value is above `m`. On failure nothing changes.
    pub fn try_set_max(&self, m: i128, ctx: &mut Context) -> (ok: bool)
        requires
            old(ctx).wf(),
            fits(*self, old(ctx).doms()),
        ensures
            final(ctx).wf(),
            Context::event_step(*old(ctx), *final(ctx)),
            ok == (m >= lo(*self, old(ctx).doms())),
            !ok ==> *final(ctx) == *old(ctx),
            ok ==> forall|a: Seq<int>|
                contains(final(ctx).doms(), a) <==> contains(old(ctx).doms(), a) && val(*self, a) <= m,
            ok ==> (final(ctx).doms() == old(ctx).doms() <==> m >= hi(*self, old(ctx).doms())),
            final(ctx).doms() != old(ctx).doms() ==> underlying(*self).is_some(),
            final(ctx).events() == events_after(*self, *old(ctx), *final(ctx)),
            forall|i: int| 0 <= i < old(ctx).doms().len() && underlying(*self) != Some(VarId(i as usize))
                ==> #[trigger] final(ctx).doms()[i] == old(ctx).doms()[i],
            set_max_post(*self, m as int, *old(ctx), *final(ctx), ok),
        decreases self,
    {
        let m = clamp(m);
        proof {
            old(ctx).lemma_wf();
            Self::lemma_cut_at(*self, old(ctx).doms());
        }
        match self {
            Term::Cst(c) => {
                assert(in_i32(*c as int));
                m >= *c as i128
            },
            Term::Var(x) => {
                let ok = ctx.set_max_wide(*x, m);
                proof {
                    let xi = x.0 as int;
                    assert(in_i32(old(ctx).doms()[xi].max as int));
                    if ok {
                        if m >= old(ctx).doms()[xi].max {
                            assert(ctx.doms() =~= old(ctx).doms());
                        } else {
                            assert(ctx.doms()[xi] != old(ctx).doms()[xi]);
                        }
                        assert forall|a: Seq<int>| contains(ctx.doms(), a) <==> contains(old(ctx).doms(), a) && val(*self, a) <= m by {
                            if contains(old(ctx).doms(), a) && val(*self, a) <= m {
                                assert forall|i: int| 0 <= i < ctx.doms().len() implies ctx.doms()[i].min <= #[trigger] a[i] <= ctx.doms()[i].max by {
                                    assert(old(ctx).doms()[i].min <= a[i] <= old(ctx).doms()[i].max);
                                }
                            }
                            if contains(ctx.doms(), a) {
                                assert forall|i: int| 0 <= i < old(ctx).doms().len() implies old(ctx).doms()[i].min <= #[trigger] a[i] <= old(ctx).doms()[i].max by {
                                    assert(ctx.doms()[i].min <= a[i] <= ctx.doms()[i].max);
                                }
                                assert(a[x.0 as int] <= ctx.doms()[x.0 as int].max);
                            }
                        }
                    }
                }
                ok
            },
            Term::Opposite(w) => w.try_set_min(-m, ctx),
            Term::Plus(w, k) => w.try_set_max(m - *k as i128, ctx),
            Term::TimesPos(w, s) => {
                let q = floor_div(m, *s);
                let ok = w.try_set_max(q, ctx);
                proof {
                    assert forall|x: int| #![trigger x * (*s as int)] x <= q <==> x * (*s as int) <= m by {
                        lemma_floor_div_cut(q as int, m as int, *s as int, x);
                    }
                    lemma_floor_div_cut(q as int, m as int, *s as int, hi(**w, old(ctx).doms()));
                }
                ok
            },
        }
    }

    /// Values of a fitting view stay within `i32` for every assignment inside
    /// the domains, so a clamped bound cuts them where the requested one does.
    proof fn lemma_cut_at(v: Term, d: Seq<Var>)
        requires
            fits(v, d),
            wf_doms(d),
        ensures
            lo(v, d) <= hi(v, d),
            forall|a: Seq<int>| contains(d, a) ==> in_i32(#[trigger] val(v, a)),
    {
        lemma_lo_le_hi(v, d);
        assert forall|a: Seq<int>| contains(d, a) implies in_i32(#[trigger] val(v, a)) by {
            lemma_val_in_bounds(v, d, a);
        }
    }
}

/// Anything that reads as a view: constants, variables and views themselves.
pub trait ViewExt: Sized {
    /// The view this value stands for.
    spec fn to_term(&self) -> Term;

    /// Turn the value into its view.
    fn into_term(self) -> (r: Term)
        ensures
            r == self.to_term(),
    ;

    /// Invert the sign of the view.
    fn opposite(self) -> (r: Term)
        ensures
            r == Term::Opposite(Box::new(self.to_term())),
    {
        Term::Opposite(Box::new(self.into_term()))
    }

    /// Add a constant offset to the view.
    fn plus(self, offset: i32) -> (r: Term)
        ensures
            r == Term::Plus(Box::new(self.to_term()), offset),
    {
        Term::Plus(Box::new(self.into_term()), offset)
    }

    /// Scale the view by a constant factor: by its opposite for a negative
    /// factor, to the constant zero for zero.
    fn times(self, scale: i32) -> (r: Term)
        requires
            scale > i32::MIN,
        ensures
            r == times_spec(self.to_term(), scale),
    {
        if scale < 0 {
            self.times_neg(scale)
        } else if scale == 0 {
            Term::Cst(0)
        } else {
            self.times_pos(scale)
        }
    }

    /// Scale the view by a strictly positive factor.
    fn times_pos(self, scale_pos: i32) -> (r: Term)
        requires
            scale_pos > 0,
        ensures
            r == Term::TimesPos(Box::new(self.to_term()), scale_pos),
    {
        Term::TimesPos(Box::new(self.into_term()), scale_pos)
    }

    /// Scale the view by a strictly negative factor: the opposite of the view
    /// scaled by `-scale_neg`.
    fn times_neg(self, scale_neg: i32) -> (r: Term)
        requires
            i32::MIN < scale_neg < 0,
        ensures
            r == Term::TimesPos(Box::new(Term::Opposite(Box::new(self.to_term()))), -scale_neg as i32),
    {
        Term::TimesPos(Box::new(Term::Opposite(Box::new(self.into_term()))), -scale_neg)
    }
}

impl ViewExt for Term {
    open spec fn to_term(&self) -> Term {
        *self
    }

    fn into_term(self) -> (r: Term) {
        self
    }
}

impl ViewExt for VarId {
    open spec fn to_term(&self) -> Term {
        Term::Var(*self)
    }

    fn into_term(self) -> (r: Term) {
        Term::Var(self)
    }
}

impl ViewExt for VarIdBinary {
    open spec fn to_term(&self) -> Term {
        Term::Var(self.0)
    }

    fn into_term(self) -> (r: Term) {
        Term::Var(self.0)
    }
}

impl ViewExt for i32 {
    open spec fn to_term(&self) -> Term {
        Term::Cst(*self)
    }

    fn into_term(self) -> (r: Term) {
        Term::Cst(self)
    }
}

/// The opposite of the opposite of a view is the view again: same value under
/// every assignment, same bounds and the same fit under every store. Bound
/// setting is specified by these alone, so both prune alike.
pub proof fn lemma_opposite_opposite(v: Term, d: Seq<Var>, a: Seq<int>)
    ensures
        ({
            let w = Term::Opposite(Box::new(Term::Opposite(Box::new(v))));
            &&& val(w, a) == val(v, a)
            &&& bounds(w, d) == bounds(v, d)
            &&& underlying(w) == underlying(v)
            &&& (fits(w, d) <==> fits(v, d) && lo(v, d) > i32::MIN && hi(v, d) > i32::MIN)
        }),
{
    let o = Term::Opposite(Box::new(v));
    let w = Term::Opposite(Box::new(o));
    assert(bounds(o, d) == (-bounds(v, d).1, -bounds(v, d).0));
    assert(bounds(w, d) == (-bounds(o, d).1, -bounds(o, d).0));
    assert(val(o, a) == -val(v, a));
    assert(underlying(o) == underlying(v));
    assert(valid(o, d.len()) == valid(v, d.len()));
    assert(valid(w, d.len()) == valid(o, d.len()));
    assert(fits(o, d) == (valid(v, d.len()) && in_i32(lo(o, d)) && in_i32(hi(o, d)) && fits(v, d)));
    assert(fits(w, d) == (valid(o, d.len()) && in_i32(lo(w, d)) && in_i32(hi(w, d)) && fits(o, d)));
}

/// Shifting a view by `k` and then by `-k` gives the view again: same value,
/// same bounds, same variable.
pub proof fn lemma_plus_minus(v: Term, k: i32, d: Seq<Var>, a: Seq<int>)
    requires
        k > i32::MIN,
    ensures
        ({
            let w = Term::Plus(Box::new(Term::Plus(Box::new(v), k)), (-k) as i32);
            &&& val(w, a) == val(v, a)
            &&& bounds(w, d) == bounds(v, d)
            &&& underlying(w) == underlying(v)
        }),
{
    let p = Term::Plus(Box::new(v), k);
    let w = Term::Plus(Box::new(p), (-k) as i32);
    assert(bounds(p, d) == (bounds(v, d).0 + k, bounds(v, d).1 + k));
    assert(bounds(w, d) == (bounds(p, d).0 - k, bounds(p, d).1 - k));
    assert(val(p, a) == val(v, a) + k);
    assert(underlying(p) == underlying(v));
}

/// Scaling a view by `s > 0` and dividing by `s` recovers the view exactly:
/// its value and both bounds.
pub proof fn lemma_times_pos_divides(v: Term, s: i32, d: Seq<Var>, a: Seq<int>)
    requires
        s > 0,
    ensures
        ({
            let w = Term::TimesPos(Box::new(v), s);
            &&& val(w, a) / (s as int) == val(v, a)
            &&& lo(w, d) / (s as int) == lo(v, d)
            &&& hi(w, d) / (s as int) == hi(v, d)
            &&& underlying(w) == underlying(v)
        }),
{
    let w = Term::TimesPos(Box::new(v), s);
    let si = s as int;
    vstd::arithmetic::div_mod::lemma_div_multiples_vanish(val(v, a), si);
    vstd::arithmetic::div_mod::lemma_div_multiples_vanish(lo(v, d), si);
    vstd::arithmetic::div_mod::lemma_div_multiples_vanish(hi(v, d), si);
    vstd::arithmetic::mul::lemma_mul_is_commutative(val(v, a), si);
    vstd::arithmetic::mul::lemma_mul_is_commutative(lo(v, d), si);
    vstd::arithmetic::mul::lemma_mul_is_commutative(hi(v, d), si);
}

/// What setting the lower bound `m` on view `v` does to the store `o`, as
/// `Term::try_set_min` states it: success exactly when some value reaches
/// `m`; then exactly the assignments below `m` go; the events record the
/// view's variable when it changed; a failure leaves the store as it was.
pub open spec fn set_min_post(v: Term, m: int, o: Context, n: Context, ok: bool) -> bool {
    &&& n.wf()
    &&& n.doms().len() == o.doms().len()
    &&& ok == (m <= hi(v, o.doms()))
    &&& (!ok ==> n == o)
    &&& (ok ==> forall|a: Seq<int>| contains(n.doms(), a) <==> contains(o.doms(), a) && val(v, a) >= m)
    &&& n.events() == events_after(v, o, n)
}

/// What setting the upper bound `m` on view `v` does to the store `o`, as
/// `Term::try_set_max` states it.
pub open spec fn set_max_post(v: Term, m: int, o: Context, n: Context, ok: bool) -> bool {
    &&& n.wf()
    &&& n.doms().len() == o.doms().len()
    &&& ok == (m >= lo(v, o.doms()))
    &&& (!ok ==> n == o)
    &&& (ok ==> forall|a: Seq<int>| contains(n.doms(), a) <==> contains(o.doms(), a) && val(v, a) <= m)
    &&& n.events() == events_after(v, o, n)
}

/// Two stores of non-empty domains holding the same assignments are equal.
pub proof fn lemma_same_store(n1: Seq<Var>, n2: Seq<Var>)
    requires
        wf_doms(n1),
        wf_doms(n2),
        n1.len() == n2.len(),
        forall|a: Seq<int>| contains(n1, a) <==> contains(n2, a),
    ensures
        n1 == n2,
{
    crate::props::lemma_subset_narrower(n1, n2);
    crate::props::lemma_subset_narrower(n2, n1);
    assert forall|i: int| 0 <= i < n1.len() implies #[trigger] n1[i] == n2[i] by {
        assert(n2[i].min <= n1[i].min && n1[i].max <= n2[i].max);
        assert(n1[i].min <= n2[i].min && n2[i].max <= n1[i].max);
    }
    assert(n1 =~= n2);
}

/// Two bound settings on views of the same variable that succeed alike and
/// keep the same assignments leave the same domains and the same events.
pub proof fn lemma_outcome_determined(v: Term, w: Term, o: Context, n1: Context, n2: Context, ok1: bool, ok2: bool)
    requires
        n1.wf(),
        n2.wf(),
        n1.doms().len() == o.doms().len(),
        n2.doms().len() == o.doms().len(),
        underlying(v) == underlying(w),
        ok1 == ok2,
        !ok1 ==> n1 == o,
        !ok2 ==> n2 == o,
        ok1 ==> forall|a: Seq<int>| contains(n1.doms(), a) <==> contains(n2.doms(), a),
        n1.events() == events_after(v, o, n1),
        n2.events() == events_after(w, o, n2),
    ensures
        n1.doms() == n2.doms(),
        n1.events() == n2.events(),
{
    if ok1 {
        n1.lemma_wf();
        n2.lemma_wf();
        lemma_same_store(n1.doms(), n2.doms());
    }
}

/// The opposite of the opposite of a view sets bounds exactly as the view:
/// the same success, domains and events, for every bound and store.
pub proof fn lemma_opposite_opposite_sets(v: Term, m: int, o: Context, n1: Context, ok1: bool, n2: Context, ok2: bool)
    requires
        set_min_post(v, m, o, n1, ok1) && set_min_post(Term::Opposite(Box::new(Term::Opposite(Box::new(v)))), m, o, n2, ok2)
        || set_max_post(v, m, o, n1, ok1) && set_max_post(Term::Opposite(Box::new(Term::Opposite(Box::new(v)))), m, o, n2, ok2),
    ensures
        ok1 == ok2,
        n1.doms() == n2.doms(),
        n1.events() == n2.events(),
{
    let w = Term::Opposite(Box::new(Term::Opposite(Box::new(v))));
    assert forall|a: Seq<int>| #[trigger] val(w, a) == val(v, a) by {
        lemma_opposite_opposite(v, o.doms(), a);
    }
    lemma_opposite_opposite(v, o.doms(), Seq::empty());
    lemma_outcome_determined(v, w, o, n1, n2, ok1, ok2);
}

/// Shifting a view by `k` and back by `-k` sets bounds exactly as the view.
pub proof fn lemma_plus_minus_sets(v: Term, k: i32, m: int, o: Context, n1: Context, ok1: bool, n2: Context, ok2: bool)
    requires
        k > i32::MIN,
        set_min_post(v, m, o, n1, ok1) && set_min_post(Term::Plus(Box::new(Term::Plus(Box::new(v), k)), (-k) as i32), m, o, n2, ok2)
        || set_max_post(v, m, o, n1, ok1) && set_max_post(Term::Plus(Box::new(Term::Plus(Box::new(v), k)), (-k) as i32), m, o, n2, ok2),
    ensures
        ok1 == ok2,
        n1.doms() == n2.doms(),
        n1.events() == n2.events(),
{
    let w = Term::Plus(Box::new(Term::Plus(Box::new(v), k)), (-k) as i32);
    assert forall|a: Seq<int>| #[trigger] val(w, a) == val(v, a) by {
        lemma_plus_minus(v, k, o.doms(), a);
    }
    lemma_plus_minus(v, k, o.doms(), Seq::empty());
    lemma_outcome_determined(v, w, o, n1, n2, ok1, ok2);
}

/// Setting a bound `s * k` on a view scaled by `s > 0` acts exactly as
/// setting the bound `k` on the view itself: dividing by `s` recovers it.
pub proof fn lemma_times_pos_sets(v: Term, s: i32, k: int, o: Context, n1: Context, ok1: bool, n2: Context, ok2: bool)
    requires
        s > 0,
        set_min_post(Term::TimesPos(Box::new(v), s), s * k, o, n1, ok1) && set_min_post(v, k, o, n2, ok2)
        || set_max_post(Term::TimesPos(Box::new(v), s), s * k, o, n1, ok1) && set_max_post(v, k, o, n2, ok2),
    ensures
        ok1 == ok2,
        n1.doms() == n2.doms(),
        n1.events() == n2.events(),
{
    let w = Term::TimesPos(Box::new(v), s);
    let si = s as int;
    assert forall|x: int| #![trigger x * si] (x * si >= si * k <==> x >= k) && (x * si <= si * k <==> x <= k) by {
        if x >= k {
            assert(x * si >= si * k) by (nonlinear_arith) requires x >= k, si > 0;
        } else {
            assert(x * si < si * k) by (nonlinear_arith) requires x < k, si > 0;
        }
        if x <= k {
            assert(x * si <= si * k) by (nonlinear_arith) requires x <= k, si > 0;
        } else {
            assert(x * si > si * k) by (nonlinear_arith) requires x > k, si > 0;
        }
    }
    assert(hi(w, o.doms()) == hi(v, o.doms()) * si);
    assert(lo(w, o.doms()) == lo(v, o.doms()) * si);
    lemma_outcome_determined(w, v, o, n1, n2, ok1, ok2);
}

} // verus!
