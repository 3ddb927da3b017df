//! Domain store: one closed integer interval per decision variable, plus the
//! set of variables whose domain was narrowed since the events were last drained.
use vstd::prelude::*;

verus! {

/// Domain for a decision variable, tracked as the closed interval `[min, max]`.
#[derive(Clone, Copy, Debug, PartialEq, Eq, Structural)]
pub struct Var {
    pub min: i32,
    pub max: i32,
}

/// Handle of a decision variable: its position in creation order.
#[derive(Clone, Copy, Debug, PartialEq, Eq, Structural)]
pub struct VarId(pub usize);

/// Handle of a decision variable whose domain is `{0, 1}`.
#[derive(Clone, Copy, Debug, PartialEq, Eq, Structural)]
pub struct VarIdBinary(pub VarId);

/// Every domain is a non-empty interval.
pub open spec fn wf_doms(d: Seq<Var>) -> bool {
    forall|i: int| 0 <= i < d.len() ==> #[trigger] d[i].min <= d[i].max
}

/// The assignment `a` (one value per variable) lies inside every domain of `d`.
pub open spec fn contains(d: Seq<Var>, a: Seq<int>) -> bool {
    &&& a.len() == d.len()
    &&& forall|i: int| 0 <= i < d.len() ==> d[i].min <= #[trigger] a[i] <= d[i].max
}

/// No bound of `n` is wider than the same bound of `o`.
pub open spec fn narrower(n: Seq<Var>, o: Seq<Var>) -> bool {
    &&& n.len() == o.len()
    &&& forall|i: int|
        0 <= i < n.len() ==> o[i].min <= #[trigger] n[i].min && n[i].max <= o[i].max
}

/// Total width of all domains; a strictly narrowed store has a smaller size.
pub open spec fn size(d: Seq<Var>) -> int
    decreases d.len(),
{
    if d.len() == 0 {
        0
    } else {
        size(d.drop_last()) + (d.last().max - d.last().min)
    }
}

/// All domains are singletons.
pub open spec fn all_assigned(d: Seq<Var>) -> bool {
    forall|i: int| 0 <= i < d.len() ==> #[trigger] d[i].min == d[i].max
}

/// The assignment read off a fully assigned store.
pub open spec fn assignment_of(d: Seq<Var>) -> Seq<int> {
    Seq::new(d.len(), |i: int| d[i].min as int)
}

pub proof fn lemma_size_nonneg(d: Seq<Var>)
    requires
        wf_doms(d),
    ensures
        size(d) >= 0,
    decreases d.len(),
{
    if d.len() > 0 {
        lemma_size_nonneg(d.drop_last());
    }
}

/// Narrowing one domain changes the size by exactly the change of its width.
pub proof fn lemma_size_update(d: Seq<Var>, i: int, v: Var)
    requires
        0 <= i < d.len(),
    ensures
        size(d.update(i, v)) == size(d) - (d[i].max - d[i].min) + (v.max - v.min),
    decreases d.len(),
{
    let e = d.update(i, v);
    if i == d.len() - 1 {
        assert(e.drop_last() =~= d.drop_last());
    } else {
        assert(e.drop_last() =~= d.drop_last().update(i, v));
        lemma_size_update(d.drop_last(), i, v);
    }
}

/// A narrower store has no larger size.
pub proof fn lemma_size_narrower(n: Seq<Var>, o: Seq<Var>)
    requires
        narrower(n, o),
    ensures
        size(n) <= size(o),
    decreases n.len(),
{
    if n.len() > 0 {
        let (n1, o1) = (n.drop_last(), o.drop_last());
        assert forall|i: int| 0 <= i < n1.len() implies o1[i].min <= #[trigger] n1[i].min && n1[i].max <= o1[i].max by {
            assert(n1[i] == n[i] && o1[i] == o[i]);
            assert(o[i].min <= n[i].min && n[i].max <= o[i].max);
        }
        assert(narrower(n1, o1));
        lemma_size_narrower(n.drop_last(), o.drop_last());
        assert(o[n.len() - 1].min <= n[n.len() - 1].min);
    }
}

impl Var {
    /// Assigned variables have a domain reduced to a singleton.
    pub fn is_assigned(&self) -> (r: bool)
        ensures
            r == (self.min == self.max),
    {
        self.min == self.max
    }

    /// Midpoint of the domain, rounded towards `min`, computed without overflow.
    pub fn mid(&self) -> (r: i32)
        requires
            self.min <= self.max,
        ensures
            r == self.min + (self.max - self.min) / 2,
            self.min <= r <= self.max,
            self.min < self.max ==> r < self.max,
    {
        let w: i64 = self.max as i64 - self.min as i64;
        (self.min as i64 + w / 2) as i32
    }

    /// Value of an assigned variable.
    pub fn get_assignment(&self) -> (r: i32)
        requires
            self.min == self.max,
        ensures
            r == self.min,
    {
        self.min
    }
}

impl VarId {
    /// Position of the variable in creation order.
    pub fn index(&self) -> (r: usize)
        ensures
            r == self.0,
    {
        self.0
    }
}

/// Ordered sequence of domains, indexed by [`VarId`].
#[derive(Debug)]
pub struct Vars(pub Vec<Var>);

impl View for Vars {
    type V = Seq<Var>;

    open spec fn view(&self) -> Seq<Var> {
        self.0@
    }
}

impl Vars {
    pub fn new() -> (r: Vars)
        ensures
            r@ == Seq::<Var>::empty(),
    {
        Vars(Vec::new())
    }

    pub fn len(&self) -> (r: usize)
        ensures
            r == self@.len(),
    {
        self.0.len()
    }

    pub fn get(&self, v: VarId) -> (r: Var)
        requires
            v.0 < self@.len(),
        ensures
            r == self@[v.0 as int],
    {
        self.0[v.0]
    }

    /// Create a new decision variable with domain `[min, max]`.
    pub fn new_var_with_bounds(&mut self, min: i32, max: i32) -> (v: VarId)
        ensures
            v.0 == old(self)@.len(),
            final(self)@ == old(self)@.push(Var { min, max }),
    {
        let v = VarId(self.0.len());
        self.0.push(Var { min, max });
        v
    }

    /// Handle of the first variable, in creation order, that is not assigned.
    pub fn get_unassigned_var(&self) -> (r: Option<VarId>)
        ensures
            match r {
                Some(v) => {
                    &&& v.0 < self@.len()
                    &&& self@[v.0 as int].min != self@[v.0 as int].max
                    &&& forall|j: int| 0 <= j < v.0 ==> #[trigger] self@[j].min == self@[j].max
                },
                None => all_assigned(self@),
            },
    {
        let mut i: usize = 0;
        while i < self.0.len()
            invariant
                i <= self@.len(),
                forall|j: int| 0 <= j < i ==> #[trigger] self@[j].min == self@[j].max,
            decreases self@.len() - i,
        {
            if !self.0[i].is_assigned() {
                return Some(VarId(i));
            }
            i = i + 1;
        }
        None
    }

    /// Determine if all decision variables are assigned.
    pub fn is_assigned_all(&self) -> (r: bool)
        ensures
            r == all_assigned(self@),
    {
        self.get_unassigned_var().is_none()
    }

    /// The solution read off a fully assigned store.
    pub fn into_solution(&self) -> (r: crate::solution::Solution)
        requires
            all_assigned(self@),
        ensures
            r.values() == assignment_of(self@),
    {
        let vals = self.into_values();
        let r = crate::solution::Solution::new(vals);
        assert(r.values() =~= assignment_of(self@));
        r
    }

    /// Values of a fully assigned store, in variable order.
    pub fn into_values(&self) -> (r: Vec<i32>)
        requires
            all_assigned(self@),
        ensures
            r@.len() == self@.len(),
            forall|i: int| 0 <= i < r@.len() ==> #[trigger] r@[i] == self@[i].min,
    {
        let mut out: Vec<i32> = Vec::new();
        let mut i: usize = 0;
        while i < self.0.len()
            invariant
                i <= self@.len(),
                out@.len() == i,
                all_assigned(self@),
                forall|j: int| 0 <= j < i ==> #[trigger] out@[j] == self@[j].min,
            decreases self@.len() - i,
        {
            out.push(self.0[i].get_assignment());
            i = i + 1;
        }
        out
    }

    /// A copy of the store, domain for domain.
    pub fn duplicate(&self) -> (r: Vars)
        ensures
            r@ == self@,
    {
        let mut out: Vec<Var> = Vec::new();
        let mut i: usize = 0;
        while i < self.0.len()
            invariant
                i <= self@.len(),
                out@ == self@.subrange(0, i as int),
            decreases self@.len() - i,
        {
            out.push(self.0[i]);
            i = i + 1;
        }
        assert(out@ =~= self@);
        Vars(out)
    }
}

/// The events after a step that changed variable `x` (when `changed`): `x`
/// is appended unless it is already recorded.
pub open spec fn recorded(evs: Seq<usize>, x: usize, changed: bool) -> Seq<usize> {
    if changed && !evs.contains(x) {
        evs.push(x)
    } else {
        evs
    }
}

/// Domain store of a search space, together with its change events: the
/// variables narrowed since the last drain, each recorded once.
#[derive(Debug)]
pub struct Context {
    vars: Vars,
    events: Vec<usize>,
    marked: Vec<bool>,
}

impl Context {
    /// Current domains.
    pub closed spec fn doms(&self) -> Seq<Var> {
        self.vars@
    }

    /// Recorded change events, in recording order.
    pub closed spec fn events(&self) -> Seq<usize> {
        self.events@
    }

    /// Domains are non-empty; events are distinct variables of the store.
    pub closed spec fn wf(&self) -> bool {
        &&& wf_doms(self.vars@)
        &&& self.marked@.len() == self.vars@.len()
        &&& self.events@.no_duplicates()
        &&& forall|k: int| 0 <= k < self.events@.len() ==> #[trigger] self.events@[k] < self.vars@.len()
        &&& forall|i: int| 0 <= i < self.marked@.len() ==> (#[trigger] self.marked@[i] <==> exists|k: int| 0 <= k < self.events@.len() && self.events@[k] == i)
    }

    /// A well-formed store has non-empty domains, and records each changed
    /// variable once.
    pub proof fn lemma_wf(&self)
        requires
            self.wf(),
        ensures
            wf_doms(self.doms()),
            self.events().no_duplicates(),
            forall|k: int| 0 <= k < self.events().len() ==> #[trigger] self.events()[k] < self.doms().len(),
    {
    }

    /// A store over the given domains, with no events recorded.
    pub fn new(vars: Vars) -> (r: Context)
        requires
            wf_doms(vars@),
        ensures
            r.wf(),
            r.doms() == vars@,
            r.events().len() == 0,
    {
        let mut marked: Vec<bool> = Vec::new();
        let mut i: usize = 0;
        while i < vars.0.len()
            invariant
                i <= vars@.len(),
                marked@.len() == i,
                forall|j: int| 0 <= j < i ==> !#[trigger] marked@[j],
            decreases vars@.len() - i,
        {
            marked.push(false);
            i = i + 1;
        }
        Context { vars, events: Vec::new(), marked }
    }

    /// A fresh store over the same domains, with no events recorded.
    pub fn duplicate(&self) -> (r: Context)
        requires
            self.wf(),
        ensures
            r.wf(),
            r.doms() == self.doms(),
            r.events().len() == 0,
    {
        Context::new(self.vars.duplicate())
    }

    /// Append a variable with domain `[min, max]`.
    pub fn push_var(&mut self, min: i32, max: i32) -> (v: VarId)
        requires
            old(self).wf(),
            min <= max,
        ensures
            final(self).wf(),
            v.0 == old(self).doms().len(),
            final(self).doms() == old(self).doms().push(Var { min, max }),
            final(self).events() == old(self).events(),
    {
        let v = self.vars.new_var_with_bounds(min, max);
        self.marked.push(false);
        proof {
            assert(self.marked@ == old(self).marked@.push(false));
            assert(self.events@ == old(self).events@);
            assert forall|i: int| 0 <= i < self.vars@.len() implies #[trigger] self.vars@[i].min <= self.vars@[i].max by {
                if i < old(self).vars@.len() {
                    assert(self.vars@[i] == old(self).vars@[i]);
                }
            }
            assert forall|i: int| 0 <= i < self.marked@.len() implies (#[trigger] self.marked@[i] <==> exists|k: int| 0 <= k < self.events@.len() && self.events@[k] == i) by {
                if i < old(self).marked@.len() {
                    assert(self.marked@[i] == old(self).marked@[i]);
                    assert(old(self).marked@[i] <==> exists|k: int| 0 <= k < old(self).events@.len() && old(self).events@[k] == i);
                } else {
                    assert(!self.marked@[i]);
                    assert forall|k: int| 0 <= k < self.events@.len() implies self.events@[k] != i by {
                        assert(self.events@[k] < old(self).vars@.len());
                    }
                }
            }
        }
        v
    }

    /// Domains, without the events.
    pub fn vars(&self) -> (r: &Vars)
        ensures
            r@ == self.doms(),
    {
        &self.vars
    }

    /// Number of variables.
    pub fn len(&self) -> (r: usize)
        ensures
            r == self.doms().len(),
    {
        self.vars.0.len()
    }

    /// Lower bound of a variable.
    pub fn min(&self, v: VarId) -> (r: i32)
        requires
            v.0 < self.doms().len(),
        ensures
            r == self.doms()[v.0 as int].min,
    {
        self.vars.0[v.0].min
    }

    /// Upper bound of a variable.
    pub fn max(&self, v: VarId) -> (r: i32)
        requires
            v.0 < self.doms().len(),
        ensures
            r == self.doms()[v.0 as int].max,
    {
        self.vars.0[v.0].max
    }

    fn record(&mut self, i: usize)
        requires
            old(self).wf(),
            i < old(self).doms().len(),
        ensures
            final(self).wf(),
            final(self).doms() == old(self).doms(),
            final(self).events().contains(i),
            old(self).events().contains(i) ==> final(self).events() == old(self).events(),
            !old(self).events().contains(i) ==> final(self).events() == old(self).events().push(i),
    {
        if !self.marked[i] {
            let ghost oe = self.events@;
            assert(!oe.contains(i));
            self.events.push(i);
            self.marked.set(i, true);
            let ghost ne = self.events@;
            assert(ne == oe.push(i));
            assert(ne[oe.len() as int] == i);
            assert forall|j: int| 0 <= j < self.marked@.len() implies (#[trigger] self.marked@[j] <==> exists|k: int| 0 <= k < ne.len() && ne[k] == j) by {
                if j == i as int {
                    assert(ne[oe.len() as int] == j);
                } else {
                    assert(old(self).marked@[j] <==> exists|k: int| 0 <= k < oe.len() && oe[k] == j);
                    if exists|k: int| 0 <= k < ne.len() && ne[k] == j {
                        let k = choose|k: int| 0 <= k < ne.len() && ne[k] == j;
                        assert(k != oe.len() as int);
                        assert(oe[k] == j);
                    }
                    if exists|k: int| 0 <= k < oe.len() && oe[k] == j {
                        let k = choose|k: int| 0 <= k < oe.len() && oe[k] == j;
                        assert(ne[k] == j);
                    }
                }
            }
            assert(ne.no_duplicates()) by {
                assert forall|a: int, b: int| 0 <= a < ne.len() && 0 <= b < ne.len() && a != b implies ne[a] != ne[b] by {
                    if a == oe.len() as int {
                        assert(oe[b] == ne[b]);
                    } else if b == oe.len() as int {
                        assert(oe[a] == ne[a]);
                    } else {
                        assert(oe[a] == ne[a] && oe[b] == ne[b]);
                    }
                }
            }
        } else {
            proof {
                assert(self.marked@[i as int]);
                let k = choose|k: int| 0 <= k < self.events@.len() && self.events@[k] == i as int;
                assert(self.events@[k] == i);
            }
        }
    }

    /// Raise the lower bound of `v` to `m` when `m` is larger, recording the change.
    /// Fails, leaving the store as it is, when `m` exceeds the upper bound.
    pub fn set_min_wide(&mut self, v: VarId, m: i128) -> (ok: bool)
        requires
            old(self).wf(),
            v.0 < old(self).doms().len(),
        ensures
            final(self).wf(),
            ok == (m <= old(self).doms()[v.0 as int].max),
            !ok ==> *final(self) == *old(self),
            ok ==> final(self).doms() == old(self).doms().update(
                v.0 as int,
                Var {
                    min: if m > old(self).doms()[v.0 as int].min { m as i32 } else { old(self).doms()[v.0 as int].min },
                    max: old(self).doms()[v.0 as int].max,
                },
            ),
            Self::event_step(*old(self), *final(self)),
            ok && m > old(self).doms()[v.0 as int].min ==> final(self).events().contains(v.0),
            final(self).events() == recorded(old(self).events(), v.0, ok && m > old(self).doms()[v.0 as int].min),
    {
        let d = self.vars.0[v.0];
        if m > d.max as i128 {
            return false;
        }
        if m > d.min as i128 {
            self.vars.0.set(v.0, Var { min: m as i32, max: d.max });
            assert(self.vars@ == old(self).vars@.update(v.0 as int, Var { min: m as i32, max: d.max }));
            assert(wf_doms(self.vars@)) by {
                assert forall|i: int| 0 <= i < self.vars@.len() implies #[trigger] self.vars@[i].min <= self.vars@[i].max by {
                    if i != v.0 as int {
                        assert(self.vars@[i] == old(self).vars@[i]);
                    }
                }
            }
            self.record(v.0);
            proof {
                lemma_size_update(old(self).doms(), v.0 as int, Var { min: m as i32, max: d.max });
                assert forall|e: usize| #[trigger] old(self).events().contains(e) implies self.events().contains(e) by {
                    if !old(self).events().contains(v.0) {
                        let k = choose|k: int| 0 <= k < old(self).events().len() && old(self).events()[k] == e;
                        assert(self.events()[k] == e);
                    }
                }
                assert forall|i: int| 0 <= i < self.doms().len() && #[trigger] self.doms()[i] != old(self).doms()[i]
                    implies self.events().contains(i as usize) by {
                    assert(i == v.0 as int);
                }
            }
        } else {
            assert(self.doms() =~= old(self).doms().update(v.0 as int, d));
        }
        true
    }

    /// Lower the upper bound of `v` to `m` when `m` is smaller, recording the change.
    /// Fails, leaving the store as it is, when `m` is below the lower bound.
    pub fn set_max_wide(&mut self, v: VarId, m: i128) -> (ok: bool)
        requires
            old(self).wf(),
            v.0 < old(self).doms().len(),
        ensures
            final(self).wf(),
            ok == (m >= old(self).doms()[v.0 as int].min),
            !ok ==> *final(self) == *old(self),
            ok ==> final(self).doms() == old(self).doms().update(
                v.0 as int,
                Var {
                    min: old(self).doms()[v.0 as int].min,
                    max: if m < old(self).doms()[v.0 as int].max { m as i32 } else { old(self).doms()[v.0 as int].max },
                },
            ),
            Self::event_step(*old(self), *final(self)),
            ok && m < old(self).doms()[v.0 as int].max ==> final(self).events().contains(v.0),
            final(self).events() == recorded(old(self).events(), v.0, ok && m < old(self).doms()[v.0 as int].max),
    {
        let d = self.vars.0[v.0];
        if m < d.min as i128 {
            return false;
        }
        if m < d.max as i128 {
            self.vars.0.set(v.0, Var { min: d.min, max: m as i32 });
            assert(self.vars@ == old(self).vars@.update(v.0 as int, Var { min: d.min, max: m as i32 }));
            assert(wf_doms(self.vars@)) by {
                assert forall|i: int| 0 <= i < self.vars@.len() implies #[trigger] self.vars@[i].min <= self.vars@[i].max by {
                    if i != v.0 as int {
                        assert(self.vars@[i] == old(self).vars@[i]);
                    }
                }
            }
            self.record(v.0);
            proof {
                lemma_size_update(old(self).doms(), v.0 as int, Var { min: d.min, max: m as i32 });
                assert forall|e: usize| #[trigger] old(self).events().contains(e) implies self.events().contains(e) by {
                    if !old(self).events().contains(v.0) {
                        let k = choose|k: int| 0 <= k < old(self).events().len() && old(self).events()[k] == e;
                        assert(self.events()[k] == e);
                    }
                }
                assert forall|i: int| 0 <= i < self.doms().len() && #[trigger] self.doms()[i] != old(self).doms()[i]
                    implies self.events().contains(i as usize) by {
                    assert(i == v.0 as int);
                }
            }
        } else {
            assert(self.doms() =~= old(self).doms().update(v.0 as int, d));
        }
        true
    }

    /// How one bound-setting step relates the store before and after it:
    /// domains only narrow; a change shrinks the size and records each changed
    /// variable as an event; events already recorded stay recorded.
    pub open spec fn event_step(o: Context, n: Context) -> bool {
        &&& narrower(n.doms(), o.doms())
        &&& (n.doms() == o.doms() || size(n.doms()) < size(o.doms()))
        &&& (n.doms() == o.doms() ==> n.events() == o.events())
        &&& (n.doms() != o.doms() ==> n.events().len() > 0)
        &&& (o.events().len() > 0 ==> n.events().len() > 0)
        &&& forall|e: usize| #[trigger] o.events().contains(e) ==> n.events().contains(e)
        &&& forall|i: int| 0 <= i < n.doms().len() && #[trigger] n.doms()[i] != o.doms()[i]
            ==> n.events().contains(i as usize)
    }

    /// Try to set `min` as domain minimum of `v`, failing on infeasibility.
    /// On success returns the new minimum.
    pub fn try_set_min(&mut self, v: VarId, min: i32) -> (r: Option<i32>)
        requires
            old(self).wf(),
            v.0 < old(self).doms().len(),
        ensures
            final(self).wf(),
            r.is_none() <==> min > old(self).doms()[v.0 as int].max,
            r.is_none() ==> *final(self) == *old(self),
            r.is_some() ==> {
                let o = old(self).doms()[v.0 as int];
                let nmin = if min > o.min { min } else { o.min };
                &&& r == Some(nmin)
                &&& final(self).doms() == old(self).doms().update(v.0 as int, Var { min: nmin, max: o.max })
                &&& final(self).events() == recorded(old(self).events(), v.0, min > o.min)
            },
    {
        if self.set_min_wide(v, min as i128) {
            proof {
                if min > old(self).doms()[v.0 as int].min {
                    assert(self.doms()[v.0 as int].min == min);
                }
            }
            Some(self.vars.0[v.0].min)
        } else {
            None
        }
    }

    /// Try to set `max` as domain maximum of `v`, failing on infeasibility.
    /// On success returns the new maximum.
    pub fn try_set_max(&mut self, v: VarId, max: i32) -> (r: Option<i32>)
        requires
            old(self).wf(),
            v.0 < old(self).doms().len(),
        ensures
            final(self).wf(),
            r.is_none() <==> max < old(self).doms()[v.0 as int].min,
            r.is_none() ==> *final(self) == *old(self),
            r.is_some() ==> {
                let o = old(self).doms()[v.0 as int];
                let nmax = if max < o.max { max } else { o.max };
                &&& r == Some(nmax)
                &&& final(self).doms() == old(self).doms().update(v.0 as int, Var { min: o.min, max: nmax })
                &&& final(self).events() == recorded(old(self).events(), v.0, max < o.max)
            },
    {
        if self.set_max_wide(v, max as i128) {
            Some(self.vars.0[v.0].max)
        } else {
            None
        }
    }

    /// Set `v` to the single value `k`: `try_set_min` then `try_set_max`.
    pub fn try_set(&mut self, v: VarId, k: i32) -> (r: Option<i32>)
        requires
            old(self).wf(),
            v.0 < old(self).doms().len(),
        ensures
            final(self).wf(),
            r.is_some() <==> old(self).doms()[v.0 as int].min <= k <= old(self).doms()[v.0 as int].max,
            r.is_some() ==> r == Some(k) && final(self).doms() == old(self).doms().update(v.0 as int, Var { min: k, max: k }),
    {
        let _ = self.try_set_min(v, k)?;
        self.try_set_max(v, k)
    }

    /// Hand out every recorded event once, and clear them.
    pub fn drain_events(&mut self) -> (r: Vec<VarId>)
        requires
            old(self).wf(),
        ensures
            final(self).wf(),
            final(self).doms() == old(self).doms(),
            final(self).events().len() == 0,
            r@.len() == old(self).events().len(),
            forall|k: int| 0 <= k < r@.len() ==> (#[trigger] r@[k]).0 == old(self).events()[k],
            forall|k: int| 0 <= k < r@.len() ==> (#[trigger] r@[k]).0 < old(self).doms().len(),
    {
        let mut out: Vec<VarId> = Vec::new();
        let mut k: usize = 0;
        let ghost ev = self.events@;
        while k < self.events.len()
            invariant
                wf_doms(self.vars@),
                self.vars@ == old(self).vars@,
                self.events@ == ev,
                ev == old(self).events(),
                ev.no_duplicates(),
                self.marked@.len() == self.vars@.len(),
                forall|j: int| 0 <= j < ev.len() ==> #[trigger] ev[j] < self.vars@.len(),
                k <= ev.len(),
                out@.len() == k,
                forall|j: int| 0 <= j < k ==> (#[trigger] out@[j]).0 == ev[j],
                forall|j: int| 0 <= j < k ==> (#[trigger] out@[j]).0 < self.vars@.len(),
                forall|i: int| 0 <= i < self.marked@.len() ==> (#[trigger] self.marked@[i] <==> exists|j: int| k <= j < ev.len() && ev[j] == i),
            decreases ev.len() - k,
        {
            let i = self.events[k];
            out.push(VarId(i));
            let ghost pm = self.marked@;
            self.marked.set(i, false);
            assert forall|x: int| 0 <= x < self.marked@.len() implies (#[trigger] self.marked@[x] <==> exists|j: int| k + 1 <= j < ev.len() && ev[j] == x) by {
                if x == i as int {
                    if exists|j: int| k + 1 <= j < ev.len() && ev[j] == x {
                        let j = choose|j: int| k + 1 <= j < ev.len() && ev[j] == x;
                        assert(ev[j] == ev[k as int]);
                    }
                } else {
                    assert(pm[x] <==> exists|j: int| k <= j < ev.len() && ev[j] == x);
                    if exists|j: int| k <= j < ev.len() && ev[j] == x {
                        let j = choose|j: int| k <= j < ev.len() && ev[j] == x;
                        assert(j != k);
                    }
                }
            }
            k = k + 1;
        }
        self.events = Vec::new();
        assert forall|i: int| 0 <= i < self.marked@.len() implies (#[trigger] self.marked@[i] <==> exists|k: int| 0 <= k < self.events@.len() && self.events@[k] == i) by {
            assert(!self.marked@[i]);
        }
        out
    }
}

} // verus!
