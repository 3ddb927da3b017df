//! Search: the agenda of scheduled propagators, the propagation fixed-point
//! loop, and the depth-first branch-and-prune driver.
use std::collections::VecDeque;

use vstd::prelude::*;

use crate::props::{
    all_fit, at_fixpoint, common_fixpoint_below, fix_below, lemma_contains_narrower, lemma_prop_fits_narrower,
    prop_fits, prunes, sat_all, trigger_vars, Prop, PropId, Propagators,
};
use crate::solution::Solution;
use crate::vars::{all_assigned, assignment_of, contains, narrower, size, Context, Var, VarId};
use crate::views::{fits, lemma_fits_narrower, val, Term};

verus! {

/// Propagators scheduled to run: a FIFO queue, and for each propagator a flag
/// saying whether it is in the queue. Each scheduled propagator is queued once.
#[derive(Debug)]
pub struct Agenda {
    q: VecDeque<PropId>,
    h: Vec<bool>,
}

impl Agenda {
    /// Queued propagators, front first.
    pub closed spec fn queue(&self) -> Seq<PropId> {
        self.q@
    }

    /// Queue entries are distinct propagators among `n`, and flagged exactly.
    pub closed spec fn wf(&self, n: nat) -> bool {
        &&& self.h@.len() == n
        &&& self.capacity() == n
        &&& self.q@.no_duplicates()
        &&& forall|k: int| 0 <= k < self.q@.len() ==> (#[trigger] self.q@[k]).0 < n
        &&& forall|i: int| 0 <= i < n ==> (#[trigger] self.h@[i] <==> exists|k: int| 0 <= k < self.q@.len() && self.q@[k].0 == i)
    }

    /// A well-formed agenda queues each propagator at most once.
    pub proof fn lemma_wf(&self, n: nat)
        requires
            self.wf(n),
        ensures
            self.queue().no_duplicates(),
            forall|k: int| 0 <= k < self.queue().len() ==> (#[trigger] self.queue()[k]).0 < n,
    {
    }

    /// An empty agenda for `n` propagators.
    pub fn new(n: usize) -> (r: Agenda)
        ensures
            r.wf(n as nat),
            r.queue().len() == 0,
    {
        let mut h: Vec<bool> = Vec::new();
        let mut i: usize = 0;
        while i < n
            invariant
                i <= n,
                h@.len() == i,
                forall|j: int| 0 <= j < i ==> !#[trigger] h@[j],
            decreases n - i,
        {
            h.push(false);
            i = i + 1;
        }
        Agenda { q: VecDeque::new(), h }
    }

    /// An agenda with all `n` propagators scheduled, in registration order.
    pub fn with_props(n: usize) -> (r: Agenda)
        ensures
            r.wf(n as nat),
            r.queue().len() == n,
            forall|p: PropId| p.0 < n ==> #[trigger] r.queue().contains(p),
    {
        let mut a = Agenda::new(n);
        let mut i: usize = 0;
        while i < n
            invariant
                i <= n,
                a.wf(n as nat),
                a.queue().len() == i,
                forall|k: int| 0 <= k < i ==> (#[trigger] a.queue()[k]).0 == k,
            decreases n - i,
        {
            proof {
                if a.queue().contains(PropId(i)) {
                    let k = choose|k: int| 0 <= k < a.queue().len() && a.queue()[k] == PropId(i);
                    assert(a.queue()[k].0 == k);
                }
            }
            a.schedule(PropId(i));
            assert(a.queue()[i as int] == PropId(i));
            i = i + 1;
        }
        assert forall|p: PropId| p.0 < n implies #[trigger] a.queue().contains(p) by {
            assert(a.queue()[p.0 as int].0 == p.0);
            assert(a.queue()[p.0 as int] == p);
        }
        a
    }

    /// Number of propagators the agenda can hold.
    pub closed spec fn capacity(&self) -> nat {
        self.h@.len()
    }

    /// Number of scheduled propagators.
    pub fn len(&self) -> (r: usize)
        ensures
            r == self.queue().len(),
    {
        self.q.len()
    }

    /// Schedule `p` unless it is already scheduled.
    pub fn schedule(&mut self, p: PropId)
        requires
            old(self).wf(old(self).capacity()),
            p.0 < old(self).capacity(),
        ensures
            final(self).wf(old(self).capacity()),
            final(self).capacity() == old(self).capacity(),
            old(self).queue().contains(p) ==> final(self).queue() == old(self).queue(),
            !old(self).queue().contains(p) ==> final(self).queue() == old(self).queue().push(p),
            final(self).queue().contains(p),
            forall|q: PropId| old(self).queue().contains(q) ==> final(self).queue().contains(q),
    {
        let ghost n = self.capacity();
        if !self.h[p.0] {
            let ghost oq = self.q@;
            proof {
                if oq.contains(p) {
                    let k = choose|k: int| 0 <= k < oq.len() && oq[k] == p;
                    assert(oq[k].0 == p.0);
                }
            }
            self.q.push_back(p);
            self.h.set(p.0, true);
            let ghost nq = self.q@;
            assert(nq[oq.len() as int] == p);
            assert forall|i: int| 0 <= i < n implies (#[trigger] self.h@[i] <==> exists|k: int| 0 <= k < nq.len() && nq[k].0 == i) by {
                if i == p.0 as int {
                    assert(nq[oq.len() as int].0 == i);
                } else {
                    assert(old(self).h@[i] <==> exists|k: int| 0 <= k < oq.len() && oq[k].0 == i);
                    if exists|k: int| 0 <= k < nq.len() && nq[k].0 == i {
                        let k = choose|k: int| 0 <= k < nq.len() && nq[k].0 == i;
                        assert(k != oq.len() as int);
                        assert(oq[k].0 == i);
                    }
                    if exists|k: int| 0 <= k < oq.len() && oq[k].0 == i {
                        let k = choose|k: int| 0 <= k < oq.len() && oq[k].0 == i;
                        assert(nq[k].0 == i);
                    }
                }
            }
            assert(nq.no_duplicates()) by {
                assert forall|a: int, b: int| 0 <= a < nq.len() && 0 <= b < nq.len() && a != b implies nq[a] != nq[b] by {
                    if a == oq.len() as int {
                        assert(oq[b] == nq[b]);
                    } else if b == oq.len() as int {
                        assert(oq[a] == nq[a]);
                    } else {
                        assert(oq[a] == nq[a] && oq[b] == nq[b]);
                    }
                }
            }
            assert forall|k: int| 0 <= k < nq.len() implies (#[trigger] nq[k]).0 < n by {
                if k < oq.len() {
                    assert(nq[k] == oq[k]);
                }
            }
            assert forall|q: PropId| oq.contains(q) implies nq.contains(q) by {
                let k = choose|k: int| 0 <= k < oq.len() && oq[k] == q;
                assert(nq[k] == q);
            }
        } else {
            proof {
                let k = choose|k: int| 0 <= k < self.q@.len() && self.q@[k].0 == p.0;
                assert(self.q@[k] == p);
            }
        }
    }

    /// Take the propagator at the front of the queue.
    pub fn pop(&mut self) -> (r: Option<PropId>)
        requires
            old(self).wf(old(self).capacity()),
        ensures
            final(self).wf(old(self).capacity()),
            final(self).capacity() == old(self).capacity(),
            old(self).queue().len() == 0 <==> r.is_none(),
            r.is_none() ==> final(self).queue() == old(self).queue(),
            r.is_some() ==> r == Some(old(self).queue()[0]) && r.unwrap().0 < old(self).capacity()
                && final(self).queue() == old(self).queue().drop_first(),
    {
        let ghost n = self.capacity();
        let ghost oq = self.q@;
        match self.q.pop_front() {
            None => None,
            Some(p) => {
                self.h.set(p.0, false);
                let ghost nq = self.q@;
                assert(nq =~= oq.drop_first());
                assert forall|i: int| 0 <= i < n implies (#[trigger] self.h@[i] <==> exists|k: int| 0 <= k < nq.len() && nq[k].0 == i) by {
                    if i == p.0 as int {
                        if exists|k: int| 0 <= k < nq.len() && nq[k].0 == i {
                            let k = choose|k: int| 0 <= k < nq.len() && nq[k].0 == i;
                            assert(oq[k + 1] == oq[0]);
                        }
                    } else {
                        assert(old(self).h@[i] <==> exists|k: int| 0 <= k < oq.len() && oq[k].0 == i);
                        if exists|k: int| 0 <= k < oq.len() && oq[k].0 == i {
                            let k = choose|k: int| 0 <= k < oq.len() && oq[k].0 == i;
                            assert(k != 0);
                            assert(nq[k - 1].0 == i);
                        }
                        if exists|k: int| 0 <= k < nq.len() && nq[k].0 == i {
                            let k = choose|k: int| 0 <= k < nq.len() && nq[k].0 == i;
                            assert(oq[k + 1].0 == i);
                        }
                    }
                }
                assert forall|k: int| 0 <= k < nq.len() implies (#[trigger] nq[k]).0 < n by {
                    assert(nq[k] == oq[k + 1]);
                }
                assert(nq.no_duplicates()) by {
                    assert forall|a: int, b: int| 0 <= a < nq.len() && 0 <= b < nq.len() && a != b implies nq[a] != nq[b] by {
                        assert(nq[a] == oq[a + 1] && nq[b] == oq[b + 1]);
                    }
                }
                Some(p)
            },
        }
    }
}

/// A changed variable recorded in `evs` wakes the propagator `p`.
pub open spec fn wakes(ps: Seq<Prop>, p: int, evs: Seq<usize>) -> bool {
    exists|k: int| 0 <= k < evs.len() && trigger_vars(ps[p]).contains(VarId(evs[k]))
}

/// Every propagator is scheduled, at its fixed point, or woken by a recorded event.
pub open spec fn pending_ok(ps: Seq<Prop>, d: Seq<Var>, q: Seq<PropId>, evs: Seq<usize>) -> bool {
    forall|p: int| 0 <= p < ps.len() ==> q.contains(PropId(p as usize)) || at_fixpoint(#[trigger] ps[p], d) || wakes(ps, p, evs)
}

/// After a propagator ran, every propagator is still scheduled or at its fixed
/// point: the one that ran reached its fixed point unless it changed one of
/// its variables, and a changed variable wakes every propagator it concerns.
proof fn lemma_pending_step(
    ps: Seq<Prop>,
    root: Seq<Var>,
    cur: Seq<Var>,
    nx: Seq<Var>,
    evs: Seq<usize>,
    qb: Seq<PropId>,
    qf: Seq<PropId>,
    p: int,
)
    requires
        all_fit(ps, root),
        cur.len() == root.len(),
        nx.len() == root.len(),
        ps.len() <= usize::MAX,
        0 <= p < ps.len(),
        qb.len() > 0,
        qb[0] == PropId(p as usize),
        forall|q: int| 0 <= q < ps.len() ==> qb.contains(PropId(q as usize)) || at_fixpoint(#[trigger] ps[q], cur),
        forall|x: PropId| qb.drop_first().contains(x) ==> qf.contains(x),
        forall|q: int| 0 <= q < ps.len() && wakes(ps, q, evs) ==> qf.contains(PropId(q as usize)),
        nx == cur ==> at_fixpoint(ps[p], cur),
        forall|i: int| 0 <= i < cur.len() && !trigger_vars(ps[p]).contains(VarId(i as usize)) ==> #[trigger] nx[i] == cur[i],
        forall|i: int| 0 <= i < nx.len() && #[trigger] nx[i] != cur[i] ==> evs.contains(i as usize),
    ensures
        forall|q: int| 0 <= q < ps.len() ==> qf.contains(PropId(q as usize)) || at_fixpoint(#[trigger] ps[q], nx),
{
    assert forall|q: int| 0 <= q < ps.len() implies qf.contains(PropId(q as usize)) || at_fixpoint(#[trigger] ps[q], nx) by {
        assert(prop_fits(ps[q], root));
        if q == p {
            if nx != cur {
                assert(!(nx =~= cur));
                let i = choose|i: int| 0 <= i < nx.len() && nx[i] != cur[i];
                assert(trigger_vars(ps[p]).contains(VarId(i as usize)));
                assert(evs.contains(i as usize));
                let k = choose|k: int| 0 <= k < evs.len() && evs[k] == i as usize;
                assert(wakes(ps, q, evs));
            }
        } else if qb.contains(PropId(q as usize)) {
            let k = choose|k: int| 0 <= k < qb.len() && qb[k] == PropId(q as usize);
            assert(k != 0);
            assert(qb.drop_first()[k - 1] == PropId(q as usize));
        } else if exists|v: VarId| #[trigger] trigger_vars(ps[q]).contains(v) && nx[v.0 as int] != cur[v.0 as int] {
            let v = choose|v: VarId| #[trigger] trigger_vars(ps[q]).contains(v) && nx[v.0 as int] != cur[v.0 as int];
            crate::props::lemma_trigger_vars_valid(ps[q], root, v);
            assert(evs.contains(v.0));
            let k = choose|k: int| 0 <= k < evs.len() && evs[k] == v.0;
            assert(wakes(ps, q, evs));
        } else {
            crate::props::lemma_fixpoint_local(ps[q], root, cur, nx);
        }
    }
}

/// A space narrowed from a fixed point, with each changed variable recorded
/// as an event, has every propagator at its fixed point or woken.
proof fn lemma_child_pending(ps: Seq<Prop>, root: Seq<Var>, d1: Seq<Var>, child: Context, q: Seq<PropId>)
    requires
        all_fit(ps, root),
        d1.len() == root.len(),
        child.doms().len() == root.len(),
        forall|p: int| 0 <= p < ps.len() ==> at_fixpoint(#[trigger] ps[p], d1),
        forall|i: int| 0 <= i < child.doms().len() && #[trigger] child.doms()[i] != d1[i] ==> child.events().contains(i as usize),
    ensures
        pending_ok(ps, child.doms(), q, child.events()),
{
    let e = child.doms();
    let evs = child.events();
    assert forall|p: int| 0 <= p < ps.len() implies q.contains(PropId(p as usize)) || at_fixpoint(#[trigger] ps[p], e) || wakes(ps, p, evs) by {
        assert(prop_fits(ps[p], root));
        if exists|v: VarId| #[trigger] trigger_vars(ps[p]).contains(v) && e[v.0 as int] != d1[v.0 as int] {
            let v = choose|v: VarId| #[trigger] trigger_vars(ps[p]).contains(v) && e[v.0 as int] != d1[v.0 as int];
            crate::props::lemma_trigger_vars_valid(ps[p], root, v);
            assert(evs.contains(v.0));
            let k = choose|k: int| 0 <= k < evs.len() && evs[k] == v.0;
            assert(wakes(ps, p, evs));
        } else {
            crate::props::lemma_fixpoint_local(ps[p], root, d1, e);
        }
    }
}

/// With every propagator scheduled, nothing else is pending.
pub proof fn lemma_all_scheduled(ps: Seq<Prop>, d: Seq<Var>, q: Seq<PropId>, evs: Seq<usize>)
    requires
        ps.len() <= usize::MAX,
        forall|p: PropId| p.0 < ps.len() ==> #[trigger] q.contains(p),
    ensures
        pending_ok(ps, d, q, evs),
{
    assert forall|p: int| 0 <= p < ps.len() implies q.contains(PropId(p as usize)) || at_fixpoint(#[trigger] ps[p], d) || wakes(ps, p, evs) by {
        assert(q.contains(PropId(p as usize)));
    }
}

/// Propagation is confluent. A store at which propagation stalls has every
/// constraint at its fixed point and contains every other such store inside
/// the starting one; two stores with these properties are equal, so the
/// fixed point reached does not depend on the order in which the agenda
/// runs. (Failure likewise means that no such store exists.)
pub proof fn lemma_fixpoint_unique(ps: Seq<Prop>, d: Seq<Var>, f1: Seq<Var>, f2: Seq<Var>)
    requires
        common_fixpoint_below(ps, d, f1),
        common_fixpoint_below(ps, d, f2),
        forall|e: Seq<Var>| #[trigger] common_fixpoint_below(ps, d, e) ==> narrower(e, f1),
        forall|e: Seq<Var>| #[trigger] common_fixpoint_below(ps, d, e) ==> narrower(e, f2),
    ensures
        f1 == f2,
{
    assert(narrower(f1, f2));
    assert(narrower(f2, f1));
    assert forall|i: int| 0 <= i < f1.len() implies #[trigger] f1[i] == f2[i] by {
        assert(f2[i].min <= f1[i].min && f1[i].max <= f2[i].max);
        assert(f1[i].min <= f2[i].min && f2[i].max <= f1[i].max);
    }
    assert(f1 =~= f2);
}

/// Where propagation stopped.
#[derive(Clone, Copy, Debug, PartialEq, Eq, Structural)]
pub enum Status {
    /// A propagator proved the space infeasible.
    Failed,
    /// The agenda ran empty with some variable unassigned.
    Stalled,
    /// Every variable is assigned.
    Assigned,
}

/// Drain the change events and schedule every propagator that a changed
/// variable wakes.
fn schedule_events(props: &Propagators, ctx: &mut Context, agenda: &mut Agenda, Ghost(root): Ghost<Seq<Var>>)
    requires
        old(ctx).wf(),
        props.wf(root),
        old(ctx).doms().len() == root.len(),
        old(agenda).wf(props.props().len()),
    ensures
        final(ctx).wf(),
        final(ctx).doms() == old(ctx).doms(),
        final(ctx).events().len() == 0,
        final(agenda).wf(props.props().len()),
        old(ctx).events().len() == 0 ==> final(agenda).queue() == old(agenda).queue(),
        forall|q: PropId| old(agenda).queue().contains(q) ==> final(agenda).queue().contains(q),
        forall|p: int| 0 <= p < props.props().len() && wakes(props.props(), p, old(ctx).events())
            ==> final(agenda).queue().contains(PropId(p as usize)),
{
    let ghost ev = ctx.events();
    let ghost ps = props.props();
    let evs = ctx.drain_events();
    let n = props.len();
    proof { props.lemma_wf(root); }
    let mut k: usize = 0;
    while k < evs.len()
        invariant
            props.wf(root),
            ps == props.props(),
            n == ps.len(),
            forall|p: int, v: VarId| 0 <= p < ps.len() && #[trigger] trigger_vars(ps[p]).contains(v)
                ==> props.dependents(v.0 as int).contains(PropId(p as usize)),
            agenda.wf(n as nat),
            ctx.wf(),
            ctx.doms().len() == root.len(),
            forall|j: int| 0 <= j < evs@.len() ==> (#[trigger] evs@[j]).0 < root.len(),
            evs@.len() == ev.len(),
            forall|j: int| 0 <= j < evs@.len() ==> (#[trigger] evs@[j]).0 == ev[j],
            k <= evs@.len(),
            evs@.len() == 0 ==> agenda.queue() == old(agenda).queue(),
            forall|q: PropId| old(agenda).queue().contains(q) ==> agenda.queue().contains(q),
            forall|p: int, j: int| 0 <= p < n && 0 <= j < k && #[trigger] trigger_vars(ps[p]).contains(VarId(#[trigger] ev[j]))
                ==> agenda.queue().contains(PropId(p as usize)),
        decreases evs@.len() - k,
    {
        let deps = props.on_bound_change(evs[k], Ghost(root));
        let ghost q0 = agenda.queue();
        let mut j: usize = 0;
        while j < deps.len()
            invariant
                agenda.wf(n as nat),
                n == props.props().len(),
                forall|i: int| 0 <= i < deps@.len() ==> (#[trigger] deps@[i]).0 < n,
                j <= deps@.len(),
                forall|q: PropId| q0.contains(q) ==> agenda.queue().contains(q),
                forall|i: int| 0 <= i < j ==> agenda.queue().contains(#[trigger] deps@[i]),
            decreases deps@.len() - j,
        {
            agenda.schedule(deps[j]);
            j = j + 1;
        }
        proof {
            assert forall|p: int, jj: int| 0 <= p < n && 0 <= jj < k + 1 && #[trigger] trigger_vars(ps[p]).contains(VarId(#[trigger] ev[jj]))
                implies agenda.queue().contains(PropId(p as usize)) by {
                if jj == k {
                    assert(evs@[jj] == VarId(ev[jj]));
                    assert(props.dependents(evs@[jj].0 as int).contains(PropId(p as usize)));
                    let i = choose|i: int| 0 <= i < deps@.len() && deps@[i] == PropId(p as usize);
                    assert(agenda.queue().contains(deps@[i]));
                } else {
                    assert(q0.contains(PropId(p as usize)));
                }
            }
        }
        k = k + 1;
    }
    proof {
        assert forall|p: int| 0 <= p < ps.len() && wakes(ps, p, ev) implies agenda.queue().contains(PropId(p as usize)) by {
            let j = choose|j: int| 0 <= j < ev.len() && trigger_vars(ps[p]).contains(VarId(ev[j]));
            assert(trigger_vars(ps[p]).contains(VarId(ev[j])));
        }
    }
}

/// Run scheduled propagators until one fails, every variable is assigned, or
/// the agenda is empty. Propagators woken by a narrowed variable are
/// scheduled again. Domains only narrow, and no assignment that satisfies
/// every constraint is lost; failure means there is none.
pub fn propagate(props: &Propagators, ctx: &mut Context, agenda: &mut Agenda, Ghost(root): Ghost<Seq<Var>>) -> (r: Status)
    requires
        old(ctx).wf(),
        props.wf(root),
        narrower(old(ctx).doms(), root),
        old(agenda).wf(props.props().len()),
        pending_ok(props.props(), old(ctx).doms(), old(agenda).queue(), old(ctx).events()),
    ensures
        final(ctx).wf(),
        narrower(final(ctx).doms(), old(ctx).doms()),
        size(final(ctx).doms()) <= size(old(ctx).doms()),
        r != Status::Failed ==> final(ctx).events().len() == 0,
        r != Status::Failed ==> forall|a: Seq<int>|
            contains(old(ctx).doms(), a) && sat_all(props.props(), a) ==> contains(final(ctx).doms(), a),
        r == Status::Failed ==> forall|a: Seq<int>| contains(old(ctx).doms(), a) ==> !sat_all(props.props(), a),
        r == Status::Assigned ==> all_assigned(final(ctx).doms()),
        r == Status::Stalled ==> final(agenda).queue().len() == 0,
        r == Status::Stalled ==> !all_assigned(final(ctx).doms()),
        r == Status::Stalled ==> forall|p: int| 0 <= p < props.props().len() ==> at_fixpoint(#[trigger] props.props()[p], final(ctx).doms()),
        r != Status::Failed ==> forall|e: Seq<Var>| #[trigger] common_fixpoint_below(props.props(), old(ctx).doms(), e)
            ==> narrower(e, final(ctx).doms()),
        r == Status::Failed ==> forall|e: Seq<Var>| !#[trigger] common_fixpoint_below(props.props(), old(ctx).doms(), e),
{
    let ghost d0 = ctx.doms();
    let ghost ps = props.props();
    let n = props.len();
    schedule_events(props, ctx, agenda, Ghost(root));
    proof {
        props.lemma_wf(root);
        ctx.lemma_wf();
        crate::vars::lemma_size_nonneg(ctx.doms());
        assert forall|q: int| 0 <= q < ps.len() implies agenda.queue().contains(PropId(q as usize)) || at_fixpoint(#[trigger] ps[q], ctx.doms()) by {
            if old(agenda).queue().contains(PropId(q as usize)) {
            } else if wakes(ps, q, old(ctx).events()) {
            }
        }
    }
    loop
        invariant
            ctx.wf(),
            props.wf(root),
            ps == props.props(),
            n == ps.len(),
            crate::props::all_fit(ps, root),
            agenda.wf(n as nat),
            ctx.events().len() == 0,
            d0 == old(ctx).doms(),
            narrower(d0, root),
            narrower(ctx.doms(), d0),
            narrower(ctx.doms(), root),
            size(ctx.doms()) >= 0,
            forall|a: Seq<int>| contains(d0, a) && sat_all(ps, a) ==> contains(ctx.doms(), a),
            ctx.doms().len() == root.len(),
            n <= usize::MAX,
            forall|q: int| 0 <= q < ps.len() ==> agenda.queue().contains(PropId(q as usize)) || at_fixpoint(#[trigger] ps[q], ctx.doms()),
            forall|e: Seq<Var>| #[trigger] common_fixpoint_below(ps, d0, e) ==> narrower(e, ctx.doms()),
        decreases size(ctx.doms()), agenda.queue().len(),
    {
        let ghost qb = agenda.queue();
        let p = match agenda.pop() {
            None => {
                proof { crate::vars::lemma_size_narrower(ctx.doms(), d0); }
                if ctx.vars().is_assigned_all() {
                    return Status::Assigned;
                }
                return Status::Stalled;
            },
            Some(p) => p,
        };
        let ghost before = *ctx;
        let ghost qlen = agenda.queue().len();
        let prop = props.get_state(p);
        proof {
            ctx.lemma_wf();
            assert(crate::props::prop_fits(ps[p.0 as int], root));
            lemma_prop_fits_narrower(ps[p.0 as int], ctx.doms(), root);
        }
        let ok = prop.prune(ctx);
        proof {
            assert(prunes(ps[p.0 as int], before, *ctx, ok));
            assert forall|e: Seq<Var>| #[trigger] common_fixpoint_below(ps, d0, e) implies ok && narrower(e, ctx.doms()) by {
                assert(at_fixpoint(ps[p.0 as int], e));
                assert(fix_below(ps[p.0 as int], before.doms(), e));
            }
        }
        if !ok {
            proof {
                assert forall|a: Seq<int>| contains(d0, a) implies !sat_all(ps, a) by {
                    if sat_all(ps, a) {
                        assert(crate::props::sat(ps[p.0 as int], a));
                    }
                }
            }
            proof { crate::vars::lemma_size_narrower(ctx.doms(), d0); }
            return Status::Failed;
        }
        proof {
            assert forall|a: Seq<int>| contains(d0, a) && sat_all(ps, a) implies contains(ctx.doms(), a) by {
                assert(crate::props::sat(ps[p.0 as int], a));
            }
            ctx.lemma_wf();
            crate::vars::lemma_size_nonneg(ctx.doms());
        }
        let ghost evs = ctx.events();
        let ghost nx = ctx.doms();
        let ghost qa = agenda.queue();
        schedule_events(props, ctx, agenda, Ghost(root));
        proof {
            assert(qb.drop_first() == qa);
            assert(qb[0] == p);
            lemma_pending_step(ps, root, before.doms(), nx, evs, qb, agenda.queue(), p.0 as int);
        }
        if ctx.vars().is_assigned_all() {
            proof { crate::vars::lemma_size_narrower(ctx.doms(), d0); }
            return Status::Assigned;
        }
    }
}

/// `a` lies in the domains `d` and satisfies every constraint of `ps`.
pub open spec fn is_solution(ps: Seq<Prop>, d: Seq<Var>, a: Seq<int>) -> bool {
    contains(d, a) && sat_all(ps, a)
}

/// The solutions hold pairwise distinct assignments.
pub open spec fn distinct(out: Seq<Solution>) -> bool {
    forall|j: int, k: int| 0 <= j < out.len() && 0 <= k < out.len() && j != k ==> out[j].values() != out[k].values()
}

/// On a fully assigned store the only assignment inside is the one read off it.
pub proof fn lemma_assigned_unique(d: Seq<Var>, a: Seq<int>)
    requires
        all_assigned(d),
        contains(d, a),
    ensures
        a == assignment_of(d),
{
    assert(a =~= assignment_of(d));
}

/// Narrowing the pivot's domain to `v` keeps exactly the assignments whose
/// pivot value lies in `v`.
proof fn lemma_narrow_pivot(d: Seq<Var>, x: int, v: Var, a: Seq<int>)
    requires
        0 <= x < d.len(),
        d[x].min <= v.min,
        v.max <= d[x].max,
    ensures
        contains(d.update(x, v), a) <==> contains(d, a) && v.min <= a[x] <= v.max,
{
    let e = d.update(x, v);
    if contains(d, a) && v.min <= a[x] <= v.max {
        assert forall|i: int| 0 <= i < e.len() implies e[i].min <= #[trigger] a[i] <= e[i].max by {
            if i != x {
                assert(e[i] == d[i]);
            }
        }
    }
    if contains(e, a) {
        assert forall|i: int| 0 <= i < d.len() implies d[i].min <= #[trigger] a[i] <= d[i].max by {
            if i != x {
                assert(e[i] == d[i]);
            } else {
                assert(e[i].min <= a[i] <= e[i].max);
            }
        }
        assert(e[x].min <= a[x] <= e[x].max);
    }
}

/// The solution read off a fully assigned store.
fn solution_of(ctx: &Context) -> (r: Solution)
    requires
        ctx.wf(),
        all_assigned(ctx.doms()),
    ensures
        r.values() == assignment_of(ctx.doms()),
{
    ctx.vars().into_solution()
}

/// Change applied to the pivot variable of a branch.
#[derive(Clone, Copy, Debug, PartialEq, Eq, Structural)]
pub enum Mutation {
    /// Assign the value.
    Assign(i32),
    /// Raise the domain minimum to the value.
    Min(i32),
    /// Lower the domain maximum to the value.
    Max(i32),
}

/// A branch: the mutation to apply to the pivot variable.
#[derive(Clone, Copy, Debug, PartialEq, Eq, Structural)]
pub struct Choice {
    pub pivot: VarId,
    pub mutation: Mutation,
}

/// The domain `v` after the mutation, when some value of `v` survives it.
pub open spec fn narrowed(v: Var, m: Mutation) -> Var {
    match m {
        Mutation::Assign(k) => Var { min: k, max: k },
        Mutation::Min(k) => Var { min: if k > v.min { k } else { v.min }, max: v.max },
        Mutation::Max(k) => Var { min: v.min, max: if k < v.max { k } else { v.max } },
    }
}

/// Some value of `v` survives the mutation.
pub open spec fn feasible(v: Var, m: Mutation) -> bool {
    match m {
        Mutation::Assign(k) => v.min <= k <= v.max,
        Mutation::Min(k) => k <= v.max,
        Mutation::Max(k) => v.min <= k,
    }
}

impl Choice {
    pub fn new(pivot: VarId, mutation: Mutation) -> (r: Choice)
        ensures
            r == (Choice { pivot, mutation }),
    {
        Choice { pivot, mutation }
    }

    /// Apply the mutation to the pivot's domain. Fails, when no value of the
    /// domain survives it.
    pub fn apply(&self, ctx: &mut Context) -> (ok: bool)
        requires
            old(ctx).wf(),
            self.pivot.0 < old(ctx).doms().len(),
        ensures
            final(ctx).wf(),
            Context::event_step(*old(ctx), *final(ctx)),
            ok == feasible(old(ctx).doms()[self.pivot.0 as int], self.mutation),
            ok ==> final(ctx).doms() == old(ctx).doms().update(
                self.pivot.0 as int,
                narrowed(old(ctx).doms()[self.pivot.0 as int], self.mutation),
            ),
    {
        let x = self.pivot;
        match self.mutation {
            Mutation::Assign(k) => {
                let ghost c0 = *ctx;
                if !ctx.set_min_wide(x, k as i128) {
                    return false;
                }
                let ghost c1 = *ctx;
                let ok = ctx.set_max_wide(x, k as i128);
                proof {
                    crate::props::lemma_event_step_trans(c0, c1, *ctx);
                    if ok {
                        assert(ctx.doms() =~= c0.doms().update(x.0 as int, Var { min: k, max: k }));
                    }
                }
                ok
            },
            Mutation::Min(k) => ctx.set_min_wide(x, k as i128),
            Mutation::Max(k) => ctx.set_max_wide(x, k as i128),
        }
    }
}

/// Binary split on the first unassigned variable at the midpoint of its
/// domain: the left branch keeps the values up to the midpoint, the right
/// branch the values above it. None when every variable is assigned.
pub fn split_on_unassigned(ctx: &Context) -> (r: Option<(Choice, Choice)>)
    requires
        ctx.wf(),
    ensures
        r.is_none() <==> all_assigned(ctx.doms()),
        r matches Some((left, right)) ==> {
            let x = left.pivot.0 as int;
            let v = ctx.doms()[x];
            let mid = v.min + (v.max - v.min) / 2;
            &&& left.pivot == right.pivot
            &&& 0 <= x < ctx.doms().len()
            &&& v.min < v.max
            &&& forall|j: int| 0 <= j < x ==> #[trigger] ctx.doms()[j].min == ctx.doms()[j].max
            &&& left.mutation == Mutation::Max(mid as i32)
            &&& right.mutation == Mutation::Min((mid + 1) as i32)
        },
{
    match ctx.vars().get_unassigned_var() {
        None => None,
        Some(x) => {
            proof { ctx.lemma_wf(); }
            let v = ctx.vars().get(x);
            let mid = v.mid();
            Some((Choice::new(x, Mutation::Max(mid)), Choice::new(x, Mutation::Min(mid + 1))))
        },
    }
}

/// How the pivot's domain is divided among the branches of a node.
#[derive(Clone, Copy, Debug, PartialEq, Eq, Structural)]
pub enum Brancher {
    /// Two branches: the values up to the midpoint, then those above it.
    SplitOnUnassigned,
    /// One branch per value of the domain, in ascending order.
    SetMinToMax,
    /// One branch per value of the domain, in descending order.
    SetMaxToMin,
}

/// The value `w` survives the mutation.
pub open spec fn admits(m: Mutation, w: int) -> bool {
    match m {
        Mutation::Assign(k) => w == k,
        Mutation::Min(k) => w >= k,
        Mutation::Max(k) => w <= k,
    }
}

/// Midpoint of a domain, rounded towards its minimum.
pub open spec fn mid_of(v: Var) -> int {
    v.min + (v.max - v.min) / 2
}

/// Number of branches on a pivot with domain `v`.
pub open spec fn branch_count(b: Brancher, v: Var) -> int {
    match b {
        Brancher::SplitOnUnassigned => 2,
        _ => v.max - v.min + 1,
    }
}

/// The mutation of branch `k` on a pivot with domain `v`.
pub open spec fn branch_mutation(b: Brancher, v: Var, k: int) -> Mutation {
    match b {
        Brancher::SplitOnUnassigned => if k == 0 {
            Mutation::Max(mid_of(v) as i32)
        } else {
            Mutation::Min((mid_of(v) + 1) as i32)
        },
        Brancher::SetMinToMax => Mutation::Assign((v.min + k) as i32),
        Brancher::SetMaxToMin => Mutation::Assign((v.max - k) as i32),
    }
}

/// Some branch before the `k`-th admits `w`.
pub open spec fn admitted_before(b: Brancher, v: Var, k: int, w: int) -> bool {
    exists|j: int| 0 <= j < k && #[trigger] admits(branch_mutation(b, v, j), w)
}

/// The branches partition the domain: each value is admitted by exactly one.
pub proof fn lemma_branches_partition(b: Brancher, v: Var, w: int)
    requires
        v.min < v.max,
        v.min <= w <= v.max,
    ensures
        admitted_before(b, v, branch_count(b, v), w),
        forall|j: int, k: int| 0 <= j < branch_count(b, v) && 0 <= k < branch_count(b, v)
            && admits(#[trigger] branch_mutation(b, v, j), w) && admits(#[trigger] branch_mutation(b, v, k), w) ==> j == k,
{
    match b {
        Brancher::SplitOnUnassigned => {
            if w <= mid_of(v) {
                assert(admits(branch_mutation(b, v, 0), w));
            } else {
                assert(admits(branch_mutation(b, v, 1), w));
            }
        },
        Brancher::SetMinToMax => {
            assert(admits(branch_mutation(b, v, w - v.min), w));
        },
        Brancher::SetMaxToMin => {
            assert(admits(branch_mutation(b, v, v.max - w), w));
        },
    }
}

/// The space of branch `k` below a stalled space: a fresh store over the same
/// domains, with the branch's mutation applied to the pivot `x`.
fn child(ctx: &Context, b: Brancher, x: VarId, k: i64) -> (r: Context)
    requires
        ctx.wf(),
        x.0 < ctx.doms().len(),
        ctx.doms()[x.0 as int].min < ctx.doms()[x.0 as int].max,
        forall|j: int| 0 <= j < x.0 ==> #[trigger] ctx.doms()[j].min == ctx.doms()[j].max,
        0 <= k < branch_count(b, ctx.doms()[x.0 as int]),
    ensures
        ({
            let d = ctx.doms();
            &&& r.wf()
            &&& narrower(r.doms(), d)
            &&& size(r.doms()) < size(d)
            &&& forall|a: Seq<int>| contains(r.doms(), a)
                <==> contains(d, a) && admits(branch_mutation(b, d[x.0 as int], k as int), a[x.0 as int])
            &&& forall|i: int| 0 <= i < d.len() && #[trigger] r.doms()[i] != d[i] ==> r.events().contains(i as usize)
        }),
{
    let ghost d = ctx.doms();
    let v = ctx.vars().get(x);
    let m = match b {
        Brancher::SplitOnUnassigned => match split_on_unassigned(ctx) {
            Some((left, right)) => {
                proof {
                    let p = left.pivot.0 as int;
                    if p < x.0 {
                        assert(d[p].min == d[p].max);
                    } else if p > x.0 {
                        assert(d[x.0 as int].min == d[x.0 as int].max);
                    }
                }
                if k == 0 {
                    left.mutation
                } else {
                    right.mutation
                }
            },
            None => {
                proof { assert(d[x.0 as int].min == d[x.0 as int].max); }
                Mutation::Max(v.min)
            },
        },
        Brancher::SetMinToMax => Mutation::Assign((v.min as i64 + k) as i32),
        Brancher::SetMaxToMin => Mutation::Assign((v.max as i64 - k) as i32),
    };
    assert(m == branch_mutation(b, v, k as int));
    let mut r = ctx.duplicate();
    let _ = Choice::new(x, m).apply(&mut r);
    proof {
        let xi = x.0 as int;
        let nv = narrowed(v, m);
        crate::vars::lemma_size_update(d, xi, nv);
        assert forall|a: Seq<int>| contains(r.doms(), a) <==> contains(d, a) && admits(m, a[xi]) by {
            lemma_narrow_pivot(d, xi, nv, a);
            if contains(d, a) {
                assert(v.min <= a[xi] <= v.max);
            }
        }
    }
    r
}

/// One more branch explored: its solutions, appended to those of the earlier
/// branches, keep the enumeration exact and free of duplicates.
proof fn lemma_enum_step(
    ps: Seq<Prop>,
    d0: Seq<Var>,
    d1: Seq<Var>,
    dc: Seq<Var>,
    b: Brancher,
    xi: int,
    k: int,
    lo: Seq<Solution>,
    sub: Seq<Solution>,
    first: bool,
)
    requires
        0 <= xi < d1.len(),
        d1[xi].min < d1[xi].max,
        0 <= k < branch_count(b, d1[xi]),
        forall|a: Seq<int>| contains(dc, a) <==> contains(d1, a) && admits(branch_mutation(b, d1[xi], k), a[xi]),
        forall|a: Seq<int>| #[trigger] contains(d1, a) ==> contains(d0, a),
        forall|a: Seq<int>| is_solution(ps, d0, a) ==> contains(d1, a),
        forall|j: int| 0 <= j < lo.len() ==> is_solution(ps, d0, (#[trigger] lo[j]).values()) && contains(d1, lo[j].values())
            && admitted_before(b, d1[xi], k, lo[j].values()[xi]),
        distinct(lo),
        !first ==> forall|a: Seq<int>| is_solution(ps, d0, a) && admitted_before(b, d1[xi], k, a[xi])
            ==> exists|j: int| 0 <= j < lo.len() && (#[trigger] lo[j]).values() == a,
        first ==> lo.len() == 0,
        first ==> forall|a: Seq<int>| is_solution(ps, d0, a) ==> !admitted_before(b, d1[xi], k, a[xi]),
        forall|j: int| 0 <= j < sub.len() ==> is_solution(ps, dc, (#[trigger] sub[j]).values()),
        distinct(sub),
        !first ==> forall|a: Seq<int>| is_solution(ps, dc, a) ==> exists|j: int| 0 <= j < sub.len() && (#[trigger] sub[j]).values() == a,
        first ==> sub.len() <= 1,
        first ==> (exists|a: Seq<int>| is_solution(ps, dc, a)) ==> sub.len() == 1,
    ensures
        ({
            let out = lo + sub;
            &&& forall|j: int| 0 <= j < out.len() ==> is_solution(ps, d0, (#[trigger] out[j]).values()) && contains(d1, out[j].values())
                && admitted_before(b, d1[xi], k + 1, out[j].values()[xi])
            &&& distinct(out)
            &&& !first ==> forall|a: Seq<int>| is_solution(ps, d0, a) && admitted_before(b, d1[xi], k + 1, a[xi])
                ==> exists|j: int| 0 <= j < out.len() && (#[trigger] out[j]).values() == a
            &&& first ==> out.len() <= 1
            &&& first && out.len() == 0 ==> forall|a: Seq<int>| is_solution(ps, d0, a) ==> !admitted_before(b, d1[xi], k + 1, a[xi])
        }),
{
    let v = d1[xi];
    let out = lo + sub;
    assert forall|j: int| 0 <= j < out.len() implies is_solution(ps, d0, (#[trigger] out[j]).values()) && contains(d1, out[j].values())
        && admitted_before(b, v, k + 1, out[j].values()[xi]) by {
        if j < lo.len() {
            assert(out[j] == lo[j]);
            let i = choose|i: int| 0 <= i < k && #[trigger] admits(branch_mutation(b, v, i), lo[j].values()[xi]);
            assert(admits(branch_mutation(b, v, i), out[j].values()[xi]));
        } else {
            assert(out[j] == sub[j - lo.len()]);
            assert(is_solution(ps, dc, sub[j - lo.len()].values()));
            assert(admits(branch_mutation(b, v, k), out[j].values()[xi]));
        }
    }
    assert forall|i: int, j: int| 0 <= i < out.len() && 0 <= j < out.len() && i != j implies out[i].values() != out[j].values() by {
        if i < lo.len() && j < lo.len() {
            assert(out[i] == lo[i] && out[j] == lo[j]);
        } else if i >= lo.len() && j >= lo.len() {
            assert(out[i] == sub[i - lo.len()] && out[j] == sub[j - lo.len()]);
        } else {
            let (p, q) = if i < lo.len() { (i, j) } else { (j, i) };
            assert(out[p] == lo[p] && out[q] == sub[q - lo.len()]);
            let w = lo[p].values()[xi];
            if out[p].values() == out[q].values() {
                assert(is_solution(ps, dc, sub[q - lo.len()].values()));
                assert(admits(branch_mutation(b, v, k), w));
                let e = choose|e: int| 0 <= e < k && #[trigger] admits(branch_mutation(b, v, e), w);
                assert(v.min <= w <= v.max);
                lemma_branches_partition(b, v, w);
                assert(e == k);
            }
        }
    }
    if !first {
        assert forall|a: Seq<int>| is_solution(ps, d0, a) && admitted_before(b, v, k + 1, a[xi])
            implies exists|j: int| 0 <= j < out.len() && (#[trigger] out[j]).values() == a by {
            let i = choose|i: int| 0 <= i < k + 1 && #[trigger] admits(branch_mutation(b, v, i), a[xi]);
            if i < k {
                assert(admitted_before(b, v, k, a[xi]));
                let j = choose|j: int| 0 <= j < lo.len() && (#[trigger] lo[j]).values() == a;
                assert(out[j] == lo[j]);
            } else {
                assert(contains(dc, a));
                assert(is_solution(ps, dc, a));
                let j = choose|j: int| 0 <= j < sub.len() && (#[trigger] sub[j]).values() == a;
                assert(out[j + lo.len()] == sub[j]);
            }
        }
    } else {
        assert(out =~= sub);
        if out.len() == 0 {
            assert forall|a: Seq<int>| is_solution(ps, d0, a) implies !admitted_before(b, v, k + 1, a[xi]) by {
                if admitted_before(b, v, k + 1, a[xi]) {
                    let i = choose|i: int| 0 <= i < k + 1 && #[trigger] admits(branch_mutation(b, v, i), a[xi]);
                    if i < k {
                        assert(admitted_before(b, v, k, a[xi]));
                    } else {
                        assert(is_solution(ps, dc, a));
                    }
                }
            }
        }
    }
}

/// Solutions of a branch, appended to solutions of the node, are solutions of the node.
proof fn lemma_min_solutions(ps: Seq<Prop>, d0: Seq<Var>, d1: Seq<Var>, dc: Seq<Var>, dc2: Seq<Var>, lo: Seq<Solution>, sub: Seq<Solution>)
    requires
        narrower(dc2, dc),
        narrower(dc, d1),
        forall|a: Seq<int>| #[trigger] contains(d1, a) ==> contains(d0, a),
        forall|j: int| 0 <= j < lo.len() ==> is_solution(ps, d0, (#[trigger] lo[j]).values()),
        forall|j: int| 0 <= j < sub.len() ==> is_solution(ps, dc2, (#[trigger] sub[j]).values()),
    ensures
        forall|j: int| 0 <= j < (lo + sub).len() ==> is_solution(ps, d0, (#[trigger] (lo + sub)[j]).values()),
{
    let out = lo + sub;
    assert forall|j: int| 0 <= j < out.len() implies is_solution(ps, d0, (#[trigger] out[j]).values()) by {
        if j < lo.len() {
            assert(out[j] == lo[j]);
        } else {
            let w = sub[j - lo.len()].values();
            assert(out[j] == sub[j - lo.len()]);
            assert(is_solution(ps, dc2, w));
            lemma_contains_narrower(dc2, dc, w);
            lemma_contains_narrower(dc, d1, w);
        }
    }
}

/// One more branch explored while minimizing: the best value found so far
/// stays a lower bound for every solution admitted by the branches so far.
proof fn lemma_min_bound(
    ps: Seq<Prop>,
    obj: Term,
    d0: Seq<Var>,
    d1: Seq<Var>,
    dc: Seq<Var>,
    dc2: Seq<Var>,
    b: Brancher,
    xi: int,
    k: int,
    bk: Option<i32>,
    bk1: Option<i32>,
    okb: bool,
)
    requires
        0 <= xi < d1.len(),
        forall|a: Seq<int>| contains(dc, a) <==> contains(d1, a) && admits(branch_mutation(b, d1[xi], k), a[xi]),
        forall|a: Seq<int>| is_solution(ps, d0, a) ==> contains(d1, a),
        okb ==> forall|a: Seq<int>| contains(dc2, a) <==> contains(dc, a) && (bk matches Some(m) ==> val(obj, a) < m),
        !okb ==> bk.is_some() && bk1 == bk,
        !okb ==> forall|a: Seq<int>| contains(dc, a) ==> val(obj, a) >= bk.unwrap(),
        forall|a: Seq<int>| is_solution(ps, d0, a) && admitted_before(b, d1[xi], k, a[xi]) ==> (bk matches Some(c)
            && val(obj, a) >= c),
        bk matches Some(c0) ==> (bk1 matches Some(c) && c <= c0),
        okb ==> forall|a: Seq<int>| is_solution(ps, dc2, a) ==> (bk1 matches Some(c) && val(obj, a) >= c),
    ensures
        forall|a: Seq<int>| is_solution(ps, d0, a) && admitted_before(b, d1[xi], k + 1, a[xi]) ==> (bk1 matches Some(c)
            && val(obj, a) >= c),
{
    let v = d1[xi];
    assert forall|a: Seq<int>| is_solution(ps, d0, a) && admitted_before(b, v, k + 1, a[xi]) implies (bk1 matches Some(c)
        && val(obj, a) >= c) by {
        let i = choose|i: int| 0 <= i < k + 1 && #[trigger] admits(branch_mutation(b, v, i), a[xi]);
        if i < k {
            assert(admitted_before(b, v, k, a[xi]));
        } else {
            assert(contains(dc, a));
            if okb && contains(dc2, a) {
                assert(is_solution(ps, dc2, a));
            }
        }
    }
}

/// Depth-first search below `ctx`: propagate, then either read off the
/// solution, or branch on the first unassigned variable as `b` divides its
/// domain and search each branch in turn. Returns exactly the solutions inside
/// `ctx`, each once; with `first`, only the first one found, and one whenever
/// any exists.
pub(crate) fn explore(
    props: &Propagators,
    ctx: Context,
    agenda: Agenda,
    first: bool,
    b: Brancher,
    Ghost(root): Ghost<Seq<Var>>,
) -> (out: Vec<Solution>)
    requires
        ctx.wf(),
        props.wf(root),
        narrower(ctx.doms(), root),
        agenda.wf(props.props().len()),
        pending_ok(props.props(), ctx.doms(), agenda.queue(), ctx.events()),
    ensures
        forall|k: int| 0 <= k < out@.len() ==> is_solution(props.props(), ctx.doms(), (#[trigger] out@[k]).values()),
        distinct(out@),
        !first ==> forall|a: Seq<int>| is_solution(props.props(), ctx.doms(), a)
            ==> exists|k: int| 0 <= k < out@.len() && (#[trigger] out@[k]).values() == a,
        first ==> out@.len() <= 1,
        first ==> (exists|a: Seq<int>| is_solution(props.props(), ctx.doms(), a)) ==> out@.len() == 1,
    decreases size(ctx.doms()),
{
    let ghost d0 = ctx.doms();
    let ghost ps = props.props();
    let mut node = ctx;
    let mut agenda = agenda;
    let st = propagate(props, &mut node, &mut agenda, Ghost(root));
    if st == Status::Failed {
        return Vec::new();
    }
    let ghost d1 = node.doms();
    proof {
        assert forall|a: Seq<int>| #[trigger] contains(d1, a) implies contains(d0, a) by {
            lemma_contains_narrower(d1, d0, a);
        }
    }
    match node.vars().get_unassigned_var() {
        None => {
            let mut out: Vec<Solution> = Vec::new();
            proof {
                assert forall|a: Seq<int>| is_solution(ps, d0, a) implies a == assignment_of(d1) by {
                    lemma_assigned_unique(d1, a);
                }
                assert(contains(d1, assignment_of(d1)));
            }
            if props.check_all(&node, Ghost(root)) {
                out.push(solution_of(&node));
                assert(out@[0].values() == assignment_of(d1));
            }
            out
        },
        Some(x) => {
            proof {
                node.lemma_wf();
                crate::vars::lemma_size_narrower(d1, d0);
                props.lemma_wf(root);
            }
            let v = node.vars().get(x);
            let n: i64 = match b {
                Brancher::SplitOnUnassigned => 2,
                _ => v.max as i64 - v.min as i64 + 1,
            };
            let ghost xi = x.0 as int;
            let mut out: Vec<Solution> = Vec::new();
            let mut k: i64 = 0;
            while k < n
                invariant
                    node.wf(),
                    node.doms() == d1,
                    d0 == ctx.doms(),
                    props.wf(root),
                    ps == props.props(),
                    narrower(d1, root),
                    size(d1) <= size(d0),
                    all_fit(ps, root),
                    forall|p: int| 0 <= p < ps.len() ==> at_fixpoint(#[trigger] ps[p], d1),
                    0 <= xi < d1.len(),
                    x.0 == xi,
                    forall|j: int| 0 <= j < xi ==> #[trigger] d1[j].min == d1[j].max,
                    v == d1[xi],
                    v.min < v.max,
                    n == branch_count(b, v),
                    0 <= k <= n,
                    forall|a: Seq<int>| is_solution(ps, d0, a) ==> contains(d1, a),
                    forall|a: Seq<int>| #[trigger] contains(d1, a) ==> contains(d0, a),
                    forall|j: int| 0 <= j < out@.len() ==> is_solution(ps, d0, (#[trigger] out@[j]).values())
                        && contains(d1, out@[j].values()) && admitted_before(b, v, k as int, out@[j].values()[xi]),
                    distinct(out@),
                    !first ==> forall|a: Seq<int>| is_solution(ps, d0, a) && admitted_before(b, v, k as int, a[xi])
                        ==> exists|j: int| 0 <= j < out@.len() && (#[trigger] out@[j]).values() == a,
                    first ==> out@.len() == 0,
                    first ==> forall|a: Seq<int>| is_solution(ps, d0, a) ==> !admitted_before(b, v, k as int, a[xi]),
                decreases n - k,
            {
                let ch = child(&node, b, x, k);
                let ghost dc = ch.doms();
                let la = Agenda::new(props.len());
                proof {
                    ch.lemma_wf();
                    crate::vars::lemma_size_nonneg(dc);
                    lemma_child_pending(ps, root, d1, ch, la.queue());
                }
                let mut sub = explore(props, ch, la, first, b, Ghost(root));
                let ghost lo = out@;
                let ghost so = sub@;
                proof {
                    lemma_enum_step(ps, d0, d1, dc, b, xi, k as int, lo, so, first);
                }
                out.append(&mut sub);
                assert(out@ == lo + so);
                if first && out.len() > 0 {
                    return out;
                }
                k = k + 1;
            }
            proof {
                assert forall|a: Seq<int>| is_solution(ps, d0, a) implies admitted_before(b, v, n as int, a[xi]) by {
                    assert(contains(d1, a));
                    assert(v.min <= a[xi] <= v.max);
                    lemma_branches_partition(b, v, a[xi]);
                }
            }
            out
        },
    }
}

/// Search mode that keeps only strictly improving solutions of an objective.
#[derive(Debug)]
pub struct Minimize {
    pub objective: Term,
    pub minimum_opt: Option<i32>,
}

impl Minimize {
    pub fn new(objective: Term) -> (r: Minimize)
        ensures
            r.objective == objective,
            r.minimum_opt.is_none(),
    {
        Minimize { objective, minimum_opt: None }
    }

    /// Before exploring a child space, require the objective to be strictly
    /// below the best value found so far. Fails when nothing below it remains.
    pub fn on_branch(&self, ctx: &mut Context, Ghost(root): Ghost<Seq<Var>>) -> (ok: bool)
        requires
            old(ctx).wf(),
            fits(self.objective, root),
            narrower(old(ctx).doms(), root),
        ensures
            final(ctx).wf(),
            narrower(final(ctx).doms(), old(ctx).doms()),
            Context::event_step(*old(ctx), *final(ctx)),
            ok ==> forall|a: Seq<int>| contains(final(ctx).doms(), a) <==> contains(old(ctx).doms(), a)
                && (self.minimum_opt matches Some(m) ==> val(self.objective, a) < m),
            !ok ==> self.minimum_opt.is_some(),
            !ok ==> forall|a: Seq<int>| contains(old(ctx).doms(), a) ==> val(self.objective, a) >= self.minimum_opt.unwrap(),
    {
        match self.minimum_opt {
            None => true,
            Some(m) => {
                proof {
                    old(ctx).lemma_wf();
                    lemma_fits_narrower(self.objective, old(ctx).doms(), root);
                }
                let ok = self.objective.try_set_max(m as i128 - 1, ctx);
                proof {
                    if !ok {
                        assert forall|a: Seq<int>| contains(old(ctx).doms(), a) implies val(self.objective, a) >= m by {
                            crate::views::lemma_val_in_bounds(self.objective, old(ctx).doms(), a);
                        }
                    }
                }
                ok
            },
        }
    }

    /// Record the objective value of a new solution as the best so far.
    pub fn on_solution(&mut self, ctx: &Context, Ghost(root): Ghost<Seq<Var>>)
        requires
            ctx.wf(),
            all_assigned(ctx.doms()),
            fits(old(self).objective, root),
            narrower(ctx.doms(), root),
        ensures
            final(self).objective == old(self).objective,
            final(self).minimum_opt == Some(val(old(self).objective, assignment_of(ctx.doms())) as i32),
            in_range(val(old(self).objective, assignment_of(ctx.doms()))),
    {
        proof {
            ctx.lemma_wf();
            lemma_fits_narrower(self.objective, ctx.doms(), root);
            crate::props::lemma_assigned_exact(self.objective, ctx.doms());
        }
        self.minimum_opt = Some(self.objective.min(ctx));
    }
}

pub open spec fn in_range(x: int) -> bool {
    i32::MIN <= x <= i32::MAX
}

/// Objective values of the solutions strictly decrease, starting below `start`.
pub open spec fn improving(obj: Term, out: Seq<Solution>, start: Option<i32>) -> bool {
    &&& forall|k: int| 0 < k < out.len() ==> val(obj, (#[trigger] out[k]).values()) < val(obj, out[k - 1].values())
    &&& (out.len() > 0 ==> (start matches Some(b) ==> val(obj, out[0].values()) < b))
}

/// Two improving runs, the second starting below the end of the first, make one.
proof fn lemma_concat_improving(obj: Term, lo: Seq<Solution>, ro: Seq<Solution>, b0: Option<i32>, b1: Option<i32>)
    requires
        improving(obj, lo, b0),
        improving(obj, ro, b1),
        lo.len() > 0 ==> b1 == Some(val(obj, lo.last().values()) as i32) && val(obj, lo.last().values()) == b1.unwrap(),
        lo.len() == 0 ==> b1 == b0,
    ensures
        improving(obj, lo + ro, b0),
        ro.len() > 0 ==> (lo + ro).last() == ro.last(),
        ro.len() == 0 ==> lo + ro == lo,
{
    let out = lo + ro;
    assert forall|k: int| 0 < k < out.len() implies val(obj, (#[trigger] out[k]).values()) < val(obj, out[k - 1].values()) by {
        if k < lo.len() {
            assert(out[k] == lo[k] && out[k - 1] == lo[k - 1]);
        } else if k > lo.len() {
            assert(out[k] == ro[k - lo.len()] && out[k - 1] == ro[k - 1 - lo.len()]);
        } else {
            assert(out[k] == ro[0] && out[k - 1] == lo[k - 1]);
        }
    }
    if out.len() > 0 {
        if lo.len() == 0 {
            assert(out[0] == ro[0]);
        } else {
            assert(out[0] == lo[0]);
        }
    }
    if ro.len() > 0 {
        assert(out.last() == ro.last());
    } else {
        assert(out =~= lo);
    }
}

/// Depth-first search below `ctx`, branching as `b` divides the pivot's
/// domain, that keeps strictly improving solutions of the objective: each
/// branch first requires the objective below the best value so far. Afterwards the best value is at most the objective of every
/// solution inside `ctx`, and it is the objective of the last solution
/// returned, when one was.
pub(crate) fn explore_min(
    props: &Propagators,
    ctx: Context,
    agenda: Agenda,
    mode: &mut Minimize,
    b: Brancher,
    Ghost(root): Ghost<Seq<Var>>,
) -> (out: Vec<Solution>)
    requires
        ctx.wf(),
        props.wf(root),
        narrower(ctx.doms(), root),
        agenda.wf(props.props().len()),
        pending_ok(props.props(), ctx.doms(), agenda.queue(), ctx.events()),
        fits(old(mode).objective, root),
    ensures
        final(mode).objective == old(mode).objective,
        forall|k: int| 0 <= k < out@.len() ==> is_solution(props.props(), ctx.doms(), (#[trigger] out@[k]).values()),
        improving(old(mode).objective, out@, old(mode).minimum_opt),
        out@.len() > 0 ==> final(mode).minimum_opt == Some(val(old(mode).objective, out@.last().values()) as i32)
            && val(old(mode).objective, out@.last().values()) == final(mode).minimum_opt.unwrap(),
        out@.len() == 0 ==> final(mode).minimum_opt == old(mode).minimum_opt,
        old(mode).minimum_opt matches Some(b) ==> (final(mode).minimum_opt matches Some(c) && c <= b),
        forall|a: Seq<int>| is_solution(props.props(), ctx.doms(), a) ==> (final(mode).minimum_opt matches Some(c)
            && val(old(mode).objective, a) >= c),
    decreases size(ctx.doms()),
{
    let ghost d0 = ctx.doms();
    let ghost ps = props.props();
    let ghost obj = mode.objective;
    let ghost b0 = mode.minimum_opt;
    let mut node = ctx;
    let mut agenda = agenda;
    let st = propagate(props, &mut node, &mut agenda, Ghost(root));
    if st == Status::Failed {
        return Vec::new();
    }
    let ghost d1 = node.doms();
    proof {
        assert forall|a: Seq<int>| #[trigger] contains(d1, a) implies contains(d0, a) by {
            lemma_contains_narrower(d1, d0, a);
        }
    }
    match node.vars().get_unassigned_var() {
        None => {
            let mut out: Vec<Solution> = Vec::new();
            proof {
                assert forall|a: Seq<int>| is_solution(ps, d0, a) implies a == assignment_of(d1) by {
                    lemma_assigned_unique(d1, a);
                }
                assert(contains(d1, assignment_of(d1)));
                node.lemma_wf();
                lemma_fits_narrower(obj, d1, root);
                crate::props::lemma_assigned_exact(obj, d1);
            }
            if props.check_all(&node, Ghost(root)) {
                let v = mode.objective.min(&node);
                let improves = match mode.minimum_opt {
                    None => true,
                    Some(m) => v < m,
                };
                if improves {
                    mode.on_solution(&node, Ghost(root));
                    out.push(solution_of(&node));
                    assert(out@[0].values() == assignment_of(d1));
                }
            }
            out
        },
        Some(x) => {
            proof {
                node.lemma_wf();
                crate::vars::lemma_size_narrower(d1, d0);
                props.lemma_wf(root);
            }
            let v = node.vars().get(x);
            let n: i64 = match b {
                Brancher::SplitOnUnassigned => 2,
                _ => v.max as i64 - v.min as i64 + 1,
            };
            let ghost xi = x.0 as int;
            let mut out: Vec<Solution> = Vec::new();
            let mut k: i64 = 0;
            while k < n
                invariant
                    node.wf(),
                    node.doms() == d1,
                    d0 == ctx.doms(),
                    props.wf(root),
                    ps == props.props(),
                    narrower(d1, root),
                    narrower(d1, d0),
                    size(d1) <= size(d0),
                    all_fit(ps, root),
                    forall|p: int| 0 <= p < ps.len() ==> at_fixpoint(#[trigger] ps[p], d1),
                    0 <= xi < d1.len(),
                    x.0 == xi,
                    forall|j: int| 0 <= j < xi ==> #[trigger] d1[j].min == d1[j].max,
                    v == d1[xi],
                    v.min < v.max,
                    n == branch_count(b, v),
                    0 <= k <= n,
                    mode.objective == obj,
                    fits(obj, root),
                    obj == old(mode).objective,
                    b0 == old(mode).minimum_opt,
                    forall|a: Seq<int>| is_solution(ps, d0, a) ==> contains(d1, a),
                    forall|a: Seq<int>| #[trigger] contains(d1, a) ==> contains(d0, a),
                    forall|j: int| 0 <= j < out@.len() ==> is_solution(ps, d0, (#[trigger] out@[j]).values()),
                    improving(obj, out@, b0),
                    out@.len() > 0 ==> mode.minimum_opt == Some(val(obj, out@.last().values()) as i32)
                        && val(obj, out@.last().values()) == mode.minimum_opt.unwrap(),
                    out@.len() == 0 ==> mode.minimum_opt == b0,
                    b0 matches Some(c0) ==> (mode.minimum_opt matches Some(c) && c <= c0),
                    forall|a: Seq<int>| is_solution(ps, d0, a) && admitted_before(b, v, k as int, a[xi]) ==> (mode.minimum_opt matches Some(c)
                        && val(obj, a) >= c),
                decreases n - k,
            {
                let mut ch = child(&node, b, x, k);
                let ghost dc = ch.doms();
                let ghost chc = ch;
                let ghost bk = mode.minimum_opt;
                let okb = mode.on_branch(&mut ch, Ghost(root));
                let ghost dc2 = ch.doms();
                let mut sub: Vec<Solution> = Vec::new();
                if okb {
                    let la = Agenda::new(props.len());
                    proof {
                        ch.lemma_wf();
                        crate::vars::lemma_size_narrower(dc2, dc);
                        crate::vars::lemma_size_nonneg(dc2);
                        crate::props::lemma_event_step_trans(chc, chc, ch);
                        assert forall|i: int| 0 <= i < dc2.len() && #[trigger] dc2[i] != d1[i] implies ch.events().contains(i as usize) by {
                            if dc[i] != d1[i] {
                                assert(chc.events().contains(i as usize));
                            }
                        }
                        lemma_child_pending(ps, root, d1, ch, la.queue());
                    }
                    sub = explore_min(props, ch, la, mode, b, Ghost(root));
                }
                let ghost lo = out@;
                let ghost so = sub@;
                let ghost bk1 = mode.minimum_opt;
                proof {
                    lemma_min_solutions(ps, d0, d1, dc, dc2, lo, so);
                    lemma_concat_improving(obj, lo, so, b0, bk);
                    lemma_min_bound(ps, obj, d0, d1, dc, dc2, b, xi, k as int, bk, bk1, okb);
                }
                out.append(&mut sub);
                assert(out@ == lo + so);
                k = k + 1;
            }
            proof {
                assert forall|a: Seq<int>| is_solution(ps, d0, a) implies admitted_before(b, v, n as int, a[xi]) by {
                    assert(contains(d1, a));
                    assert(v.min <= a[xi] <= v.max);
                    lemma_branches_partition(b, v, a[xi]);
                }
            }
            out
        },
    }
}

} // verus!
