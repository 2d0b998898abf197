//! Who descends from whom, and whose waits are whose: what every move keeps,
//! and what a cancellation leaves alone.
use vstd::prelude::*;

use crate::barrier::BarrierWaiter;
use crate::context;
use crate::context::FrameWaitFuture;
use crate::engine;
use crate::flt::Flt;
use crate::laws;
use crate::moves;
use crate::moves::{BarrierMove, Move, OwnMove, TaskMove, TreeMove, WaitMove};
use crate::pq;
use crate::scheduler::{SchedView, SchedulerMode, WaiterKind};
use crate::world;
use crate::world::{CtxView, WorldView};

verus! {

/// One of the waits of a context has that number.
pub open spec fn waits_for(c: CtxView, id: u64) -> bool {
    exists|i: int| 0 <= i < c.waiters.len() && (#[trigger] c.waiters[i]).0 == id
}

/// Children know their parent; no two contexts have a wait in common; and the
/// numbers of waits are used up in order.
pub open spec fn tidy(ctxs: Map<u64, CtxView>, seq: u64) -> bool {
    &&& forall|k: u64| #[trigger] ctxs.contains_key(k) ==> ctxs[k].id == k
    &&& forall|p: u64, i: int|
        #![trigger ctxs[p].children[i]]
        ctxs.contains_key(p) && 0 <= i < ctxs[p].children.len() && ctxs.contains_key(
            ctxs[p].children[i],
        ) ==> ctxs[ctxs[p].children[i]].parent == Some(p)
    &&& forall|k: u64, id: u64| #[trigger]
        waits_for(ctxs[k], id) && ctxs.contains_key(k) ==> id < seq
    &&& forall|k: u64, l: u64, id: u64|
        #![trigger waits_for(ctxs[k], id), waits_for(ctxs[l], id)]
        ctxs.contains_key(k) && ctxs.contains_key(l) && waits_for(ctxs[k], id) && waits_for(
            ctxs[l],
            id,
        ) ==> k == l
}

/// The contexts of `b` are those of `a`, or some of them, and none has another
/// parent, more children or more waits than before.
pub open spec fn no_more(a: Map<u64, CtxView>, b: Map<u64, CtxView>) -> bool {
    forall|k: u64| #[trigger]
        b.contains_key(k) ==> {
            &&& a.contains_key(k)
            &&& b[k].id == a[k].id
            &&& b[k].parent == a[k].parent
            &&& forall|i: int|
                0 <= i < b[k].children.len() ==> a[k].children.contains(
                    #[trigger] b[k].children[i],
                )
            &&& forall|id: u64| #[trigger] waits_for(b[k], id) ==> waits_for(a[k], id)
        }
}

proof fn lemma_no_more(a: Map<u64, CtxView>, b: Map<u64, CtxView>, s: u64, t: u64)
    requires
        tidy(a, s),
        no_more(a, b),
        s <= t,
    ensures
        tidy(b, t),
{
    assert forall|p: u64, i: int|
        #![trigger b[p].children[i]]
        b.contains_key(p) && 0 <= i < b[p].children.len() && b.contains_key(
            b[p].children[i],
        ) implies b[b[p].children[i]].parent == Some(p) by {
        let c = b[p].children[i];
        let j = choose|j: int| 0 <= j < a[p].children.len() && a[p].children[j] == c;
        assert(a[p].children[j] == c);
        assert(a.contains_key(c));
    }
}

/// Contexts that are the same but for what does not matter here.
proof fn lemma_same(a: WorldView, b: WorldView)
    requires
        a.ctxs == b.ctxs,
    ensures
        no_more(a.ctxs, b.ctxs),
{
    assert forall|k: u64| #[trigger] b.ctxs.contains_key(k) implies {
        forall|i: int|
            0 <= i < b.ctxs[k].children.len() ==> a.ctxs[k].children.contains(
                #[trigger] b.ctxs[k].children[i],
            )
    } by {
        assert forall|i: int| 0 <= i < b.ctxs[k].children.len() implies a.ctxs[k].children.contains(
            #[trigger] b.ctxs[k].children[i],
        ) by {
            assert(a.ctxs[k].children[i] == b.ctxs[k].children[i]);
        }
    }
}

/// One context is replaced by one with the same parent, no new children and no
/// new waits.
proof fn lemma_replaced(ctxs: Map<u64, CtxView>, c: CtxView)
    requires
        forall|k: u64| #[trigger] ctxs.contains_key(k) ==> ctxs[k].id == k,
        ctxs.contains_key(c.id),
        c.parent == ctxs[c.id].parent,
        forall|i: int|
            0 <= i < c.children.len() ==> ctxs[c.id].children.contains(#[trigger] c.children[i]),
        forall|id: u64| #[trigger] waits_for(c, id) ==> waits_for(ctxs[c.id], id),
    ensures
        no_more(ctxs, ctxs.insert(c.id, c)),
{
    let b = ctxs.insert(c.id, c);
    assert forall|k: u64| #[trigger] b.contains_key(k) implies {
        &&& ctxs.contains_key(k)
        &&& b[k].id == ctxs[k].id
        &&& b[k].parent == ctxs[k].parent
        &&& forall|i: int|
            0 <= i < b[k].children.len() ==> ctxs[k].children.contains(#[trigger] b[k].children[i])
        &&& forall|id: u64| #[trigger] waits_for(b[k], id) ==> waits_for(ctxs[k], id)
    } by {
        assert forall|i: int| 0 <= i < b[k].children.len() implies ctxs[k].children.contains(
            #[trigger] b[k].children[i],
        ) by {
            if k != c.id {
                assert(ctxs[k].children[i] == b[k].children[i]);
            }
        }
    }
}

/// A context that keeps its parent, its children and its waits.
proof fn lemma_kept(ctxs: Map<u64, CtxView>, c: CtxView)
    requires
        forall|k: u64| #[trigger] ctxs.contains_key(k) ==> ctxs[k].id == k,
        ctxs.contains_key(c.id),
        c.parent == ctxs[c.id].parent,
        c.children == ctxs[c.id].children,
        c.waiters == ctxs[c.id].waiters,
    ensures
        no_more(ctxs, ctxs.insert(c.id, c)),
{
    assert forall|i: int| 0 <= i < c.children.len() implies ctxs[c.id].children.contains(
        #[trigger] c.children[i],
    ) by {
        assert(ctxs[c.id].children[i] == c.children[i]);
    }
    assert forall|id: u64| #[trigger] waits_for(c, id) implies waits_for(ctxs[c.id], id) by {
        let i = choose|i: int| 0 <= i < c.waiters.len() && (#[trigger] c.waiters[i]).0 == id;
        assert(ctxs[c.id].waiters[i].0 == id);
    }
    lemma_replaced(ctxs, c);
}

proof fn lemma_no_more_chain(a: Map<u64, CtxView>, b: Map<u64, CtxView>, c: Map<u64, CtxView>)
    requires
        no_more(a, b),
        no_more(b, c),
    ensures
        no_more(a, c),
{
    assert forall|k: u64| #[trigger] c.contains_key(k) implies {
        &&& a.contains_key(k)
        &&& c[k].id == a[k].id
        &&& c[k].parent == a[k].parent
        &&& forall|i: int|
            0 <= i < c[k].children.len() ==> a[k].children.contains(#[trigger] c[k].children[i])
        &&& forall|id: u64| #[trigger] waits_for(c[k], id) ==> waits_for(a[k], id)
    } by {
        assert(b.contains_key(k));
        assert forall|i: int| 0 <= i < c[k].children.len() implies a[k].children.contains(
            #[trigger] c[k].children[i],
        ) by {
            let j = choose|j: int|
                0 <= j < b[k].children.len() && b[k].children[j] == c[k].children[i];
            assert(a[k].children.contains(b[k].children[j]));
        }
    }
}

/// A context is that one, or its parent descends from it.
pub open spec fn descends(ctxs: Map<u64, CtxView>, k: u64, id: u64) -> bool
    decreases k,
{
    k == id || (ctxs.contains_key(k) && match ctxs[k].parent {
        Some(p) => p < k && descends(ctxs, p, id),
        None => false,
    })
}

proof fn lemma_descends_chain(ctxs: Map<u64, CtxView>, k: u64, mid: u64, id: u64)
    requires
        descends(ctxs, k, mid),
        descends(ctxs, mid, id),
    ensures
        descends(ctxs, k, id),
    decreases k,
{
    if k != mid {
        lemma_descends_chain(ctxs, ctxs[k].parent->Some_0, mid, id);
    }
}

/// What a cancellation leaves as it was: every context that does not descend
/// from the cancelled one; and who is whose child.
pub open spec fn spares(a: WorldView, b: WorldView, id: u64) -> bool {
    &&& b.ctxs.dom() == a.ctxs.dom()
    &&& forall|k: u64| #[trigger]
        a.ctxs.contains_key(k) ==> {
            &&& b.ctxs[k].parent == a.ctxs[k].parent
            &&& b.ctxs[k].id == a.ctxs[k].id
            &&& b.ctxs[k].children == a.ctxs[k].children
            &&& !descends(a.ctxs, k, id) ==> b.ctxs[k] == a.ctxs[k]
        }
    &&& forall|x: u64, kind: WaiterKind| #[trigger] spares_wait(a, b, x, kind, id)
}

/// A wait stays as it was, unless it is one of a context that descends from
/// that one: it stays queued, and nothing settles it.
pub open spec fn spares_wait(a: WorldView, b: WorldView, x: u64, kind: WaiterKind, id: u64) -> bool {
    !waited_below(a.ctxs, x, id) ==> {
        &&& a.sched.waiting(x, kind) ==> b.sched.waiting(x, kind)
        &&& a.waits.contains_key(x) ==> b.waits.contains_key(x) && b.waits[x] == a.waits[x]
    }
}

/// The wait is one of a context that descends from that one.
pub open spec fn waited_below(ctxs: Map<u64, CtxView>, x: u64, id: u64) -> bool {
    exists|k: u64| #[trigger]
        waits_for(ctxs[k], x) && ctxs.contains_key(k) && descends(ctxs, k, id)
}

proof fn lemma_same_descent(a: Map<u64, CtxView>, b: Map<u64, CtxView>, k: u64, id: u64)
    requires
        a.dom() == b.dom(),
        forall|k: u64| #[trigger] a.contains_key(k) ==> b[k].parent == a[k].parent,
    ensures
        descends(a, k, id) == descends(b, k, id),
    decreases k,
{
    assert(a.contains_key(k) == b.contains_key(k));
    if a.contains_key(k) && a[k].parent is Some && a[k].parent->Some_0 < k {
        lemma_same_descent(a, b, a[k].parent->Some_0, id);
    }
}

/// One cancellation after another, of which the second is below the first.
proof fn lemma_spares_chain(a: WorldView, b: WorldView, c: WorldView, id: u64, k: u64)
    requires
        spares(a, b, id),
        spares(b, c, k),
        descends(a.ctxs, k, id),
        forall|j: u64, x: u64| #[trigger]
            waits_for(b.ctxs[j], x) && b.ctxs.contains_key(j) ==> waits_for(a.ctxs[j], x),
    ensures
        spares(a, c, id),
{
    assert forall|j: u64| #[trigger] a.ctxs.contains_key(j) implies {
        &&& c.ctxs[j].parent == a.ctxs[j].parent
        &&& c.ctxs[j].id == a.ctxs[j].id
        &&& c.ctxs[j].children == a.ctxs[j].children
        &&& !descends(a.ctxs, j, id) ==> c.ctxs[j] == a.ctxs[j]
    } by {
        assert(b.ctxs.contains_key(j));
        lemma_same_descent(a.ctxs, b.ctxs, j, k);
        if descends(a.ctxs, j, k) {
            lemma_descends_chain(a.ctxs, j, k, id);
        }
    }
    assert forall|x: u64| waited_below(b.ctxs, x, k) implies #[trigger] waited_below(
        a.ctxs,
        x,
        id,
    ) by {
        let j = choose|j: u64| #[trigger]
            waits_for(b.ctxs[j], x) && b.ctxs.contains_key(j) && descends(b.ctxs, j, k);
        lemma_same_descent(a.ctxs, b.ctxs, j, k);
        lemma_descends_chain(a.ctxs, j, k, id);
        assert(waits_for(a.ctxs[j], x) && a.ctxs.contains_key(j) && descends(a.ctxs, j, id));
    }
    assert forall|x: u64, kind: WaiterKind| #[trigger] spares_wait(a, c, x, kind, id) by {
        assert(spares_wait(a, b, x, kind, id));
        assert(spares_wait(b, c, x, kind, k));
    }
}

/// Cancelling waiters takes out no others, and settles no others.
proof fn lemma_waiters_cancelled(w: WorldView, ws: Seq<(u64, WaiterKind)>, x: u64, kind: WaiterKind)
    requires
        forall|i: int| 0 <= i < ws.len() ==> (#[trigger] ws[i]).0 != x,
    ensures
        w.sched.waiting(x, kind) ==> w.with_waiters_cancelled(ws).sched.waiting(x, kind),
        w.waits.contains_key(x) ==> w.with_waiters_cancelled(ws).waits.contains_key(x)
            && w.with_waiters_cancelled(ws).waits[x] == w.waits[x],
    decreases ws.len(),
{
    if ws.len() > 0 {
        assert(ws.last().0 != x);
        assert forall|i: int| 0 <= i < ws.drop_last().len() implies (#[trigger] ws.drop_last()[i]).0
            != x by {
            assert(ws[i].0 != x);
        }
        lemma_waiters_cancelled(w, ws.drop_last(), x, kind);
    }
}

proof fn lemma_waiters_cancelled_ctxs(w: WorldView, ws: Seq<(u64, WaiterKind)>)
    ensures
        w.with_waiters_cancelled(ws).ctxs == w.ctxs,
        w.with_waiters_cancelled(ws).sched.seq == w.sched.seq,
    decreases ws.len(),
{
    if ws.len() > 0 {
        lemma_waiters_cancelled_ctxs(w, ws.drop_last());
    }
}

/// The first part of a cancellation: the context is marked, and its own waits
/// are cancelled.
proof fn lemma_quiet_spares(w: WorldView, id: u64)
    requires
        tidy(w.ctxs, w.sched.seq),
        w.ctxs.contains_key(id),
    ensures
        ({
            let quiet = w.with_mark(id).with_waiters_cancelled(w.ctxs[id].waiters);
            &&& spares(w, quiet, id)
            &&& no_more(w.ctxs, quiet.ctxs)
            &&& tidy(quiet.ctxs, quiet.sched.seq)
            &&& quiet.sched.seq == w.sched.seq
            &&& quiet.ctxs == w.with_mark(id).ctxs
        }),
{
    let c = w.ctxs[id];
    let marked = w.with_mark(id);
    let quiet = marked.with_waiters_cancelled(c.waiters);
    let gone = CtxView { canceled: true, waiters: Seq::empty(), handlers: Seq::empty(), ..c };
    lemma_waiters_cancelled_ctxs(marked, c.waiters);
    assert(marked.ctxs == w.ctxs.insert(id, gone));
    assert(quiet.ctxs.dom() =~= w.ctxs.dom());
    assert forall|i: int| 0 <= i < gone.children.len() implies w.ctxs[id].children.contains(
        #[trigger] gone.children[i],
    ) by {
        assert(w.ctxs[id].children[i] == gone.children[i]);
    }
    lemma_replaced(w.ctxs, gone);
    lemma_no_more(w.ctxs, quiet.ctxs, w.sched.seq, w.sched.seq);
    assert forall|x: u64, kind: WaiterKind| #[trigger] spares_wait(w, quiet, x, kind, id) by {
        if !waited_below(w.ctxs, x, id) {
            lemma_not_mine(w, id, x);
            lemma_waiters_cancelled(marked, c.waiters, x, kind);
        }
    }
}

/// Cancelling a context leaves alone all that do not descend from it, the
/// younger children of its parent among them: they keep their whole state, and
/// their waits stay queued and unsettled.
pub proof fn cancel_spares_the_others(w: WorldView, id: u64)
    requires
        tidy(w.ctxs, w.sched.seq),
        forall|p: u64, i: int|
            #![trigger w.ctxs[p].children[i]]
            w.ctxs.contains_key(p) && 0 <= i < w.ctxs[p].children.len() ==> p
                < w.ctxs[p].children[i],
    ensures
        spares(w, w.cancelled(id), id),
        no_more(w.ctxs, w.cancelled(id).ctxs),
        w.cancelled(id).sched.seq == w.sched.seq,
    decreases u64::MAX - id, w.ctxs[id].children.len() + 1,
{
    if w.ctxs.contains_key(id) && !w.ctxs[id].canceled {
        let c = w.ctxs[id];
        let quiet = w.with_mark(id).with_waiters_cancelled(c.waiters);
        lemma_quiet_spares(w, id);
        lemma_children_spare(w, quiet, id, c.children.len());
    }
}

proof fn lemma_not_mine(w: WorldView, id: u64, x: u64)
    requires
        w.ctxs.contains_key(id),
        !waited_below(w.ctxs, x, id),
    ensures
        forall|i: int|
            0 <= i < w.ctxs[id].waiters.len() ==> (#[trigger] w.ctxs[id].waiters[i]).0 != x,
{
    assert forall|i: int| 0 <= i < w.ctxs[id].waiters.len() implies (
    #[trigger] w.ctxs[id].waiters[i]).0 != x by {
        if w.ctxs[id].waiters[i].0 == x {
            assert(waits_for(w.ctxs[id], x) && w.ctxs.contains_key(id) && descends(
                w.ctxs,
                id,
                id,
            ));
        }
    }
}

/// The first `n` children of a context are cancelled.
proof fn lemma_children_spare(w: WorldView, quiet: WorldView, id: u64, n: nat)
    requires
        tidy(quiet.ctxs, quiet.sched.seq),
        forall|p: u64, i: int|
            #![trigger w.ctxs[p].children[i]]
            w.ctxs.contains_key(p) && 0 <= i < w.ctxs[p].children.len() ==> p
                < w.ctxs[p].children[i],
        w.ctxs.contains_key(id),
        tidy(w.ctxs, w.sched.seq),
        n <= w.ctxs[id].children.len(),
        spares(w, quiet, id),
        no_more(w.ctxs, quiet.ctxs),
        quiet.sched.seq == w.sched.seq,
    ensures
        ({
            let v = quiet.with_children_cancelled(id, w.ctxs[id].children, n);
            &&& spares(w, v, id)
            &&& no_more(w.ctxs, v.ctxs)
            &&& v.sched.seq == w.sched.seq
        }),
    decreases u64::MAX - id, n,
{
    let children = w.ctxs[id].children;
    if n > 0 {
        lemma_children_spare(w, quiet, id, (n - 1) as nat);
        let v = quiet.with_children_cancelled(id, children, (n - 1) as nat);
        let k = children[n - 1];
        if id < k {
            lemma_no_more(w.ctxs, v.ctxs, w.sched.seq, v.sched.seq);
            assert forall|p: u64, i: int|
                #![trigger v.ctxs[p].children[i]]
                v.ctxs.contains_key(p) && 0 <= i < v.ctxs[p].children.len() implies p
                < v.ctxs[p].children[i] by {
                assert(w.ctxs.contains_key(p));
                assert(w.ctxs[p].children[i] == v.ctxs[p].children[i]);
            }
            if v.ctxs.contains_key(k) {
                cancel_spares_the_others(v, k);
                assert(w.ctxs.contains_key(k));
                assert(w.ctxs[id].children[n - 1] == k);
                assert(w.ctxs[k].parent == Some(id));
                assert(descends(w.ctxs, id, id));
                assert(descends(w.ctxs, k, id));
                assert forall|j: u64, x: u64| #[trigger]
                    waits_for(v.ctxs[j], x) && v.ctxs.contains_key(j) implies waits_for(
                    w.ctxs[j],
                    x,
                ) by {}
                lemma_spares_chain(w, v, v.cancelled(k), id, k);
                lemma_no_more_chain(w.ctxs, v.ctxs, v.cancelled(k).ctxs);
            }
        }
    }
}

/// `k` is `id`, or hangs below it by listed children of contexts that are not
/// cancelled.
pub open spec fn live_below(ctxs: Map<u64, CtxView>, k: u64, id: u64) -> bool
    decreases k,
{
    k == id || match ctxs[k].parent {
        Some(p) => p < k && ctxs.contains_key(p) && !ctxs[p].canceled
            && ctxs[p].children.contains(k) && live_below(ctxs, p, id),
        None => false,
    }
}

/// From `w` to `v` the context was cancelled. Its waits have left the queues,
/// and those that were pending were cancelled.
pub open spec fn reached(w: WorldView, v: WorldView, k: u64) -> bool {
    &&& v.ctxs.contains_key(k)
    &&& v.ctxs[k].canceled
    &&& !w.ctxs[k].canceled ==> forall|i: int|
        0 <= i < w.ctxs[k].waiters.len() ==> ends_cancelled(
            w,
            v,
            (#[trigger] w.ctxs[k].waiters[i]).0,
            w.ctxs[k].waiters[i].1,
        )
}

/// The wait is queued no more; it was cancelled if it was pending.
pub open spec fn ends_cancelled(w: WorldView, v: WorldView, x: u64, kind: WaiterKind) -> bool {
    &&& !v.sched.waiting(x, kind)
    &&& w.sched.waiting(x, kind) && w.waits.contains_key(x) && !w.waits[x].settled()
        ==> v.waits.contains_key(x) && v.waits[x].cancelled
}

/// What lies below `c`, and the waits of `k`, are as they were.
spec fn intact(w: WorldView, v: WorldView, k: u64, c: u64) -> bool {
    &&& forall|a: u64| #[trigger]
        w.ctxs.contains_key(a) && descends(w.ctxs, a, c) ==> v.ctxs.contains_key(a) && v.ctxs[a]
            == w.ctxs[a]
    &&& forall|x: u64, kind: WaiterKind|
        waits_for(w.ctxs[k], x) ==> #[trigger] keeps_wait(w, v, x, kind)
}

/// The wait stays queued, and stands as it stood.
pub open spec fn keeps_wait(w: WorldView, v: WorldView, x: u64, kind: WaiterKind) -> bool {
    &&& w.sched.waiting(x, kind) ==> v.sched.waiting(x, kind)
    &&& w.waits.contains_key(x) ==> v.waits.contains_key(x) && v.waits[x] == w.waits[x]
}

proof fn lemma_live_descends(ctxs: Map<u64, CtxView>, k: u64, id: u64)
    requires
        live_below(ctxs, k, id),
        ctxs.contains_key(k),
    ensures
        descends(ctxs, k, id),
    decreases k,
{
    if k != id {
        lemma_live_descends(ctxs, ctxs[k].parent->Some_0, id);
    }
}

/// The child of `id` on the way down to `k`.
proof fn lemma_first_step(ctxs: Map<u64, CtxView>, k: u64, id: u64) -> (c: u64)
    requires
        live_below(ctxs, k, id),
        ctxs.contains_key(k),
        k != id,
    ensures
        ctxs.contains_key(id),
        ctxs.contains_key(c),
        !ctxs[id].canceled,
        ctxs[id].children.contains(c),
        ctxs[c].parent == Some(id),
        id < c,
        live_below(ctxs, k, c),
    decreases k,
{
    let p = ctxs[k].parent->Some_0;
    if p == id {
        k
    } else {
        lemma_first_step(ctxs, p, id)
    }
}

proof fn lemma_live_same(a: Map<u64, CtxView>, b: Map<u64, CtxView>, k: u64, c: u64)
    requires
        live_below(a, k, c),
        a.contains_key(k),
        forall|j: u64| #[trigger]
            a.contains_key(j) && descends(a, j, c) ==> b.contains_key(j) && b[j] == a[j],
    ensures
        live_below(b, k, c),
    decreases k,
{
    lemma_live_descends(a, k, c);
    if k != c {
        let p = a[k].parent->Some_0;
        lemma_live_same(a, b, p, c);
        lemma_live_descends(a, p, c);
        assert(b.contains_key(k) && b.contains_key(p));
    }
}

/// Nobody descends from two children of one parent.
proof fn lemma_one_branch(ctxs: Map<u64, CtxView>, a: u64, c: u64, j: u64, id: u64)
    requires
        descends(ctxs, a, c),
        ctxs.contains_key(c),
        ctxs.contains_key(j),
        ctxs[c].parent == Some(id),
        ctxs[j].parent == Some(id),
        id < c,
        id < j,
        c != j,
    ensures
        !descends(ctxs, a, j),
    decreases a,
{
    if a == c {
        lemma_not_older(ctxs, id, j);
    } else if a == j {
        lemma_not_older(ctxs, id, c);
    } else {
        lemma_one_branch(ctxs, ctxs[a].parent->Some_0, c, j, id);
    }
}

proof fn lemma_not_older(ctxs: Map<u64, CtxView>, a: u64, b: u64)
    requires
        a < b,
    ensures
        !descends(ctxs, a, b),
    decreases a,
{
    if ctxs.contains_key(a) && ctxs[a].parent is Some && ctxs[a].parent->Some_0 < a {
        lemma_not_older(ctxs, ctxs[a].parent->Some_0, b);
    }
}

proof fn lemma_waiters_keep_settled(w: WorldView, ws: Seq<(u64, WaiterKind)>, x: u64)
    requires
        w.waits.contains_key(x),
        w.waits[x].cancelled,
    ensures
        w.with_waiters_cancelled(ws).waits.contains_key(x),
        w.with_waiters_cancelled(ws).waits[x].cancelled,
    decreases ws.len(),
{
    if ws.len() > 0 {
        lemma_waiters_keep_settled(w, ws.drop_last(), x);
    }
}

/// What was cancelled stays so.
pub proof fn lemma_cancel_keeps_settled(w: WorldView, id: u64, x: u64)
    requires
        w.waits.contains_key(x),
        w.waits[x].cancelled,
    ensures
        w.cancelled(id).waits.contains_key(x),
        w.cancelled(id).waits[x].cancelled,
    decreases u64::MAX - id, w.ctxs[id].children.len() + 1,
{
    if w.ctxs.contains_key(id) && !w.ctxs[id].canceled {
        let c = w.ctxs[id];
        lemma_waiters_keep_settled(w.with_mark(id), c.waiters, x);
        lemma_children_keep_settled(
            w.with_mark(id).with_waiters_cancelled(c.waiters),
            id,
            c.children,
            c.children.len(),
            x,
        );
    }
}

proof fn lemma_children_keep_settled(w: WorldView, id: u64, children: Seq<u64>, n: nat, x: u64)
    requires
        w.waits.contains_key(x),
        w.waits[x].cancelled,
    ensures
        w.with_children_cancelled(id, children, n).waits.contains_key(x),
        w.with_children_cancelled(id, children, n).waits[x].cancelled,
    decreases u64::MAX - id, n,
{
    if n > 0 {
        lemma_children_keep_settled(w, id, children, (n - 1) as nat, x);
        let k = children[n - 1];
        if id < k {
            lemma_cancel_keeps_settled(
                w.with_children_cancelled(id, children, (n - 1) as nat),
                k,
                x,
            );
        }
    }
}

/// A context whose waits are cancelled has none left in the queues.
proof fn lemma_own_waits_end(w: WorldView, ws: Seq<(u64, WaiterKind)>, x: u64, kind: WaiterKind)
    requires
        w.sched.waiting(x, kind),
        w.waits.contains_key(x),
        !w.waits[x].settled(),
    ensures
        w.with_waiters_cancelled(ws).waits.contains_key(x),
        w.with_waiters_cancelled(ws).waits[x].cancelled || (w.with_waiters_cancelled(
            ws,
        ).sched.waiting(x, kind) && !w.with_waiters_cancelled(ws).waits[x].settled()),
    decreases ws.len(),
{
    if ws.len() > 0 {
        lemma_own_waits_end(w, ws.drop_last(), x, kind);
    }
}

/// What was reached stays reached.
proof fn lemma_stays_reached(w: WorldView, v: WorldView, k: u64, j: u64)
    requires
        reached(w, v, k),
        forall|a: u64| #[trigger] v.ctxs.contains_key(a) ==> v.ctxs[a].id == a,
    ensures
        reached(w, v.cancelled(j), k),
{
    laws::cancel_touches_nothing_else(v, j);
    let u = v.cancelled(j);
    assert(v.ctxs.contains_key(k) && u.ctxs.contains_key(k));
    if !w.ctxs[k].canceled {
        assert forall|i: int| 0 <= i < w.ctxs[k].waiters.len() implies ends_cancelled(
            w,
            u,
            (#[trigger] w.ctxs[k].waiters[i]).0,
            w.ctxs[k].waiters[i].1,
        ) by {
            let (x, kind) = w.ctxs[k].waiters[i];
            assert(ends_cancelled(w, v, x, kind));
            laws::lemma_cancel_adds_no_waits(v, j, x, kind);
            if w.sched.waiting(x, kind) && w.waits.contains_key(x) && !w.waits[x].settled() {
                lemma_cancel_keeps_settled(v, j, x);
            }
        }
    }
}

/// Cancelling another child leaves what is below `c` as it was.
proof fn lemma_stays_intact(w: WorldView, v: WorldView, id: u64, k: u64, c: u64, j: u64)
    requires
        tidy(w.ctxs, w.sched.seq),
        tidy(v.ctxs, v.sched.seq),
        no_more(w.ctxs, v.ctxs),
        w.ctxs.dom() == v.ctxs.dom(),
        forall|p: u64, i: int|
            #![trigger v.ctxs[p].children[i]]
            v.ctxs.contains_key(p) && 0 <= i < v.ctxs[p].children.len() ==> p
                < v.ctxs[p].children[i],
        intact(w, v, k, c),
        descends(w.ctxs, k, c),
        w.ctxs.contains_key(k),
        w.ctxs.contains_key(c),
        v.ctxs.contains_key(j),
        w.ctxs[c].parent == Some(id),
        w.ctxs[j].parent == Some(id),
        id < c,
        id < j,
        c != j,
    ensures
        intact(w, v.cancelled(j), k, c),
{
    let u = v.cancelled(j);
    cancel_spares_the_others(v, j);
    assert forall|a: u64| #[trigger]
        w.ctxs.contains_key(a) && descends(w.ctxs, a, c) implies u.ctxs.contains_key(a)
        && u.ctxs[a] == w.ctxs[a] by {
        assert(v.ctxs.contains_key(a));
        lemma_one_branch(w.ctxs, a, c, j, id);
        lemma_same_descent(w.ctxs, v.ctxs, a, j);
    }
    assert forall|x: u64, kind: WaiterKind| waits_for(w.ctxs[k], x) implies #[trigger] keeps_wait(
        w,
        u,
        x,
        kind,
    ) by {
        assert(keeps_wait(w, v, x, kind));
        assert(!waited_below(v.ctxs, x, j)) by {
            if waited_below(v.ctxs, x, j) {
                let a = choose|a: u64| #[trigger]
                    waits_for(v.ctxs[a], x) && v.ctxs.contains_key(a) && descends(v.ctxs, a, j);
                assert(waits_for(w.ctxs[a], x));
                assert(a == k);
                lemma_one_branch(w.ctxs, k, c, j, id);
                lemma_same_descent(w.ctxs, v.ctxs, k, j);
            }
        }
        assert(spares_wait(v, u, x, kind, j));
    }
}

/// Cancellation cascades: it reaches every context that hangs below the
/// cancelled one by listed children of contexts that are not cancelled, and
/// all its waits. They leave the queues, and those that were pending were
/// cancelled.
pub proof fn cancel_reaches_all_below(w: WorldView, id: u64, k: u64)
    requires
        w.wf(),
        tidy(w.ctxs, w.sched.seq),
        w.ctxs.contains_key(id),
        w.ctxs.contains_key(k),
        live_below(w.ctxs, k, id),
    ensures
        w.cancelled(id).ctxs[k].canceled,
        !w.ctxs[k].canceled ==> forall|i: int|
            0 <= i < w.ctxs[k].waiters.len() ==> {
                let (x, kind) = #[trigger] w.ctxs[k].waiters[i];
                &&& !w.cancelled(id).sched.waiting(x, kind)
                &&& w.sched.waiting(x, kind) && w.waits.contains_key(x) && !w.waits[x].settled()
                    ==> w.cancelled(id).waits.contains_key(x) && w.cancelled(
                    id,
                ).waits[x].cancelled
            },
{
    assert forall|p: u64, i: int|
        #![trigger w.ctxs[p].children[i]]
        w.ctxs.contains_key(p) && 0 <= i < w.ctxs[p].children.len() implies p
        < w.ctxs[p].children[i] by {
        assert(w.ctxs[p].wf(w));
    }
    lemma_reaches(w, id, k);
    assert(reached(w, w.cancelled(id), k));
}

proof fn lemma_reaches(w: WorldView, id: u64, k: u64)
    requires
        tidy(w.ctxs, w.sched.seq),
        forall|p: u64, i: int|
            #![trigger w.ctxs[p].children[i]]
            w.ctxs.contains_key(p) && 0 <= i < w.ctxs[p].children.len() ==> p
                < w.ctxs[p].children[i],
        w.ctxs.contains_key(id),
        w.ctxs.contains_key(k),
        live_below(w.ctxs, k, id),
    ensures
        reached(w, w.cancelled(id), k),
    decreases u64::MAX - id, w.ctxs[id].children.len() + 1,
{
    if w.ctxs[id].canceled {
        if k != id {
            let c = lemma_first_step(w.ctxs, k, id);
        }
    } else {
        let c = w.ctxs[id];
        let marked = w.with_mark(id);
        let quiet = marked.with_waiters_cancelled(c.waiters);
        lemma_quiet_spares(w, id);
        if k == id {
            assert forall|i: int| 0 <= i < w.ctxs[k].waiters.len() implies ends_cancelled(
                w,
                quiet,
                (#[trigger] w.ctxs[k].waiters[i]).0,
                w.ctxs[k].waiters[i].1,
            ) by {
                let (x, kind) = w.ctxs[k].waiters[i];
                assert(c.waiters.contains((x, kind)));
                laws::lemma_waiters_leave(marked, c.waiters, x, kind);
                if w.sched.waiting(x, kind) && w.waits.contains_key(x) && !w.waits[x].settled() {
                    lemma_own_waits_end(marked, c.waiters, x, kind);
                }
            }
            lemma_children_stay_reached(w, quiet, id, k, c.children.len());
        } else {
            let first = lemma_first_step(w.ctxs, k, id);
            lemma_live_descends(w.ctxs, k, first);
            lemma_quiet_is_intact(w, quiet, id, k, first);
            lemma_children_reach(w, quiet, id, k, first, c.children.len());
            let i = choose|i: int| 0 <= i < c.children.len() && c.children[i] == first;
            assert(c.children[i] == first);
        }
    }
}

/// Cancelling the waits of a parent leaves what is below alone.
proof fn lemma_quiet_is_intact(w: WorldView, quiet: WorldView, id: u64, k: u64, c: u64)
    requires
        tidy(w.ctxs, w.sched.seq),
        w.ctxs.contains_key(id),
        w.ctxs.contains_key(k),
        descends(w.ctxs, k, c),
        id < c,
        quiet == w.with_mark(id).with_waiters_cancelled(w.ctxs[id].waiters),
    ensures
        intact(w, quiet, k, c),
{
    let ws = w.ctxs[id].waiters;
    let marked = w.with_mark(id);
    lemma_waiters_cancelled_ctxs(marked, ws);
    lemma_not_older(w.ctxs, id, c);
    assert(k != id);
    assert forall|x: u64, kind: WaiterKind| waits_for(w.ctxs[k], x) implies #[trigger] keeps_wait(
        w,
        quiet,
        x,
        kind,
    ) by {
        assert forall|i: int| 0 <= i < ws.len() implies (#[trigger] ws[i]).0 != x by {
            if ws[i].0 == x {
                assert(w.ctxs[id].waiters[i].0 == x);
                assert(waits_for(w.ctxs[id], x));
            }
        }
        lemma_waiters_cancelled(marked, ws, x, kind);
    }
}

/// After the first `n` children were cancelled, one that was reached still is.
proof fn lemma_children_stay_reached(w: WorldView, quiet: WorldView, id: u64, k: u64, n: nat)
    requires
        tidy(w.ctxs, w.sched.seq),
        tidy(quiet.ctxs, quiet.sched.seq),
        forall|p: u64, i: int|
            #![trigger w.ctxs[p].children[i]]
            w.ctxs.contains_key(p) && 0 <= i < w.ctxs[p].children.len() ==> p
                < w.ctxs[p].children[i],
        w.ctxs.contains_key(id),
        n <= w.ctxs[id].children.len(),
        spares(w, quiet, id),
        no_more(w.ctxs, quiet.ctxs),
        quiet.sched.seq == w.sched.seq,
        reached(w, quiet, k),
    ensures
        reached(w, quiet.with_children_cancelled(id, w.ctxs[id].children, n), k),
    decreases n,
{
    if n > 0 {
        let children = w.ctxs[id].children;
        lemma_children_stay_reached(w, quiet, id, k, (n - 1) as nat);
        lemma_children_spare(w, quiet, id, (n - 1) as nat);
        let v = quiet.with_children_cancelled(id, children, (n - 1) as nat);
        lemma_no_more(w.ctxs, v.ctxs, w.sched.seq, v.sched.seq);
        if id < children[n - 1] {
            lemma_stays_reached(w, v, k, children[n - 1]);
        }
    }
}

/// After the first `n` children were cancelled: `k` was reached if `c` is among
/// them, and else is as it was.
proof fn lemma_children_reach(w: WorldView, quiet: WorldView, id: u64, k: u64, c: u64, n: nat)
    requires
        tidy(w.ctxs, w.sched.seq),
        tidy(quiet.ctxs, quiet.sched.seq),
        forall|p: u64, i: int|
            #![trigger w.ctxs[p].children[i]]
            w.ctxs.contains_key(p) && 0 <= i < w.ctxs[p].children.len() ==> p
                < w.ctxs[p].children[i],
        w.ctxs.contains_key(id),
        w.ctxs.contains_key(k),
        w.ctxs.contains_key(c),
        w.ctxs[c].parent == Some(id),
        id < c,
        live_below(w.ctxs, k, c),
        n <= w.ctxs[id].children.len(),
        spares(w, quiet, id),
        no_more(w.ctxs, quiet.ctxs),
        quiet.sched.seq == w.sched.seq,
        intact(w, quiet, k, c),
    ensures
        ({
            let v = quiet.with_children_cancelled(id, w.ctxs[id].children, n);
            ||| reached(w, v, k)
            ||| intact(w, v, k, c) && forall|i: int|
                0 <= i < n ==> #[trigger] w.ctxs[id].children[i] != c
        }),
    decreases u64::MAX - id, n,
{
    let children = w.ctxs[id].children;
    lemma_live_descends(w.ctxs, k, c);
    if n > 0 {
        lemma_children_reach(w, quiet, id, k, c, (n - 1) as nat);
        lemma_children_spare(w, quiet, id, (n - 1) as nat);
        let v = quiet.with_children_cancelled(id, children, (n - 1) as nat);
        let j = children[n - 1];
        lemma_no_more(w.ctxs, v.ctxs, w.sched.seq, v.sched.seq);
        assert(w.ctxs[id].children[n - 1] == j);
        assert forall|p: u64, i: int|
            #![trigger v.ctxs[p].children[i]]
            v.ctxs.contains_key(p) && 0 <= i < v.ctxs[p].children.len() implies p
            < v.ctxs[p].children[i] by {
            assert(w.ctxs.contains_key(p));
            assert(w.ctxs[p].children[i] == v.ctxs[p].children[i]);
        }
        if reached(w, v, k) {
            lemma_stays_reached(w, v, k, j);
        } else if j == c {
            lemma_live_same(w.ctxs, v.ctxs, k, c);
            assert(v.ctxs.contains_key(c) && v.ctxs.contains_key(k));
            assert(descends(w.ctxs, c, c));
            lemma_reaches(v, c, k);
            lemma_reached_from(w, v, v.cancelled(c), k, c);
        } else if v.ctxs.contains_key(j) {
            assert(w.ctxs.contains_key(j));
            lemma_stays_intact(w, v, id, k, c, j);
        }
    }
}

proof fn lemma_reached_from(w: WorldView, v: WorldView, u: WorldView, k: u64, c: u64)
    requires
        w.ctxs.contains_key(k),
        descends(w.ctxs, k, c),
        intact(w, v, k, c),
        reached(v, u, k),
    ensures
        reached(w, u, k),
{
    assert(v.ctxs[k] == w.ctxs[k]);
    if !w.ctxs[k].canceled {
        assert forall|i: int| 0 <= i < w.ctxs[k].waiters.len() implies ends_cancelled(
            w,
            u,
            (#[trigger] w.ctxs[k].waiters[i]).0,
            w.ctxs[k].waiters[i].1,
        ) by {
            let (x, kind) = w.ctxs[k].waiters[i];
            assert(v.ctxs[k].waiters[i] == w.ctxs[k].waiters[i]);
            assert(ends_cancelled(v, u, x, kind));
            assert(waits_for(w.ctxs[k], x));
            assert(keeps_wait(w, v, x, kind));
        }
    }
}

/// A cancellation reaches a context with all its waits, or leaves it and them
/// as they were.
pub open spec fn reached_or_kept(w: WorldView, v: WorldView, k: u64) -> bool {
    ||| reached(w, v, k)
    ||| {
        &&& v.ctxs.contains_key(k)
        &&& v.ctxs[k] == w.ctxs[k]
        &&& forall|x: u64, kind: WaiterKind|
            waits_for(w.ctxs[k], x) ==> #[trigger] keeps_wait(w, v, x, kind)
    }
}

pub proof fn lemma_reached_or_kept(w: WorldView, id: u64, k: u64)
    requires
        tidy(w.ctxs, w.sched.seq),
        forall|p: u64, i: int|
            #![trigger w.ctxs[p].children[i]]
            w.ctxs.contains_key(p) && 0 <= i < w.ctxs[p].children.len() ==> p
                < w.ctxs[p].children[i],
        w.ctxs.contains_key(k),
        !w.ctxs[k].canceled,
    ensures
        reached_or_kept(w, w.cancelled(id), k),
    decreases u64::MAX - id, w.ctxs[id].children.len() + 1,
{
    if w.ctxs.contains_key(id) && !w.ctxs[id].canceled {
        if k == id {
            lemma_reaches(w, id, k);
        } else {
            let c = w.ctxs[id];
            let quiet = w.with_mark(id).with_waiters_cancelled(c.waiters);
            lemma_quiet_spares(w, id);
            assert forall|x: u64, kind: WaiterKind| waits_for(
                w.ctxs[k],
                x,
            ) implies #[trigger] keeps_wait(w, quiet, x, kind) by {
                assert forall|i: int| 0 <= i < c.waiters.len() implies (#[trigger] c.waiters[i]).0
                    != x by {
                    if c.waiters[i].0 == x {
                        assert(w.ctxs[id].waiters[i].0 == x);
                        assert(waits_for(w.ctxs[id], x));
                    }
                }
                lemma_waiters_cancelled(w.with_mark(id), c.waiters, x, kind);
            }
            lemma_children_reach_or_keep(w, quiet, id, k, c.children.len());
        }
    }
}

proof fn lemma_children_reach_or_keep(w: WorldView, quiet: WorldView, id: u64, k: u64, n: nat)
    requires
        tidy(w.ctxs, w.sched.seq),
        tidy(quiet.ctxs, quiet.sched.seq),
        forall|p: u64, i: int|
            #![trigger w.ctxs[p].children[i]]
            w.ctxs.contains_key(p) && 0 <= i < w.ctxs[p].children.len() ==> p
                < w.ctxs[p].children[i],
        w.ctxs.contains_key(id),
        w.ctxs.contains_key(k),
        !w.ctxs[k].canceled,
        n <= w.ctxs[id].children.len(),
        spares(w, quiet, id),
        no_more(w.ctxs, quiet.ctxs),
        quiet.sched.seq == w.sched.seq,
        reached_or_kept(w, quiet, k),
    ensures
        reached_or_kept(w, quiet.with_children_cancelled(id, w.ctxs[id].children, n), k),
    decreases u64::MAX - id, n,
{
    let children = w.ctxs[id].children;
    if n > 0 {
        lemma_children_reach_or_keep(w, quiet, id, k, (n - 1) as nat);
        lemma_children_spare(w, quiet, id, (n - 1) as nat);
        let v = quiet.with_children_cancelled(id, children, (n - 1) as nat);
        let j = children[n - 1];
        lemma_no_more(w.ctxs, v.ctxs, w.sched.seq, v.sched.seq);
        if id < j {
            assert forall|p: u64, i: int|
                #![trigger v.ctxs[p].children[i]]
                v.ctxs.contains_key(p) && 0 <= i < v.ctxs[p].children.len() implies p
                < v.ctxs[p].children[i] by {
                assert(w.ctxs.contains_key(p));
                assert(w.ctxs[p].children[i] == v.ctxs[p].children[i]);
            }
            if reached(w, v, k) {
                lemma_stays_reached(w, v, k, j);
            } else {
                lemma_reached_or_kept(v, j, k);
                lemma_reach_chain(w, v, v.cancelled(j), k);
            }
        }
    }
}

proof fn lemma_reach_chain(w: WorldView, v: WorldView, u: WorldView, k: u64)
    requires
        v.ctxs[k] == w.ctxs[k],
        forall|x: u64, kind: WaiterKind|
            waits_for(w.ctxs[k], x) ==> #[trigger] keeps_wait(w, v, x, kind),
        reached_or_kept(v, u, k),
    ensures
        reached_or_kept(w, u, k),
{
    if reached(v, u, k) {
        if !w.ctxs[k].canceled {
            assert forall|i: int| 0 <= i < w.ctxs[k].waiters.len() implies ends_cancelled(
                w,
                u,
                (#[trigger] w.ctxs[k].waiters[i]).0,
                w.ctxs[k].waiters[i].1,
            ) by {
                let (x, kind) = w.ctxs[k].waiters[i];
                assert(v.ctxs[k].waiters[i] == w.ctxs[k].waiters[i]);
                assert(ends_cancelled(v, u, x, kind));
                assert(waits_for(w.ctxs[k], x));
                assert(keeps_wait(w, v, x, kind));
            }
        }
    } else {
        assert forall|x: u64, kind: WaiterKind| waits_for(
            w.ctxs[k],
            x,
        ) implies #[trigger] keeps_wait(w, u, x, kind) by {
            assert(keeps_wait(w, v, x, kind));
            assert(keeps_wait(v, u, x, kind));
        }
    }
}

/// A wait that was cancelled fails when it is polled, whatever it was for, and
/// moves no time.
pub proof fn cancelled_wait_fails(
    w: WorldView,
    x: u64,
    t: context::TimeWaitFuture,
    b: context::BeatWaitFuture,
    f: FrameWaitFuture,
    waker: u64,
    wall: Flt,
)
    requires
        w.waits.contains_key(x),
        w.waits[x].cancelled,
        t.phase == (context::WaitPhase::Registered { id: x }),
        b.phase == t.phase,
        f.phase == t.phase,
    ensures
        w.time_polled(t, waker).2 == Some(Err::<(), Seq<char>>("cancelled"@)),
        w.beat_polled(b, waker).2 == Some(Err::<(), Seq<char>>("cancelled"@)),
        w.frame_polled(f, waker, wall).2 == Some(Err::<(), Seq<char>>("cancelled"@)),
        w.time_polled(t, waker).0.ctxs == w.ctxs,
        w.beat_polled(b, waker).0.ctxs == w.ctxs,
        w.frame_polled(f, waker, wall).0.ctxs == w.ctxs,
{
}

proof fn lemma_all_ok(w: WorldView, ids: Seq<u64>)
    ensures
        w.with_all_ok(ids).ctxs == w.ctxs,
        w.with_all_ok(ids).sched == w.sched,
        forall|x: u64| #[trigger]
            w.waits.contains_key(x) && !ids.contains(x) ==> w.with_all_ok(ids).waits.contains_key(x)
                && w.with_all_ok(ids).waits[x] == w.waits[x],
    decreases ids.len(),
{
    if ids.len() > 0 {
        let init = ids.drop_last();
        lemma_all_ok(w, init);
        assert forall|x: u64| #[trigger] w.waits.contains_key(x) && !ids.contains(
            x,
        ) implies w.with_all_ok(ids).waits.contains_key(x) && w.with_all_ok(ids).waits[x]
            == w.waits[x] by {
            if init.contains(x) {
                let j = choose|j: int| 0 <= j < init.len() && init[j] == x;
                assert(ids[j] == x);
            }
            assert(ids[ids.len() - 1] == ids.last());
        }
    }
}

/// A wait of a context is over: it has no other wait than before.
proof fn lemma_fewer_waits(s: Seq<(u64, WaiterKind)>, x: u64, c: CtxView, d: CtxView)
    requires
        c.waiters == s,
        d.waiters == world::without_waiter(s, x),
    ensures
        forall|id: u64| #[trigger] waits_for(d, id) ==> waits_for(c, id),
{
    world::lemma_without_waiter(s, x);
    assert forall|id: u64| #[trigger] waits_for(d, id) implies waits_for(c, id) by {
        let i = choose|i: int| 0 <= i < d.waiters.len() && (#[trigger] d.waiters[i]).0 == id;
        assert(s.contains(d.waiters[i]));
        let j = choose|j: int| 0 <= j < s.len() && s[j] == d.waiters[i];
        assert(c.waiters[j].0 == id);
    }
}

/// A wait of a context is registered under the next number.
proof fn lemma_registered(w: WorldView, ctx: u64, kind: WaiterKind, waker: u64)
    requires
        tidy(w.ctxs, w.sched.seq),
        w.ctxs.contains_key(ctx),
        w.sched.seq < u64::MAX,
    ensures
        tidy(w.registered(ctx, kind, waker).ctxs, (w.sched.seq + 1) as u64),
        w.registered(ctx, kind, waker).sched.seq == w.sched.seq + 1,
{
    let a = w.ctxs;
    let v = w.registered(ctx, kind, waker);
    let b = v.ctxs;
    let c = a[ctx];
    let d = b[ctx];
    assert forall|k: u64, id: u64| #[trigger]
        waits_for(b[k], id) && b.contains_key(k) implies waits_for(a[k], id) || (k == ctx && id
        == w.sched.seq) by {
        if k == ctx {
            let i = choose|i: int| 0 <= i < d.waiters.len() && (#[trigger] d.waiters[i]).0 == id;
            if i < c.waiters.len() {
                assert(c.waiters[i].0 == id);
            }
        }
    }
    assert forall|k: u64, l: u64, id: u64|
        #![trigger waits_for(b[k], id), waits_for(b[l], id)]
        b.contains_key(k) && b.contains_key(l) && waits_for(b[k], id) && waits_for(
            b[l],
            id,
        ) implies k == l by {
        if id == w.sched.seq {
            assert(!(waits_for(a[k], id) && a.contains_key(k)));
            assert(!(waits_for(a[l], id) && a.contains_key(l)));
        }
    }
    assert forall|p: u64, i: int|
        #![trigger b[p].children[i]]
        b.contains_key(p) && 0 <= i < b[p].children.len() && b.contains_key(
            b[p].children[i],
        ) implies b[b[p].children[i]].parent == Some(p) by {
        assert(a[p].children[i] == b[p].children[i]);
    }
}

proof fn lemma_polled(w: WorldView, ctx: u64, p: context::WaitPhase, kind: WaiterKind, waker: u64, t: Flt)
    requires
        tidy(w.ctxs, w.sched.seq),
        w.ctxs.contains_key(ctx),
        w.sched.seq < u64::MAX,
    ensures
        ({
            let v = w.polled(ctx, p, kind, waker, t).0;
            tidy(v.ctxs, v.sched.seq)
        }),
{
    let s = w.state_of(p);
    if s.cancelled {
        lemma_same(w, w.forgotten(p));
        lemma_no_more(w.ctxs, w.forgotten(p).ctxs, w.sched.seq, w.sched.seq);
    } else if s.done {
        let id = context::number_of(p);
        let c = w.ctxs[ctx];
        let d = CtxView { time: t, waiters: world::without_waiter(c.waiters, id), ..c };
        lemma_fewer_waits(c.waiters, id, c, d);
        assert forall|i: int| 0 <= i < d.children.len() implies w.ctxs[d.id].children.contains(
            #[trigger] d.children[i],
        ) by {
            assert(w.ctxs[ctx].children[i] == d.children[i]);
        }
        lemma_replaced(w.ctxs, d);
        let v = w.forgotten(p).wait_over(ctx, id, t);
        assert(v.ctxs == w.ctxs.insert(ctx, d));
        lemma_no_more(w.ctxs, v.ctxs, w.sched.seq, w.sched.seq);
    } else if p is Registered {
        lemma_same(w, w.rearmed(context::number_of(p), waker));
        lemma_no_more(w.ctxs, w.ctxs, w.sched.seq, w.sched.seq);
    } else if w.ctxs[ctx].canceled {
        lemma_same(w, w.with_woken(Some(waker)));
        lemma_no_more(w.ctxs, w.ctxs, w.sched.seq, w.sched.seq);
    } else {
        lemma_registered(w, ctx, kind, waker);
    }
}

proof fn lemma_freed(w: WorldView, xs: Seq<BarrierWaiter>, t: Flt, reach: bool)
    requires
        tidy(w.ctxs, w.sched.seq),
    ensures
        tidy(w.with_waiters_freed(xs, t, reach).ctxs, w.sched.seq),
        w.with_waiters_freed(xs, t, reach).sched.seq == w.sched.seq,
        w.with_waiters_freed(xs, t, reach).ctxs.dom() == w.ctxs.dom(),
    decreases xs.len(),
{
    if xs.len() > 0 {
        lemma_freed(w, xs.drop_last(), t, reach);
        let v = w.with_waiters_freed(xs.drop_last(), t, reach);
        let x = xs.last();
        if v.ctxs.contains_key(x.ctx) && !v.ctxs[x.ctx].canceled {
            let c = CtxView { time: v.ctxs[x.ctx].time.larger(t), ..v.ctxs[x.ctx] };
            lemma_kept(v.ctxs, c);
            lemma_no_more(v.ctxs, v.ctxs.insert(c.id, c), w.sched.seq, w.sched.seq);
            assert(v.ctxs.insert(c.id, c).dom() =~= v.ctxs.dom());
        }
    }
}

proof fn lemma_timed(w: WorldView, ctx: u64, t: Flt)
    requires
        tidy(w.ctxs, w.sched.seq),
        w.ctxs.contains_key(ctx),
    ensures
        tidy(w.with_time(ctx, t).ctxs, w.sched.seq),
{
    let c = CtxView { time: t, ..w.ctxs[ctx] };
    lemma_kept(w.ctxs, c);
    lemma_no_more(w.ctxs, w.ctxs.insert(ctx, c), w.sched.seq, w.sched.seq);
}

/// A context is added that nobody waits in yet.
proof fn lemma_added(w: WorldView, c: CtxView, grown: Map<u64, CtxView>)
    requires
        w.wf(),
        tidy(w.ctxs, w.sched.seq),
        c.id == w.next_ctx,
        c.children.len() == 0,
        c.waiters.len() == 0,
        match c.parent {
            Some(p) => w.ctxs.contains_key(p) && grown.dom() == w.ctxs.dom() && (forall|k: u64|
                #[trigger]
                w.ctxs.contains_key(k) ==> grown[k].id == w.ctxs[k].id && grown[k].parent
                    == w.ctxs[k].parent && grown[k].waiters == w.ctxs[k].waiters
                    && grown[k].children == if k == p {
                    w.ctxs[k].children.push(c.id)
                } else {
                    w.ctxs[k].children
                }),
            None => grown == w.ctxs,
        },
    ensures
        tidy(grown.insert(c.id, c), w.sched.seq),
{
    let a = w.ctxs;
    let b = grown.insert(c.id, c);
    assert(!a.contains_key(c.id)) by {
        if a.contains_key(c.id) {
            assert(a[c.id].wf(w));
        }
    }
    assert forall|k: u64, id: u64| #[trigger]
        waits_for(b[k], id) && b.contains_key(k) implies a.contains_key(k) && waits_for(a[k], id) by {
        let i = choose|i: int| 0 <= i < b[k].waiters.len() && (#[trigger] b[k].waiters[i]).0 == id;
        assert(k != c.id);
        assert(a.contains_key(k));
        assert(a[k].waiters[i].0 == id);
    }
    assert forall|p: u64, i: int|
        #![trigger b[p].children[i]]
        b.contains_key(p) && 0 <= i < b[p].children.len() && b.contains_key(
            b[p].children[i],
        ) implies b[b[p].children[i]].parent == Some(p) by {
        if p != c.id {
            assert(a.contains_key(p));
            assert(a[p].wf(w));
            let x = b[p].children[i];
            if i < a[p].children.len() {
                assert(a[p].children[i] == x);
                assert(a.contains_key(x));
            }
        }
    }
}

proof fn lemma_tree(w: WorldView, m: TreeMove)
    requires
        w.wf(),
        tidy(w.ctxs, w.sched.seq),
        moves::allowed(w, Move::Tree(m)),
    ensures
        tidy(w.after_tree(m).0.ctxs, w.after_tree(m).0.sched.seq),
{
    reveal(WorldView::after_tree);
    let s = w.sched.seq;
    match m {
        TreeMove::Root { bpm, seed } => {
            let v = w.with_root(bpm, seed);
            lemma_added(w, v.ctxs[w.next_ctx], w.ctxs);
            assert(v.ctxs == w.ctxs.insert(w.next_ctx, v.ctxs[w.next_ctx]));
        },
        TreeMove::Branch { ctx, opts } => {
            lemma_child(w, ctx, w.sched.most_recent_desc_time, opts, None);
        },
        TreeMove::BranchWait { ctx, opts } => {
            lemma_child(w, ctx, w.ctxs[ctx].time, opts, Some(context::unfinished()));
        },
        TreeMove::Finish { parent, child } => {
            lemma_finished(w, parent, child);
        },
        TreeMove::FinishWait { parent, child } => {
            let c = w.ctxs[child];
            match c.completion {
                Some(x) => {
                    let done = world::CompletionState {
                        done: true,
                        final_time: c.time,
                        waker: None,
                    };
                    let d = CtxView { completion: Some(done), ..c };
                    lemma_kept(w.ctxs, d);
                    lemma_no_more(w.ctxs, w.ctxs.insert(child, d), s, s);
                    lemma_finished(w.with_ctx(d).with_woken(x.waker), parent, child);
                },
                None => lemma_finished(w, parent, child),
            }
        },
        TreeMove::PollBranch { parent, child, waker } => {
            let c = w.ctxs[child];
            lemma_same(w, w);
            match c.completion {
                Some(x) => {
                    lemma_timed(w, parent, w.ctxs[parent].time.larger(x.final_time));
                    let told = world::CompletionState { waker: Some(waker), ..x };
                    let d = CtxView { completion: Some(told), ..c };
                    lemma_kept(w.ctxs, d);
                    lemma_no_more(w.ctxs, w.ctxs.insert(child, d), s, s);
                },
                None => {},
            }
        },
        TreeMove::Cancel { ctx } => {
            assert forall|p: u64, i: int|
                #![trigger w.ctxs[p].children[i]]
                w.ctxs.contains_key(p) && 0 <= i < w.ctxs[p].children.len() implies p
                < w.ctxs[p].children[i] by {
                assert(w.ctxs[p].wf(w));
            }
            cancel_spares_the_others(w, ctx);
            lemma_no_more(w.ctxs, w.cancelled(ctx).ctxs, s, s);
        },
        TreeMove::Release { ctx } => {
            lemma_same(w, w);
            lemma_no_more(w.ctxs, w.ctxs.remove(ctx), s, s);
        },
    }
}

proof fn lemma_child(
    w: WorldView,
    parent: u64,
    t: Flt,
    opts: context::BranchOptions,
    completion: Option<world::CompletionState>,
)
    requires
        w.wf(),
        tidy(w.ctxs, w.sched.seq),
        w.ctxs.contains_key(parent),
    ensures
        tidy(w.with_child(parent, t, opts, completion).ctxs, w.sched.seq),
{
    let v = w.with_child(parent, t, opts, completion);
    let c = v.ctxs[w.next_ctx];
    assert(w.ctxs[parent].wf(w));
    let p = w.ctxs[parent];
    let q = CtxView {
        children: p.children.push(w.next_ctx),
        forks: if opts.rng is Forked {
            (p.forks + 1) as u64
        } else {
            p.forks
        },
        ..p
    };
    let grown = w.ctxs.insert(parent, q);
    assert(grown.dom() =~= w.ctxs.dom());
    lemma_added(w, c, grown);
    assert(v.ctxs == grown.insert(c.id, c));
}

proof fn lemma_finished(w: WorldView, parent: u64, child: u64)
    requires
        tidy(w.ctxs, w.sched.seq),
    ensures
        tidy(w.with_child_finished(parent, child).ctxs, w.sched.seq),
{
    if w.ctxs.contains_key(parent) {
        let p = w.ctxs[parent];
        let q = CtxView { children: context::retained(p.children, w.ctxs, child), ..p };
        lemma_retained(p.children, w.ctxs, child);
        assert forall|id: u64| #[trigger] waits_for(q, id) implies waits_for(w.ctxs[q.id], id) by {
            let i = choose|i: int| 0 <= i < q.waiters.len() && (#[trigger] q.waiters[i]).0 == id;
            assert(w.ctxs[parent].waiters[i].0 == id);
        }
        lemma_replaced(w.ctxs, q);
        lemma_no_more(w.ctxs, w.ctxs.insert(parent, q), w.sched.seq, w.sched.seq);
    }
}

proof fn lemma_retained(children: Seq<u64>, ctxs: Map<u64, CtxView>, gone: u64)
    ensures
        forall|i: int|
            0 <= i < context::retained(children, ctxs, gone).len() ==> children.contains(
                #[trigger] context::retained(children, ctxs, gone)[i],
            ),
    decreases children.len(),
{
    if children.len() > 0 {
        let init = children.drop_last();
        lemma_retained(init, ctxs, gone);
        let r = context::retained(children, ctxs, gone);
        assert forall|i: int| 0 <= i < r.len() implies children.contains(#[trigger] r[i]) by {
            if i < context::retained(init, ctxs, gone).len() {
                assert(r[i] == context::retained(init, ctxs, gone)[i]);
                let j = choose|j: int| 0 <= j < init.len() && init[j] == r[i];
                assert(children[j] == r[i]);
            } else {
                assert(children[children.len() - 1] == r[i]);
            }
        }
    }
}

proof fn lemma_wait(w: WorldView, m: WaitMove)
    requires
        tidy(w.ctxs, w.sched.seq),
        moves::allowed(w, Move::Wait(m)),
        w.sched.seq < u64::MAX,
    ensures
        tidy(w.after_wait(m).0.ctxs, w.after_wait(m).0.sched.seq),
{
    reveal(WorldView::after_wait);
    match m {
        WaitMove::Slice => {
            let (sched, ids) = w.sched.sliced(w.tempos.maps);
            lemma_all_ok(WorldView { sched, ..w }, ids);
        },
        WaitMove::PollTime { time_wait: f, waker } => {
            let t = w.ctxs[f.ctx.id].time.larger(f.target_time);
            lemma_polled(w, f.ctx.id, f.phase, WaiterKind::Time, waker, t);
        },
        WaitMove::PollBeat { beat_wait: f, waker } => {
            let due = crate::tempo::time_at(w.tempos.maps[f.tempo_id].segs, f.target_beat);
            let t = w.ctxs[f.ctx.id].time.larger(due);
            let kind = WaiterKind::Beat { tempo_id: f.tempo_id };
            lemma_polled(w, f.ctx.id, f.phase, kind, waker, t);
        },
    }
}

proof fn lemma_barrier(w: WorldView, m: BarrierMove)
    requires
        tidy(w.ctxs, w.sched.seq),
        moves::allowed(w, Move::Barrier(m)),
    ensures
        tidy(w.after_barrier(m).0.ctxs, w.after_barrier(m).0.sched.seq),
{
    reveal(WorldView::after_barrier);
    match m {
        BarrierMove::Start { ctx, key } => {
            let root = w.root_of(ctx);
            let v = w.with_barrier(root, key);
            let i = crate::barrier::at(v.barriers, root, key);
            let b = v.barriers[i];
            let emptied = crate::barrier::BarrierView { waiters: Seq::empty(), ..b };
            lemma_freed(v.with_barrier_at(i, emptied), b.waiters, b.resolved, false);
        },
        BarrierMove::Resolve { ctx, key } => {
            let i = crate::barrier::at(w.barriers, w.root_of(ctx), key);
            let b = w.barriers[i];
            let t = w.ctxs[ctx].time;
            let emptied = crate::barrier::BarrierView {
                resolved: t,
                in_progress: false,
                waiters: Seq::empty(),
                ..b
            };
            lemma_freed(w.with_barrier_at(i, emptied), b.waiters, t, true);
        },
        BarrierMove::Reach { ctx, key } => {
            let root = w.root_of(ctx);
            let v = w.with_barrier(root, key);
            let at = crate::barrier::at(v.barriers, root, key);
            lemma_timed(v, ctx, w.ctxs[ctx].time.larger(v.barriers[at].resolved));
        },
        BarrierMove::Poll { wait: f, waker } => {
            let at = crate::barrier::at(w.barriers, f.root, f.key);
            lemma_timed(w, f.ctx.id, w.ctxs[f.ctx.id].time.larger(w.barriers[at].resolved));
        },
        BarrierMove::Clear => {},
    }
}

proof fn lemma_own(w: WorldView, m: OwnMove)
    requires
        tidy(w.ctxs, w.sched.seq),
        moves::allowed(w, Move::Own(m)),
    ensures
        tidy(w.after_own(m).0.ctxs, w.after_own(m).0.sched.seq),
{
    reveal(WorldView::after_own);
    let s = w.sched.seq;
    match m {
        OwnMove::SetTime { ctx, t } => lemma_timed(w, ctx, t),
        OwnMove::Handle { ctx } => {
            let c = w.ctxs[ctx];
            let d = CtxView { handlers: c.handlers.push(w.next_handler), ..c };
            lemma_kept(w.ctxs, d);
            lemma_no_more(w.ctxs, w.ctxs.insert(ctx, d), s, s);
        },
        OwnMove::Unhandle { ctx, handler } => {
            if w.ctxs.contains_key(ctx) {
                let c = w.ctxs[ctx];
                let d = CtxView {
                    handlers: context::without_handler(c.handlers, handler),
                    ..c
                };
                lemma_kept(w.ctxs, d);
                lemma_no_more(w.ctxs, w.ctxs.insert(ctx, d), s, s);
            }
        },
        _ => {},
    }
}

proof fn lemma_task(w: WorldView, m: TaskMove)
    requires
        tidy(w.ctxs, w.sched.seq),
    ensures
        tidy(w.after_task(m).0.ctxs, w.after_task(m).0.sched.seq),
{
    reveal(WorldView::after_task);
}

/// Whatever is done, children know their parent, and no two contexts have a
/// wait in common.
pub proof fn moves_keep_tidy(w: WorldView, m: Move)
    requires
        w.wf(),
        tidy(w.ctxs, w.sched.seq),
        moves::allowed(w, m),
        w.sched.seq < u64::MAX,
    ensures
        tidy(w.after(m).ctxs, w.after(m).sched.seq),
{
    match m {
        Move::Task(x) => lemma_task(w, x),
        Move::Wait(x) => lemma_wait(w, x),
        Move::Tree(x) => lemma_tree(w, x),
        Move::Barrier(x) => lemma_barrier(w, x),
        Move::Own(x) => lemma_own(w, x),
    }
}

/// A wait for the next frame and a frame keep that, too.
pub proof fn frames_keep_tidy(w: WorldView, f: FrameWaitFuture, waker: u64, wall: Flt)
    requires
        tidy(w.ctxs, w.sched.seq),
        w.ctxs.contains_key(f.ctx.id),
        w.sched.seq < u64::MAX,
    ensures
        tidy(w.frame_polled(f, waker, wall).0.ctxs, w.frame_polled(f, waker, wall).0.sched.seq),
        tidy(w.with_frame().ctxs, w.with_frame().sched.seq),
{
    let t = w.ctxs[f.ctx.id].time.larger(w.sched.now(wall)).larger(w.sched.most_recent_desc_time);
    lemma_polled(w, f.ctx.id, f.phase, WaiterKind::Frame, waker, t);
    let ids = pq::due(w.sched.frames, Flt::zero());
    lemma_all_ok(
        WorldView { sched: SchedView { frames: Map::empty(), ..w.sched }, ..w },
        ids,
    );
}

/// A new engine is tidy.
pub proof fn engines_start_tidy(mode: SchedulerMode, bpm: Flt, seed: Seq<char>, rate: Flt)
    ensures
        ({
            let w = engine::launched(mode, bpm, seed, rate);
            tidy(w.ctxs, w.sched.seq)
        }),
{
    let w = engine::launched(mode, bpm, seed, rate);
    assert forall|k: u64, id: u64| w.ctxs.contains_key(k) implies !(#[trigger] waits_for(
        w.ctxs[k],
        id,
    )) by {}
}

} // verus!
