//! What a context has from its parent, and what a parent knows of its children.
use vstd::prelude::*;

use crate::context;
use crate::context::BranchOptions;
use crate::flt::Flt;
use crate::kin;
use crate::rng;
use crate::text;
use crate::world::{CompletionState, CtxView, WorldView};

verus! {

/// That one is not the child that has finished, and it is there.
pub open spec fn is_left(w: WorldView, child: u64) -> spec_fn(u64) -> bool {
    |k: u64| k != child && w.ctxs.contains_key(k)
}

proof fn lemma_retained(children: Seq<u64>, w: WorldView, gone: u64)
    ensures
        context::retained(children, w.ctxs, gone) == children.filter(is_left(w, gone)),
    decreases children.len(),
{
    reveal(Seq::filter);
    if children.len() > 0 {
        lemma_retained(children.drop_last(), w, gone);
    }
}

proof fn lemma_filter_contains(s: Seq<u64>, pred: spec_fn(u64) -> bool, k: u64)
    ensures
        s.filter(pred).contains(k) == (s.contains(k) && pred(k)),
    decreases s.len(),
{
    reveal(Seq::filter);
    if s.len() > 0 {
        let init = s.drop_last();
        lemma_filter_contains(init, pred, k);
        let f = init.filter(pred);
        assert(s.contains(k) == (init.contains(k) || s.last() == k)) by {
            if s.contains(k) {
                let i = choose|i: int| 0 <= i < s.len() && s[i] == k;
                if i < init.len() {
                    assert(init[i] == k);
                }
            }
            if init.contains(k) {
                let i = choose|i: int| 0 <= i < init.len() && init[i] == k;
                assert(s[i] == k);
            }
            assert(s[s.len() - 1] == s.last());
        }
        if pred(s.last()) {
            let g = f.push(s.last());
            assert(g[f.len() as int] == s.last());
            if f.contains(k) {
                let i = choose|i: int| 0 <= i < f.len() && f[i] == k;
                assert(g[i] == k);
            }
            if g.contains(k) {
                let i = choose|i: int| 0 <= i < g.len() && g[i] == k;
                if i < f.len() {
                    assert(f[i] == k);
                }
            }
        }
    }
}

/// When a child has finished, its parent keeps all its other children that are
/// there, and no more, in the order in which they came. Nothing else changes.
pub proof fn siblings_stay_when_one_finishes(w: WorldView, parent: u64, child: u64)
    requires
        w.ctxs.contains_key(parent),
        w.ctxs[parent].id == parent,
    ensures
        ({
            let v = w.with_child_finished(parent, child);
            let was = w.ctxs[parent].children;
            let is = v.ctxs[parent].children;
            &&& forall|k: u64| #[trigger]
                is.contains(k) <==> was.contains(k) && k != child && w.ctxs.contains_key(k)
            &&& is == was.filter(is_left(w, child))
            &&& v.ctxs[parent] == CtxView { children: is, ..w.ctxs[parent] }
            &&& v.ctxs.dom() == w.ctxs.dom()
            &&& forall|k: u64| k != parent ==> #[trigger] v.ctxs[k] == w.ctxs[k]
            &&& v == WorldView { ctxs: v.ctxs, ..w }
        }),
{
    let v = w.with_child_finished(parent, child);
    let was = w.ctxs[parent].children;
    let is = v.ctxs[parent].children;
    lemma_retained(was, w, child);
    assert forall|k: u64| #[trigger] is.contains(k) <==> was.contains(k) && k != child
        && w.ctxs.contains_key(k) by {
        lemma_filter_contains(was, is_left(w, child), k);
    }
    assert(v.ctxs.dom() =~= w.ctxs.dom());
}

/// When a child that its parent waits for has finished, its parent keeps its
/// other children too; the child's end is noted with its time, and the task
/// that waits for it is queued.
pub proof fn waited_child_leaves_its_time(w: WorldView, parent: u64, child: u64)
    requires
        w.ctxs.contains_key(parent),
        w.ctxs[parent].id == parent,
        w.ctxs.contains_key(child),
        w.ctxs[child].id == child,
        parent != child,
        w.ctxs[child].completion is Some,
    ensures
        ({
            let v = w.with_waited_child_finished(parent, child);
            let s = w.ctxs[child].completion->Some_0;
            let e = v.ctxs[child].completion->Some_0;
            &&& forall|k: u64| #[trigger]
                v.ctxs[parent].children.contains(k) <==> w.ctxs[parent].children.contains(k) && k
                    != child && w.ctxs.contains_key(k)
            &&& v.ctxs[parent].children == w.ctxs[parent].children.filter(is_left(w, child))
            &&& v.ctxs[parent] == CtxView {
                children: v.ctxs[parent].children,
                ..w.ctxs[parent]
            }
            &&& v.ctxs[child].completion is Some
            &&& e.done
            &&& e.final_time == w.ctxs[child].time
            &&& v.ctxs[child] == CtxView { completion: Some(e), ..w.ctxs[child] }
            &&& s.waker matches Some(k) ==> w.tasks.live.contains(k) ==> v.tasks.ready.contains(k)
            &&& v.tasks.live == w.tasks.live
            &&& forall|k: u64|
                k != parent && k != child ==> #[trigger] v.ctxs[k] == w.ctxs[k]
        }),
{
    let c = w.ctxs[child];
    let s = c.completion->Some_0;
    let done = CompletionState { done: true, final_time: c.time, waker: None };
    let u = w.with_ctx(CtxView { completion: Some(done), ..c }).with_woken(s.waker);
    let v = w.with_waited_child_finished(parent, child);
    assert(v == u.with_child_finished(parent, child));
    siblings_stay_when_one_finishes(u, parent, child);
    assert(u.ctxs.dom() =~= w.ctxs.dom());
    assert forall|k: u64| u.ctxs.contains_key(k) == w.ctxs.contains_key(k) by {
        assert(u.ctxs.dom().contains(k) == w.ctxs.dom().contains(k));
    }
    assert(is_left(u, child) =~= is_left(w, child));
    match s.waker {
        Some(k) => {
            let r = w.tasks.ready.push(k);
            assert(r[w.tasks.ready.len() as int] == k);
        },
        None => {},
    }
}

/// From the branch to the join: a parent that waits for a child goes on when
/// the child has finished, at the child's time or at its own if that is later.
pub proof fn join_takes_the_childs_time(w: WorldView, parent: u64, child: u64, waker: u64)
    requires
        w.ctxs.contains_key(parent),
        w.ctxs[parent].id == parent,
        w.ctxs.contains_key(child),
        w.ctxs[child].id == child,
        parent != child,
        w.ctxs[child].completion is Some,
        !w.ctxs[child].canceled,
        !w.ctxs[child].time.nan(),
        !w.ctxs[parent].time.nan(),
    ensures
        ({
            let v = w.with_waited_child_finished(parent, child);
            let (u, r) = v.branch_polled(parent, child, waker);
            let now = u.ctxs[parent].time;
            &&& r == Some(Ok::<(), Seq<char>>(()))
            &&& w.ctxs[parent].time.at_most(now)
            &&& w.ctxs[child].time.at_most(now)
            &&& now == w.ctxs[parent].time || now == w.ctxs[child].time
            &&& w.ctxs[child].time == u.ctxs[child].time
        }),
{
    waited_child_leaves_its_time(w, parent, child);
}

/// After one branch has finished, cancelling the parent still reaches every
/// other branch that has not: each is cancelled, and so are its waits.
pub proof fn cancel_reaches_the_branches_that_are_left(
    w: WorldView,
    parent: u64,
    child: u64,
    i: int,
)
    requires
        w.wf(),
        kin::tidy(w.ctxs, w.sched.seq),
        w.ctxs.contains_key(parent),
        !w.ctxs[parent].canceled,
        0 <= i < w.ctxs[parent].children.len(),
        w.ctxs[parent].children[i] != child,
        w.ctxs.contains_key(w.ctxs[parent].children[i]),
    ensures
        ({
            let k = w.ctxs[parent].children[i];
            let v = w.with_child_finished(parent, child);
            let u = v.cancelled(parent);
            &&& u.ctxs[k].canceled
            &&& !w.ctxs[k].canceled ==> forall|j: int|
                0 <= j < w.ctxs[k].waiters.len() ==> {
                    let (x, kind) = #[trigger] w.ctxs[k].waiters[j];
                    &&& !u.sched.waiting(x, kind)
                    &&& w.sched.waiting(x, kind) && w.waits.contains_key(x)
                        && !w.waits[x].settled() ==> u.waits.contains_key(x)
                        && u.waits[x].cancelled
                }
        }),
{
    let k = w.ctxs[parent].children[i];
    let v = w.with_child_finished(parent, child);
    siblings_stay_when_one_finishes(w, parent, child);
    assert(w.ctxs[parent].children.contains(k));
    assert(v.ctxs[parent].children.contains(k));
    let is = v.ctxs[parent].children;
    let was = w.ctxs[parent].children;
    let n = choose|n: int| 0 <= n < is.len() && is[n] == k;
    assert(v.ctxs[parent].children[n] == k);
    assert(w.ctxs[parent].wf(w));
    assert(w.ctxs[k].wf(w));
    assert(parent < k);
    assert forall|id: u64| #[trigger] v.ctxs.contains_key(id) implies v.ctxs[id].id == id
        && v.ctxs[id].wf(v) by {
        assert(w.ctxs.contains_key(id));
        assert(w.ctxs[id].wf(w));
        if id == parent {
            assert forall|m: int| 0 <= m < is.len() implies id < #[trigger] is[m] < v.next_ctx by {
                assert(is.contains(is[m]));
                let q = choose|q: int| 0 <= q < was.len() && was[q] == is[m];
                assert(was[q] == is[m]);
            }
        }
    }
    assert(v.wf());
    assert(kin::tidy(v.ctxs, v.sched.seq)) by {
        assert forall|p: u64, j: int|
            #![trigger v.ctxs[p].children[j]]
            v.ctxs.contains_key(p) && 0 <= j < v.ctxs[p].children.len() && v.ctxs.contains_key(
                v.ctxs[p].children[j],
            ) implies v.ctxs[v.ctxs[p].children[j]].parent == Some(p) by {
            let c = v.ctxs[p].children[j];
            assert(w.ctxs.contains_key(p) && w.ctxs.contains_key(c));
            if p == parent {
                assert(is.contains(c));
                let q = choose|q: int| 0 <= q < was.len() && was[q] == c;
                assert(w.ctxs[p].children[q] == c);
            } else {
                assert(w.ctxs[p].children[j] == c);
            }
        }
        assert forall|x: u64, id: u64|
            w.ctxs.contains_key(x) implies #[trigger] kin::waits_for(v.ctxs[x], id)
            == kin::waits_for(w.ctxs[x], id) by {
            assert(v.ctxs[x].waiters == w.ctxs[x].waiters);
        }
        assert forall|x: u64, y: u64, id: u64|
            #![trigger kin::waits_for(v.ctxs[x], id), kin::waits_for(v.ctxs[y], id)]
            v.ctxs.contains_key(x) && v.ctxs.contains_key(y) && kin::waits_for(v.ctxs[x], id)
                && kin::waits_for(v.ctxs[y], id) implies x == y by {
            assert(w.ctxs.contains_key(x) && w.ctxs.contains_key(y));
            assert(kin::waits_for(w.ctxs[x], id) && kin::waits_for(w.ctxs[y], id));
        }
        assert forall|x: u64, id: u64| #[trigger]
            kin::waits_for(v.ctxs[x], id) && v.ctxs.contains_key(x) implies id < v.sched.seq by {
            assert(w.ctxs.contains_key(x));
            assert(kin::waits_for(w.ctxs[x], id));
        }
    }
    assert(w.ctxs[parent].children[i] == k);
    assert(v.ctxs[k].parent == Some(parent));
    assert(kin::live_below(v.ctxs, parent, parent));
    assert(kin::live_below(v.ctxs, k, parent));
    kin::cancel_reaches_all_below(v, parent, k);
    assert(v.ctxs[k] == w.ctxs[k]);
}

/// The seed that is reached from `s` by these forks: at each, the text
/// `::fork:` and the number of the fork are added.
pub open spec fn path_seed(s: Seq<char>, path: Seq<nat>) -> Seq<char>
    decreases path.len(),
{
    if path.len() == 0 {
        s
    } else {
        path_seed(s, path.drop_last()) + "::fork:"@ + text::decimal(path.last())
    }
}

/// A seed of a child tells its parent's seed and the number of the fork.
proof fn lemma_child_seed_splits(a: Seq<char>, i: nat, b: Seq<char>, j: nat)
    requires
        a + "::fork:"@ + text::decimal(i) == b + "::fork:"@ + text::decimal(j),
    ensures
        a == b,
        i == j,
{
    let mid = "::fork:"@;
    reveal_strlit("::fork:");
    let di = text::decimal(i);
    let dj = text::decimal(j);
    let x = a + mid + di;
    let y = b + mid + dj;
    text::decimal_reads_back(i);
    text::decimal_reads_back(j);
    assert(mid.len() == 7 && mid[6] == ':');
    assert(x[a.len() as int + 6] == ':');
    assert(y[b.len() as int + 6] == ':');
    assert forall|n: int| 0 <= n < di.len() implies text::is_digit(#[trigger] x[a.len() + 7 + n])
        by {
        assert(x[a.len() + 7 + n] == di[n]);
        assert(text::is_digit(text::digits(di)[n]));
    }
    assert forall|n: int| 0 <= n < dj.len() implies text::is_digit(#[trigger] y[b.len() + 7 + n])
        by {
        assert(y[b.len() + 7 + n] == dj[n]);
        assert(text::is_digit(text::digits(dj)[n]));
    }
    assert(x.len() == a.len() + 7 + di.len());
    assert(y.len() == b.len() + 7 + dj.len());
    if di.len() < dj.len() {
        let n = a.len() + 6 - b.len() - 7;
        assert(0 <= n < dj.len());
        assert(text::is_digit(y[b.len() + 7 + n]));
        assert(false);
    }
    if dj.len() < di.len() {
        let n = b.len() + 6 - a.len() - 7;
        assert(0 <= n < di.len());
        assert(text::is_digit(x[a.len() + 7 + n]));
        assert(false);
    }
    assert(a.len() == b.len());
    assert forall|n: int| 0 <= n < a.len() implies a[n] == b[n] by {
        assert(x[n] == a[n] && y[n] == b[n]);
    }
    assert(a =~= b);
    assert forall|n: int| 0 <= n < di.len() implies di[n] == dj[n] by {
        assert(x[a.len() + 7 + n] == di[n] && y[b.len() + 7 + n] == dj[n]);
    }
    assert(di =~= dj);
    if i != j {
        text::decimals_differ(i, j);
    }
}

proof fn lemma_path_grows(s: Seq<char>, path: Seq<nat>)
    ensures
        path_seed(s, path).len() >= s.len(),
        path.len() > 0 ==> path_seed(s, path).len() > s.len(),
    decreases path.len(),
{
    if path.len() > 0 {
        reveal_strlit("::fork:");
        lemma_path_grows(s, path.drop_last());
    }
}

/// Different ways through the forks of one tree lead to different seeds.
pub proof fn seeds_tell_the_paths_apart(s: Seq<char>, p: Seq<nat>, q: Seq<nat>)
    requires
        p != q,
    ensures
        path_seed(s, p) != path_seed(s, q),
    decreases p.len(),
{
    lemma_path_grows(s, p);
    lemma_path_grows(s, q);
    if p.len() == 0 && q.len() == 0 {
        assert(p =~= q);
    }
    if p.len() > 0 && q.len() > 0 && path_seed(s, p) == path_seed(s, q) {
        let a = path_seed(s, p.drop_last());
        let b = path_seed(s, q.drop_last());
        lemma_child_seed_splits(a, p.last(), b, q.last());
        if p.drop_last() != q.drop_last() {
            seeds_tell_the_paths_apart(s, p.drop_last(), q.drop_last());
        }
        assert(p =~= p.drop_last().push(p.last()));
        assert(q =~= q.drop_last().push(q.last()));
    }
}

/// One branching: who branches and how.
pub struct Branching {
    /// The parent.
    pub parent: u64,
    /// The time at which the child starts.
    pub t: Flt,
    /// How it relates to its parent.
    pub opts: BranchOptions,
    /// Whether its parent waits for it.
    pub completion: Option<CompletionState>,
}

/// After these branchings, one after the other.
pub open spec fn branched(w: WorldView, bs: Seq<Branching>) -> WorldView
    decreases bs.len(),
{
    if bs.len() == 0 {
        w
    } else {
        let b = bs.last();
        branched(w, bs.drop_last()).with_child(b.parent, b.t, b.opts, b.completion)
    }
}

/// How many of these forked a generator off that context's.
pub open spec fn forks_of(bs: Seq<Branching>, ctx: u64) -> nat
    decreases bs.len(),
{
    if bs.len() == 0 {
        0
    } else {
        forks_of(bs.drop_last(), ctx) + if bs.last().parent == ctx && bs.last().opts.rng is Forked {
            1nat
        } else {
            0nat
        }
    }
}

/// The forks on the way from the root to a context, each by how many its parent
/// had before. The contexts are numbered in the order of the branchings.
pub open spec fn path_of(bs: Seq<Branching>, root: u64, ctx: int) -> Seq<nat>
    decreases ctx,
{
    let i = ctx - root - 1;
    if 0 <= i < bs.len() && bs[i].parent < ctx {
        let p = path_of(bs, root, bs[i].parent as int);
        if bs[i].opts.rng is Forked {
            p.push(forks_of(bs.take(i), bs[i].parent))
        } else {
            p
        }
    } else {
        Seq::empty()
    }
}

/// Each branching is by the root or by a context that is there already.
pub open spec fn in_order(bs: Seq<Branching>, root: u64) -> bool {
    forall|i: int| 0 <= i < bs.len() ==> root <= (#[trigger] bs[i]).parent <= root + i
}

proof fn lemma_path_of(bs: Seq<Branching>, root: u64, ctx: int)
    requires
        bs.len() > 0,
        ctx <= root + bs.len() - 1,
    ensures
        path_of(bs.drop_last(), root, ctx) == path_of(bs, root, ctx),
    decreases ctx,
{
    let i = ctx - root - 1;
    let init = bs.drop_last();
    if 0 <= i < bs.len() {
        assert(init[i] == bs[i]);
        assert(init.take(i) =~= bs.take(i));
        if bs[i].parent < ctx {
            lemma_path_of(bs, root, bs[i].parent as int);
        }
    }
}

/// The context is there, its seed is that of its path, and it has forked as
/// often as these branchings say.
pub open spec fn keeps_its_path(
    v: WorldView,
    s: Seq<char>,
    bs: Seq<Branching>,
    root: u64,
    c: u64,
) -> bool {
    &&& v.ctxs.contains_key(c)
    &&& v.ctxs[c].id == c
    &&& v.ctxs[c].seed == path_seed(s, path_of(bs, root, c as int))
    &&& v.ctxs[c].forks == forks_of(bs, c)
    &&& v.rngs.contains_key(v.ctxs[c].rng)
}

/// The child of that branching has the parent that it names. A child that was
/// forked has a generator of its own, which starts from the seed of its path;
/// another one has its parent's.
pub open spec fn starts_from_its_path(
    v: WorldView,
    s: Seq<char>,
    bs: Seq<Branching>,
    root: u64,
    i: int,
) -> bool {
    let c = (root + 1 + i) as u64;
    let p = bs[i].parent;
    &&& v.ctxs[c].parent == Some(p)
    &&& bs[i].opts.rng is Forked ==> v.rngs[v.ctxs[c].rng] == context::seeded(
        path_seed(s, path_of(bs, root, c as int)),
    )
    &&& bs[i].opts.rng is Forked ==> v.ctxs[c].rng != v.ctxs[p].rng
    &&& bs[i].opts.rng is Shared ==> v.ctxs[c].rng == v.ctxs[p].rng
}

/// The generator of every context starts from its way through the forks: from
/// the seed of the root, with `::fork:` and a number added at each fork. This
/// is also the seed that the context keeps for its own children. A context that
/// shares its parent's generator has its parent's seed.
pub proof fn generators_start_from_their_paths(w: WorldView, root: u64, bs: Seq<Branching>)
    requires
        w.ctxs.contains_key(root),
        w.ctxs[root].id == root,
        w.ctxs[root].forks == 0,
        w.rngs.contains_key(w.ctxs[root].rng),
        w.next_ctx == root + 1,
        forall|g: u64| #[trigger] w.rngs.contains_key(g) ==> g < w.next_rng,
        in_order(bs, root),
        root + 1 + bs.len() <= u64::MAX,
        w.next_rng + bs.len() <= u64::MAX,
    ensures
        ({
            let v = branched(w, bs);
            let s = w.ctxs[root].seed;
            &&& v.next_ctx == root + 1 + bs.len()
            &&& v.next_rng <= w.next_rng + bs.len()
            &&& forall|g: u64| #[trigger] v.rngs.contains_key(g) ==> g < v.next_rng
            &&& forall|c: u64|
                root <= c <= root + bs.len() ==> #[trigger] keeps_its_path(v, s, bs, root, c)
            &&& forall|i: int|
                0 <= i < bs.len() ==> #[trigger] starts_from_its_path(v, s, bs, root, i)
        }),
    decreases bs.len(),
{
    let s = w.ctxs[root].seed;
    let v = branched(w, bs);
    if bs.len() == 0 {
        assert(forks_of(bs, root) == 0);
        assert(path_of(bs, root, root as int) =~= Seq::<nat>::empty());
        assert forall|c: u64| root <= c <= root + bs.len() implies #[trigger] keeps_its_path(
            v,
            s,
            bs,
            root,
            c,
        ) by {
            assert(c == root);
        }
    } else {
        let init = bs.drop_last();
        let b = bs.last();
        let u = branched(w, init);
        assert forall|i: int| 0 <= i < init.len() implies root <= (#[trigger] init[i]).parent
            <= root + i by {
            assert(init[i] == bs[i]);
        }
        generators_start_from_their_paths(w, root, init);
        let n = bs.len() - 1;
        assert(bs[n] == b);
        assert(keeps_its_path(u, s, init, root, b.parent));
        assert forall|c: u64| root <= c <= root + bs.len() implies #[trigger] keeps_its_path(
            v,
            s,
            bs,
            root,
            c,
        ) by {
            if c <= root + n {
                assert(keeps_its_path(u, s, init, root, c));
                lemma_older_keeps(u, s, bs, root, c);
            } else {
                lemma_newest_keeps(u, s, bs, root);
            }
        }
        assert forall|i: int| 0 <= i < bs.len() implies #[trigger] starts_from_its_path(
            v,
            s,
            bs,
            root,
            i,
        ) by {
            if i < n {
                assert(init[i] == bs[i]);
                assert(starts_from_its_path(u, s, init, root, i));
                assert(keeps_its_path(u, s, init, root, (root + 1 + i) as u64));
                assert(keeps_its_path(u, s, init, root, bs[i].parent));
                lemma_older_starts(u, s, bs, root, i);
            } else {
                lemma_newest_keeps(u, s, bs, root);
            }
        }
    }
}

/// One more branching leaves the contexts that are there on their paths.
proof fn lemma_older_keeps(u: WorldView, s: Seq<char>, bs: Seq<Branching>, root: u64, c: u64)
    requires
        bs.len() > 0,
        in_order(bs, root),
        root + 1 + bs.len() <= u64::MAX,
        u.next_ctx == root + bs.len(),
        keeps_its_path(u, s, bs.drop_last(), root, bs.last().parent),
        keeps_its_path(u, s, bs.drop_last(), root, c),
        root <= c < root + bs.len(),
    ensures
        ({
            let b = bs.last();
            keeps_its_path(
                u.with_child(b.parent, b.t, b.opts, b.completion),
                s,
                bs,
                root,
                c,
            )
        }),
{
    lemma_path_of(bs, root, c as int);
    lemma_forks_bound(bs, c);
    lemma_forks_bound(bs.drop_last(), c);
}

/// The newest context is on its path, and so is its generator.
proof fn lemma_newest_keeps(u: WorldView, s: Seq<char>, bs: Seq<Branching>, root: u64)
    requires
        bs.len() > 0,
        in_order(bs, root),
        root + 1 + bs.len() <= u64::MAX,
        u.next_ctx == root + bs.len(),
        keeps_its_path(u, s, bs.drop_last(), root, bs.last().parent),
        forall|g: u64| #[trigger] u.rngs.contains_key(g) ==> g < u.next_rng,
    ensures
        ({
            let b = bs.last();
            let v = u.with_child(b.parent, b.t, b.opts, b.completion);
            &&& keeps_its_path(v, s, bs, root, u.next_ctx)
            &&& starts_from_its_path(v, s, bs, root, bs.len() - 1)
        }),
{
    let b = bs.last();
    let n = bs.len() - 1;
    let init = bs.drop_last();
    let new = u.next_ctx;
    assert(bs[n] == b);
    assert(bs.take(n) =~= init);
    lemma_path_of(bs, root, b.parent as int);
    let p = path_of(bs, root, b.parent as int);
    let here = path_of(bs, root, new as int);
    if b.opts.rng is Forked {
        assert(here == p.push(forks_of(init, b.parent)));
        assert(here.drop_last() =~= p);
        assert(path_seed(s, here) == path_seed(s, p) + "::fork:"@ + text::decimal(here.last()));
    } else {
        assert(here == p);
    }
    lemma_no_forks(bs, root, new);
}

/// One more branching leaves the generators that are there where they are.
proof fn lemma_older_starts(u: WorldView, s: Seq<char>, bs: Seq<Branching>, root: u64, i: int)
    requires
        bs.len() > 0,
        in_order(bs, root),
        root + 1 + bs.len() <= u64::MAX,
        u.next_ctx == root + bs.len(),
        0 <= i < bs.len() - 1,
        starts_from_its_path(u, s, bs.drop_last(), root, i),
        keeps_its_path(u, s, bs.drop_last(), root, bs.last().parent),
        keeps_its_path(u, s, bs.drop_last(), root, (root + 1 + i) as u64),
        keeps_its_path(u, s, bs.drop_last(), root, bs[i].parent),
        forall|g: u64| #[trigger] u.rngs.contains_key(g) ==> g < u.next_rng,
    ensures
        ({
            let b = bs.last();
            starts_from_its_path(
                u.with_child(b.parent, b.t, b.opts, b.completion),
                s,
                bs,
                root,
                i,
            )
        }),
{
    assert(bs.drop_last()[i] == bs[i]);
    lemma_path_of(bs, root, root + 1 + i);
}

/// Two contexts of a tree that were reached by different forks have different
/// seeds.
pub proof fn different_paths_have_different_seeds(
    w: WorldView,
    root: u64,
    bs: Seq<Branching>,
    a: u64,
    b: u64,
)
    requires
        w.ctxs.contains_key(root),
        w.ctxs[root].id == root,
        w.ctxs[root].forks == 0,
        w.rngs.contains_key(w.ctxs[root].rng),
        w.next_ctx == root + 1,
        forall|g: u64| #[trigger] w.rngs.contains_key(g) ==> g < w.next_rng,
        in_order(bs, root),
        root + 1 + bs.len() <= u64::MAX,
        w.next_rng + bs.len() <= u64::MAX,
        root <= a <= root + bs.len(),
        root <= b <= root + bs.len(),
        path_of(bs, root, a as int) != path_of(bs, root, b as int),
    ensures
        branched(w, bs).ctxs[a].seed != branched(w, bs).ctxs[b].seed,
{
    let s = w.ctxs[root].seed;
    let v = branched(w, bs);
    generators_start_from_their_paths(w, root, bs);
    assert(keeps_its_path(v, s, bs, root, a));
    assert(keeps_its_path(v, s, bs, root, b));
    seeds_tell_the_paths_apart(s, path_of(bs, root, a as int), path_of(bs, root, b as int));
}

/// A branch adds one context and changes its parent in two respects: it has one
/// child more, the youngest, and, where the child's generator is forked, one
/// fork more. The child belongs to the tree of its parent, waits for nothing, and
/// has no children and no handlers. Everything else stays as it is.
pub proof fn branch_adds_one_child(
    w: WorldView,
    parent: u64,
    t: Flt,
    opts: BranchOptions,
    done: Option<CompletionState>,
)
    requires
        w.wf(),
        w.ctxs.contains_key(parent),
        w.has_room(parent),
    ensures
        ({
            let v = w.with_child(parent, t, opts, done);
            let id = w.next_ctx;
            let c = v.ctxs[id];
            let p = w.ctxs[parent];
            &&& !w.ctxs.contains_key(id)
            &&& v.next_ctx == id + 1
            &&& forall|k: u64| #[trigger]
                v.ctxs.contains_key(k) <==> w.ctxs.contains_key(k) || k == id
            &&& forall|k: u64| k != id && k != parent ==> #[trigger] v.ctxs[k] == w.ctxs[k]
            &&& v.ctxs[parent] == CtxView {
                children: p.children + seq![id],
                forks: v.ctxs[parent].forks,
                ..p
            }
            &&& v.ctxs[parent].forks == p.forks + if opts.rng is Forked {
                1int
            } else {
                0int
            }
            &&& c.id == id
            &&& c.parent == Some(parent)
            &&& c.root == p.root
            &&& c.time == t
            &&& c.start_time == t
            &&& !c.canceled
            &&& c.waiters.len() == 0
            &&& c.children.len() == 0
            &&& c.handlers.len() == 0
            &&& c.forks == 0
            &&& c.completion == done
            &&& v.tasks == w.tasks
            &&& v.sched == w.sched
            &&& v.waits == w.waits
            &&& v.barriers == w.barriers
            &&& v.barrier_waits == w.barrier_waits
            &&& v.fired == w.fired
            &&& opts.tempo is Shared ==> c.tempo == p.tempo && v.tempos == w.tempos
            &&& opts.tempo is Cloned ==> {
                &&& !w.tempos.maps.contains_key(c.tempo)
                &&& v.tempos.maps.contains_key(c.tempo)
                &&& v.tempos.maps[c.tempo].segs == w.tempos.maps[p.tempo].segs
                &&& v.tempos.maps[c.tempo].version == w.tempos.maps[p.tempo].version
                &&& v.tempos.maps[c.tempo].id == c.tempo
                &&& forall|k: u64| k != c.tempo ==> #[trigger] v.tempos.maps[k] == w.tempos.maps[k]
            }
            &&& opts.rng is Shared ==> c.rng == p.rng && c.seed == p.seed && v.rngs == w.rngs
            &&& opts.rng is Forked ==> {
                &&& !w.rngs.contains_key(c.rng)
                &&& v.rngs.contains_key(c.rng)
                &&& v.rngs[c.rng] == context::seeded(c.seed)
                &&& c.seed == p.seed + "::fork:"@ + text::decimal(p.forks as nat)
                &&& forall|k: u64| k != c.rng ==> #[trigger] v.rngs[k] == w.rngs[k]
            }
        }),
{
    assert(w.ctxs[parent].wf(w));
    if w.ctxs.contains_key(w.next_ctx) {
        assert(w.ctxs[w.next_ctx].wf(w));
    }
    let id = w.next_ctx;
    assert(w.ctxs[parent].children.push(id) =~= w.ctxs[parent].children + seq![id]);
}

/// A child belongs to the tree of its parent: both meet at the same barriers.
pub proof fn child_meets_at_its_parents_barriers(
    w: WorldView,
    parent: u64,
    t: Flt,
    opts: BranchOptions,
    done: Option<CompletionState>,
)
    requires
        w.wf(),
        w.ctxs.contains_key(parent),
        w.has_room(parent),
        w.ctxs[parent].root matches Some(r) && w.ctxs.contains_key(r),
    ensures
        ({
            let v = w.with_child(parent, t, opts, done);
            &&& v.root_of(w.next_ctx) == w.root_of(parent)
            &&& v.root_of(parent) == w.root_of(parent)
        }),
{
    branch_adds_one_child(w, parent, t, opts, done);
}

/// Another root has a tree, a tempo and a generator of its own, and leaves all
/// others as they are.
pub proof fn roots_are_on_their_own(w: WorldView, bpm: Flt, seed: Seq<char>)
    requires
        w.wf(),
        w.next_ctx < u64::MAX,
        w.next_rng < u64::MAX,
        w.tempos.next < u64::MAX,
    ensures
        ({
            let v = w.with_root(bpm, seed);
            let id = w.next_ctx;
            let c = v.ctxs[id];
            &&& !w.ctxs.contains_key(id)
            &&& forall|k: u64| #[trigger]
                v.ctxs.contains_key(k) <==> w.ctxs.contains_key(k) || k == id
            &&& forall|k: u64| k != id ==> #[trigger] v.ctxs[k] == w.ctxs[k]
            &&& c.id == id
            &&& c.root == Some(id)
            &&& v.root_of(id) == id
            &&& c.parent is None
            &&& c.time == Flt::zero()
            &&& c.start_time == Flt::zero()
            &&& !c.canceled
            &&& c.seed == seed
            &&& c.forks == 0
            &&& c.children.len() == 0
            &&& c.waiters.len() == 0
            &&& c.handlers.len() == 0
            &&& c.completion is None
            &&& v.next_ctx == id + 1
            &&& v.next_rng == w.next_rng + 1
            &&& v.tempos.next == w.tempos.next + 1
            &&& !w.rngs.contains_key(c.rng)
            &&& v.rngs[c.rng] == context::seeded(seed)
            &&& forall|k: u64| k != c.rng ==> #[trigger] v.rngs[k] == w.rngs[k]
            &&& !w.tempos.maps.contains_key(c.tempo)
            &&& v.tempos.maps.contains_key(c.tempo)
            &&& forall|k: u64| k != c.tempo ==> #[trigger] v.tempos.maps[k] == w.tempos.maps[k]
            &&& v.tasks == w.tasks
            &&& v.sched == w.sched
            &&& v.waits == w.waits
            &&& v.barriers == w.barriers
        }),
{
    if w.ctxs.contains_key(w.next_ctx) {
        assert(w.ctxs[w.next_ctx].wf(w));
    }
}

/// A parent that polls for the end of a child that goes on leaves word whom to
/// wake, and changes nothing else; if the child was cancelled, the poll fails.
pub proof fn join_waits_for_the_child(w: WorldView, parent: u64, child: u64, waker: u64)
    requires
        w.ctxs.contains_key(child),
        w.ctxs[child].id == child,
        w.ctxs[child].completion is Some,
    ensures
        ({
            let (v, r) = w.branch_polled(parent, child, waker);
            let s = w.ctxs[child].completion->Some_0;
            &&& w.ctxs[child].canceled ==> v == w && r is Some && r->Some_0 is Err
            &&& !w.ctxs[child].canceled && !s.done ==> {
                &&& r is None
                &&& v.ctxs[child].completion is Some
                &&& v.ctxs[child].completion->Some_0.waker == Some(waker)
                &&& !v.ctxs[child].completion->Some_0.done
                &&& v.ctxs[child] == CtxView {
                    completion: v.ctxs[child].completion,
                    ..w.ctxs[child]
                }
                &&& forall|k: u64| k != child ==> #[trigger] v.ctxs[k] == w.ctxs[k]
                &&& v == WorldView { ctxs: v.ctxs, ..w }
            }
            &&& !w.ctxs[child].canceled && s.done ==> r == Some(Ok::<(), Seq<char>>(()))
        }),
{
}

proof fn lemma_forks_bound(bs: Seq<Branching>, ctx: u64)
    ensures
        forks_of(bs, ctx) <= bs.len(),
    decreases bs.len(),
{
    if bs.len() > 0 {
        lemma_forks_bound(bs.drop_last(), ctx);
    }
}

/// The youngest context has forked nothing yet.
proof fn lemma_no_forks(bs: Seq<Branching>, root: u64, ctx: u64)
    requires
        in_order(bs, root),
        ctx >= root + bs.len(),
        ctx > root,
    ensures
        forks_of(bs, ctx) == 0,
    decreases bs.len(),
{
    if bs.len() > 0 {
        let init = bs.drop_last();
        assert forall|i: int| 0 <= i < init.len() implies root <= (#[trigger] init[i]).parent
            <= root + i by {
            assert(init[i] == bs[i]);
        }
        assert(bs[bs.len() - 1] == bs.last());
        lemma_no_forks(init, root, ctx);
    }
}

} // verus!
