//! Which task runs next.
//!
//! Tasks run one at a time, in the order in which they became ready. The
//! host owns the futures and polls them; this module decides which one, and
//! when nothing is left to do.
use std::collections::{HashMap, VecDeque};
use vstd::prelude::*;

verus! {

broadcast use vstd::std_specs::hash::group_hash_axioms;

/// A task, by its number.
#[derive(Clone, Copy, Debug, PartialEq, Eq, Structural)]
pub struct Task {
    /// The number under which the executor knows the task.
    pub id: u64,
}

/// How far a run has come.
#[derive(Clone, Copy, Debug, PartialEq, Eq, Structural)]
pub enum Run {
    /// Nothing was polled yet.
    Start,
    /// The host polls `task` next; that is the latest of `polls` polls.
    Polling {
        /// The task to poll.
        task: u64,
        /// The polls so far, this one included.
        polls: usize,
    },
    /// No task is ready.
    Stalled {
        /// The polls that the run took.
        polls: usize,
    },
}

/// What an executor is.
#[verifier::ext_equal]
pub struct ExecView {
    /// The ready tasks, the next one first. A task that has completed since
    /// it was queued is still among them.
    pub ready: Seq<u64>,
    /// The tasks that have not completed.
    pub live: Set<u64>,
    /// The number of the next task.
    pub next: u64,
}

impl ExecView {
    /// Nothing is queued twice, and every task has a number below the next.
    pub open spec fn wf(self) -> bool {
        &&& self.ready.no_duplicates()
        &&& forall|i: int| 0 <= i < self.ready.len() ==> #[trigger] self.ready[i] < self.next
        &&& forall|id: u64| #[trigger] self.live.contains(id) ==> id < self.next
    }

    /// After a new task is queued.
    pub open spec fn spawned(self) -> ExecView {
        ExecView {
            ready: self.ready.push(self.next),
            live: self.live.insert(self.next),
            next: (self.next + 1) as u64,
        }
    }

    /// After a task is woken: queued, unless it has completed or is queued.
    pub open spec fn woken(self, id: u64) -> ExecView {
        if self.live.contains(id) && !self.ready.contains(id) {
            ExecView { ready: self.ready.push(id), ..self }
        } else {
            self
        }
    }

    /// After a task is woken, where there is one.
    pub open spec fn woken_opt(self, id: Option<u64>) -> ExecView {
        match id {
            Some(t) => self.woken(t),
            None => self,
        }
    }

    /// After a task completed.
    pub open spec fn completed(self, id: u64) -> ExecView {
        ExecView { live: self.live.remove(id), ..self }
    }

    /// After the next task was taken from the queue.
    pub open spec fn taken(self) -> ExecView {
        let s = unstale(self.ready, self.live);
        ExecView {
            ready: if s.len() == 0 {
                s
            } else {
                s.skip(1)
            },
            ..self
        }
    }

    /// The task that is taken next.
    pub open spec fn front(self) -> Option<u64> {
        let s = unstale(self.ready, self.live);
        if s.len() == 0 {
            None
        } else {
            Some(s[0])
        }
    }
}

/// The queue without the completed tasks at its head.
pub open spec fn unstale(ready: Seq<u64>, live: Set<u64>) -> Seq<u64>
    decreases ready.len(),
{
    if ready.len() > 0 && !live.contains(ready[0]) {
        unstale(ready.skip(1), live)
    } else {
        ready
    }
}

/// The executor once it heard whether the task that it had polled completed.
pub open spec fn told(e: ExecView, run: Run, completed: bool) -> ExecView {
    match run {
        Run::Polling { task, .. } => if completed {
            e.completed(task)
        } else {
            e
        },
        _ => e,
    }
}

/// The polls of a run so far.
pub open spec fn polls_of(run: Run) -> usize {
    match run {
        Run::Start => 0,
        Run::Polling { polls, .. } => polls,
        Run::Stalled { polls } => polls,
    }
}

/// How a run goes on.
pub open spec fn run_next(e: ExecView, run: Run, completed: bool) -> (ExecView, Run) {
    let now = told(e, run, completed);
    match now.front() {
        Some(task) => (
            now.taken(),
            Run::Polling { task, polls: (polls_of(run) + 1) as usize },
        ),
        None => (now.taken(), Run::Stalled { polls: polls_of(run) }),
    }
}

/// The queue of ready tasks.
pub struct Executor {
    ready: VecDeque<u64>,
    /// The tasks that have not completed, and whether each is queued.
    tasks: HashMap<u64, bool>,
    next: u64,
}

impl View for Executor {
    type V = ExecView;

    closed spec fn view(&self) -> ExecView {
        ExecView { ready: self.ready@, live: self.tasks@.dom(), next: self.next }
    }
}

impl Executor {
    /// Every task knows whether it is queued.
    pub closed spec fn wf(&self) -> bool {
        &&& self@.wf()
        &&& forall|id: u64| #[trigger]
            self.tasks@.contains_key(id) ==> self.tasks@[id] == self.ready@.contains(id)
    }

    /// An executor without tasks.
    pub fn new() -> (r: Self)
        ensures
            r.wf(),
            r@ == (ExecView { ready: Seq::empty(), live: Set::empty(), next: 0 }),
    {
        Executor { ready: VecDeque::new(), tasks: HashMap::new(), next: 0 }
    }

    /// The numbers of tasks have not run out.
    pub fn has_room(&self) -> (r: bool)
        ensures
            r == (self@.next < u64::MAX),
    {
        self.next < u64::MAX
    }

    /// Queues a new task.
    pub fn spawn(&mut self) -> (r: Task)
        requires
            old(self).wf(),
            old(self)@.next < u64::MAX,
        ensures
            final(self).wf(),
            final(self)@ == old(self)@.spawned(),
            r.id == old(self)@.next,
    {
        let id: u64 = self.next;
        self.ready.push_back(id);
        self.tasks.insert(id, true);
        self.next = id + 1;
        proof {
            lemma_pushed(old(self)@.ready, id);
            assert(self@.live =~= old(self)@.live.insert(id));
        }
        Task { id }
    }

    /// Queues a task, unless it has completed or is queued already.
    pub fn enqueue(&mut self, id: u64)
        requires
            old(self).wf(),
        ensures
            final(self).wf(),
            final(self)@ == old(self)@.woken(id),
    {
        match self.tasks.get(&id) {
            Some(queued) => {
                if !*queued {
                    self.ready.push_back(id);
                    self.tasks.insert(id, true);
                    proof {
                        lemma_pushed(old(self)@.ready, id);
                        assert(self@.live =~= old(self)@.live);
                    }
                }
            },
            None => {},
        }
    }

    /// Goes on with a run: takes note of whether the task that was polled
    /// last has completed, and says which one is next.
    pub fn run_until_stalled(&mut self, run: Run, completed: bool) -> (r: Run)
        requires
            old(self).wf(),
            polls_of(run) < usize::MAX,
        ensures
            final(self).wf(),
            final(self)@ == run_next(old(self)@, run, completed).0,
            r == run_next(old(self)@, run, completed).1,
    {
        let mut polls: usize = 0;
        match run {
            Run::Start => {},
            Run::Polling { task, polls: n } => {
                polls = n;
                if completed {
                    self.tasks.remove(&task);
                    assert(self@.live =~= old(self)@.live.remove(task));
                }
            },
            Run::Stalled { polls: n } => {
                polls = n;
            },
        }
        match self.take_ready() {
            Some(task) => Run::Polling { task, polls: polls + 1 },
            None => Run::Stalled { polls },
        }
    }

    /// Takes the next task from the queue, past those that have completed.
    fn take_ready(&mut self) -> (r: Option<u64>)
        requires
            old(self).wf(),
        ensures
            final(self).wf(),
            final(self)@ == old(self)@.taken(),
            r == old(self)@.front(),
    {
        loop
            invariant
                self.wf(),
                self@.live == old(self)@.live,
                self@.next == old(self)@.next,
                unstale(self@.ready, self@.live) == unstale(old(self)@.ready, old(self)@.live),
            decreases self@.ready.len(),
        {
            let ghost was = self@;
            match self.ready.pop_front() {
                Some(id) => {
                    proof {
                        lemma_popped(was.ready);
                        assert(self.ready@ =~= was.ready.skip(1));
                    }
                    if self.tasks.contains_key(&id) {
                        self.tasks.insert(id, false);
                        assert(self@.live =~= was.live);
                        return Some(id);
                    }
                },
                None => {
                    return None;
                },
            }
        }
    }

    /// The task has not completed.
    pub fn is_live(&self, id: u64) -> (r: bool)
        ensures
            r == self@.live.contains(id),
    {
        self.tasks.contains_key(&id)
    }

    /// Some task is queued.
    pub fn has_ready_tasks(&self) -> (r: bool)
        ensures
            r == (self@.ready.len() > 0),
    {
        self.ready.len() > 0
    }
}

impl Default for Executor {
    fn default() -> (r: Self)
        ensures
            r.wf(),
            r@ == (ExecView { ready: Seq::empty(), live: Set::empty(), next: 0 }),
    {
        Self::new()
    }
}

proof fn lemma_pushed(s: Seq<u64>, id: u64)
    ensures
        forall|x: u64| #[trigger] s.push(id).contains(x) == (s.contains(x) || x == id),
        s.no_duplicates() && !s.contains(id) ==> s.push(id).no_duplicates(),
{
    assert forall|x: u64| #[trigger] s.push(id).contains(x) == (s.contains(x) || x == id) by {
        if s.contains(x) {
            let i = choose|i: int| 0 <= i < s.len() && s[i] == x;
            assert(s.push(id)[i] == x);
        }
        assert(s.push(id)[s.len() as int] == id);
    }
}

proof fn lemma_popped(s: Seq<u64>)
    requires
        s.len() > 0,
        s.no_duplicates(),
    ensures
        s.skip(1).no_duplicates(),
        forall|x: u64| #[trigger] s.skip(1).contains(x) == (s.contains(x) && x != s[0]),
{
    assert forall|x: u64| #[trigger] s.skip(1).contains(x) == (s.contains(x) && x != s[0]) by {
        if s.contains(x) && x != s[0] {
            let i = choose|i: int| 0 <= i < s.len() && s[i] == x;
            assert(s.skip(1)[i - 1] == x);
        }
        if s.skip(1).contains(x) {
            let i = choose|i: int| 0 <= i < s.len() - 1 && s.skip(1)[i] == x;
            assert(s[i + 1] == x);
        }
    }
}

/// Waking a task twice before it runs queues it once.
pub proof fn wakes_before_a_poll_count_once(e: ExecView, id: u64)
    ensures
        e.woken(id).woken(id) == e.woken(id),
{
    lemma_pushed(e.ready, id);
}

/// A completed task does not run again: it is never taken, no wake queues
/// it, and no new task gets its number.
pub proof fn completed_task_stays_away(e: ExecView, id: u64)
    requires
        e.wf(),
        id < e.next,
        !e.live.contains(id),
    ensures
        e.front() != Some(id),
        e.woken(id) == e,
        !e.taken().live.contains(id),
        e.next < u64::MAX ==> !e.spawned().live.contains(id),
        forall|o: u64| !(#[trigger] e.woken(o)).live.contains(id),
{
    lemma_unstale(e.ready, e.live);
}

/// The task that is taken is ready and has not completed.
proof fn lemma_unstale(ready: Seq<u64>, live: Set<u64>)
    ensures
        unstale(ready, live).len() > 0 ==> live.contains(unstale(ready, live)[0]),
        unstale(ready, live).len() > 0 ==> ready.contains(unstale(ready, live)[0]),
    decreases ready.len(),
{
    if ready.len() > 0 && !live.contains(ready[0]) {
        let tail = ready.skip(1);
        lemma_unstale(tail, live);
        let s = unstale(tail, live);
        if s.len() > 0 {
            let i = choose|i: int| 0 <= i < tail.len() && tail[i] == s[0];
            assert(ready[i + 1] == s[0]);
        }
    }
}

/// A run stalls only when nothing is ready any more.
pub proof fn stalled_run_is_drained(e: ExecView, run: Run, completed: bool)
    requires
        run_next(e, run, completed).1 is Stalled,
    ensures
        run_next(e, run, completed).0.ready.len() == 0,
{
}

/// Tasks run in the order in which they became ready: as long as the task at
/// the head has not completed, it is the one taken, and the others keep
/// their places; what is queued later comes later.
pub proof fn tasks_run_in_queue_order(e: ExecView, id: u64)
    requires
        e.ready.len() > 0,
        e.live.contains(e.ready[0]),
        e.live.contains(id),
        !e.ready.contains(id),
    ensures
        e.front() == Some(e.ready[0]),
        e.taken().ready == e.ready.skip(1),
        e.woken(id).front() == e.front(),
        e.woken(id).taken().ready == e.ready.skip(1).push(id),
{
    assert(e.woken(id).ready[0] == e.ready[0]);
    assert(e.woken(id).taken().ready =~= e.ready.skip(1).push(id));
}

/// What a task does to the queue while it is polled.
pub enum Stir {
    /// Queues a new task.
    Spawn,
    /// Wakes a task.
    Wake(u64),
}

/// One poll: what the task does to the queue, and whether it completes.
pub struct Turn {
    /// What it does to the queue.
    pub stirs: Seq<Stir>,
    /// It completes.
    pub completes: bool,
}

/// How a whole run has gone so far.
pub struct History {
    /// The executor.
    pub queue: ExecView,
    /// How far the run has come.
    pub run: Run,
    /// The tasks that became ready, in order, those from before the run first.
    pub arrived: Seq<u64>,
    /// How many of them have left the queue.
    pub left: nat,
    /// The tasks that were polled, in order.
    pub polled: Seq<u64>,
    /// Where each of these stands among those that became ready.
    pub places: Seq<int>,
}

/// After one stir.
pub open spec fn stirred_once(e: ExecView, x: Stir) -> ExecView {
    match x {
        Stir::Spawn => if e.next < u64::MAX {
            e.spawned()
        } else {
            e
        },
        Stir::Wake(id) => e.woken(id),
    }
}

/// After these stirs, one after the other.
pub open spec fn stirred(e: ExecView, xs: Seq<Stir>) -> ExecView
    decreases xs.len(),
{
    if xs.len() == 0 {
        e
    } else {
        stirred_once(stirred(e, xs.drop_last()), xs.last())
    }
}

/// The next step of a run: the latest poll was like that, and the run goes on.
pub open spec fn stepped(h: History, turn: Turn) -> History {
    let e = stirred(h.queue, turn.stirs);
    let arrived = h.arrived + e.ready.skip(h.queue.ready.len() as int);
    let (queue, run) = run_next(e, h.run, turn.completes);
    let left = (arrived.len() - queue.ready.len()) as nat;
    match run {
        Run::Polling { task, .. } => History {
            queue,
            run,
            arrived,
            left,
            polled: h.polled.push(task),
            places: h.places.push(left - 1),
        },
        _ => History { queue, run, arrived, left, ..h },
    }
}

/// A run from the start, through these polls; the first turn is what happens
/// before the first poll.
pub open spec fn history(e: ExecView, turns: Seq<Turn>) -> History
    decreases turns.len(),
{
    if turns.len() == 0 {
        History {
            queue: e,
            run: Run::Start,
            arrived: e.ready,
            left: 0,
            polled: Seq::empty(),
            places: Seq::empty(),
        }
    } else {
        stepped(history(e, turns.drop_last()), turns.last())
    }
}

/// What holds of a run at every point: the queue is what has become ready and
/// not left, the polled tasks are among what has left, in that order, and
/// whatever else has left had completed.
pub open spec fn orderly(h: History) -> bool {
    &&& h.queue.wf()
    &&& h.left <= h.arrived.len()
    &&& h.queue.ready == h.arrived.skip(h.left as int)
    &&& h.polled.len() == h.places.len()
    &&& forall|i: int|
        0 <= i < h.places.len() ==> 0 <= #[trigger] h.places[i] < h.left && h.arrived[h.places[i]]
            == h.polled[i]
    &&& forall|i: int, j: int|
        0 <= i < j < h.places.len() ==> (#[trigger] h.places[i]) < (#[trigger] h.places[j])
    &&& forall|k: int|
        0 <= k < h.left ==> h.places.contains(k) || !h.queue.live.contains(#[trigger] h.arrived[k])
    &&& forall|k: int| 0 <= k < h.left ==> (#[trigger] h.arrived[k]) < h.queue.next
    &&& h.run matches Run::Polling { task, .. } ==> h.polled.len() > 0 && task == h.polled.last()
    &&& polls_of(h.run) == h.polled.len()
}

proof fn lemma_stirred(e: ExecView, xs: Seq<Stir>)
    requires
        e.wf(),
    ensures
        stirred(e, xs).wf(),
        e.ready.is_prefix_of(stirred(e, xs).ready),
        e.next <= stirred(e, xs).next,
        forall|id: u64| id < e.next ==> (#[trigger] stirred(e, xs).live.contains(id)
            <==> e.live.contains(id)),
    decreases xs.len(),
{
    if xs.len() > 0 {
        let v = stirred(e, xs.drop_last());
        lemma_stirred(e, xs.drop_last());
        match xs.last() {
            Stir::Spawn => {
                lemma_pushed(v.ready, v.next);
            },
            Stir::Wake(id) => {
                lemma_pushed(v.ready, id);
            },
        }
    }
}

/// What is skipped at the head of the queue had completed.
proof fn lemma_unstale_skips(ready: Seq<u64>, live: Set<u64>)
    ensures
        unstale(ready, live).len() <= ready.len(),
        unstale(ready, live) == ready.skip(ready.len() - unstale(ready, live).len()),
        forall|i: int|
            0 <= i < ready.len() - unstale(ready, live).len() ==> !live.contains(
                #[trigger] ready[i],
            ),
    decreases ready.len(),
{
    if ready.len() > 0 && !live.contains(ready[0]) {
        let tail = ready.skip(1);
        lemma_unstale_skips(tail, live);
        let n = ready.len() - unstale(ready, live).len();
        assert(tail.skip(n - 1) =~= ready.skip(n));
        assert forall|i: int| 0 <= i < n implies !live.contains(#[trigger] ready[i]) by {
            if i > 0 {
                assert(tail[i - 1] == ready[i]);
            }
        }
    } else {
        assert(ready.skip(0) =~= ready);
    }
}

proof fn lemma_orderly_step(h: History, turn: Turn)
    requires
        orderly(h),
        h.polled.len() < usize::MAX,
        !(h.run is Stalled),
    ensures
        orderly(stepped(h, turn)),
{
    let e = stirred(h.queue, turn.stirs);
    let g = stepped(h, turn);
    lemma_stirred(h.queue, turn.stirs);
    let fresh = e.ready.skip(h.queue.ready.len() as int);
    let arrived = h.arrived + fresh;
    assert(e.ready =~= h.queue.ready + fresh);
    assert(arrived.skip(h.left as int) =~= e.ready);
    let now = told(e, h.run, turn.completes);
    assert(now.ready == e.ready);
    lemma_unstale(now.ready, now.live);
    lemma_unstale_skips(now.ready, now.live);
    let s = unstale(now.ready, now.live);
    let skipped = now.ready.len() - s.len();
    assert(g.queue.ready =~= arrived.skip(g.left as int));
    assert forall|k: int| h.left <= k < arrived.len() implies #[trigger] arrived[k] == e.ready[k
        - h.left] by {
        assert(arrived.skip(h.left as int)[k - h.left] == arrived[k]);
    }
    assert forall|k: int| 0 <= k < g.left implies g.places.contains(k) || !g.queue.live.contains(
        #[trigger] g.arrived[k],
    ) by {
        if k < h.left {
            assert(g.arrived[k] == h.arrived[k]);
            if h.places.contains(k) {
                let i = choose|i: int| 0 <= i < h.places.len() && h.places[i] == k;
                assert(g.places[i] == k);
            }
        } else if k < h.left + skipped {
            assert(g.arrived[k] == e.ready[k - h.left]);
        } else {
            assert(g.places[g.places.len() - 1] == k);
        }
    }
    assert forall|k: int| 0 <= k < g.left implies (#[trigger] g.arrived[k]) < g.queue.next by {
        if k < h.left {
            assert(g.arrived[k] == h.arrived[k]);
        } else {
            assert(g.arrived[k] == e.ready[k - h.left]);
        }
    }
    assert forall|i: int| 0 <= i < g.places.len() implies 0 <= #[trigger] g.places[i] < g.left
        && g.arrived[g.places[i]] == g.polled[i] by {
        if i < h.places.len() {
            assert(g.places[i] == h.places[i]);
            assert(g.arrived[g.places[i]] == h.arrived[h.places[i]]);
        }
    }
    assert(g.queue.wf()) by {
        assert(now.wf());
        if s.len() > 0 {
            lemma_skip_keeps(now.ready, skipped);
            lemma_skip_keeps(now.ready, skipped + 1);
            assert(s.skip(1) =~= now.ready.skip(skipped + 1));
        } else {
            assert(s =~= Seq::empty());
        }
    }
}

proof fn lemma_skip_keeps(s: Seq<u64>, n: int)
    requires
        0 <= n <= s.len(),
        s.no_duplicates(),
    ensures
        s.skip(n).no_duplicates(),
{
}

/// The run does not stall before its last step.
pub open spec fn unstalled(e: ExecView, turns: Seq<Turn>) -> bool {
    forall|n: int|
        0 <= n < turns.len() ==> !((#[trigger] history(e, turns.take(n))).run is Stalled)
}

/// Every run is orderly at every point: tasks are polled in the order in which
/// they became ready, those that were spawned or woken during the run among
/// them, and what is not polled in its turn had completed.
pub proof fn runs_are_orderly(e: ExecView, turns: Seq<Turn>)
    requires
        e.wf(),
        turns.len() < usize::MAX,
        unstalled(e, turns),
    ensures
        orderly(history(e, turns)),
        history(e, turns).polled.len() <= turns.len(),
    decreases turns.len(),
{
    if turns.len() > 0 {
        let init = turns.drop_last();
        assert forall|n: int| 0 <= n < init.len() implies !((#[trigger] history(
            e,
            init.take(n),
        )).run is Stalled) by {
            assert(init.take(n) =~= turns.take(n));
        }
        runs_are_orderly(e, init);
        assert(turns.take(turns.len() - 1) =~= init);
        lemma_orderly_step(history(e, init), turns.last());
    } else {
        assert(e.ready.skip(0) =~= e.ready);
    }
}

/// A run that is over leaves nothing ready, and counts every poll.
pub proof fn finished_run_has_polled_all(e: ExecView, turns: Seq<Turn>)
    requires
        e.wf(),
        turns.len() < usize::MAX,
        unstalled(e, turns),
        history(e, turns).run is Stalled,
    ensures
        history(e, turns).queue.ready.len() == 0,
        history(e, turns).left == history(e, turns).arrived.len(),
        polls_of(history(e, turns).run) == history(e, turns).polled.len(),
{
    runs_are_orderly(e, turns);
}

/// A task that has completed is never polled again: not in the run in which it
/// completes, nor in a later one, even if it is woken.
pub proof fn completed_task_is_not_polled(e: ExecView, turns: Seq<Turn>, id: u64)
    requires
        e.wf(),
        turns.len() < usize::MAX,
        unstalled(e, turns),
        id < e.next,
        !e.live.contains(id),
    ensures
        !history(e, turns).queue.live.contains(id),
        id < history(e, turns).queue.next,
        !history(e, turns).polled.contains(id),
    decreases turns.len(),
{
    if turns.len() > 0 {
        let init = turns.drop_last();
        assert forall|n: int| 0 <= n < init.len() implies !((#[trigger] history(
            e,
            init.take(n),
        )).run is Stalled) by {
            assert(init.take(n) =~= turns.take(n));
        }
        completed_task_is_not_polled(e, init, id);
        runs_are_orderly(e, init);
        let h = history(e, init);
        let turn = turns.last();
        let v = stirred(h.queue, turn.stirs);
        lemma_stirred(h.queue, turn.stirs);
        let now = told(v, h.run, turn.completes);
        lemma_unstale(now.ready, now.live);
        assert forall|i: int| 0 <= i < stepped(h, turn).polled.len() implies stepped(
            h,
            turn,
        ).polled[i] != id by {
            if i < h.polled.len() {
                assert(h.polled.contains(h.polled[i]));
            }
        }
    }
}

/// The poll with which a task completes is its last in the run.
pub proof fn completing_poll_is_the_last(e: ExecView, turns: Seq<Turn>, i: int, j: int)
    requires
        e.wf(),
        turns.len() < usize::MAX,
        unstalled(e, turns),
        0 < i < turns.len(),
        turns[i].completes,
        history(e, turns.take(i)).run is Polling,
        history(e, turns.take(i)).polled.len() <= j < history(e, turns).polled.len(),
    ensures
        history(e, turns).polled[j] != history(e, turns.take(i)).polled.last(),
    decreases turns.len(),
{
    let init = turns.drop_last();
    assert forall|n: int| 0 <= n < init.len() implies !((#[trigger] history(
        e,
        init.take(n),
    )).run is Stalled) by {
        assert(init.take(n) =~= turns.take(n));
    }
    runs_are_orderly(e, init);
    let h = history(e, init);
    let turn = turns.last();
    let id = history(e, turns.take(i)).polled.last();
    lemma_completed_stays_dead(e, turns, i, turns.len() as int);
    assert(turns.take(turns.len() as int) =~= turns);
    if j < h.polled.len() {
        assert(init.take(i) =~= turns.take(i));
        if i < init.len() {
            completing_poll_is_the_last(e, init, i, j);
        } else {
            assert(init =~= turns.take(i));
        }
    } else {
        let v = stirred(h.queue, turn.stirs);
        lemma_stirred(h.queue, turn.stirs);
        let now = told(v, h.run, turn.completes);
        lemma_unstale(now.ready, now.live);
    }
}

proof fn lemma_completed_stays_dead(e: ExecView, turns: Seq<Turn>, i: int, n: int)
    requires
        e.wf(),
        turns.len() < usize::MAX,
        unstalled(e, turns),
        0 < i < n <= turns.len(),
        turns[i].completes,
        history(e, turns.take(i)).run is Polling,
    ensures
        !history(e, turns.take(n)).queue.live.contains(history(e, turns.take(i)).polled.last()),
        history(e, turns.take(i)).polled.last() < history(e, turns.take(n)).queue.next,
    decreases n,
{
    let id = history(e, turns.take(i)).polled.last();
    let before = turns.take(n - 1);
    assert(turns.take(n).drop_last() =~= before);
    assert(turns.take(n).last() == turns[n - 1]);
    lemma_unstalled_prefix(e, turns, n - 1);
    runs_are_orderly(e, before);
    let h = history(e, before);
    lemma_stirred(h.queue, turns[n - 1].stirs);
    if n - 1 == i {
        assert(before =~= turns.take(i));
        let k = h.polled.len() - 1;
        assert(h.places[k] < h.left);
        assert(h.arrived[h.places[k]] < h.queue.next);
    } else {
        lemma_completed_stays_dead(e, turns, i, n - 1);
    }
}

proof fn lemma_unstalled_prefix(e: ExecView, turns: Seq<Turn>, n: int)
    requires
        unstalled(e, turns),
        0 <= n <= turns.len(),
    ensures
        unstalled(e, turns.take(n)),
{
    assert forall|k: int| 0 <= k < turns.take(n).len() implies !((#[trigger] history(
        e,
        turns.take(n).take(k),
    )).run is Stalled) by {
        assert(turns.take(n).take(k) =~= turns.take(k));
    }
}

/// Only tasks that have not completed are queued.
pub open spec fn all_live(e: ExecView) -> bool {
    forall|i: int| 0 <= i < e.ready.len() ==> e.live.contains(#[trigger] e.ready[i])
}

/// Between runs only tasks that have not completed are queued: so it is of a
/// new executor and after a run, and spawning and waking keep it so. There
/// something is ready exactly where a task that has not completed is queued.
pub proof fn queue_is_live_between_runs(e: ExecView, id: u64, run: Run, completed: bool)
    requires
        all_live(e),
        e.next < u64::MAX,
    ensures
        all_live(ExecView { ready: Seq::empty(), live: Set::empty(), next: 0 }),
        all_live(e.spawned()),
        all_live(e.woken(id)),
        run_next(e, run, completed).1 is Stalled ==> all_live(run_next(e, run, completed).0),
        e.ready.len() > 0 <==> exists|k: u64| #[trigger]
            e.ready.contains(k) && e.live.contains(k),
        e.live.contains(id) ==> e.woken(id).ready.contains(id),
        e.spawned().ready.contains(e.next),
{
    lemma_pushed(e.ready, e.next);
    lemma_pushed(e.ready, id);
    assert(run_next(e, run, completed).1 is Stalled ==> run_next(e, run, completed).0.ready.len()
        == 0);
    if e.ready.len() > 0 {
        assert(e.ready.contains(e.ready[0]));
    }
}

/// Whoever becomes ready queues at the end: a new task, and one that is woken
/// while it is not queued. A task that is queued, or has completed, stays where
/// it is.
pub proof fn newcomers_queue_at_the_end(e: ExecView, id: u64)
    requires
        e.next < u64::MAX,
    ensures
        e.spawned().ready == e.ready + seq![e.next],
        e.spawned().live == e.live.insert(e.next),
        e.spawned().next == e.next + 1,
        e.live.contains(id) && !e.ready.contains(id) ==> e.woken(id).ready == e.ready + seq![id],
        !e.live.contains(id) || e.ready.contains(id) ==> e.woken(id) == e,
        e.woken(id).live == e.live,
        e.woken_opt(Some(id)) == e.woken(id),
        e.woken_opt(None) == e,
{
    assert(e.ready.push(e.next) =~= e.ready + seq![e.next]);
    assert(e.ready.push(id) =~= e.ready + seq![id]);
}

} // verus!
