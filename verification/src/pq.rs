//! A priority queue with lazy deletion.
//!
//! A map from ids to entries is the truth; a binary heap of keys finds the
//! first entry. Removing an entry or moving its deadline leaves a stale key
//! in the heap, which is dropped when it reaches the top.
use std::collections::HashMap;
use vstd::prelude::*;

use crate::flt::Flt;

verus! {

broadcast use vstd::std_specs::hash::group_hash_axioms;

/// What the heap is ordered by.
#[derive(Clone, Copy, Debug, PartialEq, Eq, Structural)]
pub struct Key {
    /// When the entry is due.
    pub deadline: Flt,
    /// Orders entries that are due together.
    pub tie: u64,
    /// The entry.
    pub id: u64,
}

impl Key {
    /// `self` comes before `o`: by deadline in the total order of doubles,
    /// then by tie, then by id.
    pub open spec fn before(self, o: Key) -> bool {
        ||| self.deadline.rank() < o.deadline.rank()
        ||| self.deadline.rank() == o.deadline.rank() && self.tie < o.tie
        ||| self.deadline.rank() == o.deadline.rank() && self.tie == o.tie && self.id < o.id
    }

    fn comes_before(self, o: Key) -> (r: bool)
        ensures
            r == self.before(o),
    {
        let a: i64 = self.deadline.total_rank();
        let b: i64 = o.deadline.total_rank();
        a < b || (a == b && (self.tie < o.tie || (self.tie == o.tie && self.id < o.id)))
    }
}

/// The key under which an entry waits.
pub open spec fn key_of<M>(live: Map<u64, (Flt, u64, M)>, id: u64) -> Key {
    Key { deadline: live[id].0, tie: live[id].1, id }
}

/// `id` is the first of the entries.
pub open spec fn is_first<M>(live: Map<u64, (Flt, u64, M)>, id: u64) -> bool {
    &&& live.contains_key(id)
    &&& forall|o: u64| #[trigger]
        live.contains_key(o) && o != id ==> key_of(live, id).before(key_of(live, o))
}

/// The first of the entries.
pub open spec fn first<M>(live: Map<u64, (Flt, u64, M)>) -> u64 {
    choose|id: u64| is_first(live, id)
}

/// The deadline of the first entry, and infinity where there is none.
pub open spec fn earliest<M>(live: Map<u64, (Flt, u64, M)>) -> Flt {
    if live.is_empty() {
        Flt::infinity()
    } else {
        live[first(live)].0
    }
}

/// The entry `id` and what waits under it.
pub open spec fn entry<M>(live: Map<u64, (Flt, u64, M)>, id: u64) -> (u64, Flt, u64, M) {
    (id, live[id].0, live[id].1, live[id].2)
}

/// The entries that come out first, as long as they are due at `t`.
pub open spec fn due<M>(live: Map<u64, (Flt, u64, M)>, t: Flt) -> Seq<u64>
    decreases live.dom().len(),
    when live.dom().finite()
{
    if !live.is_empty() && earliest(live) == t {
        proof {
            first_exists(live);
        }
        seq![first(live)] + due(live.remove(first(live)), t)
    } else {
        Seq::empty()
    }
}

/// What is left once those entries are out.
pub open spec fn rest<M>(live: Map<u64, (Flt, u64, M)>, t: Flt) -> Map<u64, (Flt, u64, M)>
    decreases live.dom().len(),
    when live.dom().finite()
{
    if !live.is_empty() && earliest(live) == t {
        proof {
            first_exists(live);
        }
        rest(live.remove(first(live)), t)
    } else {
        live
    }
}

/// Finitely many entries have a first one.
pub proof fn first_exists<M>(live: Map<u64, (Flt, u64, M)>)
    requires
        live.dom().finite(),
        !live.is_empty(),
    ensures
        is_first(live, first(live)),
    decreases live.dom().len(),
{
    let a = live.dom().choose();
    let others = live.remove(a);
    if others.is_empty() {
        assert(is_first(live, a));
    } else {
        first_exists(others);
        let b = first(others);
        assert forall|o: u64| #[trigger] others.contains_key(o) implies live.contains_key(o)
            && key_of(others, o) == key_of(live, o) by {}
        if key_of(live, a).before(key_of(live, b)) {
            assert(is_first(live, a));
        } else {
            assert(is_first(live, b));
        }
    }
}

/// No key comes before its parent.
spec fn heap_ordered(s: Seq<Key>) -> bool {
    forall|i: int| 0 < i < s.len() ==> !(#[trigger] s[i]).before(s[(i - 1) / 2])
}

/// Every key of `a` but `x` is in `b`.
spec fn keeps(a: Seq<Key>, b: Seq<Key>, x: Key) -> bool {
    forall|k: Key| #[trigger] a.contains(k) && k != x ==> b.contains(k)
}

/// Nothing in the heap comes before its root.
proof fn lemma_root_first(s: Seq<Key>, i: int)
    requires
        heap_ordered(s),
        0 <= i < s.len(),
    ensures
        !s[i].before(s[0]),
    decreases i,
{
    if i > 0 {
        lemma_root_first(s, (i - 1) / 2);
        assert(!s[i].before(s[(i - 1) / 2]));
    }
}

/// The entries of a priority queue, and the heap that orders them.
pub struct MinPq<M> {
    heap: Vec<Key>,
    live: HashMap<u64, (Flt, u64, M)>,
}

impl<M> View for MinPq<M> {
    type V = Map<u64, (Flt, u64, M)>;

    closed spec fn view(&self) -> Map<u64, (Flt, u64, M)> {
        self.live@
    }
}

impl<M> MinPq<M> {
    /// The heap is ordered and holds the key of every entry.
    pub closed spec fn wf(&self) -> bool {
        &&& heap_ordered(self.heap@)
        &&& forall|id: u64| #[trigger]
            self.live@.contains_key(id) ==> self.heap@.contains(key_of(self.live@, id))
    }

    /// An empty queue.
    pub fn new() -> (r: Self)
        ensures
            r.wf(),
            r@ == Map::<u64, (Flt, u64, M)>::empty(),
    {
        MinPq { heap: Vec::new(), live: HashMap::new() }
    }

    /// There are finitely many entries.
    pub proof fn finite(&self)
        ensures
            self@.dom().finite(),
    {
    }

    /// Moves the last key up to its place.
    fn sift_up(heap: &mut Vec<Key>)
        requires
            old(heap).len() > 0,
            heap_ordered(old(heap)@.drop_last()),
        ensures
            heap_ordered(final(heap)@),
            final(heap).len() == old(heap).len(),
            forall|k: Key| old(heap)@.contains(k) ==> final(heap)@.contains(k),
    {
        let n: usize = heap.len();
        let mut pos: usize = n - 1;
        let ghost start = heap@;
        proof {
            assert forall|i: int| 0 < i < n && i != pos implies !(#[trigger] heap@[i]).before(
                heap@[(i - 1) / 2],
            ) by {
                assert(start.drop_last()[i] == start[i]);
                assert(start.drop_last()[(i - 1) / 2] == start[(i - 1) / 2]);
            }
        }
        while pos > 0 && heap[pos].comes_before(heap[(pos - 1) / 2])
            invariant
                heap.len() == n,
                pos < n,
                forall|i: int|
                    0 < i < n && i != pos ==> !(#[trigger] heap@[i]).before(heap@[(i - 1) / 2]),
                forall|i: int|
                    0 < i < n && pos > 0 && (i - 1) / 2 == pos ==> !(#[trigger] heap@[i]).before(
                        heap@[(pos - 1) / 2],
                    ),
                forall|k: Key| start.contains(k) ==> heap@.contains(k),
            decreases pos,
        {
            let up: usize = (pos - 1) / 2;
            let ghost was = heap@;
            let a: Key = heap[pos];
            let b: Key = heap[up];
            heap.set(pos, b);
            heap.set(up, a);
            proof {
                assert forall|k: Key| start.contains(k) implies heap@.contains(k) by {
                    let i = choose|i: int| 0 <= i < was.len() && was[i] == k;
                    if i == pos {
                        assert(heap@[up as int] == k);
                    } else if i == up {
                        assert(heap@[pos as int] == k);
                    } else {
                        assert(heap@[i] == k);
                    }
                }
                assert forall|i: int| 0 < i < n && i != up implies !(#[trigger] heap@[i]).before(
                    heap@[(i - 1) / 2],
                ) by {
                    if i == pos {
                    } else if (i - 1) / 2 == pos {
                        assert(!was[i].before(was[up as int]));
                    } else if (i - 1) / 2 == up {
                        assert(!was[i].before(was[up as int]));
                    } else {
                        assert(!was[i].before(was[(i - 1) / 2]));
                    }
                }
                assert forall|i: int| 0 < i < n && up > 0 && (i - 1) / 2 == up implies !(
                #[trigger] heap@[i]).before(heap@[(up - 1) / 2]) by {
                    assert(!was[up as int].before(was[(up - 1) / 2]));
                    if i != pos {
                        assert(!was[i].before(was[up as int]));
                    }
                }
            }
            pos = up;
        }
    }

    /// Moves the root down to its place.
    fn sift_down(heap: &mut Vec<Key>)
        requires
            forall|i: int|
                0 < i < old(heap).len() && (i - 1) / 2 != 0 ==> !(#[trigger] old(heap)@[i]).before(
                    old(heap)@[(i - 1) / 2],
                ),
        ensures
            heap_ordered(final(heap)@),
            final(heap).len() == old(heap).len(),
            forall|k: Key| old(heap)@.contains(k) ==> final(heap)@.contains(k),
    {
        let n: usize = heap.len();
        let mut pos: usize = 0;
        let ghost start = heap@;
        loop
            invariant
                heap.len() == n,
                pos < n || n == 0,
                forall|i: int|
                    0 < i < n && (i - 1) / 2 != pos ==> !(#[trigger] heap@[i]).before(
                        heap@[(i - 1) / 2],
                    ),
                forall|i: int|
                    0 < i < n && pos > 0 && (i - 1) / 2 == pos ==> !(#[trigger] heap@[i]).before(
                        heap@[(pos - 1) / 2],
                    ),
                forall|k: Key| start.contains(k) ==> heap@.contains(k),
            ensures
                heap.len() == n,
                heap_ordered(heap@),
                forall|k: Key| start.contains(k) ==> heap@.contains(k),
            decreases n - pos,
        {
            if n < 2 || pos > (n - 2) / 2 {
                // No child.
                break ;
            }
            let left: usize = 2 * pos + 1;
            let right: usize = left + 1;
            let down: usize = if right < n && heap[right].comes_before(heap[left]) {
                right
            } else {
                left
            };
            if !heap[down].comes_before(heap[pos]) {
                proof {
                    assert forall|i: int| 0 < i < n implies !(#[trigger] heap@[i]).before(
                        heap@[(i - 1) / 2],
                    ) by {
                        if (i - 1) / 2 == pos {
                            assert(i == left || i == right);
                        }
                    }
                }
                break ;
            }
            let ghost was = heap@;
            let a: Key = heap[pos];
            let b: Key = heap[down];
            heap.set(pos, b);
            heap.set(down, a);
            proof {
                assert forall|k: Key| start.contains(k) implies heap@.contains(k) by {
                    let i = choose|i: int| 0 <= i < was.len() && was[i] == k;
                    if i == pos {
                        assert(heap@[down as int] == k);
                    } else if i == down {
                        assert(heap@[pos as int] == k);
                    } else {
                        assert(heap@[i] == k);
                    }
                }
                assert forall|i: int| 0 < i < n && (i - 1) / 2 != down implies !(
                #[trigger] heap@[i]).before(heap@[(i - 1) / 2]) by {
                    if (i - 1) / 2 == pos {
                        assert(i == left || i == right);
                    } else if i == pos {
                        assert(!was[down as int].before(was[(pos - 1) / 2]));
                    } else {
                        assert(!was[i].before(was[(i - 1) / 2]));
                    }
                }
                assert forall|i: int| 0 < i < n && (i - 1) / 2 == down implies !(
                #[trigger] heap@[i]).before(heap@[(down - 1) / 2]) by {
                    assert(!was[i].before(was[(i - 1) / 2]));
                }
            }
            pos = down;
        }
    }

    /// Takes the root off the heap.
    fn drop_top(heap: &mut Vec<Key>) -> (r: Key)
        requires
            old(heap).len() > 0,
            heap_ordered(old(heap)@),
        ensures
            r == old(heap)@[0],
            heap_ordered(final(heap)@),
            final(heap).len() == old(heap).len() - 1,
            keeps(old(heap)@, final(heap)@, r),
    {
        let ghost start = heap@;
        let top: Key = heap[0];
        let n: usize = heap.len();
        let last: Key = heap[n - 1];
        heap.truncate(n - 1);
        if n > 1 {
            heap.set(0, last);
        }
        let ghost cut = heap@;
        proof {
            assert(keeps(start, cut, top)) by {
                assert forall|k: Key| #[trigger] start.contains(k) && k != top implies cut.contains(
                    k,
                ) by {
                    let i = choose|i: int| 0 <= i < start.len() && start[i] == k;
                    if i == n - 1 {
                        assert(cut[0] == k);
                    } else {
                        assert(cut[i] == k);
                    }
                }
            }
            assert forall|i: int| 0 < i < cut.len() && (i - 1) / 2 != 0 implies !(
            #[trigger] cut[i]).before(cut[(i - 1) / 2]) by {
                assert(!start[i].before(start[(i - 1) / 2]));
            }
        }
        Self::sift_down(heap);
        top
    }

    /// Adds an entry. Returns false, and changes nothing, if the id is taken.
    pub fn add(&mut self, id: u64, deadline: Flt, tie: u64, meta: M) -> (r: bool)
        requires
            old(self).wf(),
        ensures
            final(self).wf(),
            r == !old(self)@.contains_key(id),
            r ==> final(self)@ == old(self)@.insert(id, (deadline, tie, meta)),
            !r ==> final(self)@ == old(self)@,
    {
        if self.live.contains_key(&id) {
            return false;
        }
        self.live.insert(id, (deadline, tie, meta));
        self.push_key(Key { deadline, tie, id });
        true
    }

    /// Puts the key of an entry on the heap.
    fn push_key(&mut self, key: Key)
        requires
            heap_ordered(old(self).heap@),
            old(self)@.contains_key(key.id),
            key == key_of(old(self)@, key.id),
            forall|id: u64| #[trigger]
                old(self)@.contains_key(id) && id != key.id ==> old(self).heap@.contains(
                    key_of(old(self)@, id),
                ),
        ensures
            final(self).wf(),
            final(self)@ == old(self)@,
    {
        let ghost before = self.heap@;
        self.heap.push(key);
        let ghost pushed = self.heap@;
        proof {
            assert(pushed.drop_last() =~= before);
            assert(pushed[before.len() as int] == key);
            assert forall|k: Key| before.contains(k) implies pushed.contains(k) by {
                let i = choose|i: int| 0 <= i < before.len() && before[i] == k;
                assert(pushed[i] == k);
            }
        }
        Self::sift_up(&mut self.heap);
    }

    /// Removes an entry and hands out what it held.
    pub fn remove(&mut self, id: u64) -> (r: Option<M>)
        requires
            old(self).wf(),
        ensures
            final(self).wf(),
            final(self)@ == old(self)@.remove(id),
            r == (if old(self)@.contains_key(id) {
                Some(old(self)@[id].2)
            } else {
                None
            }),
    {
        let gone: Option<(Flt, u64, M)> = self.live.remove(&id);
        proof {
            assert forall|o: u64| #[trigger] self.live@.contains_key(o) implies self.heap@.contains(
                key_of(self.live@, o),
            ) by {
                assert(old(self).live@.contains_key(o));
            }
        }
        match gone {
            Some((_, _, m)) => Some(m),
            None => None,
        }
    }

    /// Moves the deadline of an entry. Returns false if there is none.
    pub fn adjust_deadline(&mut self, id: u64, new_deadline: Flt) -> (r: bool)
        requires
            old(self).wf(),
        ensures
            final(self).wf(),
            r == old(self)@.contains_key(id),
            r ==> final(self)@ == old(self)@.insert(
                id,
                (new_deadline, old(self)@[id].1, old(self)@[id].2),
            ),
            !r ==> final(self)@ == old(self)@,
    {
        match self.live.remove(&id) {
            Some((_, tie, meta)) => {
                self.live.insert(id, (new_deadline, tie, meta));
                proof {
                    assert(self.live@ =~= old(self).live@.insert(id, (new_deadline, tie, meta)));
                    assert forall|o: u64| #[trigger]
                        self.live@.contains_key(o) && o != id implies self.heap@.contains(
                        key_of(self.live@, o),
                    ) by {
                        assert(old(self).live@.contains_key(o));
                    }
                }
                self.push_key(Key { deadline: new_deadline, tie, id });
                true
            },
            None => {
                assert(self.live@ =~= old(self).live@);
                false
            },
        }
    }

    /// The key belongs to an entry that still waits under it.
    fn is_current(&self, k: Key) -> (r: bool)
        ensures
            r == (self@.contains_key(k.id) && key_of(self@, k.id) == k),
    {
        match self.live.get(&k.id) {
            Some(e) => e.0.to_bits() == k.deadline.to_bits() && e.1 == k.tie,
            None => false,
        }
    }

    /// A current root is the key of the first entry.
    proof fn lemma_first(&self)
        requires
            self.wf(),
            self.heap@.len() > 0,
            self@.contains_key(self.heap@[0].id),
            key_of(self@, self.heap@[0].id) == self.heap@[0],
        ensures
            is_first(self@, self.heap@[0].id),
    {
        let id = self.heap@[0].id;
        assert forall|o: u64| #[trigger] self@.contains_key(o) && o != id implies key_of(
            self@,
            id,
        ).before(key_of(self@, o)) by {
            let k = key_of(self@, o);
            assert(self.heap@.contains(k));
            let i = choose|i: int| 0 <= i < self.heap@.len() && self.heap@[i] == k;
            lemma_root_first(self.heap@, i);
        }
    }

    /// Drops stale keys off the top of the heap.
    fn clean_top(&mut self)
        requires
            old(self).wf(),
        ensures
            final(self).wf(),
            final(self)@ == old(self)@,
            final(self).heap@.len() == 0 ==> final(self)@ == Map::<u64, (Flt, u64, M)>::empty(),
            final(self).heap@.len() > 0 ==> {
                &&& final(self)@.contains_key(final(self).heap@[0].id)
                &&& key_of(final(self)@, final(self).heap@[0].id) == final(self).heap@[0]
                &&& is_first(final(self)@, final(self).heap@[0].id)
            },
    {
        while self.heap.len() > 0 && !self.is_current(self.heap[0])
            invariant
                self.wf(),
                self@ == old(self)@,
            decreases self.heap@.len(),
        {
            let ghost was = self.heap@;
            let top: Key = Self::drop_top(&mut self.heap);
            proof {
                assert forall|o: u64| #[trigger]
                    self.live@.contains_key(o) implies self.heap@.contains(
                    key_of(self.live@, o),
                ) by {
                    assert(was.contains(key_of(self.live@, o)));
                    assert(key_of(self.live@, o) != top);
                }
            }
        }
        proof {
            if self.heap@.len() > 0 {
                self.lemma_first();
            } else {
                assert forall|o: u64| !self.live@.contains_key(o) by {
                    if self.live@.contains_key(o) {
                        assert(self.heap@.contains(key_of(self.live@, o)));
                    }
                }
                assert(self.live@ =~= Map::<u64, (Flt, u64, M)>::empty());
            }
        }
    }

    /// The deadline of the first entry.
    pub fn peek_deadline(&mut self) -> (r: Option<Flt>)
        requires
            old(self).wf(),
        ensures
            final(self).wf(),
            final(self)@ == old(self)@,
            r == (if old(self)@.is_empty() {
                None
            } else {
                Some(earliest(old(self)@))
            }),
    {
        self.clean_top();
        if self.heap.len() == 0 {
            None
        } else {
            let k: Key = self.heap[0];
            proof {
                first_is_unique(self@, k.id, first(self@));
            }
            Some(k.deadline)
        }
    }

    /// Takes the first entry out: its id, deadline and tie, and what it held.
    pub fn pop(&mut self) -> (r: Option<(u64, Flt, u64, M)>)
        requires
            old(self).wf(),
        ensures
            final(self).wf(),
            r == (if old(self)@.is_empty() {
                None
            } else {
                Some(entry(old(self)@, first(old(self)@)))
            }),
            final(self)@ == (if old(self)@.is_empty() {
                old(self)@
            } else {
                old(self)@.remove(first(old(self)@))
            }),
    {
        self.clean_top();
        if self.heap.len() == 0 {
            return None;
        }
        let ghost was = self.heap@;
        let k: Key = Self::drop_top(&mut self.heap);
        let entry: Option<(Flt, u64, M)> = self.live.remove(&k.id);
        proof {
            first_is_unique(old(self)@, k.id, first(old(self)@));
            assert forall|o: u64| #[trigger] self.live@.contains_key(o) implies self.heap@.contains(
                key_of(self.live@, o),
            ) by {
                assert(old(self).live@.contains_key(o));
                assert(was.contains(key_of(old(self).live@, o)));
            }
        }
        match entry {
            Some((deadline, tie, meta)) => Some((k.id, deadline, tie, meta)),
            None => None,
        }
    }

    /// Takes out the first entries, as long as they are due at `t`.
    pub fn pop_due(&mut self, t: Flt) -> (r: Vec<u64>)
        requires
            old(self).wf(),
        ensures
            final(self).wf(),
            r@ == due(old(self)@, t),
            final(self)@ == rest(old(self)@, t),
    {
        let mut out: Vec<u64> = Vec::new();
        loop
            invariant
                self.wf(),
                out@ + due(self@, t) == due(old(self)@, t),
                rest(self@, t) == rest(old(self)@, t),
            ensures
                self.wf(),
                out@ == due(old(self)@, t),
                self@ == rest(old(self)@, t),
            decreases self@.dom().len(),
        {
            let ghost was = self@;
            match self.peek_deadline() {
                Some(d) => {
                    if d.to_bits() != t.to_bits() {
                        assert(out@ + Seq::<u64>::empty() =~= out@);
                        break ;
                    }
                    proof {
                        first_exists(was);
                    }
                    match self.pop() {
                        Some((id, _, _, _)) => {
                            let ghost before = out@;
                            out.push(id);
                            assert(out@ + due(self@, t) =~= before + due(was, t));
                        },
                        None => {},
                    }
                },
                None => {
                    assert(out@ + Seq::<u64>::empty() =~= out@);
                    break ;
                },
            }
        }
        out
    }

    /// No entry waits.
    pub fn is_empty(&self) -> (r: bool)
        ensures
            r == self@.is_empty(),
    {
        proof {
            if self.live@.len() == 0 {
                assert(self.live@.dom() =~= Set::empty());
                assert(self.live@ =~= Map::<u64, (Flt, u64, M)>::empty());
            }
        }
        self.live.len() == 0
    }

    /// How many entries wait.
    pub fn len(&self) -> (r: usize)
        ensures
            r == self@.len(),
    {
        self.live.len()
    }
}

impl<M> Default for MinPq<M> {
    fn default() -> (r: Self)
        ensures
            r.wf(),
            r@ == Map::<u64, (Flt, u64, M)>::empty(),
    {
        Self::new()
    }
}

impl<M: Clone> MinPq<M> {
    /// The first entry, which stays in the queue.
    pub fn peek_meta(&mut self) -> (r: Option<(u64, Flt, u64, M)>)
        requires
            old(self).wf(),
        ensures
            final(self).wf(),
            final(self)@ == old(self)@,
            match r {
                None => old(self)@.is_empty(),
                Some((id, deadline, tie, meta)) => {
                    &&& !old(self)@.is_empty()
                    &&& id == first(old(self)@)
                    &&& is_first(old(self)@, id)
                    &&& old(self)@[id].0 == deadline
                    &&& old(self)@[id].1 == tie
                    &&& cloned(old(self)@[id].2, meta)
                },
            },
    {
        self.clean_top();
        if self.heap.len() == 0 {
            return None;
        }
        let k: Key = self.heap[0];
        proof {
            first_is_unique(self@, k.id, first(self@));
        }
        match self.live.get(&k.id) {
            Some(e) => Some((k.id, e.0, e.1, e.2.clone())),
            None => None,
        }
    }
}

/// Only one entry is the first.
pub proof fn first_is_unique<M>(live: Map<u64, (Flt, u64, M)>, a: u64, b: u64)
    requires
        is_first(live, a),
        is_first(live, b),
    ensures
        a == b,
{
    if a != b {
        assert(key_of(live, a).before(key_of(live, b)));
        assert(key_of(live, b).before(key_of(live, a)));
    }
}

/// The entries due at the earliest deadline come out together: all of them,
/// none twice, ordered by tie and then by id. The others stay.
pub proof fn due_comes_in_order<M>(live: Map<u64, (Flt, u64, M)>, t: Flt)
    requires
        live.dom().finite(),
    ensures
        forall|i: int|
            0 <= i < due(live, t).len() ==> live.contains_key(#[trigger] due(live, t)[i])
                && live[due(live, t)[i]].0 == t,
        forall|i: int, j: int|
            0 <= i < j < due(live, t).len() ==> key_of(live, #[trigger] due(live, t)[i]).before(
                key_of(live, #[trigger] due(live, t)[j]),
            ),
        forall|id: u64|
            earliest(live) == t && #[trigger] live.contains_key(id) && live[id].0 == t ==> due(
                live,
                t,
            ).contains(id),
        forall|id: u64|
            rest(live, t).contains_key(id) == (live.contains_key(id) && !due(live, t).contains(id)),
        forall|id: u64| #[trigger]
            rest(live, t).contains_key(id) ==> rest(live, t)[id] == live[id],
        rest(live, t).dom().finite(),
    decreases live.dom().len(),
{
    if !live.is_empty() && earliest(live) == t {
        first_exists(live);
        let f = first(live);
        let less = live.remove(f);
        due_comes_in_order(less, t);
        let s = due(live, t);
        let tail = due(less, t);
        assert(s[0] == f);
        assert forall|i: int| 0 < i < s.len() implies s[i] == tail[i - 1] by {}
        assert forall|i: int| 0 <= i < s.len() implies live.contains_key(#[trigger] s[i])
            && live[s[i]].0 == t by {
            if i > 0 {
                assert(less.contains_key(tail[i - 1]));
            }
        }
        assert forall|i: int, j: int| 0 <= i < j < s.len() implies key_of(
            live,
            #[trigger] s[i],
        ).before(key_of(live, #[trigger] s[j])) by {
            assert(less.contains_key(tail[j - 1]));
            if i > 0 {
                assert(less.contains_key(tail[i - 1]));
                assert(key_of(less, tail[i - 1]).before(key_of(less, tail[j - 1])));
            }
        }
        assert forall|id: u64|
            #[trigger] live.contains_key(id) && live[id].0 == t implies s.contains(id) by {
            if id != f {
                assert(less.contains_key(id));
                first_exists(less);
                let g = first(less);
                assert(live.contains_key(g));
                assert(less[g] == live[g]);
                if g != id {
                    assert(key_of(less, g).before(key_of(less, id)));
                }
                assert(key_of(live, f).before(key_of(live, g)));
                lemma_rank_injective(live[g].0, t);
                assert(earliest(less) == t);
                let i = choose|i: int| 0 <= i < tail.len() && tail[i] == id;
                assert(s[i + 1] == id);
            }
        }
        assert forall|id: u64|
            rest(live, t).contains_key(id) == (live.contains_key(id) && !s.contains(id)) by {
            if tail.contains(id) {
                let i = choose|i: int| 0 <= i < tail.len() && tail[i] == id;
                assert(s[i + 1] == id);
            }
            if s.contains(id) && id != f {
                let i = choose|i: int| 0 <= i < s.len() && s[i] == id;
                assert(tail[i - 1] == id);
            }
        }
    }
}

/// What repeated pops give until nothing is left.
pub open spec fn emptied<M>(live: Map<u64, (Flt, u64, M)>) -> Seq<(u64, Flt, u64, M)>
    decreases live.dom().len(),
    when live.dom().finite()
{
    if live.is_empty() {
        Seq::empty()
    } else {
        proof {
            first_exists(live);
        }
        seq![entry(live, first(live))] + emptied(live.remove(first(live)))
    }
}

/// Repeated pops give every entry once, with the deadline, the tie and the
/// rest that it has now, in the order of the keys; then nothing.
pub proof fn pops_come_in_order<M>(live: Map<u64, (Flt, u64, M)>)
    requires
        live.dom().finite(),
    ensures
        emptied(live).len() == live.dom().len(),
        forall|i: int|
            0 <= i < emptied(live).len() ==> live.contains_key((#[trigger] emptied(live)[i]).0)
                && emptied(live)[i] == entry(live, emptied(live)[i].0),
        forall|id: u64| #[trigger]
            live.contains_key(id) ==> emptied(live).contains(entry(live, id)),
        forall|i: int, j: int|
            0 <= i < j < emptied(live).len() ==> key_of(
                live,
                (#[trigger] emptied(live)[i]).0,
            ).before(key_of(live, (#[trigger] emptied(live)[j]).0)),
    decreases live.dom().len(),
{
    if !live.is_empty() {
        first_exists(live);
        let f = first(live);
        let less = live.remove(f);
        pops_come_in_order(less);
        let s = emptied(live);
        let tail = emptied(less);
        assert(s[0] == entry(live, f));
        assert forall|i: int| 0 < i < s.len() implies s[i] == tail[i - 1] by {}
        assert forall|i: int| 0 <= i < s.len() implies live.contains_key((#[trigger] s[i]).0)
            && s[i] == entry(live, s[i].0) by {
            if i > 0 {
                assert(less.contains_key(tail[i - 1].0));
            }
        }
        assert forall|id: u64| #[trigger] live.contains_key(id) implies s.contains(
            entry(live, id),
        ) by {
            if id != f {
                assert(less.contains_key(id));
                let i = choose|i: int| 0 <= i < tail.len() && tail[i] == entry(less, id);
                assert(s[i + 1] == entry(live, id));
            }
        }
        assert forall|i: int, j: int| 0 <= i < j < s.len() implies key_of(
            live,
            (#[trigger] s[i]).0,
        ).before(key_of(live, (#[trigger] s[j]).0)) by {
            assert(less.contains_key(tail[j - 1].0));
            if i > 0 {
                assert(less.contains_key(tail[i - 1].0));
                assert(key_of(less, tail[i - 1].0).before(key_of(less, tail[j - 1].0)));
            }
        }
    } else {
        assert(live.dom() =~= Set::empty());
    }
}

/// Only equal bit patterns share a place in the total order.
proof fn lemma_rank_injective(a: Flt, b: Flt)
    ensures
        a.rank() == b.rank() ==> a == b,
{
}

} // verus!
