//! Values that several voices read and write.
//!
//! The values stand in a store. A voice holds a handle, which is the number of
//! a value; all copies of a handle speak of the same value.
use std::marker::PhantomData;
use vstd::prelude::*;

use crate::demo::values::{Messages, Notes, Numbers};
use crate::flt::Flt;

verus! {

/// Values, each under its number.
#[derive(Debug)]
pub struct Store<T> {
    items: Vec<T>,
}

impl<T> View for Store<T> {
    type V = Seq<T>;

    closed spec fn view(&self) -> Seq<T> {
        self.items@
    }
}

impl<T> Store<T> {
    /// No values.
    pub fn new() -> (r: Self)
        ensures
            r@ == Seq::<T>::empty(),
    {
        Store { items: Vec::new() }
    }

    /// Puts a value in, and hands out its number.
    pub fn put(&mut self, val: T) -> (r: usize)
        ensures
            final(self)@ == old(self)@.push(val),
            r == old(self)@.len(),
    {
        let id: usize = self.items.len();
        self.items.push(val);
        id
    }

    /// The value under a number.
    pub fn at(&self, id: usize) -> (r: &T)
        requires
            id < self@.len(),
        ensures
            *r == self@[id as int],
    {
        &self.items[id]
    }

    /// The value under a number, to change it.
    pub fn at_mut(&mut self, id: usize) -> (r: &mut T)
        requires
            id < old(self)@.len(),
        ensures
            *r == old(self)@[id as int],
            final(self)@ == old(self)@.update(id as int, *final(r)),
    {
        &mut self.items[id]
    }
}

/// A value that several voices share.
#[derive(Debug)]
pub struct Shared<T> {
    /// The number of the value.
    pub id: usize,
    /// What the values are.
    pub kind: PhantomData<T>,
}

impl<T> Clone for Shared<T> {
    fn clone(&self) -> (r: Self)
        ensures
            r.id == self.id,
    {
        Shared { id: self.id, kind: PhantomData }
    }
}

impl<T> Shared<T> {
    /// The value is there.
    pub open spec fn known(&self, s: &Store<T>) -> bool {
        self.id < s@.len()
    }

    /// A shared value.
    pub fn new(s: &mut Store<T>, val: T) -> (r: Self)
        ensures
            r.known(final(s)),
            r.id == old(s)@.len(),
            final(s)@ == old(s)@.push(val),
    {
        let id: usize = s.put(val);
        Shared { id, kind: PhantomData }
    }

    /// Changes the value, and hands out what the change gives.
    pub fn modify<R>(&self, s: &mut Store<T>, f: impl FnOnce(&mut T) -> R) -> (r: R)
        requires
            self.known(old(s)),
            forall|x: &mut T| *x == old(s)@[self.id as int] ==> call_requires(f, (x,)),
        ensures
            final(s)@ == old(s)@.update(self.id as int, final(s)@[self.id as int]),
            exists|x: &mut T|
                *x == old(s)@[self.id as int] && *final(x) == final(s)@[self.id as int]
                    && #[trigger] call_ensures(f, (x,), r),
    {
        f(s.at_mut(self.id))
    }

    /// The value itself.
    pub fn inner<'a>(&self, s: &'a Store<T>) -> (r: &'a T)
        requires
            self.known(s),
        ensures
            *r == s@[self.id as int],
    {
        s.at(self.id)
    }
}

impl<T: Clone> Shared<T> {
    /// A copy of the value.
    pub fn get(&self, s: &Store<T>) -> (r: T)
        requires
            self.known(s),
        ensures
            cloned(s@[self.id as int], r),
    {
        s.at(self.id).clone()
    }
}

impl<T: Copy> Shared<T> {
    /// Replaces the value.
    pub fn set(&self, s: &mut Store<T>, val: T)
        requires
            self.known(old(s)),
        ensures
            final(s)@ == old(s)@.update(self.id as int, val),
    {
        *s.at_mut(self.id) = val;
    }
}

/// A queue of messages that several voices share: what is pushed first, by
/// whomever, is popped first.
pub struct MessageQueue<T> {
    /// The number of the queue.
    pub id: usize,
    /// What the values are.
    pub kind: PhantomData<T>,
}

impl<T> Clone for MessageQueue<T> {
    fn clone(&self) -> (r: Self)
        ensures
            r.id == self.id,
    {
        MessageQueue { id: self.id, kind: PhantomData }
    }
}

impl<T> MessageQueue<T> {
    /// The queue is there.
    pub open spec fn known(&self, s: &Store<Messages<T>>) -> bool {
        self.id < s@.len()
    }

    /// What is queued.
    pub open spec fn of(&self, s: &Store<Messages<T>>) -> Seq<T> {
        s@[self.id as int]@
    }

    /// Nothing but this queue is changed.
    pub open spec fn alone(&self, a: &Store<Messages<T>>, b: &Store<Messages<T>>) -> bool {
        b@ == a@.update(self.id as int, b@[self.id as int])
    }

    /// An empty queue.
    pub fn new(s: &mut Store<Messages<T>>) -> (r: Self)
        ensures
            r.known(final(s)),
            r.id == old(s)@.len(),
            final(s)@ == old(s)@.push(final(s)@[r.id as int]),
            r.of(final(s)) == Seq::<T>::empty(),
    {
        let id: usize = s.put(Messages::new());
        MessageQueue { id, kind: PhantomData }
    }

    /// Adds a message at the end.
    pub fn push(&self, s: &mut Store<Messages<T>>, msg: T)
        requires
            self.known(old(s)),
        ensures
            self.known(final(s)),
            self.alone(old(s), final(s)),
            self.of(final(s)) == self.of(old(s)).push(msg),
    {
        s.at_mut(self.id).push(msg);
    }

    /// Takes the first message.
    pub fn pop(&self, s: &mut Store<Messages<T>>) -> (r: Option<T>)
        requires
            self.known(old(s)),
        ensures
            self.known(final(s)),
            self.alone(old(s), final(s)),
            match r {
                Some(m) => self.of(old(s)).len() > 0 && m == self.of(old(s))[0] && self.of(
                    final(s),
                ) == self.of(old(s)).skip(1),
                None => self.of(old(s)).len() == 0 && self.of(final(s)) == self.of(old(s)),
            },
    {
        s.at_mut(self.id).pop()
    }

    /// Nothing is queued.
    pub fn is_empty(&self, s: &Store<Messages<T>>) -> (r: bool)
        requires
            self.known(s),
        ensures
            r == (self.of(s).len() == 0),
    {
        s.at(self.id).is_empty()
    }

    /// How many messages are queued.
    pub fn len(&self, s: &Store<Messages<T>>) -> (r: usize)
        requires
            self.known(s),
        ensures
            r == self.of(s).len(),
    {
        s.at(self.id).len()
    }

    /// Takes all messages, the first one first.
    pub fn drain_all(&self, s: &mut Store<Messages<T>>) -> (r: Vec<T>)
        requires
            self.known(old(s)),
        ensures
            self.known(final(s)),
            self.alone(old(s), final(s)),
            r@ == self.of(old(s)),
            self.of(final(s)) == Seq::<T>::empty(),
    {
        s.at_mut(self.id).drain_all()
    }
}

/// The notes that sound, for several voices.
#[derive(Clone, Copy, Debug, PartialEq, Eq, Structural)]
pub struct NoteSet {
    /// The number of the set.
    pub id: usize,
}

impl NoteSet {
    /// The set is there, and no note is kept twice.
    pub open spec fn known(self, s: &Store<Notes>) -> bool {
        self.id < s@.len() && s@[self.id as int].wf()
    }

    /// The notes that sound.
    pub open spec fn of(self, s: &Store<Notes>) -> Set<u8> {
        s@[self.id as int]@
    }

    /// Nothing but this set is changed.
    pub open spec fn alone(self, a: &Store<Notes>, b: &Store<Notes>) -> bool {
        b@ == a@.update(self.id as int, b@[self.id as int])
    }

    /// No notes.
    pub fn new(s: &mut Store<Notes>) -> (r: Self)
        ensures
            r.known(final(s)),
            r.id == old(s)@.len(),
            final(s)@ == old(s)@.push(final(s)@[r.id as int]),
            r.of(final(s)) == Set::<u8>::empty(),
    {
        let id: usize = s.put(Notes::new());
        NoteSet { id }
    }

    /// Adds a note.
    pub fn add(&self, s: &mut Store<Notes>, note: u8)
        requires
            self.known(old(s)),
        ensures
            self.known(final(s)),
            self.alone(old(s), final(s)),
            self.of(final(s)) == self.of(old(s)).insert(note),
    {
        s.at_mut(self.id).add(note);
    }

    /// Removes a note.
    pub fn remove(&self, s: &mut Store<Notes>, note: u8)
        requires
            self.known(old(s)),
        ensures
            self.known(final(s)),
            self.alone(old(s), final(s)),
            self.of(final(s)) == self.of(old(s)).remove(note),
    {
        s.at_mut(self.id).remove(note);
    }

    /// The note sounds.
    pub fn contains(&self, s: &Store<Notes>, note: u8) -> (r: bool)
        requires
            self.known(s),
        ensures
            r == self.of(s).contains(note),
    {
        s.at(self.id).contains(note)
    }

    /// All notes that sound, each once, in no particular order.
    pub fn notes(&self, s: &Store<Notes>) -> (r: Vec<u8>)
        requires
            self.known(s),
        ensures
            r@.no_duplicates(),
            r@.to_set() == self.of(s),
    {
        s.at(self.id).notes()
    }

    /// How many notes sound.
    pub fn len(&self, s: &Store<Notes>) -> (r: usize)
        requires
            self.known(s),
        ensures
            r == self.of(s).len(),
    {
        s.at(self.id).len()
    }

    /// No note sounds.
    pub fn is_empty(&self, s: &Store<Notes>) -> (r: bool)
        requires
            self.known(s),
        ensures
            r == self.of(s).is_empty(),
    {
        s.at(self.id).is_empty()
    }

    /// Removes all notes.
    pub fn clear(&self, s: &mut Store<Notes>)
        requires
            self.known(old(s)),
        ensures
            self.known(final(s)),
            self.alone(old(s), final(s)),
            self.of(final(s)) == Set::<u8>::empty(),
    {
        s.at_mut(self.id).clear();
    }
}

/// Numbers under names, for several voices.
#[derive(Clone, Copy, Debug, PartialEq, Eq, Structural)]
pub struct Params {
    /// The number of the collection.
    pub id: usize,
}

impl Params {
    /// The collection is there, and no name is kept twice.
    pub open spec fn known(self, s: &Store<Numbers>) -> bool {
        self.id < s@.len() && s@[self.id as int].wf()
    }

    /// The numbers under their names.
    pub open spec fn of(self, s: &Store<Numbers>) -> Map<Seq<char>, Flt> {
        s@[self.id as int]@
    }

    /// Nothing but this collection is changed.
    pub open spec fn alone(self, a: &Store<Numbers>, b: &Store<Numbers>) -> bool {
        b@ == a@.update(self.id as int, b@[self.id as int])
    }

    /// No numbers.
    pub fn new(s: &mut Store<Numbers>) -> (r: Self)
        ensures
            r.known(final(s)),
            r.id == old(s)@.len(),
            final(s)@ == old(s)@.push(final(s)@[r.id as int]),
            r.of(final(s)) == Map::<Seq<char>, Flt>::empty(),
    {
        let id: usize = s.put(Numbers::new());
        Params { id }
    }

    /// Puts a number under a name.
    pub fn set(&self, s: &mut Store<Numbers>, name: &str, value: Flt)
        requires
            self.known(old(s)),
        ensures
            self.known(final(s)),
            self.alone(old(s), final(s)),
            self.of(final(s)) == self.of(old(s)).insert(name@, value),
    {
        s.at_mut(self.id).set(name, value);
    }

    /// The number under a name.
    pub fn get(&self, s: &Store<Numbers>, name: &str) -> (r: Option<Flt>)
        requires
            self.known(s),
        ensures
            r == (if self.of(s).contains_key(name@) {
                Some(self.of(s)[name@])
            } else {
                None
            }),
    {
        s.at(self.id).get(name)
    }

    /// The number under a name, or another where there is none.
    pub fn get_or(&self, s: &Store<Numbers>, name: &str, default: Flt) -> (r: Flt)
        requires
            self.known(s),
        ensures
            r == (if self.of(s).contains_key(name@) {
                self.of(s)[name@]
            } else {
                default
            }),
    {
        s.at(self.id).get_or(name, default)
    }

    /// Changes the number under a name, where there is one.
    pub fn modify(&self, s: &mut Store<Numbers>, name: &str, f: impl FnOnce(Flt) -> Flt)
        requires
            self.known(old(s)),
            self.of(old(s)).contains_key(name@) ==> call_requires(f, (self.of(old(s))[name@],)),
        ensures
            self.known(final(s)),
            self.alone(old(s), final(s)),
            if self.of(old(s)).contains_key(name@) {
                exists|v: Flt| #[trigger]
                    call_ensures(f, (self.of(old(s))[name@],), v) && self.of(final(s)) == self.of(
                        old(s),
                    ).insert(name@, v)
            } else {
                self.of(final(s)) == self.of(old(s))
            },
    {
        s.at_mut(self.id).modify(name, f);
    }
}

/// What some holder does to a queue.
pub enum QueueMove<T> {
    /// Adds a message.
    Push(T),
    /// Takes the first message.
    Pop,
    /// Takes all messages.
    Drain,
}

/// A queue, what was pushed on it, and what it gave, by all its holders.
pub struct QueueLog<T> {
    /// What is queued.
    pub queued: Seq<T>,
    /// All that was pushed, in order.
    pub pushed: Seq<T>,
    /// All that was given, in order.
    pub given: Seq<T>,
}

/// After one move.
pub open spec fn queue_moved<T>(q: QueueLog<T>, m: QueueMove<T>) -> QueueLog<T> {
    match m {
        QueueMove::Push(x) => QueueLog {
            queued: q.queued.push(x),
            pushed: q.pushed.push(x),
            ..q
        },
        QueueMove::Pop => if q.queued.len() > 0 {
            QueueLog { queued: q.queued.skip(1), given: q.given.push(q.queued[0]), ..q }
        } else {
            q
        },
        QueueMove::Drain => QueueLog {
            queued: Seq::empty(),
            given: q.given + q.queued,
            ..q
        },
    }
}

/// After these moves, one after the other, on an empty queue.
pub open spec fn queue_log<T>(ms: Seq<QueueMove<T>>) -> QueueLog<T>
    decreases ms.len(),
{
    if ms.len() == 0 {
        QueueLog { queued: Seq::empty(), pushed: Seq::empty(), given: Seq::empty() }
    } else {
        queue_moved(queue_log(ms.drop_last()), ms.last())
    }
}

/// Whoever pushes and whoever takes, a queue gives every message once, in the
/// order of the pushes; what is queued is what was pushed and not given.
pub proof fn queue_gives_in_push_order<T>(ms: Seq<QueueMove<T>>)
    ensures
        queue_log(ms).pushed == queue_log(ms).given + queue_log(ms).queued,
        queue_log(ms).queued.len() == queue_log(ms).pushed.len() - queue_log(ms).given.len(),
    decreases ms.len(),
{
    if ms.len() > 0 {
        queue_gives_in_push_order(ms.drop_last());
        let q = queue_log(ms.drop_last());
        let r = queue_log(ms);
        assert(r.pushed =~= r.given + r.queued);
    } else {
        assert(queue_log(ms).pushed =~= queue_log(ms).given + queue_log(ms).queued);
    }
}

} // verus!
