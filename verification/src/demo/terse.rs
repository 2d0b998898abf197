//! The same shared values under short names.
use vstd::prelude::*;

use crate::demo::shared::{MessageQueue, NoteSet, Params, Shared, Store};
use crate::demo::values::{Messages, Notes, Numbers};
use crate::flt::Flt;

verus! {

/// A value that several voices share.
#[derive(Debug)]
pub struct V<T> {
    /// The handle.
    pub inner: Shared<T>,
}

impl<T> Clone for V<T> {
    fn clone(&self) -> (r: Self)
        ensures
            r.inner.id == self.inner.id,
    {
        V { inner: self.inner.clone() }
    }
}

impl<T> V<T> {
    /// A shared value.
    pub fn new(s: &mut Store<T>, val: T) -> (r: Self)
        ensures
            r.inner.known(final(s)),
            r.inner.id == old(s)@.len(),
            final(s)@ == old(s)@.push(val),
    {
        V { inner: Shared::new(s, val) }
    }

    /// Changes the value, and hands out what the change gives.
    pub fn m<R>(&self, s: &mut Store<T>, f: impl FnOnce(&mut T) -> R) -> (r: R)
        requires
            self.inner.known(old(s)),
            forall|x: &mut T| *x == old(s)@[self.inner.id as int] ==> call_requires(f, (x,)),
        ensures
            final(s)@ == old(s)@.update(self.inner.id as int, final(s)@[self.inner.id as int]),
            exists|x: &mut T|
                *x == old(s)@[self.inner.id as int] && *final(x) == final(s)@[self.inner.id as int] && #[trigger] call_ensures(f, (x,), r),
    {
        self.inner.modify(s, f)
    }
}

impl<T: Clone> V<T> {
    /// A copy of the value.
    pub fn g(&self, s: &Store<T>) -> (r: T)
        requires
            self.inner.known(s),
        ensures
            cloned(s@[self.inner.id as int], r),
    {
        self.inner.get(s)
    }
}

impl<T: Copy> V<T> {
    /// Replaces the value.
    pub fn s(&self, s: &mut Store<T>, val: T)
        requires
            self.inner.known(old(s)),
        ensures
            final(s)@ == old(s)@.update(self.inner.id as int, val),
    {
        self.inner.set(s, val);
    }
}

/// A queue of messages that several voices share.
pub struct Q<T> {
    /// The handle.
    pub inner: MessageQueue<T>,
}

impl<T> Clone for Q<T> {
    fn clone(&self) -> (r: Self)
        ensures
            r.inner.id == self.inner.id,
    {
        Q { inner: self.inner.clone() }
    }
}

impl<T> Q<T> {
    /// An empty queue.
    pub fn new(s: &mut Store<Messages<T>>) -> (r: Self)
        ensures
            r.inner.known(final(s)),
            r.inner.id == old(s)@.len(),
            final(s)@ == old(s)@.push(final(s)@[r.inner.id as int]),
            r.inner.of(final(s)) == Seq::<T>::empty(),
    {
        Q { inner: MessageQueue::new(s) }
    }

    /// Adds a message at the end.
    pub fn push(&self, s: &mut Store<Messages<T>>, v: T)
        requires
            self.inner.known(old(s)),
        ensures
            self.inner.known(final(s)),
            self.inner.alone(old(s), final(s)),
            self.inner.of(final(s)) == self.inner.of(old(s)).push(v),
    {
        self.inner.push(s, v);
    }

    /// Takes the first message.
    pub fn pop(&self, s: &mut Store<Messages<T>>) -> (r: Option<T>)
        requires
            self.inner.known(old(s)),
        ensures
            self.inner.known(final(s)),
            self.inner.alone(old(s), final(s)),
            match r {
                Some(m) => self.inner.of(old(s)).len() > 0 && m == self.inner.of(old(s))[0]
                    && self.inner.of(final(s)) == self.inner.of(old(s)).skip(1),
                None => self.inner.of(old(s)).len() == 0 && self.inner.of(final(s))
                    == self.inner.of(old(s)),
            },
    {
        self.inner.pop(s)
    }

    /// How many messages are queued.
    pub fn len(&self, s: &Store<Messages<T>>) -> (r: usize)
        requires
            self.inner.known(s),
        ensures
            r == self.inner.of(s).len(),
    {
        self.inner.len(s)
    }
}

/// The notes that sound, for several voices.
#[derive(Clone, Copy, Debug, PartialEq, Eq, Structural)]
pub struct N {
    /// The handle.
    pub inner: NoteSet,
}

impl N {
    /// No notes.
    pub fn new(s: &mut Store<Notes>) -> (r: Self)
        ensures
            r.inner.known(final(s)),
            r.inner.id == old(s)@.len(),
            final(s)@ == old(s)@.push(final(s)@[r.inner.id as int]),
            r.inner.of(final(s)) == Set::<u8>::empty(),
    {
        N { inner: NoteSet::new(s) }
    }

    /// Adds a note.
    pub fn add(&self, s: &mut Store<Notes>, n: u8)
        requires
            self.inner.known(old(s)),
        ensures
            self.inner.known(final(s)),
            self.inner.alone(old(s), final(s)),
            self.inner.of(final(s)) == self.inner.of(old(s)).insert(n),
    {
        self.inner.add(s, n);
    }

    /// Removes a note.
    pub fn rm(&self, s: &mut Store<Notes>, n: u8)
        requires
            self.inner.known(old(s)),
        ensures
            self.inner.known(final(s)),
            self.inner.alone(old(s), final(s)),
            self.inner.of(final(s)) == self.inner.of(old(s)).remove(n),
    {
        self.inner.remove(s, n);
    }

    /// The note sounds.
    pub fn has(&self, s: &Store<Notes>, n: u8) -> (r: bool)
        requires
            self.inner.known(s),
        ensures
            r == self.inner.of(s).contains(n),
    {
        self.inner.contains(s, n)
    }

    /// All notes that sound, each once, in no particular order.
    pub fn all(&self, s: &Store<Notes>) -> (r: Vec<u8>)
        requires
            self.inner.known(s),
        ensures
            r@.no_duplicates(),
            r@.to_set() == self.inner.of(s),
    {
        self.inner.notes(s)
    }

    /// Removes all notes.
    pub fn clear(&self, s: &mut Store<Notes>)
        requires
            self.inner.known(old(s)),
        ensures
            self.inner.known(final(s)),
            self.inner.alone(old(s), final(s)),
            self.inner.of(final(s)) == Set::<u8>::empty(),
    {
        self.inner.clear(s);
    }
}

/// Numbers under names, for several voices.
#[derive(Clone, Copy, Debug, PartialEq, Eq, Structural)]
pub struct P {
    /// The handle.
    pub inner: Params,
}

impl P {
    /// No numbers.
    pub fn new(s: &mut Store<Numbers>) -> (r: Self)
        ensures
            r.inner.known(final(s)),
            r.inner.id == old(s)@.len(),
            final(s)@ == old(s)@.push(final(s)@[r.inner.id as int]),
            r.inner.of(final(s)) == Map::<Seq<char>, Flt>::empty(),
    {
        P { inner: Params::new(s) }
    }

    /// Puts a number under a name.
    pub fn s(&self, s: &mut Store<Numbers>, k: &str, v: Flt)
        requires
            self.inner.known(old(s)),
        ensures
            self.inner.known(final(s)),
            self.inner.alone(old(s), final(s)),
            self.inner.of(final(s)) == self.inner.of(old(s)).insert(k@, v),
    {
        self.inner.set(s, k, v);
    }

    /// The number under a name, or 0 where there is none.
    pub fn g(&self, s: &Store<Numbers>, k: &str) -> (r: Flt)
        requires
            self.inner.known(s),
        ensures
            r == (if self.inner.of(s).contains_key(k@) {
                self.inner.of(s)[k@]
            } else {
                Flt::zero()
            }),
    {
        self.inner.get_or(s, k, Flt::zero())
    }
}

} // verus!
