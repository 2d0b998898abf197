//! What voices share: messages, sounding notes and named numbers.
use std::collections::VecDeque;
use vstd::prelude::*;

use crate::flt::Flt;

verus! {

/// A queue of messages: what is pushed first is popped first.
pub struct Messages<T> {
    items: VecDeque<T>,
}

impl<T> View for Messages<T> {
    type V = Seq<T>;

    closed spec fn view(&self) -> Seq<T> {
        self.items@
    }
}

impl<T> Messages<T> {
    /// An empty queue.
    pub fn new() -> (r: Self)
        ensures
            r@ == Seq::<T>::empty(),
    {
        Messages { items: VecDeque::new() }
    }

    /// Adds a message at the end.
    pub fn push(&mut self, msg: T)
        ensures
            final(self)@ == old(self)@.push(msg),
    {
        self.items.push_back(msg);
    }

    /// Takes the first message.
    pub fn pop(&mut self) -> (r: Option<T>)
        ensures
            match r {
                Some(m) => old(self)@.len() > 0 && m == old(self)@[0] && final(self)@ == old(
                    self,
                )@.skip(1),
                None => old(self)@.len() == 0 && final(self)@ == old(self)@,
            },
    {
        let r: Option<T> = self.items.pop_front();
        proof {
            if old(self)@.len() > 0 {
                assert(self@ =~= old(self)@.skip(1));
            }
        }
        r
    }

    /// Nothing is queued.
    pub fn is_empty(&self) -> (r: bool)
        ensures
            r == (self@.len() == 0),
    {
        self.items.len() == 0
    }

    /// How many messages are queued.
    pub fn len(&self) -> (r: usize)
        ensures
            r == self@.len(),
    {
        self.items.len()
    }

    /// Takes all messages, the first one first.
    pub fn drain_all(&mut self) -> (r: Vec<T>)
        ensures
            r@ == old(self)@,
            final(self)@ == Seq::<T>::empty(),
    {
        let mut out: Vec<T> = Vec::new();
        assert(out@ + self@ =~= old(self)@);
        loop
            invariant
                out@ + self@ == old(self)@,
            ensures
                out@ == old(self)@,
                self@.len() == 0,
            decreases self@.len(),
        {
            let ghost was = self@;
            let ghost had = out@;
            match self.pop() {
                Some(m) => {
                    out.push(m);
                    assert(out@ + self@ =~= had + was);
                },
                None => {
                    assert(out@ =~= out@ + self@);
                    break ;
                },
            }
        }
        assert(self@ =~= Seq::<T>::empty());
        out
    }
}

impl<T> Default for Messages<T> {
    fn default() -> (r: Self)
        ensures
            r@ == Seq::<T>::empty(),
    {
        Self::new()
    }
}

/// The notes that sound.
pub struct Notes {
    items: Vec<u8>,
}

impl View for Notes {
    type V = Set<u8>;

    closed spec fn view(&self) -> Set<u8> {
        self.items@.to_set()
    }
}

impl Notes {
    /// No note is kept twice.
    pub closed spec fn wf(&self) -> bool {
        self.items@.no_duplicates()
    }

    /// No notes.
    pub fn new() -> (r: Self)
        ensures
            r.wf(),
            r@ == Set::<u8>::empty(),
    {
        let r: Notes = Notes { items: Vec::new() };
        assert(r@ =~= Set::empty());
        r
    }

    /// Adds a note.
    pub fn add(&mut self, note: u8)
        requires
            old(self).wf(),
        ensures
            final(self).wf(),
            final(self)@ == old(self)@.insert(note),
    {
        if !self.contains(note) {
            self.items.push(note);
            proof {
                let was = old(self).items@;
                assert forall|n: u8| self@.contains(n) == old(self)@.insert(note).contains(n) by {
                    if was.contains(n) {
                        let i = choose|i: int| 0 <= i < was.len() && was[i] == n;
                        assert(self.items@[i] == n);
                    }
                    assert(self.items@[was.len() as int] == note);
                }
            }
        }
        assert(self@ =~= old(self)@.insert(note));
    }

    /// Removes a note.
    pub fn remove(&mut self, note: u8)
        requires
            old(self).wf(),
        ensures
            final(self).wf(),
            final(self)@ == old(self)@.remove(note),
    {
        let ghost was = self.items@;
        let mut i: usize = 0;
        while i < self.items.len()
            invariant_except_break
                self.items@ == was,
            invariant
                was.no_duplicates(),
                i <= was.len(),
                forall|j: int| 0 <= j < i ==> #[trigger] was[j] != note,
            ensures
                self.items@ == was || (i < was.len() && was[i as int] == note && self.items@
                    == was.remove(i as int)),
                self.items@ == was ==> !was.contains(note),
            decreases was.len() - i,
        {
            if self.items[i] == note {
                self.items.remove(i);
                assert(self.items@.len() != was.len());
                break ;
            }
            i = i + 1;
        }
        proof {
            let now = self.items@;
            if now != was {
                assert forall|n: u8| now.contains(n) == (was.contains(n) && n != note) by {
                    if was.contains(n) && n != note {
                        let j = choose|j: int| 0 <= j < was.len() && was[j] == n;
                        if j < i {
                            assert(now[j] == n);
                        } else {
                            assert(now[j - 1] == n);
                        }
                    }
                    if now.contains(n) {
                        let j = choose|j: int| 0 <= j < now.len() && now[j] == n;
                        let k = if j < i {
                            j
                        } else {
                            j + 1
                        };
                        assert(was[k] == n);
                    }
                }
            }
            assert(self@ =~= old(self)@.remove(note));
        }
    }

    /// The note sounds.
    pub fn contains(&self, note: u8) -> (r: bool)
        ensures
            r == self@.contains(note),
    {
        let mut i: usize = 0;
        while i < self.items.len()
            invariant
                i <= self.items.len(),
                forall|j: int| 0 <= j < i ==> #[trigger] self.items@[j] != note,
            decreases self.items.len() - i,
        {
            if self.items[i] == note {
                assert(self.items@.contains(note));
                return true;
            }
            i = i + 1;
        }
        false
    }

    /// All notes that sound, each once, in no particular order.
    pub fn notes(&self) -> (r: Vec<u8>)
        requires
            self.wf(),
        ensures
            r@.no_duplicates(),
            r@.to_set() == self@,
    {
        let r: Vec<u8> = self.items.clone();
        assert(r@ =~= self.items@);
        r
    }

    /// How many notes sound.
    pub fn len(&self) -> (r: usize)
        requires
            self.wf(),
        ensures
            r == self@.len(),
    {
        proof {
            self.items@.unique_seq_to_set();
        }
        self.items.len()
    }

    /// No note sounds.
    pub fn is_empty(&self) -> (r: bool)
        ensures
            r == self@.is_empty(),
    {
        proof {
            if self.items@.len() > 0 {
                assert(self@.contains(self.items@[0]));
            } else {
                assert(self@ =~= Set::empty());
            }
        }
        self.items.len() == 0
    }

    /// Removes all notes.
    pub fn clear(&mut self)
        ensures
            final(self).wf(),
            final(self)@ == Set::<u8>::empty(),
    {
        self.items.clear();
        assert(self@ =~= Set::empty());
    }
}

impl Default for Notes {
    fn default() -> (r: Self)
        ensures
            r.wf(),
            r@ == Set::<u8>::empty(),
    {
        Self::new()
    }
}

/// Numbers under names.
pub struct Numbers {
    names: Vec<String>,
    values: Vec<Flt>,
}

/// The value under the last of the first `n` names that is `name`.
spec fn looked_up(names: Seq<String>, values: Seq<Flt>, name: Seq<char>, n: int) -> Option<Flt>
    decreases n,
{
    if n <= 0 {
        None
    } else if names[n - 1]@ == name {
        Some(values[n - 1])
    } else {
        looked_up(names, values, name, n - 1)
    }
}

impl View for Numbers {
    type V = Map<Seq<char>, Flt>;

    closed spec fn view(&self) -> Map<Seq<char>, Flt> {
        Map::new(
            |k: Seq<char>| looked_up(self.names@, self.values@, k, self.names@.len() as int) is Some,
            |k: Seq<char>|
                looked_up(self.names@, self.values@, k, self.names@.len() as int)->Some_0,
        )
    }
}

proof fn lemma_lookup_same(
    names: Seq<String>,
    a: Seq<Flt>,
    b: Seq<Flt>,
    name: Seq<char>,
    n: int,
)
    requires
        n <= names.len(),
        forall|i: int| 0 <= i < n && (#[trigger] names[i])@ == name ==> a[i] == b[i],
    ensures
        looked_up(names, a, name, n) == looked_up(names, b, name, n),
    decreases n,
{
    if n > 0 {
        lemma_lookup_same(names, a, b, name, n - 1);
        assert(names[n - 1]@ == name ==> a[n - 1] == b[n - 1]);
    }
}

proof fn lemma_lookup_longer(
    names: Seq<String>,
    more: Seq<String>,
    a: Seq<Flt>,
    b: Seq<Flt>,
    name: Seq<char>,
    n: int,
)
    requires
        n <= names.len() <= more.len(),
        n <= a.len() <= b.len(),
        forall|i: int| 0 <= i < n ==> #[trigger] names[i] == more[i],
        forall|i: int| 0 <= i < n ==> #[trigger] a[i] == b[i],
    ensures
        looked_up(names, a, name, n) == looked_up(more, b, name, n),
    decreases n,
{
    if n > 0 {
        lemma_lookup_longer(names, more, a, b, name, n - 1);
        assert(names[n - 1] == more[n - 1]);
        assert(a[n - 1] == b[n - 1]);
    }
}

proof fn lemma_lookup_absent(names: Seq<String>, values: Seq<Flt>, name: Seq<char>, n: int)
    requires
        n <= names.len(),
        forall|i: int| 0 <= i < n ==> (#[trigger] names[i])@ != name,
    ensures
        looked_up(names, values, name, n) is None,
    decreases n,
{
    if n > 0 {
        lemma_lookup_absent(names, values, name, n - 1);
        assert(names[n - 1]@ != name);
    }
}

proof fn lemma_lookup_at(names: Seq<String>, values: Seq<Flt>, name: Seq<char>, i: int, n: int)
    requires
        0 <= i < n <= names.len(),
        names[i]@ == name,
        forall|j: int| 0 <= j < n && j != i ==> (#[trigger] names[j])@ != name,
    ensures
        looked_up(names, values, name, n) == Some(values[i]),
    decreases n,
{
    if n - 1 != i {
        assert(names[n - 1]@ != name);
        lemma_lookup_at(names, values, name, i, n - 1);
    }
}

impl Numbers {
    /// No name is kept twice.
    pub closed spec fn wf(&self) -> bool {
        &&& self.names@.len() == self.values@.len()
        &&& forall|i: int, j: int|
            0 <= i < j < self.names@.len() ==> (#[trigger] self.names@[i])@ != (
            #[trigger] self.names@[j])@
    }

    /// No numbers.
    pub fn new() -> (r: Self)
        ensures
            r.wf(),
            r@ == Map::<Seq<char>, Flt>::empty(),
    {
        let r: Numbers = Numbers { names: Vec::new(), values: Vec::new() };
        assert(r@ =~= Map::empty());
        r
    }

    /// Where a name stands.
    fn find(&self, name: &String) -> (r: Option<usize>)
        requires
            self.wf(),
        ensures
            match r {
                Some(i) => i < self.names@.len() && self.names@[i as int]@ == name@
                    && self@.contains_key(name@) && self@[name@] == self.values@[i as int],
                None => !self@.contains_key(name@) && forall|j: int|
                    0 <= j < self.names@.len() ==> (#[trigger] self.names@[j])@ != name@,
            },
    {
        let mut i: usize = 0;
        while i < self.names.len()
            invariant
                self.wf(),
                i <= self.names@.len(),
                forall|j: int| 0 <= j < i ==> (#[trigger] self.names@[j])@ != name@,
            decreases self.names@.len() - i,
        {
            if self.names[i] == *name {
                proof {
                    assert forall|j: int| 0 <= j < self.names@.len() && j != i implies (
                    #[trigger] self.names@[j])@ != name@ by {
                        if i < j {
                            assert(self.names@[i as int]@ != self.names@[j]@);
                        }
                    }
                    lemma_lookup_at(
                        self.names@,
                        self.values@,
                        name@,
                        i as int,
                        self.names@.len() as int,
                    );
                }
                return Some(i);
            }
            i = i + 1;
        }
        proof {
            lemma_lookup_absent(self.names@, self.values@, name@, self.names@.len() as int);
        }
        None
    }

    /// Puts a number under a name.
    pub fn set(&mut self, name: &str, value: Flt)
        requires
            old(self).wf(),
        ensures
            final(self).wf(),
            final(self)@ == old(self)@.insert(name@, value),
    {
        let key: String = name.to_owned();
        match self.find(&key) {
            Some(i) => {
                self.values.set(i, value);
                proof {
                    let names = self.names@;
                    let n = names.len() as int;
                    assert forall|k: Seq<char>| k != name@ implies looked_up(
                        names,
                        self.values@,
                        k,
                        n,
                    ) == looked_up(names, old(self).values@, k, n) by {
                        lemma_lookup_same(names, self.values@, old(self).values@, k, n);
                    }
                    assert forall|j: int| 0 <= j < n && j != i implies (#[trigger] names[j])@
                        != name@ by {
                        if j < i {
                            assert(names[j]@ != names[i as int]@);
                        } else {
                            assert(names[i as int]@ != names[j]@);
                        }
                    }
                    lemma_lookup_at(names, self.values@, name@, i as int, n);
                    assert(self@ =~= old(self)@.insert(name@, value));
                }
            },
            None => {
                self.names.push(key);
                self.values.push(value);
                proof {
                    let n = old(self).names@.len() as int;
                    assert forall|k: Seq<char>| k != name@ implies looked_up(
                        self.names@,
                        self.values@,
                        k,
                        n + 1,
                    ) == looked_up(old(self).names@, old(self).values@, k, n) by {
                        lemma_lookup_longer(
                            old(self).names@,
                            self.names@,
                            old(self).values@,
                            self.values@,
                            k,
                            n,
                        );
                    }
                    assert forall|i: int, j: int| 0 <= i < j < self.names@.len() implies (
                    #[trigger] self.names@[i])@ != (#[trigger] self.names@[j])@ by {
                        assert(old(self).names@[i]@ != name@);
                        if j < n {
                            assert(old(self).names@[i]@ != old(self).names@[j]@);
                        }
                    }
                    assert(self@ =~= old(self)@.insert(name@, value));
                }
            },
        }
    }

    /// The number under a name.
    pub fn get(&self, name: &str) -> (r: Option<Flt>)
        requires
            self.wf(),
        ensures
            r == (if self@.contains_key(name@) {
                Some(self@[name@])
            } else {
                None
            }),
    {
        let key: String = name.to_owned();
        match self.find(&key) {
            Some(i) => Some(self.values[i]),
            None => None,
        }
    }

    /// The number under a name, or another where there is none.
    pub fn get_or(&self, name: &str, default: Flt) -> (r: Flt)
        requires
            self.wf(),
        ensures
            r == (if self@.contains_key(name@) {
                self@[name@]
            } else {
                default
            }),
    {
        match self.get(name) {
            Some(v) => v,
            None => default,
        }
    }

    /// Changes the number under a name, where there is one.
    pub fn modify(&mut self, name: &str, f: impl FnOnce(Flt) -> Flt)
        requires
            old(self).wf(),
            old(self)@.contains_key(name@) ==> call_requires(f, (old(self)@[name@],)),
        ensures
            final(self).wf(),
            if old(self)@.contains_key(name@) {
                exists|v: Flt| #[trigger]
                    call_ensures(f, (old(self)@[name@],), v) && final(self)@ == old(self)@.insert(
                        name@,
                        v,
                    )
            } else {
                final(self)@ == old(self)@
            },
    {
        match self.get(name) {
            Some(v) => {
                let w: Flt = f(v);
                self.set(name, w);
            },
            None => {},
        }
    }
}

impl Default for Numbers {
    fn default() -> (r: Self)
        ensures
            r.wf(),
            r@ == Map::<Seq<char>, Flt>::empty(),
    {
        Self::new()
    }
}

} // verus!
