//! Per-worker-thread storage for one tick.
//!
//! The worker pool has a fixed size, and each worker is assigned a slot
//! index at pool start-up. A worker writes only its own slot, so pushes
//! contend on nothing; one coordinator drains every slot between tick
//! phases, after a barrier has stopped all producers.

use vstd::prelude::*;
use vstd::seq_lib::lemma_seq_contains_after_push;

verus! {

broadcast use lemma_seq_contains_after_push;

/// The fixed number of worker threads, and so of slots.
pub const NUM_THREADS: usize = 8;

/// One value per worker slot.
pub struct ThreadLocal<T> {
    locals: Vec<T>,
}

impl<T> ThreadLocal<T> {
    /// The slot values, by worker id.
    pub closed spec fn view_spec(self) -> Seq<T> {
        self.locals@
    }

    /// There is exactly one value per worker.
    pub closed spec fn wf(self) -> bool {
        self.locals@.len() == NUM_THREADS
    }

    /// One value per slot, built by calling `f` on each worker id in turn.
    pub fn new_with<F: Fn(usize) -> T>(f: F) -> (r: ThreadLocal<T>)
        requires
            forall|i: usize| i < NUM_THREADS ==> call_requires(f, (i,)),
        ensures
            r.wf(),
            forall|i: int|
                0 <= i < NUM_THREADS ==> call_ensures(f, (i as usize,), #[trigger] r.view_spec()[i]),
    {
        let mut locals: Vec<T> = Vec::with_capacity(NUM_THREADS);
        let mut i: usize = 0;
        while i < NUM_THREADS
            invariant
                0 <= i <= NUM_THREADS,
                locals@.len() == i,
                forall|i0: usize| i0 < NUM_THREADS ==> call_requires(f, (i0,)),
                forall|j: int|
                    0 <= j < i ==> call_ensures(f, (j as usize,), #[trigger] locals@[j]),
            decreases NUM_THREADS - i,
        {
            let v = f(i);
            locals.push(v);
            i = i + 1;
        }
        ThreadLocal { locals }
    }

    /// The value of the calling worker's slot.
    pub fn get(&self, worker: usize) -> (r: &T)
        requires
            self.wf(),
            worker < NUM_THREADS,
        ensures
            *r == self.view_spec()[worker as int],
    {
        &self.locals[worker]
    }
}

impl<T: Default> ThreadLocal<T> {
    /// One default value per slot: each slot holds a result of the type's
    /// `default`.
    pub fn new_defaults() -> (r: ThreadLocal<T>)
        ensures
            r.wf(),
            forall|i: int|
                0 <= i < NUM_THREADS ==> call_ensures(
                    T::default,
                    (),
                    #[trigger] r.view_spec()[i],
                ),
    {
        let mut locals: Vec<T> = Vec::with_capacity(NUM_THREADS);
        let mut i: usize = 0;
        while i < NUM_THREADS
            invariant
                0 <= i <= NUM_THREADS,
                locals@.len() == i,
                forall|j: int|
                    0 <= j < i ==> call_ensures(T::default, (), #[trigger] locals@[j]),
            decreases NUM_THREADS - i,
        {
            locals.push(T::default());
            i = i + 1;
        }
        ThreadLocal { locals }
    }
}

/// A flattened sequence of sequences is empty exactly when every part is.
proof fn lemma_flatten_alt_empty_iff<T>(s: Seq<Seq<T>>)
    ensures
        s.flatten_alt().len() == 0 <==> (forall|j: int|
            0 <= j < s.len() ==> #[trigger] s[j].len() == 0),
    decreases s.len(),
{
    if s.len() == 0 {
    } else {
        let t = s.drop_last();
        lemma_flatten_alt_empty_iff(t);
        assert(s.flatten_alt() == t.flatten_alt() + s.last());
        assert(forall|j: int| 0 <= j < t.len() ==> #[trigger] t[j] == s[j]);
        if s.flatten_alt().len() == 0 {
            assert forall|j: int| 0 <= j < s.len() implies #[trigger] s[j].len() == 0 by {
                if j < s.len() - 1 {
                    assert(t[j] == s[j]);
                }
            }
        }
    }
}

/// One append-only vector per worker slot, drained whole by a single
/// coordinator between tick phases.
pub struct ThreadLocalVec<T> {
    inner: Vec<Vec<T>>,
}

impl<T> ThreadLocalVec<T> {
    /// The slot contents, by worker id.
    pub closed spec fn slots(self) -> Seq<Seq<T>> {
        self.inner@.map_values(|v: Vec<T>| v@)
    }

    /// There is exactly one slot per worker.
    pub closed spec fn wf(self) -> bool {
        self.inner@.len() == NUM_THREADS
    }

    /// How many elements all slots hold together.
    pub open spec fn total_len(self) -> nat {
        self.slots().flatten().len()
    }

    /// Empty slots, each with room for `n` elements.
    pub fn with_capacity(n: usize) -> (r: ThreadLocalVec<T>)
        ensures
            r.wf(),
            forall|j: int| 0 <= j < NUM_THREADS ==> #[trigger] r.slots()[j] == Seq::<T>::empty(),
            r.total_len() == 0,
    {
        let mut inner: Vec<Vec<T>> = Vec::with_capacity(NUM_THREADS);
        let mut i: usize = 0;
        while i < NUM_THREADS
            invariant
                0 <= i <= NUM_THREADS,
                inner@.len() == i,
                forall|j: int| 0 <= j < i ==> #[trigger] inner@[j]@ == Seq::<T>::empty(),
            decreases NUM_THREADS - i,
        {
            inner.push(Vec::with_capacity(n));
            i = i + 1;
        }
        let r = ThreadLocalVec { inner };
        proof {
            r.slots().lemma_flatten_and_flatten_alt_are_equivalent();
            lemma_flatten_alt_empty_iff(r.slots());
        }
        r
    }

    /// Appends an element to the calling worker's slot; no other slot is
    /// touched, so concurrent workers never contend.
    pub fn push(&mut self, element: T, worker: usize)
        requires
            old(self).wf(),
            worker < NUM_THREADS,
        ensures
            final(self).wf(),
            final(self).slots() == old(self).slots().update(
                worker as int,
                old(self).slots()[worker as int].push(element),
            ),
    {
        self.inner[worker].push(element);
        proof {
            assert(self.slots() =~= old(self).slots().update(
                worker as int,
                old(self).slots()[worker as int].push(element),
            ));
        }
    }

    /// How many elements are waiting across all slots.
    pub fn len(&mut self) -> (r: usize)
        requires
            old(self).wf(),
            old(self).total_len() <= usize::MAX,
        ensures
            *final(self) == *old(self),
            r == old(self).total_len(),
    {
        let s_len = self.inner.len();
        let ghost s = self.slots();
        let mut acc: usize = 0;
        let mut i: usize = 0;
        proof {
            s.lemma_flatten_and_flatten_alt_are_equivalent();
            assert(s.take(0).flatten_alt() =~= Seq::<T>::empty());
        }
        while i < s_len
            invariant
                0 <= i <= s_len,
                s_len == s.len(),
                s == self.slots(),
                self.wf(),
                acc == s.take(i as int).flatten_alt().len(),
                s.flatten_alt().len() <= usize::MAX,
            decreases s_len - i,
        {
            proof {
                assert(s.take(i + 1).drop_last() =~= s.take(i as int));
                assert(s.take(i + 1).last() == s[i as int]);
                assert(s.take(i + 1).flatten_alt() == s.take(i as int).flatten_alt() + s[i as int]);
                lemma_flatten_alt_take_len_le(s, i + 1);
            }
            proof {
                assert(s[i as int] == self.inner@[i as int]@);
            }
            let slot_len = self.inner[i].len();
            acc = acc + slot_len;
            i = i + 1;
        }
        proof {
            assert(s.take(s.len() as int) =~= s);
        }
        acc
    }

    /// Whether every slot is empty.
    pub fn is_empty(&mut self) -> (r: bool)
        requires
            old(self).wf(),
        ensures
            *final(self) == *old(self),
            r == (old(self).total_len() == 0),
    {
        let s_len = self.inner.len();
        let ghost s = self.slots();
        let mut i: usize = 0;
        proof {
            s.lemma_flatten_and_flatten_alt_are_equivalent();
            lemma_flatten_alt_empty_iff(s);
        }
        while i < s_len
            invariant
                0 <= i <= s_len,
                s_len == s.len(),
                s == self.slots(),
                self.wf(),
                forall|j: int| 0 <= j < i ==> #[trigger] s[j].len() == 0,
            decreases s_len - i,
        {
            if self.inner[i].len() > 0 {
                proof {
                    assert(s[i as int] == self.inner@[i as int]@);
                    s.lemma_flatten_and_flatten_alt_are_equivalent();
                    lemma_flatten_alt_empty_iff(s);
                }
                return false;
            }
            proof {
                assert(s[i as int] == self.inner@[i as int]@);
            }
            i = i + 1;
        }
        true
    }

    /// Empties every slot.
    pub fn clear(&mut self)
        requires
            old(self).wf(),
        ensures
            final(self).wf(),
            forall|j: int|
                0 <= j < NUM_THREADS ==> #[trigger] final(self).slots()[j] == Seq::<T>::empty(),
            final(self).total_len() == 0,
    {
        let s_len = self.inner.len();
        let mut i: usize = 0;
        while i < s_len
            invariant
                0 <= i <= s_len,
                self.wf(),
                s_len == NUM_THREADS,
                forall|j: int| 0 <= j < i ==> #[trigger] self.slots()[j] == Seq::<T>::empty(),
            decreases s_len - i,
        {
            let ghost prev = self.slots();
            self.inner[i].clear();
            proof {
                assert(self.slots() =~= prev.update(i as int, Seq::<T>::empty()));
                assert forall|j: int| 0 <= j < i + 1 implies #[trigger] self.slots()[j]
                    == Seq::<T>::empty() by {
                    if j < i {
                        assert(prev[j] == Seq::<T>::empty());
                    }
                }
            }
            i = i + 1;
        }
        proof {
            self.slots().lemma_flatten_and_flatten_alt_are_equivalent();
            lemma_flatten_alt_empty_iff(self.slots());
        }
    }

    /// Yields every element across all slots — slots in id order, each
    /// slot's elements in insertion order — and empties every slot. Exactly
    /// one coordinator runs this, between tick phases.
    pub fn drain(&mut self) -> (r: Vec<T>)
        requires
            old(self).wf(),
        ensures
            final(self).wf(),
            r@ == old(self).slots().flatten(),
            forall|j: int|
                0 <= j < NUM_THREADS ==> #[trigger] final(self).slots()[j] == Seq::<T>::empty(),
            final(self).total_len() == 0,
    {
        let s_len = self.inner.len();
        let ghost s = self.slots();
        let mut out: Vec<T> = Vec::new();
        let mut i: usize = 0;
        proof {
            s.lemma_flatten_and_flatten_alt_are_equivalent();
            assert(s.take(0).flatten_alt() =~= Seq::<T>::empty());
            assert(out@ =~= s.take(0).flatten_alt());
        }
        while i < s_len
            invariant
                0 <= i <= s_len,
                s_len == s.len(),
                self.wf(),
                s_len == NUM_THREADS,
                out@ == s.take(i as int).flatten_alt(),
                forall|j: int| 0 <= j < i ==> #[trigger] self.slots()[j] == Seq::<T>::empty(),
                forall|j: int| i <= j < s_len ==> #[trigger] self.slots()[j] == s[j],
            decreases s_len - i,
        {
            proof {
                assert(s.take(i + 1).drop_last() =~= s.take(i as int));
                assert(s.take(i + 1).last() == s[i as int]);
                assert(s.take(i + 1).flatten_alt() == s.take(i as int).flatten_alt() + s[i as int]);
            }
            let ghost prev = self.slots();
            let mut taken: Vec<T> = Vec::new();
            std::mem::swap(&mut taken, &mut self.inner[i]);
            proof {
                assert(prev[i as int] == s[i as int]);
                assert(taken@ == s[i as int]);
                assert(self.slots() =~= prev.update(i as int, Seq::<T>::empty()));
            }
            out.append(&mut taken);
            proof {
                assert(out@ == s.take(i + 1).flatten_alt());
                assert forall|j: int| 0 <= j < i + 1 implies #[trigger] self.slots()[j]
                    == Seq::<T>::empty() by {
                    if j < i {
                        assert(prev[j] == Seq::<T>::empty());
                    }
                }
            }
            i = i + 1;
        }
        proof {
            assert(s.take(s.len() as int) =~= s);
            self.slots().lemma_flatten_and_flatten_alt_are_equivalent();
            lemma_flatten_alt_empty_iff(self.slots());
        }
        out
    }
}

impl<T: Default> Default for ThreadLocalVec<T> {
    /// Empty slots with no room reserved.
    fn default() -> (r: ThreadLocalVec<T>)
        ensures
            r.wf(),
            r.total_len() == 0,
    {
        ThreadLocalVec::with_capacity(0)
    }
}

/// The flattened length of a prefix never exceeds that of the whole.
proof fn lemma_flatten_alt_take_len_le<T>(s: Seq<Seq<T>>, k: int)
    requires
        0 <= k <= s.len(),
    ensures
        s.take(k).flatten_alt().len() <= s.flatten_alt().len(),
    decreases s.len() - k,
{
    if k == s.len() {
        assert(s.take(k) =~= s);
    } else {
        lemma_flatten_alt_take_len_le(s, k + 1);
        assert(s.take(k + 1).drop_last() =~= s.take(k));
        assert(s.take(k + 1).flatten_alt() == s.take(k).flatten_alt() + s.take(k + 1).last());
    }
}

} // verus!
