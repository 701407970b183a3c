use vstd::prelude::*;

use crate::model::{lemma_cloned, lemma_dropped, lemma_inserted, ArenaView};

verus! {

/// The heap that families of handles live in: one slot per family's value,
/// and one counter per family that has been cloned. Freed slots and
/// counters are taken again before the arena grows.
pub struct Arena<T: ?Sized> {
    slots: Vec<Option<Box<T>>>,
    counters: Vec<Option<usize>>,
    free_slots: Vec<usize>,
    free_counters: Vec<usize>,
    shares: Ghost<Seq<Option<nat>>>,
}

/// A handle to a value in an [`Arena`].
///
/// A handle that has never been cloned is the value's only owner and has no
/// counter. Its first clone allocates a counter shared by the whole family,
/// which then counts the family's live handles.
pub struct LazyRc<T: ?Sized> {
    data: usize,
    share_count: Option<usize>,
    marker: core::marker::PhantomData<Box<T>>,
}

impl<T: ?Sized> View for Arena<T> {
    type V = ArenaView<T>;

    closed spec fn view(&self) -> ArenaView<T> {
        ArenaView {
            slots: self.slots@,
            counters: self.counters@,
            shares: self.shares@,
            free_slots: self.free_slots@,
            free_counters: self.free_counters@,
        }
    }
}

impl<T: ?Sized> Arena<T> {
    /// An arena with no families.
    pub fn new() -> (r: Arena<T>)
        ensures
            r@.wf(),
            r@.slots.len() == 0,
            r@.counters.len() == 0,
            r@.free_slots.len() == 0,
            r@.free_counters.len() == 0,
    {
        Arena {
            slots: Vec::new(),
            counters: Vec::new(),
            free_slots: Vec::new(),
            free_counters: Vec::new(),
            shares: Ghost(Seq::empty()),
        }
    }

    /// How many counters the arena holds, in use or free: the counters it
    /// has allocated.
    pub fn counter_allocations(&self) -> (r: usize)
        ensures
            r == self@.counters.len(),
    {
        self.counters.len()
    }
}

impl<T: ?Sized> Default for Arena<T> {
    fn default() -> (r: Arena<T>)
        ensures
            r@.wf(),
            r@.slots.len() == 0,
            r@.counters.len() == 0,
            r@.free_slots.len() == 0,
            r@.free_counters.len() == 0,
    {
        Arena::new()
    }
}

/// Relies on Vec::into_boxed_slice: the same elements, in an allocation
/// of exactly their number.
#[verifier::external_body]
fn boxed_slice<E>(v: Vec<E>) -> (r: Box<[E]>)
    ensures
        r@ == v@,
{
    v.into_boxed_slice()
}

/// Relies on String::into_boxed_str: the same text, in an allocation of
/// exactly its length.
#[verifier::external_body]
fn boxed_str(s: String) -> (r: Box<str>)
    ensures
        r@ == s@,
{
    s.into_boxed_str()
}

impl<T: ?Sized> LazyRc<T> {
    /// The family this handle belongs to: the slot of its value.
    pub closed spec fn family(self) -> int {
        self.data as int
    }

    /// The counter this handle knows its family by, once it is shared.
    pub closed spec fn counter(self) -> Option<nat> {
        match self.share_count {
            Some(c) => Some(c as nat),
            None => None,
        }
    }

    /// Takes ownership of a boxed value; the new handle is its only owner and
    /// no counter is allocated.
    pub fn new(arena: &mut Arena<T>, inner: Box<T>) -> (r: LazyRc<T>)
        requires
            old(arena)@.wf(),
        ensures
            final(arena)@ == old(arena)@.inserted(inner),
            r.family() == old(arena)@.next_slot(),
            r.counter() is None,
            final(arena)@.wf(),
            final(arena)@.holds(r),
            final(arena)@.live(r.family()) == 1,
            final(arena)@.counters == old(arena)@.counters,
            final(arena)@.free_counters == old(arena)@.free_counters,
    {
        let n = arena.slots.len();
        proof {
            lemma_inserted(arena@, inner);
        }
        let d = match arena.free_slots.pop() {
            Some(d) => {
                arena.slots.set(d, Some(inner));
                d
            },
            None => {
                arena.slots.push(Some(inner));
                arena.shares = Ghost(arena.shares@.push(None));
                n
            },
        };
        let r = LazyRc { data: d, share_count: None, marker: core::marker::PhantomData };
        assert(arena@ == old(arena)@.inserted(inner));
        r
    }

    /// The value this handle points to.
    pub fn deref<'a>(&self, arena: &'a Arena<T>) -> (r: &'a T)
        requires
            arena@.holds(*self),
        ensures
            r == &*arena@.value(self.family()),
    {
        let b = arena.slots[self.data].as_ref().unwrap();
        &**b
    }

    /// Whether this handle's family has been cloned.
    pub fn is_shared(&self) -> (r: bool)
        ensures
            r == self.counter() is Some,
    {
        self.share_count.is_some()
    }

    /// How many handles of this handle's family are alive.
    pub fn live_count(&self, arena: &Arena<T>) -> (r: usize)
        requires
            arena@.wf(),
            arena@.holds(*self),
        ensures
            r == arena@.live(self.family()),
    {
        match self.share_count {
            Some(c) => arena.counters[c].unwrap(),
            None => 1,
        }
    }

    /// A new handle to the same value. The first clone of a family allocates
    /// its counter, set to two, and makes this handle shared; later clones
    /// add one to the counter.
    pub fn clone(&mut self, arena: &mut Arena<T>) -> (r: LazyRc<T>)
        requires
            old(arena)@.wf(),
            old(arena)@.holds(*old(self)),
            old(arena)@.live(old(self).family()) < usize::MAX,
        ensures
            final(arena)@ == old(arena)@.cloned(old(self).family()),
            final(arena)@.wf(),
            final(self).family() == old(self).family(),
            r.family() == old(self).family(),
            r.counter() is Some,
            r.counter() == final(self).counter(),
            final(arena)@.holds(*final(self)),
            final(arena)@.holds(r),
            final(arena)@.live(r.family()) == old(arena)@.live(r.family()) + 1,
            final(arena)@.slots == old(arena)@.slots,
    {
        let m = arena.counters.len();
        proof {
            lemma_cloned(arena@, self.family());
        }
        match self.share_count {
            Some(c) => {
                let n = arena.counters[c].unwrap();
                arena.counters.set(c, Some(n + 1));
            },
            None => {
                let c = match arena.free_counters.pop() {
                    Some(c) => {
                        arena.counters.set(c, Some(2));
                        c
                    },
                    None => {
                        arena.counters.push(Some(2));
                        m
                    },
                };
                arena.shares = Ghost(arena.shares@.update(self.data as int, Some(c as nat)));
                self.share_count = Some(c);
            },
        }
        assert(arena@ == old(arena)@.cloned(old(self).family()));
        LazyRc { data: self.data, share_count: self.share_count, marker: core::marker::PhantomData }
    }

    /// Gives up this handle. The last handle of a family frees the family's
    /// counter and hands the value back, so that it is finalized exactly
    /// once; any other handle only takes one from the counter.
    pub fn drop(self, arena: &mut Arena<T>) -> (r: Option<Box<T>>)
        requires
            old(arena)@.wf(),
            old(arena)@.holds(self),
        ensures
            final(arena)@ == old(arena)@.dropped(self.family()),
            r == old(arena)@.released(self.family()),
            final(arena)@.wf(),
            r is Some <==> old(arena)@.live(self.family()) == 1,
            r is Some ==> r == Some(old(arena)@.value(self.family())),
            final(arena)@.live(self.family()) == old(arena)@.live(self.family()) - 1,
            final(arena)@.counters.len() == old(arena)@.counters.len(),
            self.counter() is None ==> final(arena)@.counters == old(arena)@.counters
                && final(arena)@.free_counters == old(arena)@.free_counters,
    {
        proof {
            lemma_dropped(arena@, self.family());
        }
        if let Some(c) = self.share_count {
            let n = arena.counters[c].unwrap();
            if n > 1 {
                arena.counters.set(c, Some(n - 1));
                assert(arena@ == old(arena)@.dropped(self.family()));
                return None;
            }
            arena.counters.set(c, None);
            arena.free_counters.push(c);
            arena.shares = Ghost(arena.shares@.update(self.data as int, None));
        }
        let r = arena.slots[self.data].take();
        arena.free_slots.push(self.data);
        assert(arena@ == old(arena)@.dropped(self.family()));
        r
    }
}

impl<T: Default> LazyRc<T> {
    /// A handle to a default value; its only owner.
    pub fn default(arena: &mut Arena<T>) -> (r: LazyRc<T>)
        requires
            old(arena)@.wf(),
        ensures
            final(arena)@ == old(arena)@.inserted(final(arena)@.value(r.family())),
            call_ensures(T::default, (), *final(arena)@.value(r.family())),
            r.family() == old(arena)@.next_slot(),
            r.counter() is None,
            final(arena)@.wf(),
            final(arena)@.holds(r),
            final(arena)@.live(r.family()) == 1,
    {
        let boxed: Box<T> = Box::new(T::default());
        LazyRc::new(arena, boxed)
    }
}

impl<E> LazyRc<[E]> {
    /// A handle to the elements of `v`, moved into an allocation of exactly
    /// their number; its only owner.
    pub fn from_vec(arena: &mut Arena<[E]>, v: Vec<E>) -> (r: LazyRc<[E]>)
        requires
            old(arena)@.wf(),
        ensures
            final(arena)@ == old(arena)@.inserted(final(arena)@.value(r.family())),
            final(arena)@.value(r.family())@ == v@,
            r.family() == old(arena)@.next_slot(),
            r.counter() is None,
            final(arena)@.wf(),
            final(arena)@.holds(r),
            final(arena)@.live(r.family()) == 1,
    {
        LazyRc::new(arena, boxed_slice(v))
    }
}

impl LazyRc<str> {
    /// A handle to the text of `s`, moved into an allocation of exactly its
    /// length; its only owner.
    pub fn from_string(arena: &mut Arena<str>, s: String) -> (r: LazyRc<str>)
        requires
            old(arena)@.wf(),
        ensures
            final(arena)@ == old(arena)@.inserted(final(arena)@.value(r.family())),
            final(arena)@.value(r.family())@ == s@,
            r.family() == old(arena)@.next_slot(),
            r.counter() is None,
            final(arena)@.wf(),
            final(arena)@.holds(r),
            final(arena)@.live(r.family()) == 1,
    {
        LazyRc::new(arena, boxed_str(s))
    }
}

} // verus!
