use vstd::prelude::*;

use crate::arena::LazyRc;

verus! {

/// What an arena holds, seen as mathematics.
///
/// A family is named by the index of its value slot. `slots[d]` holds the
/// family's value while any of its handles lives. `shares[d]` is the family's
/// share state: `None` while a single handle owns the value, `Some(c)` once
/// the family has been cloned, where `counters[c]` counts its live handles.
/// Freed slots and counters wait in `free_slots` and `free_counters`, and
/// the last of each is taken before the arena grows.
pub struct ArenaView<T: ?Sized> {
    pub slots: Seq<Option<Box<T>>>,
    pub counters: Seq<Option<usize>>,
    pub shares: Seq<Option<nat>>,
    pub free_slots: Seq<usize>,
    pub free_counters: Seq<usize>,
}

impl<T: ?Sized> ArenaView<T> {
    /// Each shared family owns a live counter of its own, and the counter is
    /// at least one; the free lists name empty places, each once; every
    /// index fits a `usize`.
    pub open spec fn wf(self) -> bool {
        &&& self.slots.len() <= usize::MAX + 1
        &&& self.counters.len() <= usize::MAX + 1
        &&& forall|i: int|
            0 <= i < self.free_slots.len() ==> {
                let d = #[trigger] self.free_slots[i] as int;
                &&& d < self.slots.len()
                &&& self.slots[d] is None
            }
        &&& self.free_slots.no_duplicates()
        &&& forall|i: int|
            0 <= i < self.free_counters.len() ==> {
                let c = #[trigger] self.free_counters[i] as int;
                &&& c < self.counters.len()
                &&& self.counters[c] is None
            }
        &&& self.free_counters.no_duplicates()
        &&& self.shares.len() == self.slots.len()
        &&& forall|d: int|
            0 <= d < self.shares.len() && (#[trigger] self.shares[d]) is Some ==> {
                let c = self.shares[d]->Some_0 as int;
                &&& self.slots[d] is Some
                &&& 0 <= c < self.counters.len()
                &&& self.counters[c] is Some
                &&& self.counters[c]->Some_0 >= 1
            }
        &&& forall|d1: int, d2: int|
            0 <= d1 < self.shares.len() && 0 <= d2 < self.shares.len() && (#[trigger] self.shares[d1])
                is Some && #[trigger] self.shares[d2] == self.shares[d1] ==> d1 == d2
    }

    /// The family `d` still has its value.
    pub open spec fn alive(self, d: int) -> bool {
        0 <= d < self.slots.len() && self.slots[d] is Some
    }

    /// The family `d` has been cloned and holds a counter.
    pub open spec fn is_shared(self, d: int) -> bool {
        0 <= d < self.shares.len() && self.shares[d] is Some
    }

    /// How many handles of the family `d` are alive.
    pub open spec fn live(self, d: int) -> nat {
        if !self.alive(d) {
            0
        } else if self.is_shared(d) {
            self.counters[self.shares[d]->Some_0 as int]->Some_0 as nat
        } else {
            1
        }
    }

    /// The value of the family `d`.
    pub open spec fn value(self, d: int) -> Box<T> {
        self.slots[d]->Some_0
    }

    /// The handle `h` is a live member of its family, with the family's
    /// share state.
    pub open spec fn holds(self, h: LazyRc<T>) -> bool {
        &&& self.alive(h.family())
        &&& self.shares[h.family()] == h.counter()
    }

    /// The slot that the next new family takes.
    pub open spec fn next_slot(self) -> int {
        if self.free_slots.len() > 0 {
            self.free_slots.last() as int
        } else {
            self.slots.len() as int
        }
    }

    /// The counter that the next first clone takes.
    pub open spec fn next_counter(self) -> int {
        if self.free_counters.len() > 0 {
            self.free_counters.last() as int
        } else {
            self.counters.len() as int
        }
    }

    /// The arena after a new family with value `b` and a single handle, in
    /// the slot `next_slot()`.
    pub open spec fn inserted(self, b: Box<T>) -> Self {
        if self.free_slots.len() > 0 {
            ArenaView {
                slots: self.slots.update(self.next_slot(), Some(b)),
                free_slots: self.free_slots.drop_last(),
                ..self
            }
        } else {
            ArenaView {
                slots: self.slots.push(Some(b)),
                shares: self.shares.push(None),
                ..self
            }
        }
    }

    /// The arena after a handle of family `d` is cloned: the first clone
    /// takes the counter `next_counter()` and sets it to two, later ones add
    /// one to it.
    pub open spec fn cloned(self, d: int) -> Self {
        match self.shares[d] {
            None => if self.free_counters.len() > 0 {
                ArenaView {
                    counters: self.counters.update(self.next_counter(), Some(2usize)),
                    shares: self.shares.update(d, Some(self.next_counter() as nat)),
                    free_counters: self.free_counters.drop_last(),
                    ..self
                }
            } else {
                ArenaView {
                    counters: self.counters.push(Some(2usize)),
                    shares: self.shares.update(d, Some(self.counters.len())),
                    ..self
                }
            },
            Some(c) => ArenaView {
                counters: self.counters.update(
                    c as int,
                    Some((self.counters[c as int]->Some_0 + 1) as usize),
                ),
                ..self
            },
        }
    }

    /// The arena after a handle of family `d` is dropped: the count goes down
    /// by one, and the last handle frees the counter and the slot.
    pub open spec fn dropped(self, d: int) -> Self {
        match self.shares[d] {
            None => ArenaView {
                slots: self.slots.update(d, None),
                free_slots: self.free_slots.push(d as usize),
                ..self
            },
            Some(c) => if self.counters[c as int]->Some_0 > 1 {
                ArenaView {
                    counters: self.counters.update(
                        c as int,
                        Some((self.counters[c as int]->Some_0 - 1) as usize),
                    ),
                    ..self
                }
            } else {
                ArenaView {
                    slots: self.slots.update(d, None),
                    counters: self.counters.update(c as int, None),
                    shares: self.shares.update(d, None),
                    free_slots: self.free_slots.push(d as usize),
                    free_counters: self.free_counters.push(c as usize),
                }
            },
        }
    }

    /// The arena after a handle of family `d` is cloned (`true`) or dropped
    /// (`false`) for each step of `ops`, in order.
    pub open spec fn run(self, d: int, ops: Seq<bool>) -> Self
        decreases ops.len(),
    {
        if ops.len() == 0 {
            self
        } else {
            let before = self.run(d, ops.drop_last());
            if ops.last() {
                before.cloned(d)
            } else {
                before.dropped(d)
            }
        }
    }

    /// The arena after `k` handles of family `d` are dropped one after another.
    pub open spec fn drops(self, d: int, k: nat) -> Self
        decreases k,
    {
        if k == 0 {
            self
        } else {
            self.drops(d, (k - 1) as nat).dropped(d)
        }
    }

    /// What dropping a handle of family `d` hands back: the value, when the
    /// handle is the family's last one.
    pub open spec fn released(self, d: int) -> Option<Box<T>> {
        if self.live(d) == 1 {
            self.slots[d]
        } else {
            None
        }
    }
}

/// How many clones a sequence of steps holds.
pub open spec fn count_clones(ops: Seq<bool>) -> nat
    decreases ops.len(),
{
    if ops.len() == 0 {
        0
    } else {
        count_clones(ops.drop_last()) + if ops.last() {
            1nat
        } else {
            0nat
        }
    }
}

/// How many drops a sequence of steps holds.
pub open spec fn count_drops(ops: Seq<bool>) -> nat
    decreases ops.len(),
{
    if ops.len() == 0 {
        0
    } else {
        count_drops(ops.drop_last()) + if ops.last() {
            0nat
        } else {
            1nat
        }
    }
}

/// A new family starts with one unshared handle in an empty slot, and
/// leaves the others and all counters as they are.
pub proof fn lemma_inserted<T: ?Sized>(v: ArenaView<T>, b: Box<T>)
    requires
        v.wf(),
        v.slots.len() <= usize::MAX,
    ensures
        v.inserted(b).wf(),
        0 <= v.next_slot() < v.inserted(b).slots.len(),
        !v.alive(v.next_slot()),
        v.inserted(b).live(v.next_slot()) == 1,
        !v.inserted(b).is_shared(v.next_slot()),
        v.inserted(b).value(v.next_slot()) == b,
        v.inserted(b).counters == v.counters,
        v.inserted(b).free_counters == v.free_counters,
        forall|e: int|
            0 <= e < v.slots.len() && e != v.next_slot() ==> {
                &&& #[trigger] v.inserted(b).live(e) == v.live(e)
                &&& v.inserted(b).slots[e] == v.slots[e]
                &&& v.inserted(b).shares[e] == v.shares[e]
            },
{
    let w = v.inserted(b);
    let n = v.next_slot();
    if v.free_slots.len() > 0 {
        assert(v.free_slots[v.free_slots.len() - 1] as int == n);
        assert(v.shares[n] is None);
        assert forall|i: int| 0 <= i < w.free_slots.len() implies {
            let x = #[trigger] w.free_slots[i] as int;
            &&& x < w.slots.len()
            &&& w.slots[x] is None
        } by {
            assert(w.free_slots[i] == v.free_slots[i]);
            assert(v.free_slots[i] != v.free_slots[v.free_slots.len() - 1]);
        }
        assert forall|i: int, j: int|
            0 <= i < w.free_slots.len() && 0 <= j < w.free_slots.len() && i != j implies
            w.free_slots[i] != w.free_slots[j] by {
            assert(w.free_slots[i] == v.free_slots[i]);
            assert(w.free_slots[j] == v.free_slots[j]);
        }
    }
    assert forall|d: int|
        0 <= d < w.shares.len() && (#[trigger] w.shares[d]) is Some implies {
            let c = w.shares[d]->Some_0 as int;
            &&& w.slots[d] is Some
            &&& 0 <= c < w.counters.len()
            &&& w.counters[c] is Some
            &&& w.counters[c]->Some_0 >= 1
        } by {
        assert(d < v.shares.len());
        assert(v.shares[d] is Some);
    }
    assert forall|d1: int, d2: int|
        0 <= d1 < w.shares.len() && 0 <= d2 < w.shares.len() && (#[trigger] w.shares[d1])
            is Some && #[trigger] w.shares[d2] == w.shares[d1] implies d1 == d2 by {
        assert(v.shares[d1] is Some);
    }
}

/// Cloning adds one handle to family `d` and keeps every value in place;
/// only the family's first clone takes a counter.
pub proof fn lemma_cloned<T: ?Sized>(v: ArenaView<T>, d: int)
    requires
        v.wf(),
        v.is_shared(d) || v.counters.len() <= usize::MAX,
        v.alive(d),
        v.live(d) < usize::MAX,
    ensures
        v.cloned(d).wf(),
        v.cloned(d).live(d) == v.live(d) + 1,
        v.cloned(d).is_shared(d),
        v.cloned(d).slots == v.slots,
        v.cloned(d).free_slots == v.free_slots,
        v.is_shared(d) ==> v.cloned(d).shares == v.shares && v.cloned(d).free_counters
            == v.free_counters && v.cloned(d).counters.len() == v.counters.len(),
        !v.is_shared(d) ==> v.cloned(d).shares[d] == Some(v.next_counter() as nat),
        forall|e: int|
            0 <= e < v.slots.len() && e != d ==> {
                &&& #[trigger] v.cloned(d).live(e) == v.live(e)
                &&& v.cloned(d).shares[e] == v.shares[e]
            },
{
    let w = v.cloned(d);
    match v.shares[d] {
        None => {
            let c = v.next_counter();
            if v.free_counters.len() > 0 {
                assert(v.free_counters[v.free_counters.len() - 1] as int == c);
                assert(v.counters[c] is None);
                assert forall|i: int| 0 <= i < w.free_counters.len() implies {
                    let x = #[trigger] w.free_counters[i] as int;
                    &&& x < w.counters.len()
                    &&& w.counters[x] is None
                } by {
                    assert(w.free_counters[i] == v.free_counters[i]);
                    assert(v.free_counters[i] != v.free_counters[v.free_counters.len() - 1]);
                }
                assert forall|i: int, j: int|
                    0 <= i < w.free_counters.len() && 0 <= j < w.free_counters.len() && i != j
                    implies w.free_counters[i] != w.free_counters[j] by {
                    assert(w.free_counters[i] == v.free_counters[i]);
                    assert(w.free_counters[j] == v.free_counters[j]);
                }
            } else {
                assert forall|i: int| 0 <= i < w.free_counters.len() implies {
                    let x = #[trigger] w.free_counters[i] as int;
                    &&& x < w.counters.len()
                    &&& w.counters[x] is None
                } by {
                    assert(v.free_counters[i] < v.counters.len());
                }
            }
            assert forall|x: int|
                0 <= x < w.shares.len() && (#[trigger] w.shares[x]) is Some implies {
                    let k = w.shares[x]->Some_0 as int;
                    &&& w.slots[x] is Some
                    &&& 0 <= k < w.counters.len()
                    &&& w.counters[k] is Some
                    &&& w.counters[k]->Some_0 >= 1
                } by {
                if x != d {
                    assert(v.shares[x] is Some);
                    assert(v.shares[x]->Some_0 != c);
                }
            }
            assert forall|d1: int, d2: int|
                0 <= d1 < w.shares.len() && 0 <= d2 < w.shares.len() && (#[trigger] w.shares[d1])
                    is Some && #[trigger] w.shares[d2] == w.shares[d1] implies d1 == d2 by {
                if d1 != d && d2 != d {
                    assert(v.shares[d1] is Some);
                } else if d1 != d {
                    assert(v.shares[d1] is Some);
                    assert(v.shares[d1]->Some_0 != c);
                } else if d2 != d {
                    assert(v.shares[d2] is Some);
                    assert(v.shares[d2]->Some_0 != c);
                }
            }
            assert forall|e: int| 0 <= e < v.slots.len() && e != d implies #[trigger] w.live(e)
                == v.live(e) by {
                if v.alive(e) && v.is_shared(e) {
                    assert(v.shares[e]->Some_0 != c);
                }
            }
        },
        Some(c) => {
            assert forall|i: int| 0 <= i < w.free_counters.len() implies {
                let x = #[trigger] w.free_counters[i] as int;
                &&& x < w.counters.len()
                &&& w.counters[x] is None
            } by {
                assert(v.free_counters[i] != c);
            }
            assert forall|e: int| 0 <= e < v.slots.len() && e != d implies #[trigger] w.live(e)
                == v.live(e) by {
                if v.alive(e) && v.is_shared(e) {
                    assert(v.shares[e] != v.shares[d]);
                }
            }
        },
    }
}

/// A freed slot can join the free list: it is empty and was not listed.
proof fn lemma_slot_freed<T: ?Sized>(v: ArenaView<T>, d: int)
    requires
        v.wf(),
        v.alive(d),
    ensures
        forall|i: int|
            0 <= i < v.free_slots.push(d as usize).len() ==> {
                let x = #[trigger] v.free_slots.push(d as usize)[i] as int;
                &&& x < v.slots.len()
                &&& v.slots.update(d, None)[x] is None
            },
        v.free_slots.push(d as usize).no_duplicates(),
{
    let f = v.free_slots.push(d as usize);
    assert forall|i: int| 0 <= i < f.len() implies {
        let x = #[trigger] f[i] as int;
        &&& x < v.slots.len()
        &&& v.slots.update(d, None)[x] is None
    } by {
        if i < v.free_slots.len() {
            assert(f[i] == v.free_slots[i]);
        }
    }
    assert forall|i: int, j: int| 0 <= i < f.len() && 0 <= j < f.len() && i != j implies f[i]
        != f[j] by {
        if i < v.free_slots.len() {
            assert(f[i] == v.free_slots[i]);
            assert(v.slots[v.free_slots[i] as int] is None);
        }
        if j < v.free_slots.len() {
            assert(f[j] == v.free_slots[j]);
            assert(v.slots[v.free_slots[j] as int] is None);
        }
    }
}

/// Dropping takes one handle from family `d`; the value comes back exactly
/// when that handle was the last, and no counter is ever taken.
pub proof fn lemma_dropped<T: ?Sized>(v: ArenaView<T>, d: int)
    requires
        v.wf(),
        v.alive(d),
    ensures
        v.dropped(d).wf(),
        v.dropped(d).live(d) == v.live(d) - 1,
        v.released(d) is Some <==> v.live(d) == 1,
        v.released(d) is Some ==> v.released(d) == Some(v.value(d)),
        v.dropped(d).counters.len() == v.counters.len(),
        !v.is_shared(d) ==> v.dropped(d).counters == v.counters && v.dropped(d).free_counters
            == v.free_counters,
        v.dropped(d).live(d) > 0 ==> v.dropped(d).is_shared(d) && v.dropped(d).shares
            == v.shares && v.dropped(d).value(d) == v.value(d),
        forall|e: int|
            0 <= e < v.slots.len() && e != d ==> {
                &&& #[trigger] v.dropped(d).live(e) == v.live(e)
                &&& v.dropped(d).shares[e] == v.shares[e]
                &&& v.dropped(d).slots[e] == v.slots[e]
            },
{
    let w = v.dropped(d);
    match v.shares[d] {
        None => {
            lemma_slot_freed(v, d);
            assert forall|x: int|
                0 <= x < w.shares.len() && (#[trigger] w.shares[x]) is Some implies {
                    let k = w.shares[x]->Some_0 as int;
                    &&& w.slots[x] is Some
                    &&& 0 <= k < w.counters.len()
                    &&& w.counters[k] is Some
                    &&& w.counters[k]->Some_0 >= 1
                } by {
                assert(v.shares[x] is Some);
            }
        },
        Some(c) => {
            assert(v.is_shared(d));
            if w.counters[c as int] is None {
                lemma_slot_freed(v, d);
                assert forall|i: int| 0 <= i < w.free_counters.len() implies {
                    let x = #[trigger] w.free_counters[i] as int;
                    &&& x < w.counters.len()
                    &&& w.counters[x] is None
                } by {
                    if i < v.free_counters.len() {
                        assert(w.free_counters[i] == v.free_counters[i]);
                    }
                }
                assert forall|i: int, j: int|
                    0 <= i < w.free_counters.len() && 0 <= j < w.free_counters.len() && i != j
                    implies w.free_counters[i] != w.free_counters[j] by {
                    if i < v.free_counters.len() {
                        assert(w.free_counters[i] == v.free_counters[i]);
                        assert(v.counters[v.free_counters[i] as int] is None);
                    }
                    if j < v.free_counters.len() {
                        assert(w.free_counters[j] == v.free_counters[j]);
                        assert(v.counters[v.free_counters[j] as int] is None);
                    }
                }
            } else {
                assert forall|i: int| 0 <= i < w.free_counters.len() implies {
                    let x = #[trigger] w.free_counters[i] as int;
                    &&& x < w.counters.len()
                    &&& w.counters[x] is None
                } by {
                    assert(v.free_counters[i] != c);
                }
            }
            assert forall|x: int|
                0 <= x < w.shares.len() && (#[trigger] w.shares[x]) is Some implies {
                    let k = w.shares[x]->Some_0 as int;
                    &&& w.slots[x] is Some
                    &&& 0 <= k < w.counters.len()
                    &&& w.counters[k] is Some
                    &&& w.counters[k]->Some_0 >= 1
                } by {
                assert(v.shares[x] is Some);
                if x != d {
                    assert(v.shares[x] != v.shares[d]);
                }
            }
            assert forall|d1: int, d2: int|
                0 <= d1 < w.shares.len() && 0 <= d2 < w.shares.len() && (#[trigger] w.shares[d1])
                    is Some && #[trigger] w.shares[d2] == w.shares[d1] implies d1 == d2 by {
                assert(v.shares[d1] is Some);
                assert(v.shares[d2] == v.shares[d1]);
            }
            assert forall|e: int| 0 <= e < v.slots.len() && e != d implies #[trigger] w.live(e)
                == v.live(e) by {
                if v.alive(e) && v.is_shared(e) {
                    assert(v.shares[e] != v.shares[d]);
                }
            }
        },
    }
}

} // verus!
