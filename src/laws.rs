use vstd::prelude::*;

use crate::arena::LazyRc;
use crate::model::{count_clones, count_drops, lemma_cloned, lemma_dropped, lemma_inserted, ArenaView};

verus! {

/// A handle that is made and dropped at once hands its value back on that
/// drop, so the value is finalized exactly once, and no counter is touched.
pub proof fn lemma_single_owner_drop<T: ?Sized>(v: ArenaView<T>, b: Box<T>)
    requires
        v.wf(),
        v.slots.len() <= usize::MAX,
    ensures
        v.inserted(b).released(v.next_slot()) == Some(b),
        v.inserted(b).dropped(v.next_slot()).live(v.next_slot()) == 0,
        v.inserted(b).dropped(v.next_slot()).counters == v.counters,
        v.inserted(b).dropped(v.next_slot()).free_counters == v.free_counters,
{
    lemma_inserted(v, b);
    lemma_dropped(v.inserted(b), v.next_slot());
}

/// Two live handles of one family see one and the same value.
pub proof fn lemma_shared_identity<T: ?Sized>(v: ArenaView<T>, h1: LazyRc<T>, h2: LazyRc<T>)
    requires
        v.holds(h1),
        v.holds(h2),
        h1.family() == h2.family(),
    ensures
        &*v.value(h1.family()) == &*v.value(h2.family()),
{
}

/// Dropping the `n` live handles of a family, in any order, hands the value
/// back exactly once, on the last drop: which handle is dropped does not
/// matter, since a drop depends on the family's state alone.
pub proof fn lemma_finalized_once<T: ?Sized>(v: ArenaView<T>, d: int)
    requires
        v.wf(),
        v.alive(d),
    ensures
        forall|i: nat|
            i < v.live(d) ==> {
                &&& (#[trigger] v.drops(d, i)).alive(d)
                &&& v.drops(d, i).live(d) == v.live(d) - i
                &&& (v.drops(d, i).released(d) is Some <==> i == v.live(d) - 1)
                &&& v.drops(d, i).released(d) is Some ==> v.drops(d, i).released(d) == Some(
                    v.value(d),
                )
            },
        v.drops(d, v.live(d)).live(d) == 0,
{
    let n = v.live(d);
    assert forall|i: nat| i <= n implies {
        &&& (#[trigger] v.drops(d, i)).wf()
        &&& v.drops(d, i).live(d) == n - i
        &&& i < n ==> v.drops(d, i).value(d) == v.value(d)
    } by {
        lemma_drops_step(v, d, i);
    }
    assert forall|i: nat| i < n implies {
        &&& (#[trigger] v.drops(d, i)).alive(d)
        &&& v.drops(d, i).live(d) == v.live(d) - i
        &&& (v.drops(d, i).released(d) is Some <==> i == v.live(d) - 1)
        &&& v.drops(d, i).released(d) is Some ==> v.drops(d, i).released(d) == Some(v.value(d))
    } by {
        lemma_drops_step(v, d, i);
        lemma_dropped(v.drops(d, i), d);
    }
}

proof fn lemma_drops_step<T: ?Sized>(v: ArenaView<T>, d: int, i: nat)
    requires
        v.wf(),
        v.alive(d),
        i <= v.live(d),
    ensures
        v.drops(d, i).wf(),
        v.drops(d, i).live(d) == v.live(d) - i,
        i < v.live(d) ==> v.drops(d, i).value(d) == v.value(d),
    decreases i,
{
    if i > 0 {
        lemma_drops_step(v, d, (i - 1) as nat);
        lemma_dropped(v.drops(d, (i - 1) as nat), d);
    }
}

/// Before each step of `ops` the family `d` still has a live handle.
pub open spec fn keeps_alive(ops: Seq<bool>) -> bool {
    forall|i: int|
        0 <= i < ops.len() ==> count_drops(#[trigger] ops.take(i)) < 1 + count_clones(ops.take(i))
}

/// From a family's single unshared handle, after `K` clones and `J` drops
/// in any order that keeps the family alive, `K + 1 - J` handles live; the
/// value stays as it was; the family holds a counter if `K >= 1`, and the
/// arena's counters are untouched if `K == 0`.
pub proof fn lemma_live_count<T: ?Sized>(v: ArenaView<T>, d: int, ops: Seq<bool>)
    requires
        v.wf(),
        v.counters.len() <= usize::MAX,
        v.alive(d),
        !v.is_shared(d),
        ops.len() + 1 < usize::MAX,
        keeps_alive(ops),
    ensures
        v.run(d, ops).wf(),
        v.run(d, ops).live(d) == 1 + count_clones(ops) - count_drops(ops),
        v.run(d, ops).live(d) > 0 ==> v.run(d, ops).value(d) == v.value(d),
        v.run(d, ops).live(d) > 0 && count_clones(ops) >= 1 ==> v.run(d, ops).is_shared(d),
        count_clones(ops) == 0 ==> v.run(d, ops).counters == v.counters && v.run(d, ops).free_counters
            == v.free_counters,
    decreases ops.len(),
{
    lemma_counts(ops);
    if ops.len() > 0 {
        let p = ops.drop_last();
        assert forall|i: int| 0 <= i < p.len() implies count_drops(#[trigger] p.take(i)) < 1
            + count_clones(p.take(i)) by {
            assert(p.take(i) =~= ops.take(i));
        }
        lemma_live_count(v, d, p);
        lemma_counts(p);
        assert(ops.take(p.len() as int) =~= p);
        let before = v.run(d, p);
        if ops.last() {
            lemma_cloned(before, d);
        } else {
            lemma_dropped(before, d);
        }
    }
}

proof fn lemma_counts(ops: Seq<bool>)
    ensures
        count_clones(ops) + count_drops(ops) == ops.len(),
    decreases ops.len(),
{
    if ops.len() > 0 {
        lemma_counts(ops.drop_last());
    }
}

} // verus!
