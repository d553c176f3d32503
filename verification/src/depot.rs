//! A slab: a vector of slots that hands out stable indices, and reuses the
//! slot freed last when it stores the next item.
use crate::storage::{lemma_many_bytes_push, many_bytes};
use vstd::prelude::*;

verus! {

/// The index of a slot of a `Slab`.
#[derive(Debug, Clone, Copy, PartialEq, Eq, PartialOrd, Ord, Hash, Structural)]
pub struct SlabIndex(pub usize);

/// Stores items in slots; a freed slot is remembered and reused.
pub struct Slab<T> {
    data: Vec<Option<T>>,
    removed_indexes: Vec<SlabIndex>,
}

/// The items held by a run of slots, keyed by slot index.
pub open spec fn items_of<T>(slots: Seq<Option<T>>) -> Map<usize, T> {
    Map::new(
        |i: usize| (i as int) < slots.len() && slots[i as int] is Some,
        |i: usize| slots[i as int]->0,
    )
}

proof fn lemma_items_update<T>(slots: Seq<Option<T>>, i: usize, v: T)
    requires
        i < slots.len(),
        slots[i as int] is Some,
    ensures
        items_of(slots.update(i as int, Some(v))) == items_of(slots).insert(i, v),
        items_of(slots.update(i as int, Some(v))).dom() == items_of(slots).dom(),
        forall|j: int|
            0 <= j < slots.len() ==> (#[trigger] slots.update(i as int, Some(v))[j] is None) == (
            slots[j] is None),
{
    assert(items_of(slots.update(i as int, Some(v))) =~= items_of(slots).insert(i, v));
    assert(items_of(slots.update(i as int, Some(v))).dom() =~= items_of(slots).dom());
}

/// The items of the occupied slots, in slot order.
pub open spec fn occupied<T>(slots: Seq<Option<T>>) -> Seq<T>
    decreases slots.len(),
{
    if slots.len() == 0 {
        Seq::empty()
    } else {
        let before = occupied(slots.drop_last());
        match slots.last() {
            Some(x) => before.push(x),
            None => before,
        }
    }
}

/// Empty slots between two positions add no items.
pub proof fn lemma_occupied_gap<T>(slots: Seq<Option<T>>, a: int, b: int)
    requires
        0 <= a <= b <= slots.len(),
        forall|j: int| a <= j < b ==> (#[trigger] slots[j]) is None,
    ensures
        occupied(slots.take(b)) == occupied(slots.take(a)),
    decreases b - a,
{
    if a < b {
        lemma_occupied_gap(slots, a, b - 1);
        assert(slots.take(b).drop_last() =~= slots.take(b - 1));
    }
}

/// An occupied slot after a gap adds its item.
pub proof fn lemma_occupied_next<T>(slots: Seq<Option<T>>, a: int, b: int, x: T)
    requires
        0 <= a < b <= slots.len(),
        forall|j: int| a <= j < b - 1 ==> (#[trigger] slots[j]) is None,
        slots[b - 1] == Some(x),
    ensures
        occupied(slots.take(b)) == occupied(slots.take(a)).push(x),
{
    lemma_occupied_gap(slots, a, b - 1);
    assert(slots.take(b).drop_last() =~= slots.take(b - 1));
}

/// What is written for the items of occupied slots, one after the other,
/// grows by what is written for the item of the next occupied slot.
pub proof fn lemma_occupied_bytes_step<T, V>(
    slots: Seq<Option<T>>,
    a: int,
    b: int,
    x: T,
    view: spec_fn(T) -> V,
    bytes: spec_fn(V) -> Seq<u8>,
)
    requires
        0 <= a < b <= slots.len(),
        forall|j: int| a <= j < b - 1 ==> (#[trigger] slots[j]) is None,
        slots[b - 1] == Some(x),
    ensures
        many_bytes(occupied(slots.take(b)).map_values(view), bytes) == many_bytes(
            occupied(slots.take(a)).map_values(view),
            bytes,
        ) + bytes(view(x)),
{
    lemma_occupied_next(slots, a, b, x);
    assert(occupied(slots.take(b)).map_values(view) =~= occupied(slots.take(a)).map_values(
        view,
    ).push(view(x)));
    lemma_many_bytes_push(occupied(slots.take(a)).map_values(view), view(x), bytes);
}

/// Every item of the occupied slots sits in one of them.
pub proof fn lemma_occupied_from<T>(slots: Seq<Option<T>>, k: int)
    requires
        0 <= k < occupied(slots).len(),
    ensures
        exists|j: int| 0 <= j < slots.len() && slots[j] == Some(occupied(slots)[k]),
    decreases slots.len(),
{
    let d = slots.drop_last();
    if k < occupied(d).len() {
        lemma_occupied_from(d, k);
        let j = choose|j: int| 0 <= j < d.len() && d[j] == Some(occupied(d)[k]);
        assert(slots[j] == d[j]);
    } else {
        assert(slots[slots.len() - 1] == Some(occupied(slots)[k]));
    }
}

/// The item of each occupied slot is one of the occupied slots' items.
pub proof fn lemma_occupied_has<T>(slots: Seq<Option<T>>, j: int)
    requires
        0 <= j < slots.len(),
        slots[j] is Some,
    ensures
        exists|k: int| 0 <= k < occupied(slots).len() && occupied(slots)[k] == slots[j]->0,
    decreases slots.len(),
{
    let d = slots.drop_last();
    if j < slots.len() - 1 {
        assert(d[j] == slots[j]);
        lemma_occupied_has(d, j);
        let k = choose|k: int| 0 <= k < occupied(d).len() && occupied(d)[k] == d[j]->0;
        assert(occupied(slots)[k] == occupied(d)[k]);
    } else {
        assert(occupied(slots)[occupied(d).len() as int] == slots[j]->0);
    }
}

/// The indices of the occupied slots, in order.
pub open spec fn occupied_slots<T>(slots: Seq<Option<T>>) -> Seq<SlabIndex>
    decreases slots.len(),
{
    if slots.len() == 0 {
        Seq::empty()
    } else {
        let before = occupied_slots(slots.drop_last());
        if slots.last() is Some {
            before.push(SlabIndex((slots.len() - 1) as usize))
        } else {
            before
        }
    }
}

pub proof fn lemma_occupied_slots_gap<T>(slots: Seq<Option<T>>, a: int, b: int)
    requires
        0 <= a <= b <= slots.len(),
        forall|j: int| a <= j < b ==> (#[trigger] slots[j]) is None,
    ensures
        occupied_slots(slots.take(b)) == occupied_slots(slots.take(a)),
    decreases b - a,
{
    if a < b {
        lemma_occupied_slots_gap(slots, a, b - 1);
        assert(slots.take(b).drop_last() =~= slots.take(b - 1));
    }
}

pub proof fn lemma_occupied_slots_step<T>(slots: Seq<Option<T>>, a: int, i: int)
    requires
        0 <= a <= i < slots.len(),
        slots.len() <= usize::MAX,
        forall|j: int| a <= j < i ==> (#[trigger] slots[j]) is None,
        slots[i] is Some,
    ensures
        occupied_slots(slots.take(i + 1)) == occupied_slots(slots.take(a)).push(SlabIndex(i as usize)),
{
    lemma_occupied_slots_gap(slots, a, i);
    assert(slots.take(i + 1).drop_last() =~= slots.take(i));
}

/// A walk over a slab's slots meets as many occupied slots as it finds
/// items, each of them occupied, in increasing order.
pub proof fn lemma_occupied_slots_walk<T>(slots: Seq<Option<T>>)
    requires
        slots.len() <= usize::MAX,
    ensures
        occupied_slots(slots).len() == occupied(slots).len(),
        forall|k: int|
            0 <= k < occupied_slots(slots).len() ==> (#[trigger] occupied_slots(slots)[k]).0
                < slots.len() && slots[occupied_slots(slots)[k].0 as int] is Some,
        forall|j: int, k: int|
            0 <= j < k < occupied_slots(slots).len() ==> (#[trigger] occupied_slots(slots)[j]).0
                < (#[trigger] occupied_slots(slots)[k]).0,
        forall|i: int|
            0 <= i < slots.len() && (#[trigger] slots[i]) is Some ==> occupied_slots(slots).contains(
                SlabIndex(i as usize),
            ),
    decreases slots.len(),
{
    if slots.len() > 0 {
        let d = slots.drop_last();
        lemma_occupied_slots_walk(d);
        let o = occupied_slots(slots);
        let od = occupied_slots(d);
        assert forall|k: int| 0 <= k < od.len() implies (#[trigger] od[k]).0 < d.len() by {}
        assert forall|k: int| 0 <= k < o.len() implies (#[trigger] o[k]).0 < slots.len()
            && slots[o[k].0 as int] is Some by {
            if k < od.len() {
                assert(o[k] == od[k]);
                assert(d[od[k].0 as int] == slots[od[k].0 as int]);
            }
        }
        assert forall|j: int, k: int| 0 <= j < k < o.len() implies (#[trigger] o[j]).0 < (
        #[trigger] o[k]).0 by {
            if k < od.len() {
                assert(o[j] == od[j]);
                assert(o[k] == od[k]);
            } else {
                assert(o[j] == od[j]);
            }
        }
        assert forall|i: int| 0 <= i < slots.len() && (#[trigger] slots[i]) is Some implies o.contains(
            SlabIndex(i as usize),
        ) by {
            if i < slots.len() - 1 {
                assert(d[i] == slots[i]);
                let k = choose|k: int| 0 <= k < od.len() && od[k] == SlabIndex(i as usize);
                assert(o[k] == od[k]);
            } else {
                assert(o[o.len() - 1] == SlabIndex(i as usize));
            }
        }
    }
}

/// The occupied slots hold as many items as the map of items has keys.
pub proof fn lemma_occupied_len<T>(slots: Seq<Option<T>>)
    requires
        slots.len() <= usize::MAX,
    ensures
        items_of(slots).dom().finite(),
        items_of(slots).dom().len() == occupied(slots).len(),
    decreases slots.len(),
{
    if slots.len() == 0 {
        assert(items_of(slots).dom() =~= Set::<usize>::empty());
    } else {
        let d = slots.drop_last();
        lemma_occupied_len(d);
        let n = (slots.len() - 1) as usize;
        if slots.last() is Some {
            assert(items_of(slots).dom() =~= items_of(d).dom().insert(n));
            assert(!items_of(d).dom().contains(n));
        } else {
            assert(items_of(slots).dom() =~= items_of(d).dom());
        }
    }
}

/// The slot freed last is the next one handed out: once `remove` has taken
/// the item of slot `index` out of `s`, giving `t`, the next `insert` into
/// `t` hands out `index` again, and the slab then holds what `s` held with
/// the new item in that slot.
pub proof fn lemma_remove_then_insert<T>(s: Slab<T>, t: Slab<T>, index: SlabIndex, item: T)
    requires
        s.wf(),
        s@.contains_key(index.0),
        t@ == s@.remove(index.0),
        t.free() == s.free().push(index),
    ensures
        t.next_index() == index,
        !t@.contains_key(index.0),
        t@.insert(index.0, item) == s@.insert(index.0, item),
{
    assert(t@.insert(index.0, item) =~= s@.insert(index.0, item));
}

impl<T> View for Slab<T> {
    type V = Map<usize, T>;

    open spec fn view(&self) -> Map<usize, T> {
        items_of(self.slots())
    }
}

impl<T> Slab<T> {
    /// Every slot, occupied or free, in index order.
    pub closed spec fn slots(&self) -> Seq<Option<T>> {
        self.data@
    }

    /// The freed slots, in the order they were freed.
    pub closed spec fn free(&self) -> Seq<SlabIndex> {
        self.removed_indexes@
    }

    /// The freed slots are empty slots, each listed once, and the number of
    /// items is the number of slots less the number of freed slots.
    pub closed spec fn wf(&self) -> bool {
        &&& forall|k: int|
            0 <= k < self.free().len() ==> (#[trigger] self.free()[k]).0 < self.slots().len()
                && self.slots()[self.free()[k].0 as int] is None
        &&& forall|k1: int, k2: int|
            0 <= k1 < self.free().len() && 0 <= k2 < self.free().len() && k1 != k2
                ==> #[trigger] self.free()[k1] != #[trigger] self.free()[k2]
        &&& self@.dom().finite()
        &&& self@.dom().len() + self.free().len() == self.slots().len()
    }

    /// There are at most `usize::MAX` slots.
    pub proof fn lemma_slots_bounded(&self)
        ensures
            self.slots().len() <= usize::MAX,
    {
        assert(self.data.len() == self.data@.len());
    }

    /// A well-formed slab has no more freed slots than slots.
    pub proof fn lemma_free_within(&self)
        requires
            self.wf(),
        ensures
            self.free().len() <= self.slots().len(),
    {
    }

    /// The index that the next `insert` hands out: the slot freed last, or a
    /// new slot at the end.
    pub open spec fn next_index(&self) -> SlabIndex {
        if self.free().len() > 0 {
            self.free().last()
        } else {
            SlabIndex(self.slots().len() as usize)
        }
    }

    pub fn new() -> (s: Self)
        ensures
            s.wf(),
            s@ == Map::<usize, T>::empty(),
            s.slots() == Seq::<Option<T>>::empty(),
            s.free() == Seq::<SlabIndex>::empty(),
    {
        let s = Slab { data: Vec::new(), removed_indexes: Vec::new() };
        assert(s@ =~= Map::<usize, T>::empty());
        s
    }

    /// Stores `item` in the slot freed last, or in a new slot at the end, and
    /// returns that slot's index.
    pub fn insert(&mut self, item: T) -> (index: SlabIndex)
        requires
            old(self).wf(),
        ensures
            final(self).wf(),
            index == old(self).next_index(),
            !old(self)@.contains_key(index.0),
            final(self)@ == old(self)@.insert(index.0, item),
            final(self).free() == if old(self).free().len() > 0 {
                old(self).free().drop_last()
            } else {
                old(self).free()
            },
            final(self).slots().len() == if old(self).free().len() > 0 {
                old(self).slots().len()
            } else {
                old(self).slots().len() + 1
            },
            old(self).free().len() == 0 ==> final(self).slots() == old(self).slots().push(
                Some(item),
            ),
    {
        let ghost old_slots = self.data@;
        if let Some(index) = self.removed_indexes.pop() {
            let ghost k = self.removed_indexes@.len() as int;
            assert(old(self).free()[k] == index);
            self.data.set(index.0, Some(item));
            proof {
                assert(self@ =~= old(self)@.insert(index.0, item));
                assert forall|j: int| 0 <= j < self.free().len() implies (#[trigger] self.free()[j]).0
                    < self.slots().len() && self.slots()[self.free()[j].0 as int] is None by {
                    assert(old(self).free()[j] == self.free()[j]);
                    assert(old(self).free()[j] != old(self).free()[k]);
                }
                assert forall|k1: int, k2: int|
                    0 <= k1 < self.free().len() && 0 <= k2 < self.free().len() && k1 != k2
                        implies #[trigger] self.free()[k1] != #[trigger] self.free()[k2] by {
                    assert(old(self).free()[k1] == self.free()[k1]);
                    assert(old(self).free()[k2] == self.free()[k2]);
                }
            }
            index
        } else {
            let index = SlabIndex(self.data.len());
            self.data.push(Some(item));
            proof {
                assert(self@ =~= old(self)@.insert(index.0, item));
            }
            index
        }
    }

    /// The item in slot `index`, if that slot holds one.
    pub fn get(&self, index: SlabIndex) -> (r: Option<&T>)
        ensures
            r == if self@.contains_key(index.0) {
                Some(&self@[index.0])
            } else {
                None
            },
    {
        if index.0 < self.data.len() {
            match &self.data[index.0] {
                Some(item) => Some(item),
                None => None,
            }
        } else {
            None
        }
    }

    /// Mutable access to the item in slot `index`, if that slot holds one.
    pub fn get_mut(&mut self, index: SlabIndex) -> (r: Option<&mut T>)
        requires
            old(self).wf(),
        ensures
            match r {
                Some(item) => {
                    &&& old(self)@.contains_key(index.0)
                    &&& *item == old(self)@[index.0]
                    &&& final(self).wf()
                    &&& final(self)@ == old(self)@.insert(index.0, *final(item))
                    &&& final(self).free() == old(self).free()
                    &&& final(self).slots().len() == old(self).slots().len()
                },
                None => {
                    &&& !old(self)@.contains_key(index.0)
                    &&& final(self).wf()
                    &&& final(self).slots() == old(self).slots()
                    &&& final(self).free() == old(self).free()
                },
            },
    {
        if index.0 >= self.data.len() || self.data[index.0].is_none() {
            return None;
        }
        let slot = &mut self.data[index.0];
        match slot.as_mut() {
            Some(item) => {
                proof {
                    lemma_items_update(old(self).slots(), index.0, *final(item));
                }
                Some(item)
            },
            None => None,
        }
    }

    /// Empties slot `index` and remembers it for reuse; gives back the item
    /// it held.
    pub fn remove(&mut self, index: SlabIndex) -> (r: Option<T>)
        requires
            old(self).wf(),
        ensures
            final(self).wf(),
            r == if old(self)@.contains_key(index.0) {
                Some(old(self)@[index.0])
            } else {
                None
            },
            old(self)@.contains_key(index.0) ==> {
                &&& final(self)@ == old(self)@.remove(index.0)
                &&& final(self).free() == old(self).free().push(index)
                &&& final(self).slots().len() == old(self).slots().len()
                &&& final(self).next_index() == index
            },
            !old(self)@.contains_key(index.0) ==> *final(self) == *old(self),
    {
        if index.0 >= self.data.len() {
            return None;
        }
        if self.data[index.0].is_none() {
            return None;
        }
        let item = self.data[index.0].take();
        self.removed_indexes.push(index);
        proof {
            assert(self@ =~= old(self)@.remove(index.0));
            let n = old(self).free().len() as int;
            assert forall|j: int| 0 <= j < self.free().len() implies (#[trigger] self.free()[j]).0
                < self.slots().len() && self.slots()[self.free()[j].0 as int] is None by {
                if j < n {
                    assert(old(self).free()[j] == self.free()[j]);
                }
            }
            assert forall|k1: int, k2: int|
                0 <= k1 < self.free().len() && 0 <= k2 < self.free().len() && k1 != k2
                    implies #[trigger] self.free()[k1] != #[trigger] self.free()[k2] by {
                if k1 < n {
                    assert(old(self).free()[k1] == self.free()[k1]);
                }
                if k2 < n {
                    assert(old(self).free()[k2] == self.free()[k2]);
                }
            }
        }
        item
    }

    /// The number of items stored.
    pub fn len(&self) -> (r: usize)
        requires
            self.wf(),
        ensures
            r == self@.dom().len(),
            r == self.slots().len() - self.free().len(),
            r == occupied(self.slots()).len(),
    {
        let n = self.data.len();
        proof {
            lemma_occupied_len(self.data@);
        }
        n - self.removed_indexes.len()
    }

    /// Walks the indices of the occupied slots, in index order.
    pub fn iter(&self) -> (r: Iter<'_, T>)
        ensures
            r.slots() == self.slots(),
            r.pos() == 0,
            self.slots().len() <= usize::MAX,
    {
        let _ = self.data.len();
        Iter { slab: self, pos: 0 }
    }

    /// Walks the stored items, in slot order.
    pub fn all(&self) -> (r: IterData<'_, T>)
        ensures
            r.slots() == self.slots(),
            r.pos() == 0,
            self.slots().len() <= usize::MAX,
    {
        let _ = self.data.len();
        IterData { slab: self, pos: 0 }
    }
}

/// One step of a walk over the indices of `slots` from position `p0` to
/// `p1`: it yields the next occupied index and stands just past it, or, when
/// no slot from `p0` on is occupied, yields nothing and stands at the end.
pub open spec fn index_step<T>(slots: Seq<Option<T>>, p0: nat, p1: nat, r: Option<SlabIndex>) -> bool {
    match r {
        Some(i) => {
            &&& p0 <= i.0 < slots.len()
            &&& slots[i.0 as int] is Some
            &&& forall|j: int| p0 <= j < i.0 ==> (#[trigger] slots[j]) is None
            &&& p1 == i.0 + 1
        },
        None => {
            &&& forall|j: int| p0 <= j < slots.len() ==> (#[trigger] slots[j]) is None
            &&& p1 == slots.len()
        },
    }
}

/// One step of a walk over the items of `slots` from position `p0` to `p1`:
/// it yields the item of the next occupied slot and stands just past it,
/// or, when no slot from `p0` on is occupied, yields nothing and stands at
/// the end.
pub open spec fn item_step<T>(slots: Seq<Option<T>>, p0: nat, p1: nat, r: Option<T>) -> bool {
    match r {
        Some(x) => {
            &&& p0 < p1 <= slots.len()
            &&& slots[p1 - 1] == Some(x)
            &&& forall|j: int| p0 <= j < p1 - 1 ==> (#[trigger] slots[j]) is None
        },
        None => {
            &&& forall|j: int| p0 <= j < slots.len() ==> (#[trigger] slots[j]) is None
            &&& p1 == slots.len()
        },
    }
}

/// A walk with `iter` yields exactly the occupied indices, in increasing
/// order: if the indices met before a step are the occupied indices of the
/// slots passed, so are they after it; once the walk yields nothing, it has
/// met every occupied index.
pub proof fn lemma_index_walk<T>(
    slots: Seq<Option<T>>,
    p0: nat,
    p1: nat,
    r: Option<SlabIndex>,
    met: Seq<SlabIndex>,
)
    requires
        slots.len() <= usize::MAX,
        p0 <= slots.len(),
        met == occupied_slots(slots.take(p0 as int)),
        index_step(slots, p0, p1, r),
    ensures
        p1 <= slots.len(),
        match r {
            Some(i) => met.push(i) == occupied_slots(slots.take(p1 as int)),
            None => met == occupied_slots(slots),
        },
{
    match r {
        Some(i) => lemma_occupied_slots_step(slots, p0 as int, i.0 as int),
        None => {
            lemma_occupied_slots_gap(slots, p0 as int, slots.len() as int);
            assert(slots.take(slots.len() as int) =~= slots);
        },
    }
}

/// A walk with `all` yields exactly the stored items, in slot order: if the
/// items met before a step are those of the slots passed, so are they after
/// it; once the walk yields nothing, it has met every stored item.
pub proof fn lemma_item_walk<T>(slots: Seq<Option<T>>, p0: nat, p1: nat, r: Option<T>, met: Seq<T>)
    requires
        p0 <= slots.len(),
        met == occupied(slots.take(p0 as int)),
        item_step(slots, p0, p1, r),
    ensures
        p1 <= slots.len(),
        match r {
            Some(x) => met.push(x) == occupied(slots.take(p1 as int)),
            None => met == occupied(slots),
        },
{
    match r {
        Some(x) => lemma_occupied_next(slots, p0 as int, p1 as int, x),
        None => {
            lemma_occupied_gap(slots, p0 as int, slots.len() as int);
            assert(slots.take(slots.len() as int) =~= slots);
        },
    }
}

/// A walk starts having met nothing.
pub proof fn lemma_walk_start<T>(slots: Seq<Option<T>>)
    ensures
        occupied_slots(slots.take(0)) == Seq::<SlabIndex>::empty(),
        occupied(slots.take(0)) == Seq::<T>::empty(),
{
    assert(slots.take(0) =~= Seq::<Option<T>>::empty());
}

/// A whole walk with `iter` yields as many indices as `len` counts, and the
/// walk with `all` yields the items of those indices, in the same order.
pub proof fn lemma_walk_len<T>(s: Slab<T>)
    requires
        s.wf(),
    ensures
        occupied_slots(s.slots()).len() == s@.dom().len(),
        occupied(s.slots()).len() == s@.dom().len(),
        forall|k: int|
            0 <= k < occupied(s.slots()).len() ==> #[trigger] occupied(s.slots())[k]
                == s@[occupied_slots(s.slots())[k].0],
{
    s.lemma_slots_bounded();
    lemma_occupied_len(s.slots());
    lemma_occupied_slots_walk(s.slots());
    lemma_occupied_items(s.slots());
}

/// The items of the occupied slots are those of the occupied indices, in
/// order.
pub proof fn lemma_occupied_items<T>(slots: Seq<Option<T>>)
    requires
        slots.len() <= usize::MAX,
    ensures
        occupied(slots).len() == occupied_slots(slots).len(),
        forall|k: int|
            0 <= k < occupied(slots).len() ==> #[trigger] occupied(slots)[k] == slots[occupied_slots(
                slots,
            )[k].0 as int]->0,
    decreases slots.len(),
{
    if slots.len() > 0 {
        let d = slots.drop_last();
        lemma_occupied_items(d);
        assert(occupied(slots).len() == occupied_slots(slots).len());
        assert forall|k: int| 0 <= k < occupied(slots).len() implies #[trigger] occupied(slots)[k]
            == slots[occupied_slots(slots)[k].0 as int]->0 by {
            if k < occupied(d).len() {
                assert(occupied(slots)[k] == occupied(d)[k]);
                assert(occupied_slots(slots)[k] == occupied_slots(d)[k]);
                lemma_occupied_slots_walk_below(d, k);
                assert(d[occupied_slots(d)[k].0 as int] == slots[occupied_slots(d)[k].0 as int]);
            } else {
                assert(slots.last() is Some);
                assert(occupied(slots)[k] == slots.last()->0);
                assert(occupied_slots(slots)[k] == SlabIndex((slots.len() - 1) as usize));
            }
        }
    }
}

proof fn lemma_occupied_slots_walk_below<T>(slots: Seq<Option<T>>, k: int)
    requires
        0 <= k < occupied_slots(slots).len(),
    ensures
        occupied_slots(slots)[k].0 < slots.len(),
    decreases slots.len(),
{
    let d = slots.drop_last();
    if k < occupied_slots(d).len() {
        lemma_occupied_slots_walk_below(d, k);
        assert(occupied_slots(slots)[k] == occupied_slots(d)[k]);
    }
}

/// A walk over the indices of the occupied slots of a slab.
pub struct Iter<'a, T> {
    slab: &'a Slab<T>,
    pos: usize,
}

impl<'a, T> Iter<'a, T> {
    #[verifier::type_invariant]
    spec fn inv(self) -> bool {
        self.pos <= self.slab.data@.len()
    }

    /// The slots walked over.
    pub closed spec fn slots(&self) -> Seq<Option<T>> {
        self.slab.slots()
    }

    /// The first slot not yet looked at.
    pub closed spec fn pos(&self) -> nat {
        self.pos as nat
    }

    /// The index of the next occupied slot, or `None` when no slot is left.
    pub fn next(&mut self) -> (r: Option<SlabIndex>)
        ensures
            final(self).slots() == old(self).slots(),
            index_step(old(self).slots(), old(self).pos(), final(self).pos(), r),
    {
        proof {
            use_type_invariant(&*self);
        }
        let slab: &'a Slab<T> = self.slab;
        let len = slab.data.len();
        let mut p = self.pos;
        while p < len
            invariant
                len == slab.data@.len(),
                slab == old(self).slab,
                self.slab == slab,
                self.pos == old(self).pos,
                old(self).pos <= p <= len,
                forall|j: int| old(self).pos <= j < p ==> (#[trigger] slab.data@[j]) is None,
            decreases len - p,
        {
            if slab.data[p].is_some() {
                self.pos = p + 1;
                return Some(SlabIndex(p));
            }
            p = p + 1;
        }
        self.pos = len;
        None
    }
}

/// A walk over the items of a slab, in slot order.
pub struct IterData<'a, T> {
    slab: &'a Slab<T>,
    pos: usize,
}

impl<'a, T> IterData<'a, T> {
    #[verifier::type_invariant]
    spec fn inv(self) -> bool {
        self.pos <= self.slab.data@.len()
    }

    /// The slots walked over.
    pub closed spec fn slots(&self) -> Seq<Option<T>> {
        self.slab.slots()
    }

    /// The first slot not yet looked at.
    pub closed spec fn pos(&self) -> nat {
        self.pos as nat
    }

    /// The item of the next occupied slot, or `None` when no slot is left.
    pub fn next(&mut self) -> (r: Option<&'a T>)
        ensures
            final(self).slots() == old(self).slots(),
            item_step(
                old(self).slots(),
                old(self).pos(),
                final(self).pos(),
                match r {
                    Some(item) => Some(*item),
                    None => None,
                },
            ),
    {
        proof {
            use_type_invariant(&*self);
        }
        let slab: &'a Slab<T> = self.slab;
        let len = slab.data.len();
        let mut p = self.pos;
        while p < len
            invariant
                len == slab.data@.len(),
                slab == old(self).slab,
                self.slab == slab,
                self.pos == old(self).pos,
                old(self).pos <= p <= len,
                forall|j: int| old(self).pos <= j < p ==> (#[trigger] slab.data@[j]) is None,
            decreases len - p,
        {
            match &slab.data[p] {
                Some(item) => {
                    self.pos = p + 1;
                    return Some(item);
                },
                None => {},
            }
            p = p + 1;
        }
        self.pos = len;
        None
    }
}

} // verus!
