//! A store of objects that may be garbage collected, addressed by ids.
use std::marker::PhantomData;

use vstd::layout::size_of;
use vstd::prelude::*;

verus! {

/// A unique identifier for an object in an [`ObjectStore`].
#[derive(Debug)]
pub struct ValId<T> {
    pub vm_id: u16,
    pub obj_id: u16,
    pub idx: u32,
    pub _marker: PhantomData<T>,
}

impl<T> ValId<T> {
    /// An id for the slot `idx`.
    pub fn new(idx: u32) -> (r: ValId<T>)
        ensures
            r.idx == idx,
            r.vm_id == 0,
            r.obj_id == 0,
    {
        ValId { vm_id: 0, obj_id: 0, idx, _marker: PhantomData }
    }

    /// Get the id as `usize` number.
    pub fn as_usize(self) -> (r: usize)
        ensures
            r == self.idx,
    {
        self.idx as usize
    }
}

impl<T> Clone for ValId<T> {
    fn clone(&self) -> (r: ValId<T>)
        ensures
            r == *self,
    {
        ValId { vm_id: self.vm_id, obj_id: self.obj_id, idx: self.idx, _marker: PhantomData }
    }
}

impl<T> Copy for ValId<T> {}

impl<T> PartialEq for ValId<T> {
    /// Ids are equal when they address the same slot.
    fn eq(&self, other: &ValId<T>) -> (r: bool) {
        self.idx == other.idx
    }
}

impl<T> vstd::std_specs::cmp::PartialEqSpecImpl for ValId<T> {
    open spec fn obeys_eq_spec() -> bool {
        true
    }

    open spec fn eq_spec(&self, other: &ValId<T>) -> bool {
        self.idx == other.idx
    }
}

impl<T> Eq for ValId<T> {}

impl<T> Default for ValId<T> {
    fn default() -> (r: ValId<T>)
        ensures
            r.idx == 0 && r.vm_id == 0 && r.obj_id == 0,
    {
        ValId { vm_id: 0, obj_id: 0, idx: 0, _marker: PhantomData }
    }
}

/// A color that marks an object as reachable (to keep) or unreachable (to collect).
#[derive(Copy, Clone, Debug, PartialEq, Eq, Structural)]
pub enum Color {
    Red,
    Blue,
}

impl Color {
    pub open spec fn spec_other(self) -> Color {
        match self {
            Color::Red => Color::Blue,
            Color::Blue => Color::Red,
        }
    }

    /// Returns the other color.
    pub fn other(self) -> (r: Color)
        ensures
            r == self.spec_other(),
            r != self,
    {
        match self {
            Color::Red => Color::Blue,
            Color::Blue => Color::Red,
        }
    }
}

impl Default for Color {
    fn default() -> (r: Color)
        ensures
            r == Color::Red,
    {
        Color::Red
    }
}

/// Taking the other color twice gives back the first.
pub proof fn lemma_other_involutive(c: Color)
    ensures
        c.spec_other().spec_other() == c,
{
}

/// A slot of an [`ObjectStore`].
#[derive(Debug)]
pub struct ValWithColor<T> {
    /// The underlying object or `None` if the slot does not contain an object.
    pub inner: Option<T>,
    /// The color of the object. Used for marking data as reachable (to keep) or unreachable (to
    /// garbage collect).
    pub color: Color,
}

/// A collection of `T` values that may be garbage collected.
#[derive(Debug)]
pub struct ObjectStore<T> {
    /// Backing storage for all the objects.
    objects: Vec<ValWithColor<T>>,
    /// Indices of the free slots within `objects`.
    free_object_ids: Vec<u32>,
}

/// The number of live objects of `slots` that have color `c`.
pub open spec fn count_with_color<T>(slots: Seq<ValWithColor<T>>, c: Color) -> nat
    decreases slots.len(),
{
    if slots.len() == 0 {
        0
    } else {
        count_with_color(slots.drop_last(), c) + if slots.last().inner is Some && slots.last().color
            == c {
            1nat
        } else {
            0nat
        }
    }
}

/// `Vec::capacity`: at least the length, and the buffer never holds more than `isize::MAX`
/// bytes. The exact value is what the allocator gave and is not stated.
#[verifier::external_body]
fn vec_capacity<T>(v: &Vec<T>) -> (r: usize)
    ensures
        r >= v@.len(),
        r * size_of::<T>() <= isize::MAX,
{
    v.capacity()
}

impl<T> ObjectStore<T> {
    /// The slots, in index order.
    pub closed spec fn slots(&self) -> Seq<ValWithColor<T>> {
        self.objects@
    }

    /// The indices of the free slots, the next one to be reused last.
    pub closed spec fn free_ids(&self) -> Seq<u32> {
        self.free_object_ids@
    }

    /// Slot `i` holds an object.
    pub open spec fn live(&self, i: int) -> bool {
        0 <= i < self.slots().len() && self.slots()[i].inner is Some
    }

    /// The object in slot `i`.
    pub open spec fn object(&self, i: int) -> T {
        self.slots()[i].inner->0
    }

    /// The color of slot `i`.
    pub open spec fn color(&self, i: int) -> Color {
        self.slots()[i].color
    }

    /// The objects held, by slot index.
    pub open spec fn view_map(&self) -> Map<int, T> {
        Map::new(|i: int| self.live(i), |i: int| self.object(i))
    }

    /// The free list holds distinct, empty slots, and every slot index fits a `u32`.
    pub open spec fn wf(&self) -> bool {
        &&& self.slots().len() <= u32::MAX + 1
        &&& forall|k: int|
            0 <= k < self.free_ids().len() ==> (#[trigger] self.free_ids()[k]) < self.slots().len()
                && !self.live(self.free_ids()[k] as int)
        &&& forall|a: int, b: int|
            0 <= a < b < self.free_ids().len() ==> #[trigger] self.free_ids()[a]
                != #[trigger] self.free_ids()[b]
    }

    /// Whether one more object fits: a slot is free, or a new slot still has an index that
    /// fits a `u32`.
    pub fn can_insert(&self) -> (r: bool)
        ensures
            r == (self.free_ids().len() > 0 || self.slots().len() <= u32::MAX),
    {
        self.free_object_ids.len() > 0 || self.objects.len() <= 0xffff_ffffusize
    }

    /// The number of slots, free or not.
    pub fn slot_count(&self) -> (r: usize)
        ensures
            r == self.slots().len(),
    {
        self.objects.len()
    }

    /// An empty store.
    pub fn new() -> (r: ObjectStore<T>)
        ensures
            r.wf(),
            r.slots().len() == 0,
            r.free_ids().len() == 0,
            r.view_map() == Map::<int, T>::empty(),
    {
        let r = ObjectStore { objects: Vec::new(), free_object_ids: Vec::new() };
        assert(r.view_map() =~= Map::<int, T>::empty());
        r
    }

    /// The size of metadata structures in bytes: the slot buffer and the free list, each at the
    /// capacity the allocator gave it.
    pub fn metadata_size(&self) -> (r: usize)
        ensures
            exists|cap_objects: nat, cap_free: nat|
                #![trigger cap_objects * size_of::<ValWithColor<T>>(), cap_free * size_of::<u32>()]
                cap_objects >= self.slots().len() && cap_free >= self.free_ids().len() && r
                    == cap_objects * size_of::<ValWithColor<T>>() + cap_free * size_of::<u32>(),
    {
        let a = vec_capacity(&self.objects);
        let b = vec_capacity(&self.free_object_ids);
        let sa = std::mem::size_of::<ValWithColor<T>>();
        let sb = std::mem::size_of::<u32>();
        assert(a * sa + b * sb <= usize::MAX) by (nonlinear_arith)
            requires
                a * sa <= isize::MAX,
                b * sb <= isize::MAX,
        ;
        let r = a * sa + b * sb;
        assert(exists|cap_objects: nat, cap_free: nat|
            #![trigger cap_objects * size_of::<ValWithColor<T>>(), cap_free * size_of::<u32>()]
            cap_objects >= self.slots().len() && cap_free >= self.free_ids().len() && r
                == cap_objects * size_of::<ValWithColor<T>>() + cap_free * size_of::<u32>()) by {
            let ca = a as nat;
            let cb = b as nat;
            assert(r == ca * size_of::<ValWithColor<T>>() + cb * size_of::<u32>());
        }
        r
    }

    /// Set the color of the object with `id`. Returns the object if its color was changed, that is
    /// when it exists and had another color.
    pub fn set_color(&mut self, id: ValId<T>, new_color: Color) -> (r: Option<&T>)
        requires
            old(self).wf(),
        ensures
            final(self).wf(),
            final(self).slots().len() == old(self).slots().len(),
            final(self).free_ids() == old(self).free_ids(),
            final(self).view_map() == old(self).view_map(),
            forall|i: int|
                #![trigger final(self).slots()[i]]
                0 <= i < old(self).slots().len() && i != id.idx ==> final(self).slots()[i]
                    == old(self).slots()[i],
            ({
                let i = id.idx as int;
                if old(self).live(i) && old(self).color(i) != new_color {
                    &&& r matches Some(x) && *x == old(self).object(i)
                    &&& final(self).color(i) == new_color
                } else {
                    &&& r is None
                    &&& *final(self) == *old(self)
                    &&& i < old(self).slots().len() ==> final(self).slots()[i] == old(
                        self,
                    ).slots()[i]
                }
            }),
    {
        let i = id.as_usize();
        if i < self.objects.len() && self.objects[i].inner.is_some() && self.objects[i].color
            != new_color {
            let ghost before = *self;
            self.objects[i].color = new_color;
            proof {
                assert(forall|j: int| #[trigger] self.live(j) == before.live(j));
                lemma_wf_same_shape(before, *self);
                assert(self.view_map() =~= before.view_map());
            }
            self.objects[i].inner.as_ref()
        } else {
            None
        }
    }

    /// Remove all objects with the given `color`; their slots become free.
    ///
    /// Returns the number of objects that were removed.
    pub fn remove_all_with_color(&mut self, color: Color) -> (r: usize)
        requires
            old(self).wf(),
        ensures
            final(self).wf(),
            r == count_with_color(old(self).slots(), color),
            final(self).slots().len() == old(self).slots().len(),
            forall|i: int|
                0 <= i < old(self).slots().len() ==> (#[trigger] final(self).live(i) <==> (old(
                    self,
                ).live(i) && old(self).color(i) != color)),
            forall|i: int|
                #![trigger final(self).object(i)]
                #![trigger final(self).color(i)]
                final(self).live(i) ==> final(self).object(i) == old(self).object(i)
                    && final(self).color(i) == old(self).color(i),
            final(self).view_map() == old(self).view_map().restrict(
                Set::new(|i: int| old(self).live(i) && old(self).color(i) != color),
            ),
            final(self).free_ids() == old(self).free_ids() + colored_ids(old(self).slots(), color),
    {
        let ghost start = *self;
        let n = self.objects.len();
        let mut removed: usize = 0;
        let mut idx: usize = 0;
        while idx < n
            invariant
                n == self.objects@.len() == start.objects@.len(),
                idx <= n,
                n <= u32::MAX + 1,
                removed == count_with_color(start.objects@.take(idx as int), color),
                removed <= idx,
                forall|i: int|
                    #![trigger self.objects@[i]]
                    idx <= i < n ==> self.objects@[i] == start.objects@[i],
                forall|i: int|
                    #![trigger self.objects@[i]]
                    0 <= i < idx ==> if start.objects@[i].inner is Some && start.objects@[i].color
                        == color {
                        self.objects@[i].inner is None && self.objects@[i].color
                            == start.objects@[i].color
                    } else {
                        self.objects@[i] == start.objects@[i]
                    },
                self.free_object_ids@.len() == start.free_object_ids@.len() + removed,
                self.free_object_ids@ == start.free_object_ids@ + colored_ids(start.objects@.take(idx as int), color),
                n <= usize::MAX,
                forall|k: int|
                    0 <= k < start.free_object_ids@.len() ==> #[trigger] self.free_object_ids@[k]
                        == start.free_object_ids@[k],
                forall|k: int|
                    start.free_object_ids@.len() <= k < self.free_object_ids@.len() ==> (
                    #[trigger] self.free_object_ids@[k]) < idx && start.objects@[self.free_object_ids@[k] as int].inner is Some
                        && start.objects@[self.free_object_ids@[k] as int].color == color,
                forall|a: int, b: int|
                    start.free_object_ids@.len() <= a < b < self.free_object_ids@.len()
                        ==> #[trigger] self.free_object_ids@[a] < #[trigger] self.free_object_ids@[b],
                start.wf(),
            decreases n - idx,
        {
            proof {
                assert(start.objects@.take(idx + 1).drop_last() =~= start.objects@.take(idx as int));
            }
            proof {
                assert(start.objects@.take(idx + 1).last() == start.objects@[idx as int]);
                assert(self.objects@[idx as int] == start.objects@[idx as int]);
            }
            if self.objects[idx].inner.is_some() && self.objects[idx].color == color {
                self.objects[idx].inner = None;
                self.free_object_ids.push(idx as u32);
                removed = removed + 1;
            }
            idx = idx + 1;
        }
        proof {
            assert(start.objects@.take(n as int) =~= start.objects@);
            assert forall|k: int| 0 <= k < self.free_ids().len() implies (#[trigger] self.free_ids()[k])
                < self.slots().len() && !self.live(self.free_ids()[k] as int) by {
                if k < start.free_object_ids@.len() {
                    assert(start.free_ids()[k] == self.free_ids()[k]);
                    let f = self.free_ids()[k] as int;
                    assert(!start.live(f));
                }
            }
            assert forall|a: int, b: int|
                0 <= a < b < self.free_ids().len() implies #[trigger] self.free_ids()[a]
                != #[trigger] self.free_ids()[b] by {
                let sl = start.free_object_ids@.len() as int;
                if b < sl {
                    assert(start.free_ids()[a] == self.free_ids()[a]);
                    assert(start.free_ids()[b] == self.free_ids()[b]);
                } else if a < sl {
                    let fa = self.free_ids()[a] as int;
                    assert(start.free_ids()[a] == self.free_ids()[a]);
                    assert(!start.live(fa));
                }
            }
            assert(self.view_map() =~= start.view_map().restrict(
                Set::new(|i: int| start.live(i) && start.color(i) != color),
            ));
        }
        removed
    }

    /// All objects with their ids, in index order.
    pub fn iter(&self) -> (r: Vec<(ValId<T>, &T)>)
        requires
            self.wf(),
        ensures
            forall|k: int|
                0 <= k < r@.len() ==> self.live((#[trigger] r@[k]).0.idx as int) && *r@[k].1
                    == self.object(r@[k].0.idx as int),
            forall|a: int, b: int|
                0 <= a < b < r@.len() ==> (#[trigger] r@[a]).0.idx < (#[trigger] r@[b]).0.idx,
            forall|i: int| #[trigger] self.live(i) ==> exists|k: int| 0 <= k < r@.len() && (#[trigger] r@[k]).0.idx == i,
    {
        let mut r: Vec<(ValId<T>, &T)> = Vec::new();
        let n = self.objects.len();
        let mut idx: usize = 0;
        while idx < n
            invariant
                n == self.objects@.len(),
                idx <= n,
                n <= u32::MAX + 1,
                forall|k: int|
                    0 <= k < r@.len() ==> self.live((#[trigger] r@[k]).0.idx as int) && *r@[k].1
                        == self.object(r@[k].0.idx as int) && r@[k].0.idx < idx,
                forall|a: int, b: int|
                    0 <= a < b < r@.len() ==> (#[trigger] r@[a]).0.idx < (#[trigger] r@[b]).0.idx,
                forall|i: int| 0 <= i < idx && #[trigger] self.live(i) ==> exists|k: int| 0 <= k < r@.len() && (#[trigger] r@[k]).0.idx == i,
                forall|i: int| #[trigger] self.live(i) ==> i < n,
            decreases n - idx,
        {
            if let Some(obj) = self.objects[idx].inner.as_ref() {
                let ghost before = r@;
                r.push((ValId::new(idx as u32), obj));
                proof {
                    assert forall|i: int| 0 <= i < idx + 1 && #[trigger] self.live(i) implies exists|k: int| 0 <= k < r@.len() && (#[trigger] r@[k]).0.idx == i by {
                        if i == idx {
                            assert(r@[r@.len() - 1].0.idx == i);
                        } else {
                            let k = choose|k: int| 0 <= k < before.len() && (#[trigger] before[k]).0.idx == i;
                            assert(r@[k] == before[k]);
                        }
                    }
                }
            }
            idx = idx + 1;
        }
        r
    }

    /// Get a reference to the object with `id` or `None` if it does not exist.
    pub fn get(&self, id: ValId<T>) -> (r: Option<&T>)
        ensures
            match r {
                Some(x) => self.live(id.idx as int) && *x == self.object(id.idx as int),
                None => !self.live(id.idx as int),
            },
    {
        let i = id.as_usize();
        if i < self.objects.len() {
            self.objects[i].inner.as_ref()
        } else {
            None
        }
    }

    /// Get a mutable reference to the object with `id` or `None` if it does not exist.
    pub fn get_mut(&mut self, id: ValId<T>) -> (r: Option<&mut T>)
        requires
            old(self).wf(),
        ensures
            final(self).wf(),
            final(self).free_ids() == old(self).free_ids(),
            final(self).slots().len() == old(self).slots().len(),
            match r {
                Some(x) => {
                    &&& old(self).live(id.idx as int)
                    &&& *x == old(self).object(id.idx as int)
                    &&& final(self).view_map() == old(self).view_map().insert(
                        id.idx as int,
                        *final(x),
                    )
                    &&& forall|i: int| #![trigger final(self).slots()[i]] 0 <= i < old(self).slots().len() ==> final(self).slots()[i].color == old(self).slots()[i].color
                    &&& forall|i: int| #![trigger final(self).slots()[i]] 0 <= i < old(self).slots().len() && i != id.idx ==> final(self).slots()[i] == old(self).slots()[i]
                    &&& final(self).object(id.idx as int) == *final(x)
                },
                None => !old(self).live(id.idx as int) && *final(self) == *old(self),
            },
            forall|j: int| #[trigger] final(self).live(j) == old(self).live(j),
    {
        broadcast use lemma_wf_same_shape;

        let i = id.as_usize();
        if i < self.objects.len() && self.objects[i].inner.is_some() {
            let slot = vec_slot_mut(&mut self.objects, i);
            Some(slot_inner_mut(slot))
        } else {
            None
        }
    }

    /// Insert object `obj` with `color` and return its id. A free slot is reused when there is one.
    pub fn insert(&mut self, obj: T, color: Color) -> (r: ValId<T>)
        requires
            old(self).wf(),
            old(self).free_ids().len() > 0 || old(self).slots().len() <= u32::MAX,
        ensures
            final(self).wf(),
            !old(self).live(r.idx as int),
            final(self).live(r.idx as int),
            final(self).object(r.idx as int) == obj,
            final(self).color(r.idx as int) == color,
            final(self).view_map() == old(self).view_map().insert(r.idx as int, obj),
            forall|i: int|
                #![trigger final(self).slots()[i]]
                0 <= i < old(self).slots().len() && i != r.idx ==> final(self).slots()[i]
                    == old(self).slots()[i],
            old(self).free_ids().len() > 0 ==> {
                &&& r.idx == old(self).free_ids().last()
                &&& final(self).free_ids() == old(self).free_ids().drop_last()
                &&& final(self).slots().len() == old(self).slots().len()
            },
            old(self).free_ids().len() == 0 ==> {
                &&& r.idx == old(self).slots().len()
                &&& final(self).free_ids() == old(self).free_ids()
                &&& final(self).slots().len() == old(self).slots().len() + 1
            },
    {
        let ghost before = *self;
        let v = ValWithColor { inner: Some(obj), color };
        match self.free_object_ids.pop() {
            Some(idx) => {
                proof {
                    assert(before.free_ids()[before.free_ids().len() - 1] == idx);
                }
                self.objects.set(idx as usize, v);
                proof {
                    assert forall|k: int| 0 <= k < self.free_ids().len() implies (#[trigger] self.free_ids()[k])
                        < self.slots().len() && !self.live(self.free_ids()[k] as int) by {
                        assert(self.free_ids()[k] == before.free_ids()[k]);
                        assert(before.free_ids()[k] != idx);
                    }
                    assert forall|a: int, b: int|
                        0 <= a < b < self.free_ids().len() implies #[trigger] self.free_ids()[a]
                        != #[trigger] self.free_ids()[b] by {
                        assert(self.free_ids()[a] == before.free_ids()[a]);
                        assert(self.free_ids()[b] == before.free_ids()[b]);
                    }
                    assert(self.view_map() =~= before.view_map().insert(idx as int, obj));
                }
                ValId::new(idx)
            },
            None => {
                let idx = self.objects.len() as u32;
                self.objects.push(v);
                proof {
                    assert(self.view_map() =~= before.view_map().insert(idx as int, obj));
                }
                ValId::new(idx)
            },
        }
    }
}

/// A store keeps its well-formedness when only the objects or colors of live slots change.
pub broadcast proof fn lemma_wf_same_shape<T>(a: ObjectStore<T>, b: ObjectStore<T>)
    requires
        a.wf(),
        a.free_ids() == b.free_ids(),
        a.slots().len() == b.slots().len(),
        forall|j: int| #[trigger] b.live(j) == a.live(j),
    ensures
        #![trigger a.wf(), b.wf()]
        b.wf(),
{
    assert forall|k: int| 0 <= k < b.free_ids().len() implies (#[trigger] b.free_ids()[k]) < b.slots().len()
        && !b.live(b.free_ids()[k] as int) by {
        assert(a.free_ids()[k] == b.free_ids()[k]);
        assert(!a.live(a.free_ids()[k] as int));
    }
    assert forall|x: int, y: int|
        0 <= x < y < b.free_ids().len() implies #[trigger] b.free_ids()[x]
        != #[trigger] b.free_ids()[y] by {
        assert(a.free_ids()[x] == b.free_ids()[x]);
        assert(a.free_ids()[y] == b.free_ids()[y]);
    }
}

/// The object of a live slot, mutably.
fn slot_inner_mut<T>(slot: &mut ValWithColor<T>) -> (r: &mut T)
    requires
        old(slot).inner is Some,
    ensures
        *r == old(slot).inner->0,
        *final(slot) == (ValWithColor { inner: Some(*final(r)), color: old(slot).color }),
{
    slot.inner.as_mut().unwrap()
}

/// `&mut v[i]`.
fn vec_slot_mut<T>(v: &mut Vec<T>, i: usize) -> (r: &mut T)
    requires
        i < old(v)@.len(),
    ensures
        *r == old(v)@[i as int],
        final(v)@ == old(v)@.update(i as int, *final(r)),
{
    &mut v[i]
}

impl<T> Default for ObjectStore<T> {
    /// An empty store.
    fn default() -> (r: ObjectStore<T>)
        ensures
            r.wf(),
            r.slots().len() == 0,
            r.free_ids().len() == 0,
            r.view_map() == Map::<int, T>::empty(),
    {
        ObjectStore::new()
    }
}

/// The indices of the live slots of `slots` with color `c`, in increasing order.
pub open spec fn colored_ids<T>(slots: Seq<ValWithColor<T>>, c: Color) -> Seq<u32>
    decreases slots.len(),
{
    if slots.len() == 0 {
        Seq::empty()
    } else if slots.last().inner is Some && slots.last().color == c {
        colored_ids(slots.drop_last(), c).push((slots.len() - 1) as u32)
    } else {
        colored_ids(slots.drop_last(), c)
    }
}

/// A sweep right after a sweep of the same color removes nothing: no live slot has that
/// color, so it frees no slot and leaves the free list as it was.
pub proof fn lemma_second_sweep_removes_nothing<T>(slots: Seq<ValWithColor<T>>, c: Color)
    requires
        forall|i: int| 0 <= i < slots.len() ==> !((#[trigger] slots[i]).inner is Some && slots[i].color == c),
    ensures
        colored_ids(slots, c) == Seq::<u32>::empty(),
        count_with_color(slots, c) == 0,
    decreases slots.len(),
{
    if slots.len() > 0 {
        let init = slots.drop_last();
        assert forall|i: int| 0 <= i < init.len() implies !((#[trigger] init[i]).inner is Some && init[i].color == c) by {
            assert(init[i] == slots[i]);
        }
        lemma_second_sweep_removes_nothing(init, c);
        assert(!(slots[slots.len() - 1].inner is Some && slots[slots.len() - 1].color == c));
    }
}

/// Recoloring one live slot from `c` to another color leaves one object of color `c` less.
pub proof fn lemma_count_recolor<T>(slots: Seq<ValWithColor<T>>, i: int, new_slot: ValWithColor<T>, c: Color)
    requires
        0 <= i < slots.len(),
        slots[i].inner is Some,
        slots[i].color == c,
        new_slot.color != c,
    ensures
        count_with_color(slots.update(i, new_slot), c) + 1 == count_with_color(slots, c),
    decreases slots.len(),
{
    let u = slots.update(i, new_slot);
    if i == slots.len() - 1 {
        assert(u.drop_last() =~= slots.drop_last());
    } else {
        assert(u.drop_last() =~= slots.drop_last().update(i, new_slot));
        lemma_count_recolor(slots.drop_last(), i, new_slot, c);
    }
}

/// A store holds what was inserted into it until it is removed.
pub proof fn lemma_insert_then_get<T>(before: ObjectStore<T>, after: ObjectStore<T>, id: ValId<T>, obj: T)
    requires
        after.view_map() == before.view_map().insert(id.idx as int, obj),
    ensures
        after.live(id.idx as int),
        after.object(id.idx as int) == obj,
        forall|i: int| i != id.idx ==> (#[trigger] after.live(i) <==> before.live(i)),
{
    assert(after.view_map().dom().contains(id.idx as int));
    assert(after.view_map()[id.idx as int] == obj);
    assert(after.view_map()[id.idx as int] == after.object(id.idx as int));
    assert forall|i: int| i != id.idx implies (#[trigger] after.live(i) <==> before.live(i)) by {
        assert(after.view_map().dom().contains(i) == before.view_map().dom().contains(i));
    }
}

/// An insert never hands out the id of an object in use: after two inserts the ids differ and
/// the first object is still there. (The clauses required are what [`ObjectStore::insert`]
/// ensures of each insert.)
pub proof fn lemma_two_inserts<T>(
    s0: ObjectStore<T>,
    s1: ObjectStore<T>,
    s2: ObjectStore<T>,
    a: ValId<T>,
    x: T,
    b: ValId<T>,
    y: T,
)
    requires
        s1.view_map() == s0.view_map().insert(a.idx as int, x),
        !s1.live(b.idx as int),
        s2.view_map() == s1.view_map().insert(b.idx as int, y),
    ensures
        a.idx != b.idx,
        s2.live(a.idx as int),
        s2.object(a.idx as int) == x,
{
    lemma_insert_then_get(s0, s1, a, x);
    lemma_insert_then_get(s1, s2, b, y);
    assert(s2.view_map().dom().contains(a.idx as int));
    assert(s2.view_map()[a.idx as int] == s1.view_map()[a.idx as int]);
    assert(s1.view_map()[a.idx as int] == x);
}

} // verus!
