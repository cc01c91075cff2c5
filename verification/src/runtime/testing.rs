//! Values that hold other values of managed memory, on the stack and in managed
//! memory.

use super::reach::{field_addr, law_kept_closed, law_roots_kept, points_to, RtTypeModel};
use super::{
    decremented, fields_addressable, incremented, release_of, Release, RtTypeData, Runtime,
    RuntimeModel,
};
use crate::layout::Layout;
use std::marker::PhantomData;
use vstd::prelude::*;

verus! {

/// A reference that is held: it lives on the stack.
pub struct Rooted<T> {
    ptr: usize,
    _p: PhantomData<T>,
}

/// A reference that is not held: it lives in managed memory.
///
/// You can't directly create or clone a `NonRooted<T>`!
pub struct NonRooted<T> {
    ptr: usize,
    _p: PhantomData<T>,
}

impl<T> Rooted<T> {
    pub closed spec fn ptr(&self) -> usize {
        self.ptr
    }

    /// A reference to nothing.
    pub fn null() -> (rooted: Self)
        ensures
            rooted.ptr() == 0,
    {
        Rooted { ptr: 0, _p: PhantomData }
    }

    /// Takes the value at `ptr` into managed memory and holds it.
    pub fn new(rt: &mut Runtime, ptr: usize, ty: RtTypeData) -> (rooted: Self)
        requires
            old(rt).wf(),
            ptr != 0,
            fields_addressable(ptr, ty@),
            old(rt)@.refcounts.contains_key(ptr) ==> old(rt)@.refcounts[ptr] < usize::MAX,
        ensures
            final(rt).wf(),
            rooted.ptr() == ptr,
            final(rt)@ == (RuntimeModel {
                refcounts: incremented(old(rt)@.refcounts, ptr),
                ..old(rt)@.allocated(ptr, ty@)
            }),
    {
        rt.alloc_gc(ptr, ty);
        rt.refcount_increment(ptr);
        Rooted { ptr, _p: PhantomData }
    }

    /// The address of the value.
    pub fn as_ptr(&self) -> (ptr: usize)
        ensures
            ptr == self.ptr(),
    {
        self.ptr
    }

    /// Holds the value once more.
    pub fn clone_in(&self, rt: &mut Runtime) -> (rooted: Self)
        requires
            old(rt).wf(),
            old(rt)@.refcounts.contains_key(self.ptr()) ==> old(rt)@.refcounts[self.ptr()]
                < usize::MAX,
        ensures
            final(rt).wf(),
            rooted.ptr() == self.ptr(),
            final(rt)@ == (RuntimeModel {
                refcounts: incremented(old(rt)@.refcounts, self.ptr()),
                ..old(rt)@
            }),
    {
        rt.refcount_increment(self.ptr);
        Rooted { ptr: self.ptr, _p: PhantomData }
    }

    /// Holds the value no more.
    pub fn release(self, rt: &mut Runtime) -> (release: Release)
        requires
            old(rt).wf(),
        ensures
            final(rt).wf(),
            release == release_of(old(rt)@.refcounts, self.ptr()),
            final(rt)@ == (RuntimeModel {
                refcounts: decremented(old(rt)@.refcounts, self.ptr()),
                ..old(rt)@
            }),
    {
        rt.refcount_decrement(self.ptr)
    }

    /// Tell the GC that this isn't on the stack anymore
    pub fn unroot(self, rt: &mut Runtime) -> (res: (NonRooted<T>, Release))
        requires
            old(rt).wf(),
        ensures
            final(rt).wf(),
            res.0.ptr() == self.ptr(),
            res.1 == release_of(old(rt)@.refcounts, self.ptr()),
            final(rt)@ == (RuntimeModel {
                refcounts: decremented(old(rt)@.refcounts, self.ptr()),
                ..old(rt)@
            }),
    {
        let release = rt.refcount_decrement(self.ptr);
        (NonRooted { ptr: self.ptr, _p: PhantomData }, release)
    }
}

impl<T> NonRooted<T> {
    pub closed spec fn ptr(&self) -> usize {
        self.ptr
    }

    /// The address of the value.
    pub fn as_ptr(&self) -> (ptr: usize)
        ensures
            ptr == self.ptr(),
    {
        self.ptr
    }

    /// Holds the value, which stays referred to from managed memory too.
    pub fn as_rooted(&self, rt: &mut Runtime) -> (rooted: Rooted<T>)
        requires
            old(rt).wf(),
            old(rt)@.refcounts.contains_key(self.ptr()) ==> old(rt)@.refcounts[self.ptr()]
                < usize::MAX,
        ensures
            final(rt).wf(),
            rooted.ptr() == self.ptr(),
            final(rt)@ == (RuntimeModel {
                refcounts: incremented(old(rt)@.refcounts, self.ptr()),
                ..old(rt)@
            }),
    {
        rt.refcount_increment(self.ptr);
        Rooted { ptr: self.ptr, _p: PhantomData }
    }

    /// Refers to what `to_ptr` refers to from now on.
    pub fn set(&mut self, to_ptr: &Rooted<T>)
        ensures
            final(self).ptr() == to_ptr.ptr(),
    {
        self.ptr = to_ptr.ptr;
    }
}

/// What references to the values of a linked list refer to.
pub struct ListNode;

/// Lives on stack
pub struct LinkedList {
    pub val: i32,
    pub next: Rooted<ListNode>,
}

/// Lives on heap
pub struct LinkedListNonRooted {
    pub val: i32,
    pub next: NonRooted<ListNode>,
}

impl LinkedList {
    /// The version of the value for managed memory.
    pub fn unroot(self, rt: &mut Runtime) -> (res: (LinkedListNonRooted, Release))
        requires
            old(rt).wf(),
        ensures
            final(rt).wf(),
            res.0.val == self.val,
            res.0.next.ptr() == self.next.ptr(),
            res.1 == release_of(old(rt)@.refcounts, self.next.ptr()),
            final(rt)@ == (RuntimeModel {
                refcounts: decremented(old(rt)@.refcounts, self.next.ptr()),
                ..old(rt)@
            }),
    {
        let (next, release) = self.next.unroot(rt);
        (LinkedListNonRooted { val: self.val, next }, release)
    }
}

/// What the runtime knows of a value of a linked list: a number, and behind it a
/// reference.
pub open spec fn node_type() -> RtTypeModel {
    RtTypeModel { layout: Layout { size: 16, align: 8 }, gc_ptr_fields: seq![8] }
}

/// The runtime after a value of a linked list that refers to `next` was put into
/// managed memory at `ptr`: the value holds `next` now, and the value is held.
pub open spec fn after_put(rt: RuntimeModel, next: usize, ptr: usize) -> RuntimeModel {
    RuntimeModel {
        refcounts: incremented(decremented(rt.refcounts, next), ptr),
        ..rt.allocated(ptr, node_type())
    }
}

impl LinkedList {
    /// Puts the value into managed memory at `ptr`, where the version of it that is
    /// given is to be written, and holds it. What happened to the hold on the rest
    /// of the list comes last: a safepoint that is due comes after the writing.
    pub fn put(self, rt: &mut Runtime, ptr: usize) -> (res: (
        LinkedListNonRooted,
        Rooted<ListNode>,
        Release,
    ))
        requires
            old(rt).wf(),
            ptr != 0,
            ptr + 8 <= usize::MAX,
            decremented(old(rt)@.refcounts, self.next.ptr()).contains_key(ptr) ==> decremented(
                old(rt)@.refcounts,
                self.next.ptr(),
            )[ptr] < usize::MAX,
        ensures
            final(rt).wf(),
            final(rt)@ == after_put(old(rt)@, self.next.ptr(), ptr),
            res.0.val == self.val,
            res.0.next.ptr() == self.next.ptr(),
            res.1.ptr() == ptr,
            res.2 == release_of(old(rt)@.refcounts, self.next.ptr()),
    {
        let (value, release) = self.unroot(rt);
        let rooted = Rooted::new(rt, ptr, LinkedListNonRooted::type_data());
        (value, rooted, release)
    }
}

/// A sweep after a value was put into managed memory keeps the value and what it
/// refers to.
pub proof fn law_put_is_kept(rt: RuntimeModel, mem: Map<usize, usize>, next: usize, ptr: usize)
    requires
        rt.wf(),
        ptr != 0,
        ptr + 8 <= usize::MAX,
        mem.contains_key((ptr + 8) as usize),
        mem[(ptr + 8) as usize] == next,
    ensures
        after_put(rt, next, ptr).swept(mem).heap.contains_key(ptr),
        rt.heap.contains_key(next) ==> after_put(rt, next, ptr).swept(mem).heap.contains_key(next),
{
    let after = after_put(rt, next, ptr);
    assert(after.refcounts.contains_key(ptr));
    law_roots_kept(after.roots(mem), after.heap, mem, ptr);
    if rt.heap.contains_key(next) {
        assert(field_addr(after.heap, ptr, 0) == (ptr + 8) as usize);
        assert(points_to(after.heap, mem, ptr, next));
        law_kept_closed(after.roots(mem), after.heap, mem, ptr, next);
    }
}

impl LinkedListNonRooted {
    /// Tell the GC that this is now on the stack
    pub fn root(self, rt: &mut Runtime) -> (res: LinkedList)
        requires
            old(rt).wf(),
            old(rt)@.refcounts.contains_key(self.next.ptr()) ==> old(rt)@.refcounts[self.next.ptr()]
                < usize::MAX,
        ensures
            final(rt).wf(),
            res.val == self.val,
            res.next.ptr() == self.next.ptr(),
            final(rt)@ == (RuntimeModel {
                refcounts: incremented(old(rt)@.refcounts, self.next.ptr()),
                ..old(rt)@
            }),
    {
        let next = self.next.as_rooted(rt);
        LinkedList { val: self.val, next }
    }

    /// A number, and behind it a reference.
    pub fn type_data() -> (data: RtTypeData)
        ensures
            data@ == node_type(),
    {
        let val = Layout { size: 4, align: 4 };
        let next = Layout { size: 8, align: 8 };
        let mut gc_ptr_fields: Vec<usize> = Vec::new();
        let mut layout = val;
        if let Some((whole, offset)) = val.extend(next) {
            layout = whole;
            gc_ptr_fields.push(offset);
        }
        assert(gc_ptr_fields@ =~= seq![8usize]);
        RtTypeData { layout, gc_ptr_fields }
    }
}

} // verus!
