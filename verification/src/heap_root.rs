//! A root together with the handle it keeps alive.
use crate::allocation::Ptr;
use crate::gc_ptr::GcPtr;
use crate::root::{keys_in_use, Root, RootIds};
use crate::heap::promoted_heap;
use crate::registry::grown;
use crate::state::GcState;
use crate::allocation::Allocation;
use crate::trace::Trace;
use vstd::prelude::*;

verus! {

/// A managed allocation and a root of its own that is bound to it.
pub struct HeapRoot<T> {
    root: Root,
    ptr: GcPtr<T>,
}

impl<T: Trace> HeapRoot<T> {
    /// The root that keeps the allocation alive.
    pub closed spec fn root(&self) -> Root {
        self.root
    }

    /// The handle to the allocation.
    pub closed spec fn target(&self) -> GcPtr<T> {
        self.ptr
    }

    /// Puts `data` into a managed allocation and binds a new root to it.
    pub fn new(gc: &mut GcState<T>, ids: &mut RootIds, data: T) -> (rooted: HeapRoot<T>)
        requires
            old(gc).wf(),
            old(ids).wf(),
            old(ids)@.can_issue(),
        ensures
            final(gc).wf(),
            final(gc).is_linked() == old(gc).is_linked(),
            old(gc).idle() ==> final(gc).idle(),
            final(ids).wf(),
            final(gc).live(rooted.target().addr()),
            rooted.target().addr() == Ptr(old(gc).heap().len() as usize),
            rooted.root().id() == old(ids)@.pending(),
            final(ids)@ == old(ids)@.acquire(),
            final(gc).heap() == promoted_heap(
                old(gc).heap().push(Some(Allocation::fresh(data))),
                old(gc).heap().len() as usize,
            ),
            grown(old(gc).is_linked(), old(gc).registry(), final(gc).registry()),
            final(gc).root_table() == old(gc).root_table().insert(
                rooted.root().id(),
                Some(rooted.target().addr().0),
            ),
            final(gc).finalized() == old(gc).finalized(),
            keys_in_use(old(ids)@, old(gc).root_table()) ==> keys_in_use(
                final(ids)@,
                final(gc).root_table(),
            ) && final(gc).root_table().len() == old(gc).root_table().len() + 1,
    {
        let ptr = crate::alloc_managed(gc, data);
        HeapRoot::make(gc, ids, ptr)
    }

    /// Binds a new root to the allocation behind `ptr`.
    pub fn reroot(gc: &mut GcState<T>, ids: &mut RootIds, ptr: GcPtr<T>) -> (rooted: HeapRoot<T>)
        requires
            old(gc).wf(),
            old(ids).wf(),
            old(ids)@.can_issue(),
        ensures
            final(gc).wf(),
            final(gc).is_linked() == old(gc).is_linked(),
            old(gc).idle() ==> final(gc).idle(),
            final(ids).wf(),
            rooted.target() == ptr,
            rooted.root().id() == old(ids)@.pending(),
            final(ids)@ == old(ids)@.acquire(),
            final(gc).root_table() == old(gc).root_table().insert(
                rooted.root().id(),
                Some(ptr.addr().0),
            ),
            final(gc).heap() == old(gc).heap(),
            final(gc).registry() == old(gc).registry(),
            final(gc).finalized() == old(gc).finalized(),
            keys_in_use(old(ids)@, old(gc).root_table()) ==> keys_in_use(
                final(ids)@,
                final(gc).root_table(),
            ) && final(gc).root_table().len() == old(gc).root_table().len() + 1,
    {
        HeapRoot::make(gc, ids, ptr)
    }

    fn make(gc: &mut GcState<T>, ids: &mut RootIds, ptr: GcPtr<T>) -> (rooted: HeapRoot<T>)
        requires
            old(gc).wf(),
            old(ids).wf(),
            old(ids)@.can_issue(),
        ensures
            final(gc).wf(),
            final(gc).is_linked() == old(gc).is_linked(),
            old(gc).idle() ==> final(gc).idle(),
            final(ids).wf(),
            rooted.target() == ptr,
            rooted.root().id() == old(ids)@.pending(),
            final(ids)@ == old(ids)@.acquire(),
            final(gc).root_table() == old(gc).root_table().insert(
                rooted.root().id(),
                Some(ptr.addr().0),
            ),
            final(gc).heap() == old(gc).heap(),
            final(gc).registry() == old(gc).registry(),
            final(gc).finalized() == old(gc).finalized(),
            keys_in_use(old(ids)@, old(gc).root_table()) ==> keys_in_use(
                final(ids)@,
                final(gc).root_table(),
            ) && final(gc).root_table().len() == old(gc).root_table().len() + 1,
    {
        let root = Root::new(ids);
        root.enroot(gc, ptr);
        proof {
            if keys_in_use(old(ids)@, old(gc).root_table()) {
                assert(!old(gc).root_table().dom().contains(root.id()));
            }
        }
        HeapRoot { root, ptr }
    }

    /// The handle to the allocation.
    pub fn gc(&self) -> (ptr: GcPtr<T>)
        ensures
            ptr == self.target(),
    {
        self.ptr
    }

    /// A second root for the same allocation, with an identifier of its
    /// own.
    pub fn clone(&self, gc: &mut GcState<T>, ids: &mut RootIds) -> (rooted: HeapRoot<T>)
        requires
            old(gc).wf(),
            old(ids).wf(),
            old(ids)@.can_issue(),
        ensures
            final(gc).wf(),
            final(gc).is_linked() == old(gc).is_linked(),
            old(gc).idle() ==> final(gc).idle(),
            final(ids).wf(),
            rooted.target() == self.target(),
            rooted.root().id() == old(ids)@.pending(),
            final(ids)@ == old(ids)@.acquire(),
            final(gc).root_table() == old(gc).root_table().insert(
                rooted.root().id(),
                Some(self.target().addr().0),
            ),
            final(gc).heap() == old(gc).heap(),
            final(gc).registry() == old(gc).registry(),
            final(gc).finalized() == old(gc).finalized(),
            keys_in_use(old(ids)@, old(gc).root_table()) ==> keys_in_use(
                final(ids)@,
                final(gc).root_table(),
            ) && final(gc).root_table().len() == old(gc).root_table().len() + 1,
    {
        let root = Root::new(ids);
        root.enroot(gc, self.ptr);
        proof {
            if keys_in_use(old(ids)@, old(gc).root_table()) {
                assert(!old(gc).root_table().dom().contains(root.id()));
            }
        }
        HeapRoot { root, ptr: self.ptr }
    }

    /// The payload of the allocation, or `None` once it has been freed.
    pub fn deref<'a>(&self, gc: &'a GcState<T>) -> (data: Option<&'a T>)
        ensures
            data.is_some() == gc.live(self.target().addr()),
            data.is_some() ==> *data.unwrap() == gc.at(self.target().addr()).payload(),
    {
        gc.data(self.ptr)
    }

    /// Ends the root; the allocation stays until a collection finds it
    /// unreachable.
    pub fn release(self, gc: &mut GcState<T>, ids: &mut RootIds)
        requires
            old(ids).wf(),
            old(ids)@.issued(self.root().id()),
            old(gc).wf(),
        ensures
            final(ids).wf(),
            final(ids)@ == old(ids)@.release(self.root().id()),
            final(gc).wf(),
            final(gc).is_linked() == old(gc).is_linked(),
            old(gc).idle() ==> final(gc).idle(),
            final(gc).root_table() == old(gc).root_table().remove(self.root().id()),
            final(gc).heap() == old(gc).heap(),
            final(gc).registry() == old(gc).registry(),
            final(gc).finalized() == old(gc).finalized(),
            keys_in_use(old(ids)@, old(gc).root_table()) ==> keys_in_use(
                final(ids)@,
                final(gc).root_table(),
            ),
    {
        self.root.release(ids, gc);
    }
}

} // verus!
