//! Typed handles to allocations.
use crate::allocation::{Allocation, Ptr};
use crate::state::GcState;
use crate::trace::{Trace, Tracer};
use std::marker::PhantomData;
use vstd::prelude::*;

verus! {

/// A copyable handle to an allocation with a payload of type `T`.
///
/// A handle owns nothing. It stays usable after its allocation was freed:
/// every operation through it then reports that nothing is there.
pub struct GcPtr<T> {
    inner: Ptr,
    marker: PhantomData<T>,
}

impl<T> Clone for GcPtr<T> {
    fn clone(&self) -> (copy: GcPtr<T>)
        ensures
            copy == *self,
    {
        *self
    }
}

impl<T> Copy for GcPtr<T> {

}

impl<T> GcPtr<T> {
    /// The slot that the handle names.
    pub closed spec fn addr(self) -> Ptr {
        self.inner
    }

    /// The typed handle for an erased one.
    pub fn from_erased(ptr: Ptr) -> (handle: GcPtr<T>)
        ensures
            handle.addr() == ptr,
    {
        GcPtr { inner: ptr, marker: PhantomData }
    }

    /// The handle without its payload type.
    pub fn erased(self) -> (ptr: Ptr)
        ensures
            ptr == self.addr(),
    {
        self.inner
    }
}

impl<T: Trace> GcPtr<T> {
    /// Puts `data` into a fresh, unmanaged allocation of `gc`.
    pub fn new(gc: &mut GcState<T>, data: T) -> (handle: GcPtr<T>)
        requires
            old(gc).wf(),
        ensures
            final(gc).wf(),
            final(gc).is_linked() == old(gc).is_linked(),
            old(gc).idle() ==> final(gc).idle(),
            final(gc).live(handle.addr()),
            handle.addr() == Ptr(old(gc).heap().len() as usize),
            final(gc).heap() == old(gc).heap().push(Some(Allocation::fresh(data))),
            final(gc).registry() == old(gc).registry(),
            final(gc).root_table() == old(gc).root_table(),
            final(gc).finalized() == old(gc).finalized(),
    {
        gc.allocate(data)
    }

    /// The payload behind the handle, or `None` once it has been freed.
    pub fn data<'a>(&self, gc: &'a GcState<T>) -> (data: Option<&'a T>)
        ensures
            data.is_some() == gc.live(self.addr()),
            data.is_some() ==> *data.unwrap() == gc.at(self.addr()).payload(),
    {
        gc.data(*self)
    }

    /// Whether the allocation exists and has not been promoted to managed.
    pub fn is_unmanaged(&self, gc: &GcState<T>) -> (unmanaged: bool)
        ensures
            unmanaged == (gc.live(self.addr()) && !gc.at(self.addr()).is_managed()),
    {
        gc.is_unmanaged(*self)
    }

    /// Frees the allocation without running its finalizer and hands out its
    /// payload, if the allocation exists and is unmanaged.
    pub fn deallocate(self, gc: &mut GcState<T>) -> (data: Option<T>)
        requires
            old(gc).wf(),
        ensures
            final(gc).wf(),
            final(gc).is_linked() == old(gc).is_linked(),
            old(gc).idle() ==> final(gc).idle(),
            data.is_some() == (old(gc).live(self.addr()) && !old(gc).at(self.addr()).is_managed()),
            data.is_some() ==> data == Some(old(gc).at(self.addr()).payload())
                && final(gc).heap() == old(gc).heap().update(self.addr().0 as int, None),
            data.is_none() ==> final(gc).heap() == old(gc).heap(),
            final(gc).registry() == old(gc).registry(),
            final(gc).root_table() == old(gc).root_table(),
            final(gc).finalized() == old(gc).finalized(),
    {
        gc.deallocate(self)
    }
}

impl<T: Send> Trace for GcPtr<T> {
    open spec fn edges(&self) -> Seq<Ptr> {
        seq![self.addr()]
    }

    fn no_trace(&self) -> (skip: bool) {
        false
    }

    fn mark(&self, tracer: &mut Tracer) {
        tracer.visit(self.inner);
    }

    fn manage(&self, tracer: &mut Tracer) {
        tracer.visit(self.inner);
    }

    fn finalize(&mut self) {
    }
}

} // verus!
