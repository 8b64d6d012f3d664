//! A tracing, mark-and-sweep garbage collector over an arena of allocations.
//!
//! A [`GcState`] owns the heap, the registry of managed allocations and the
//! root table. Payloads implement [`Trace`]. Handles are slot numbers, so a
//! handle to a freed allocation is harmless: looking through it finds
//! nothing.
//!
//! A collection marks what is reachable from the roots and then sweeps the
//! registry: [`collect`] does both in one call, [`GcState::begin_cycle`] and
//! [`GcState::sweep_step`] do it a visit at a time, so that allocation and
//! promotion can go on in between.
//!
//! The collector takes its state by exclusive borrow. A program that shares
//! one collector between threads puts it behind a lock.
pub mod allocation;
pub mod gc_ptr;
pub mod heap;
pub mod heap_root;
pub mod list;
pub mod queue;
pub mod reach;
pub mod registry;
pub mod root;
pub mod select;
pub mod state;
pub mod table;
pub mod trace;

use vstd::prelude::*;

pub use crate::allocation::{Allocation, Data, Ptr};
pub use crate::gc_ptr::GcPtr;
pub use crate::heap_root::HeapRoot;
pub use crate::root::{Root, RootIds};
pub use crate::registry::Cycle;
pub use crate::state::GcState;
pub use crate::trace::{Trace, Tracer};

verus! {

use crate::heap::promoted_heap;
use crate::registry::grown;

/// Puts `data` into a fresh allocation that the collector does not manage
/// yet.
pub fn alloc_unmanaged<T: Trace>(gc: &mut GcState<T>, data: T) -> (handle: GcPtr<T>)
    requires
        old(gc).wf(),
    ensures
        final(gc).wf(),
        final(gc).is_linked() == old(gc).is_linked(),
        old(gc).idle() ==> final(gc).idle(),
        final(gc).live(handle.addr()),
        handle.addr() == Ptr(old(gc).heap().len() as usize),
        final(gc).heap() == old(gc).heap().push(Some(Allocation::fresh(data))),
        final(gc).registry() == old(gc).registry(),
        final(gc).root_table() == old(gc).root_table(),
        final(gc).finalized() == old(gc).finalized(),
{
    GcPtr::new(gc, data)
}

/// Puts `data` into a fresh allocation and promotes it to managed, together
/// with what it leads to through unmanaged allocations.
pub fn alloc_managed<T: Trace>(gc: &mut GcState<T>, data: T) -> (handle: GcPtr<T>)
    requires
        old(gc).wf(),
    ensures
        final(gc).wf(),
        final(gc).is_linked() == old(gc).is_linked(),
        old(gc).idle() ==> final(gc).idle(),
        final(gc).live(handle.addr()),
        handle.addr() == Ptr(old(gc).heap().len() as usize),
        final(gc).heap() == promoted_heap(
            old(gc).heap().push(Some(Allocation::fresh(data))),
            old(gc).heap().len() as usize,
        ),
        grown(old(gc).is_linked(), old(gc).registry(), final(gc).registry()),
        final(gc).root_table() == old(gc).root_table(),
        final(gc).finalized() == old(gc).finalized(),
{
    let gc_ptr = alloc_unmanaged(gc, data);
    manage(gc, gc_ptr);
    gc_ptr
}

/// Promotes the allocation behind `ptr` to managed, together with what it
/// leads to through unmanaged allocations. Promoting a managed or freed
/// allocation changes nothing.
pub fn manage<T: Trace>(gc: &mut GcState<T>, ptr: GcPtr<T>)
    requires
        old(gc).wf(),
    ensures
        final(gc).wf(),
        final(gc).is_linked() == old(gc).is_linked(),
        old(gc).idle() ==> final(gc).idle(),
        final(gc).heap() == promoted_heap(old(gc).heap(), ptr.addr().0),
        grown(old(gc).is_linked(), old(gc).registry(), final(gc).registry()),
        final(gc).root_table() == old(gc).root_table(),
        final(gc).finalized() == old(gc).finalized(),
{
    gc.manage(ptr)
}

/// How many allocations the collector manages.
pub fn count_managed_objects<T: Trace>(gc: &GcState<T>) -> (n: usize)
    requires
        gc.wf(),
    ensures
        n == gc.registry().len(),
{
    gc.count_objects()
}

/// How many entries the root table has.
pub fn count_roots<T: Trace>(gc: &GcState<T>) -> (n: usize)
    ensures
        n == gc.root_table().len(),
{
    gc.count_roots()
}

/// Makes root `idx` point at `ptr`, whatever it pointed at before.
pub fn set_root<T: Trace>(gc: &mut GcState<T>, idx: usize, ptr: GcPtr<T>)
    requires
        old(gc).wf(),
    ensures
        final(gc).wf(),
        final(gc).is_linked() == old(gc).is_linked(),
        old(gc).idle() ==> final(gc).idle(),
        final(gc).root_table() == old(gc).root_table().insert(idx, Some(ptr.addr().0)),
        final(gc).heap() == old(gc).heap(),
        final(gc).registry() == old(gc).registry(),
        final(gc).finalized() == old(gc).finalized(),
{
    gc.set_root(idx, ptr)
}

/// Removes root `idx` from the table, entry and all.
pub fn pop_root<T: Trace>(gc: &mut GcState<T>, idx: usize)
    requires
        old(gc).wf(),
    ensures
        final(gc).wf(),
        final(gc).is_linked() == old(gc).is_linked(),
        old(gc).idle() ==> final(gc).idle(),
        final(gc).root_table() == old(gc).root_table().remove(idx),
        final(gc).heap() == old(gc).heap(),
        final(gc).registry() == old(gc).registry(),
        final(gc).finalized() == old(gc).finalized(),
{
    gc.pop_root(idx)
}

/// Runs one collection cycle: every managed allocation that no chain of
/// references links to a root is finalized and freed; everything else stays
/// as it is.
pub fn collect<T: Trace>(gc: &mut GcState<T>)
    requires
        old(gc).wf(),
        old(gc).idle(),
    ensures
        final(gc).wf(),
        final(gc).is_linked() == old(gc).is_linked(),
        final(gc).idle(),
        final(gc).heap().len() == old(gc).heap().len(),
        forall|ptr: Ptr| #[trigger]
            final(gc).live(ptr) <==> old(gc).live(ptr) && (old(gc).at(ptr).is_managed()
                ==> old(gc).reachable(ptr)),
        forall|ptr: Ptr| #[trigger] final(gc).live(ptr) ==> final(gc).at(ptr) == old(gc).at(ptr),
        final(gc).registry() == old(gc).survivors(),
        final(gc).finalized() == old(gc).finalized() + old(gc).garbage(),
        final(gc).root_table() == old(gc).root_table(),
{
    gc.collect()
}

} // verus!
