//! Allocations: a header with the collector's two flags, and the payload.
use crate::trace::{Trace, Tracer};
use vstd::prelude::*;

verus! {

/// An erased handle to an allocation: the number of its slot in the heap.
///
/// Slots are never handed out twice, so a handle names one allocation for as
/// long as the heap exists, also after that allocation was freed.
#[derive(Clone, Copy, PartialEq, Eq, Structural, Debug)]
pub struct Ptr(pub usize);

/// A payload whose concrete type has been erased.
///
/// A heap of `Data` holds payloads of any mix of types that can move
/// between threads; marking, promotion and finalization reach each of them
/// through its own implementation of [`Trace`].
///
/// When the type is erased, the payload is asked once whether it wants no
/// tracing, and what it reports is held against what the erased payload
/// reports. Should the two ever differ, the erased payload goes by what the
/// payload itself reported.
pub struct Data {
    payload: Box<dyn Trace>,
    null_trace: bool,
    held: Option<Vec<Ptr>>,
    done: Ghost<bool>,
}

impl Data {
    /// Erases the type of `payload`. The erased payload holds the
    /// references that `payload` holds, asks not to be traced exactly when
    /// `payload` does, and is as far cleaned up as `payload` is.
    pub fn new<T: Trace + 'static>(payload: T) -> (data: Data)
        ensures
            data.edges() == payload.edges(),
            data.is_null_trace() == payload.is_null_trace(),
            data.finalized() == payload.finalized(),
    {
        let ghost clean = payload.finalized();
        let null_trace = payload.no_trace();
        let mut direct = Tracer::new();
        if !null_trace {
            payload.mark(&mut direct);
        }
        let mut data =
            Data { payload: Box::new(payload), null_trace, held: None, done: Ghost(clean) };
        if !null_trace {
            data.settle(direct);
        }
        proof {
            assert(Seq::<Ptr>::empty() + payload.edges() =~= payload.edges());
            if null_trace {
                assert(payload.edges() =~= Seq::<Ptr>::empty());
            }
        }
        data
    }

    /// Holds what the payload reported before its type was erased against
    /// what it reports now, and keeps the former where the two differ.
    fn settle(&mut self, direct: Tracer)
        requires
            !old(self).null_trace,
            old(self).held is None,
        ensures
            final(self).edges() == direct@,
            final(self).null_trace == old(self).null_trace,
            final(self).done == old(self).done,
    {
        let mut through = Tracer::new();
        self.payload.mark(&mut through);
        proof {
            let none = Seq::<Ptr>::empty();
            let e: Seq<Ptr> = self.payload.edges();
            assert((none + e).len() == e.len());
            assert(forall|i: int| 0 <= i < e.len() ==> (none + e)[i] == e[i]);
            assert(none + e =~= e);
        }
        if !direct.same_as(&through) {
            self.held = Some(direct.into_vec());
        }
    }
}

impl Trace for Data {
    closed spec fn edges(&self) -> Seq<Ptr> {
        if self.null_trace {
            Seq::empty()
        } else {
            match self.held {
                Some(list) => list@,
                None => self.payload.edges(),
            }
        }
    }

    closed spec fn is_null_trace(&self) -> bool {
        self.null_trace
    }

    closed spec fn finalized(&self) -> bool {
        self.done@
    }

    fn no_trace(&self) -> (skip: bool) {
        self.null_trace
    }

    fn mark(&self, tracer: &mut Tracer) {
        if !self.null_trace {
            match &self.held {
                Some(list) => tracer.visit_all(list),
                None => self.payload.mark(tracer),
            }
        }
    }

    fn manage(&self, tracer: &mut Tracer) {
        if !self.null_trace {
            match &self.held {
                Some(list) => tracer.visit_all(list),
                None => self.payload.manage(tracer),
            }
        }
    }

    /// Cleans up the payload behind the erased type; what it asked about
    /// tracing stays as it was read.
    fn finalize(&mut self)
        ensures
            final(self).is_null_trace() == old(self).is_null_trace(),
    {
        self.payload.finalize();
        proof {
            assert(self.payload.finalized());
            self.done@ = true;
        }
    }
}

struct Header {
    marked: bool,
    managed: bool,
}

/// One block of the heap: the collector's header and the payload.
pub struct Allocation<T> {
    header: Header,
    data: T,
}

impl<T> Allocation<T> {
    /// The payload.
    pub closed spec fn payload(&self) -> T {
        self.data
    }

    /// Whether the current cycle has reached this allocation.
    pub closed spec fn is_marked(&self) -> bool {
        self.header.marked
    }

    /// Whether the allocation has been promoted to managed.
    pub closed spec fn is_managed(&self) -> bool {
        self.header.managed
    }

    /// The allocation that `new` makes around `data`.
    pub closed spec fn fresh(data: T) -> Allocation<T> {
        Allocation { header: Header { marked: false, managed: false }, data }
    }

    /// A fresh allocation holds its payload and carries neither flag.
    pub broadcast proof fn lemma_fresh(data: T)
        ensures
            #![trigger Allocation::fresh(data)]
            Allocation::fresh(data).payload() == data,
            !Allocation::fresh(data).is_marked(),
            !Allocation::fresh(data).is_managed(),
    {
    }

    /// The same allocation with its mark bit set to `marked`.
    pub closed spec fn with_mark(self, marked: bool) -> Allocation<T> {
        Allocation { header: Header { marked, managed: self.header.managed }, data: self.data }
    }

    /// The same allocation, promoted to managed.
    pub closed spec fn promoted(self) -> Allocation<T> {
        Allocation { header: Header { marked: self.header.marked, managed: true }, data: self.data }
    }

    /// What `with_mark` and `promoted` change and what they keep.
    pub broadcast proof fn lemma_flags(self, marked: bool)
        ensures
            #![trigger self.with_mark(marked)]
            self.with_mark(marked).is_marked() == marked,
            self.with_mark(marked).is_managed() == self.is_managed(),
            self.with_mark(marked).payload() == self.payload(),
            self.with_mark(self.is_marked()) == self,
            forall|again: bool| #[trigger]
                self.with_mark(marked).with_mark(again) == self.with_mark(again),
    {
    }

    /// What `promoted` changes and what it keeps.
    pub broadcast proof fn lemma_promoted(self)
        ensures
            #![trigger self.promoted()]
            self.promoted().is_managed(),
            self.promoted().is_marked() == self.is_marked(),
            self.promoted().payload() == self.payload(),
            self.is_managed() ==> self.promoted() == self,
    {
    }

    /// The payload.
    pub fn data(&self) -> (data: &T)
        ensures
            *data == self.payload(),
    {
        &self.data
    }

    /// Reads the mark bit and leaves it as it is.
    pub fn carries_mark(&self) -> (marked: bool)
        ensures
            marked == self.is_marked(),
    {
        self.header.marked
    }

    /// Reads the mark bit and clears it in one step.
    pub fn marked(&mut self) -> (was_marked: bool)
        ensures
            was_marked == old(self).is_marked(),
            *final(self) == old(self).with_mark(false),
    {
        let was_marked = self.header.marked;
        self.header.marked = false;
        was_marked
    }

    /// Gives up the block and hands out the payload, finalizer not run.
    pub fn into_data(self) -> (data: T)
        ensures
            data == self.payload(),
    {
        self.data
    }

    /// Whether the allocation is still unmanaged.
    pub fn is_unmanaged(&self) -> (unmanaged: bool)
        ensures
            unmanaged == !self.is_managed(),
    {
        !self.header.managed
    }

    /// Records that the allocation is managed from now on.
    pub fn managed(&mut self)
        ensures
            *final(self) == old(self).promoted(),
    {
        self.header.managed = true;
    }
}

impl<T: Trace> Allocation<T> {
    /// A fresh allocation around `data`: unmarked and unmanaged.
    pub fn new(data: T) -> (allocation: Allocation<T>)
        ensures
            allocation == Allocation::fresh(data),
    {
        Allocation { header: Header { marked: false, managed: false }, data }
    }

    /// Runs the payload's finalizer and gives up the block. What remains
    /// of the payload is handed back, finalized, for the caller to drop.
    pub fn free(self) -> (remains: T)
        ensures
            remains.finalized(),
    {
        let mut remains = self.data;
        remains.finalize();
        remains
    }

    /// Sets the mark bit and says whether it was clear before. If it was,
    /// the payload reports its outgoing references to `tracer`; if it was
    /// already set, nothing is reported.
    pub fn mark(&mut self, tracer: &mut Tracer) -> (fresh: bool)
        ensures
            fresh == !old(self).is_marked(),
            *final(self) == old(self).with_mark(true),
            !fresh ==> final(tracer)@ == old(tracer)@,
            fresh ==> final(tracer)@ == old(tracer)@ + old(self).payload().edges(),
    {
        if !self.header.marked {
            self.header.marked = true;
            if !self.data.no_trace() {
                self.data.mark(tracer);
            }
            true
        } else {
            false
        }
    }

    /// The payload reports the references it embeds to `tracer`, so that
    /// what they point at can be promoted too.
    pub fn manage(&self, tracer: &mut Tracer)
        ensures
            final(tracer)@ == old(tracer)@ + self.payload().edges(),
    {
        if !self.data.no_trace() {
            self.data.manage(tracer);
        }
    }
}

} // verus!
