//! The tracing capability that every payload implements.
use crate::allocation::Ptr;
use vstd::prelude::*;

verus! {

/// The list to which a payload reports the references it holds.
pub struct Tracer {
    pending: Vec<Ptr>,
}

impl View for Tracer {
    type V = Seq<Ptr>;

    /// The reported references that have not been taken yet, oldest first.
    closed spec fn view(&self) -> Seq<Ptr> {
        self.pending@
    }
}

impl Tracer {
    /// A tracer to which nothing has been reported.
    pub fn new() -> (tracer: Tracer)
        ensures
            tracer@ == Seq::<Ptr>::empty(),
    {
        Tracer { pending: Vec::new() }
    }

    /// Reports one reference.
    pub fn visit(&mut self, ptr: Ptr)
        ensures
            final(self)@ == old(self)@.push(ptr),
    {
        self.pending.push(ptr);
    }

    /// Takes the reference that was reported last, if any is left.
    pub fn take(&mut self) -> (ptr: Option<Ptr>)
        ensures
            old(self)@.len() == 0 ==> ptr.is_none() && final(self)@ == old(self)@,
            old(self)@.len() > 0 ==> ptr == Some(old(self)@.last())
                && final(self)@ == old(self)@.drop_last(),
    {
        self.pending.pop()
    }

    /// How many reported references are left.
    pub fn len(&self) -> (n: usize)
        ensures
            n == self@.len(),
    {
        self.pending.len()
    }

    /// Whether `other` holds the same references in the same order.
    pub fn same_as(&self, other: &Tracer) -> (same: bool)
        ensures
            same == (self@ == other@),
    {
        if self.pending.len() != other.pending.len() {
            return false;
        }
        let mut i: usize = 0;
        while i < self.pending.len()
            invariant
                i <= self.pending.len() == other.pending.len(),
                self@.take(i as int) == other@.take(i as int),
            decreases self.pending.len() - i,
        {
            if self.pending[i] != other.pending[i] {
                return false;
            }
            proof {
                assert(self@.take(i + 1) == self@.take(i as int).push(self@[i as int]));
                assert(other@.take(i + 1) == other@.take(i as int).push(other@[i as int]));
            }
            i += 1;
        }
        proof {
            assert(self@.take(i as int) == self@);
            assert(other@.take(i as int) == other@);
        }
        true
    }

    /// The reported references that are left, oldest first.
    pub fn into_vec(self) -> (list: Vec<Ptr>)
        ensures
            list@ == self@,
    {
        self.pending
    }

    /// Reports every reference of `list`, in order.
    pub fn visit_all(&mut self, list: &Vec<Ptr>)
        ensures
            final(self)@ == old(self)@ + list@,
    {
        let mut i: usize = 0;
        proof {
            assert(old(self)@ + list@.take(0) == old(self)@);
        }
        while i < list.len()
            invariant
                i <= list.len(),
                self@ == old(self)@ + list@.take(i as int),
            decreases list.len() - i,
        {
            self.visit(list[i]);
            proof {
                assert(list@.take(i + 1) == list@.take(i as int).push(list@[i as int]));
                assert(self@ == old(self)@ + list@.take(i + 1));
            }
            i += 1;
        }
        proof {
            assert(list@.take(i as int) == list@);
        }
    }
}

/// What a payload must be able to do for the collector.
///
/// `edges` is the list of references to other allocations that the payload
/// holds. `mark` and `manage` both report exactly that list, in order.
/// `no_trace` says what `is_null_trace` is, and `finalize` leaves the payload
/// `finalized`.
///
/// A payload can move between threads: a collector that is shared behind a
/// lock finalizes it on whichever thread collects.
pub trait Trace: Send {
    /// The references to other allocations that the payload holds. A
    /// payload that says nothing else holds none.
    open spec fn edges(&self) -> Seq<Ptr> {
        Seq::empty()
    }

    /// Whether the payload asks not to be traced at all. Only a payload
    /// that holds no reference may ask so; one that does not say asks for
    /// tracing.
    open spec fn is_null_trace(&self) -> bool {
        false
    }

    /// Whether the payload's cleanup has been done, in the payload's own
    /// terms. A payload that says nothing else has nothing to clean up.
    open spec fn finalized(&self) -> bool {
        true
    }

    /// Says whether the payload asks not to be traced at all.
    fn no_trace(&self) -> (skip: bool)
        ensures
            skip == self.is_null_trace(),
            skip ==> self.edges().len() == 0,
    ;

    /// Reports every held reference, so that the collector marks its target.
    fn mark(&self, tracer: &mut Tracer)
        ensures
            final(tracer)@ == old(tracer)@ + self.edges(),
    ;

    /// Reports every held reference, so that the collector promotes its
    /// target to managed.
    fn manage(&self, tracer: &mut Tracer)
        ensures
            final(tracer)@ == old(tracer)@ + self.edges(),
    ;

    /// Cleans up before the payload's storage is released.
    fn finalize(&mut self)
        ensures
            final(self).finalized(),
    ;
}

/// The references held by a list of payloads: those of the first payload,
/// then those of the second, and so on.
pub open spec fn edges_of_all<P: Trace>(items: Seq<P>) -> Seq<Ptr>
    decreases items.len(),
{
    if items.len() == 0 {
        Seq::empty()
    } else {
        edges_of_all(items.drop_last()) + items.last().edges()
    }
}

impl Trace for () {
    open spec fn edges(&self) -> Seq<Ptr> {
        Seq::empty()
    }

    open spec fn is_null_trace(&self) -> bool {
        true
    }

    fn no_trace(&self) -> (skip: bool) {
        true
    }

    fn mark(&self, tracer: &mut Tracer) {
    }

    fn manage(&self, tracer: &mut Tracer) {
    }

    fn finalize(&mut self) {
    }
}

impl Trace for bool {
    open spec fn edges(&self) -> Seq<Ptr> {
        Seq::empty()
    }

    open spec fn is_null_trace(&self) -> bool {
        true
    }

    fn no_trace(&self) -> (skip: bool) {
        true
    }

    fn mark(&self, tracer: &mut Tracer) {
    }

    fn manage(&self, tracer: &mut Tracer) {
    }

    fn finalize(&mut self) {
    }
}

impl Trace for u32 {
    open spec fn edges(&self) -> Seq<Ptr> {
        Seq::empty()
    }

    open spec fn is_null_trace(&self) -> bool {
        true
    }

    fn no_trace(&self) -> (skip: bool) {
        true
    }

    fn mark(&self, tracer: &mut Tracer) {
    }

    fn manage(&self, tracer: &mut Tracer) {
    }

    fn finalize(&mut self) {
    }
}

impl Trace for u64 {
    open spec fn edges(&self) -> Seq<Ptr> {
        Seq::empty()
    }

    open spec fn is_null_trace(&self) -> bool {
        true
    }

    fn no_trace(&self) -> (skip: bool) {
        true
    }

    fn mark(&self, tracer: &mut Tracer) {
    }

    fn manage(&self, tracer: &mut Tracer) {
    }

    fn finalize(&mut self) {
    }
}

impl Trace for usize {
    open spec fn edges(&self) -> Seq<Ptr> {
        Seq::empty()
    }

    open spec fn is_null_trace(&self) -> bool {
        true
    }

    fn no_trace(&self) -> (skip: bool) {
        true
    }

    fn mark(&self, tracer: &mut Tracer) {
    }

    fn manage(&self, tracer: &mut Tracer) {
    }

    fn finalize(&mut self) {
    }
}

impl Trace for i32 {
    open spec fn edges(&self) -> Seq<Ptr> {
        Seq::empty()
    }

    open spec fn is_null_trace(&self) -> bool {
        true
    }

    fn no_trace(&self) -> (skip: bool) {
        true
    }

    fn mark(&self, tracer: &mut Tracer) {
    }

    fn manage(&self, tracer: &mut Tracer) {
    }

    fn finalize(&mut self) {
    }
}

impl Trace for i64 {
    open spec fn edges(&self) -> Seq<Ptr> {
        Seq::empty()
    }

    open spec fn is_null_trace(&self) -> bool {
        true
    }

    fn no_trace(&self) -> (skip: bool) {
        true
    }

    fn mark(&self, tracer: &mut Tracer) {
    }

    fn manage(&self, tracer: &mut Tracer) {
    }

    fn finalize(&mut self) {
    }
}

impl Trace for Ptr {
    open spec fn edges(&self) -> Seq<Ptr> {
        seq![*self]
    }

    fn no_trace(&self) -> (skip: bool) {
        false
    }

    fn mark(&self, tracer: &mut Tracer) {
        tracer.visit(*self);
    }

    fn manage(&self, tracer: &mut Tracer) {
        tracer.visit(*self);
    }

    fn finalize(&mut self) {
    }
}

impl<P: Trace> Trace for Option<P> {
    open spec fn edges(&self) -> Seq<Ptr> {
        match self {
            Some(inner) => inner.edges(),
            None => Seq::empty(),
        }
    }

    /// The payload inside, if there is one, is cleaned up.
    open spec fn finalized(&self) -> bool {
        match self {
            Some(inner) => inner.finalized(),
            None => true,
        }
    }

    fn no_trace(&self) -> (skip: bool) {
        false
    }

    fn mark(&self, tracer: &mut Tracer) {
        match self {
            Some(inner) => inner.mark(tracer),
            None => {},
        }
    }

    fn manage(&self, tracer: &mut Tracer) {
        match self {
            Some(inner) => inner.manage(tracer),
            None => {},
        }
    }

    /// Cleans up the payload inside, if there is one, where it stands.
    fn finalize(&mut self)
        ensures
            final(self).is_some() == old(self).is_some(),
    {
        match self {
            Some(inner) => inner.finalize(),
            None => {},
        }
    }
}

impl<P: Trace> Trace for Vec<P> {
    open spec fn edges(&self) -> Seq<Ptr> {
        edges_of_all(self@)
    }

    /// Every item is cleaned up.
    open spec fn finalized(&self) -> bool {
        forall|k: int| 0 <= k < self@.len() ==> (#[trigger] self@[k]).finalized()
    }

    fn no_trace(&self) -> (skip: bool) {
        false
    }

    fn mark(&self, tracer: &mut Tracer) {
        let mut i: usize = 0;
        while i < self.len()
            invariant
                i <= self.len(),
                tracer@ == old(tracer)@ + edges_of_all(self@.take(i as int)),
            decreases self.len() - i,
        {
            assert(self@.take(i + 1).drop_last() == self@.take(i as int));
            self[i].mark(tracer);
            i += 1;
        }
        assert(self@.take(i as int) == self@);
    }

    fn manage(&self, tracer: &mut Tracer) {
        let mut i: usize = 0;
        while i < self.len()
            invariant
                i <= self.len(),
                tracer@ == old(tracer)@ + edges_of_all(self@.take(i as int)),
            decreases self.len() - i,
        {
            assert(self@.take(i + 1).drop_last() == self@.take(i as int));
            self[i].manage(tracer);
            i += 1;
        }
        assert(self@.take(i as int) == self@);
    }

    /// Cleans up every item where it stands, first to last.
    fn finalize(&mut self)
        ensures
            final(self)@.len() == old(self)@.len(),
    {
        let mut i: usize = 0;
        while i < self.len()
            invariant
                i <= self.len(),
                self@.len() == old(self)@.len(),
                forall|k: int| 0 <= k < i ==> (#[trigger] self@[k]).finalized(),
            decreases self.len() - i,
        {
            self[i].finalize();
            i += 1;
        }
    }
}

} // verus!
