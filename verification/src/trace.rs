//! Handles, and the capability by which a value names the handles it holds.
use vstd::prelude::*;

verus! {

/// An owning handle to one block of an object space: one unit of the block's
/// reference count.
///
/// A handle is made by `create` or `clone_handle` and given up by
/// `drop_handle`, or by storing it in a value that lives in the same space.
pub struct Cc {
    index: usize,
}

impl Cc {
    /// The index of the block that the handle names.
    pub closed spec fn index(&self) -> usize {
        self.index
    }

    /// A handle to the block at `index`.
    pub(crate) fn at(index: usize) -> (handle: Cc)
        ensures
            handle.index() == index,
    {
        Cc { index }
    }

    /// The index of the block that the handle names.
    pub(crate) fn target(&self) -> (index: usize)
        ensures
            index == self.index(),
    {
        self.index
    }
}

/// The visitor that a value reports its handles to.
pub struct Tracer {
    targets: Vec<usize>,
}

impl View for Tracer {
    type V = Seq<usize>;

    /// The blocks visited so far, in the order of the visits.
    closed spec fn view(&self) -> Seq<usize> {
        self.targets@
    }
}

impl Tracer {
    /// A visitor that has seen nothing.
    pub fn new() -> (tracer: Tracer)
        ensures
            tracer@ == Seq::<usize>::empty(),
    {
        Tracer { targets: Vec::new() }
    }

    /// Records one handle.
    pub fn visit(&mut self, target: &Cc)
        ensures
            final(self)@ == old(self)@.push(target.index()),
    {
        self.targets.push(target.index);
    }

    /// The blocks visited, in the order of the visits.
    pub fn into_targets(self) -> (targets: Vec<usize>)
        ensures
            targets@ == self@,
    {
        self.targets
    }
}

/// The capability of a value that a handle can own.
///
/// `edges` is the sequence of blocks that the handles stored in the value
/// name, one entry for each handle. `trace` must report exactly these, without
/// descending into the blocks they name. A value whose `is_type_tracked` is
/// false holds no handle and stays out of the collector's list.
pub trait Trace {
    /// The blocks named by the handles that the value holds.
    open spec fn edges(&self) -> Seq<usize> {
        Seq::empty()
    }

    /// Whether values of this type take part in cycle collection.
    open spec fn type_tracked(&self) -> bool {
        true
    }

    /// Visits each handle that the value holds, once.
    fn trace(&self, tracer: &mut Tracer)
        ensures
            final(tracer)@ == old(tracer)@ + self.edges(),
    ;

    /// Whether this value should be tracked by the cycle collector.
    fn is_type_tracked(&self) -> (b: bool)
        ensures
            b == self.type_tracked(),
            !b ==> self.edges().len() == 0,
    ;
}

/// A list of handles is tracked; its edges are the blocks that its handles
/// name, in order.
impl Trace for Vec<Cc> {
    open spec fn edges(&self) -> Seq<usize> {
        self@.map_values(|handle: Cc| handle.index())
    }

    fn trace(&self, tracer: &mut Tracer) {
        let mut i: usize = 0;
        while i < self.len()
            invariant
                i <= self@.len(),
                tracer@ == old(tracer)@ + self@.take(i as int).map_values(
                    |handle: Cc| handle.index(),
                ),
            decreases self@.len() - i,
        {
            tracer.visit(&self[i]);
            proof {
                let f = |handle: Cc| handle.index();
                assert(self@.take(i + 1).map_values(f) =~= self@.take(i as int).map_values(
                    f,
                ).push(self@[i as int].index()));
            }
            i += 1;
        }
        proof {
            assert(self@.take(i as int) =~= self@);
        }
    }

    fn is_type_tracked(&self) -> (b: bool) {
        true
    }
}

/// A handle is itself a value with one edge.
impl Trace for Cc {
    open spec fn edges(&self) -> Seq<usize> {
        seq![self.index()]
    }

    fn trace(&self, tracer: &mut Tracer) {
        tracer.visit(self);
        proof {
            assert(old(tracer)@.push(self.index()) =~= old(tracer)@ + seq![self.index()]);
        }
    }

    fn is_type_tracked(&self) -> (b: bool) {
        true
    }
}

/// Text holds no handle and is not tracked.
impl Trace for String {
    open spec fn type_tracked(&self) -> bool {
        false
    }

    fn trace(&self, tracer: &mut Tracer) {
        proof {
            assert(old(tracer)@ + Seq::<usize>::empty() =~= old(tracer)@);
        }
    }

    fn is_type_tracked(&self) -> (b: bool) {
        false
    }
}

} // verus!
