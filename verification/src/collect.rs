//! The object space and its cycle collector.
use crate::header::edit_gc_ref_count;
use crate::header::flag_count;
use crate::header::gc_ref_count;
use crate::header::is_collecting;
use crate::header::is_unreachable;
use crate::header::lemma_flag_count_change;
use crate::header::link_prev;
use crate::header::link_word;
use crate::header::trial_prev;
use crate::header::trial_word;
use crate::header::unset_collecting;
use crate::header::GcHeader;
use crate::header::MAX_REF_COUNT;
use crate::header::NULL;
use crate::list::back_ok;
use crate::list::lemma_back_frame;
use crate::list::lemma_link;
use crate::list::lemma_list_frame;
use crate::list::lemma_listed_by_next;
use crate::list::lemma_unlink;
use crate::list::list_ok;
use crate::list::next_at;
use crate::list::node_at;
use crate::list::prev_at;
use crate::model::count_in;
use crate::model::dead_block;
use crate::model::lemma_count_in_push;
use crate::model::lemma_count_in_take;
use crate::model::lemma_count_in_take_le;
use crate::model::BlockView;
use crate::model::SpaceView;
use crate::reach::lemma_push_contains;
use crate::reach::lemma_without_absent;
use crate::reach::lemma_without_contains;
use crate::reach::lemma_without_nothing;
use crate::reach::lemma_without_one_more;
use crate::reach::without;
use crate::release::lemma_total_refs_update;
use crate::release::total_refs;
use crate::trace::Cc;
use crate::trace::Trace;
use crate::trace::Tracer;
use vstd::prelude::*;

verus! {

/// A collection of blocks whose handles may form cycles with one another.
///
/// The space owns the headers and the values of all its blocks. Block `0` is
/// the head of the list of tracked blocks. The index of a block is not used
/// again when the block is gone, so that a handle never comes to name a
/// value other than the one it was made for.
///
/// All operations take the space by exclusive reference: no value that is
/// being dropped can reach the space, and no collection can start while
/// another runs.
pub struct CcObjectSpace<T: Trace> {
    headers: Vec<GcHeader>,
    values: Vec<Option<T>>,
    order: Ghost<Seq<usize>>,
}

/// An empty list: a head that links to itself.
pub fn new_gc_list() -> (list: Vec<GcHeader>)
    ensures
        list@ == seq![GcHeader { prev: 0, next: 0, ref_count: 0 }],
{
    let mut list: Vec<GcHeader> = Vec::new();
    list.push(GcHeader { prev: 0, next: 0, ref_count: 0 });
    list
}

/// What a space offers to the handles that live in it: a list of the blocks
/// that take part in cycle collection.
pub trait ObjectSpace: Sized {
    /// What a space stores in each block beside the header and the value.
    type Extras;

    /// The listed blocks, first the one inserted last.
    spec fn listed(&self) -> Seq<usize>;

    /// Whether the block at `index` can be put on the list.
    spec fn insertable(&self, index: usize) -> bool;

    /// Whether the block at `index` can be taken off the list.
    spec fn removable(&self, index: usize) -> bool;

    /// Puts the block at `index` at the front of the list.
    fn insert(&mut self, index: usize)
        requires
            old(self).insertable(index),
        ensures
            final(self).listed() == seq![index] + old(self).listed(),
    ;

    /// Takes the block at `index` off the list.
    fn remove(&mut self, index: usize)
        requires
            old(self).removable(index),
        ensures
            final(self).listed() == old(self).listed().remove(
                old(self).listed().index_of(index),
            ),
    ;

    /// The extras of a new block.
    fn default_extras(&self) -> Self::Extras;
}

impl<T: Trace> View for CcObjectSpace<T> {
    type V = SpaceView;

    closed spec fn view(&self) -> SpaceView {
        SpaceView {
            blocks: Seq::new(self.headers@.len(), |i: int| self.block_view(i)),
            listed: self.order@,
        }
    }
}

impl<T: Trace> CcObjectSpace<T> {
    /// What the model knows of block `i`.
    spec fn block_view(&self, i: int) -> BlockView {
        BlockView {
            live: self.values@[i] is Some,
            ref_count: self.headers@[i].ref_count as nat,
            edges: match self.values@[i] {
                Some(v) => v.edges(),
                None => Seq::empty(),
            },
        }
    }

    /// The value of block `i`.
    pub closed spec fn value(&self, i: usize) -> T {
        self.values@[i as int]->0
    }

    /// The arena and the forward links are consistent: following `next` from
    /// the head visits the listed blocks in order and returns to the head.
    pub closed spec fn list_wf(&self) -> bool {
        &&& self.headers@.len() == self.values@.len()
        &&& list_ok(self.headers@, self.order@)
    }

    /// The backward links are consistent, and no header carries a flag.
    pub closed spec fn prev_wf(&self) -> bool {
        back_ok(self.headers@, self.order@)
    }

    /// What holds of the blocks whatever the state of the `prev` words.
    spec fn blocks_wf(&self) -> bool {
        &&& self.values@[0] is None
        &&& forall|i: int|
            0 <= i < self.headers@.len() ==> (#[trigger] self.headers@[i]).ref_count
                <= MAX_REF_COUNT
        &&& forall|i: int|
            0 < i < self.values@.len() && (#[trigger] self.values@[i]) is Some ==> (
            self.order@.contains(i as usize) <==> self.values@[i]->0.type_tracked())
    }

    /// The space is consistent: its lists, its counts and its graph.
    pub closed spec fn wf(&self) -> bool {
        &&& self.list_wf()
        &&& self.prev_wf()
        &&& self.blocks_wf()
        &&& self@.wf()
    }

    /// A consistent space has a consistent graph, and lists exactly the
    /// values that ask to be tracked.
    pub proof fn law_consistent_model(&self)
        requires
            self.wf(),
        ensures
            self@.wf(),
            self@.blocks.len() <= MAX_REF_COUNT + 1,
            forall|i: usize|
                self@.is_live(i) ==> (self@.listed.contains(i) <==> (#[trigger] self.value(
                    i,
                )).type_tracked()),
            forall|i: usize|
                i < self@.blocks.len() ==> (#[trigger] self@.ref_count(i)) <= MAX_REF_COUNT,
    {
        assert forall|i: usize| self@.is_live(i) implies (self@.listed.contains(i) <==> (
        #[trigger] self.value(i)).type_tracked()) by {
            assert(self.values@[i as int] is Some);
        }
        assert forall|i: usize| i < self@.blocks.len() implies (#[trigger] self@.ref_count(i))
            <= MAX_REF_COUNT by {
            assert(self.headers@[i as int].ref_count <= MAX_REF_COUNT);
        }
    }

    /// A space with no block.
    pub fn new() -> (space: Self)
        ensures
            space.wf(),
            space@ == SpaceView::empty(),
    {
        let headers = new_gc_list();
        let mut values: Vec<Option<T>> = Vec::new();
        values.push(None);
        let space = CcObjectSpace { headers, values, order: Ghost(Seq::empty()) };
        proof {
            assert(space@.blocks =~= seq![dead_block()]);
            assert(link_word(0) == 0);
            assert forall|j: usize| j < space@.blocks.len() implies #[trigger] space@.incoming(j)
                + count_in(Seq::empty(), j) <= space@.ref_count(j) by {}
        }
        space
    }

    /// The indices of the listed blocks, in list order.
    fn visit_list(&self) -> (visited: Vec<usize>)
        requires
            self.list_wf(),
        ensures
            visited@ == self.order@,
    {
        let mut visited: Vec<usize> = Vec::new();
        let ghost order = self.order@;
        assert(next_at(self.headers@, order, -1));
        let mut ptr = self.headers[0].next;
        while ptr != 0
            invariant
                self.list_wf(),
                order == self.order@,
                visited@ == order.take(visited@.len() as int),
                visited@.len() <= order.len(),
                ptr == node_at(order, visited@.len() as int),
            decreases order.len() - visited@.len(),
        {
            let ghost k = visited@.len() as int;
            assert(k < order.len());
            assert(ptr == order[k]);
            assert(order.take(k + 1) =~= order.take(k).push(order[k]));
            assert(next_at(self.headers@, order, k));
            visited.push(ptr);
            ptr = self.headers[ptr].next;
        }
        proof {
            let k = visited@.len() as int;
            if k < order.len() {
                assert(order[k] == 0);
            }
            assert(order.take(k) =~= order);
        }
        visited
    }

    /// Counts the blocks that the space tracks.
    pub fn count_tracked(&self) -> (count: usize)
        requires
            self.wf(),
        ensures
            count == self@.listed.len(),
    {
        let visited = self.visit_list();
        visited.len()
    }
}

impl<T: Trace> ObjectSpace for CcObjectSpace<T> {
    type Extras = ();

    closed spec fn listed(&self) -> Seq<usize> {
        self.order@
    }

    closed spec fn insertable(&self, index: usize) -> bool {
        &&& self.list_wf()
        &&& self.prev_wf()
        &&& 0 < index < self.headers@.len()
        &&& !self.order@.contains(index)
    }

    closed spec fn removable(&self, index: usize) -> bool {
        &&& self.list_wf()
        &&& self.prev_wf()
        &&& self.order@.contains(index)
    }

    fn insert(&mut self, index: usize)
        ensures
            final(self).list_wf(),
            final(self).prev_wf(),
            final(self).same_blocks(old(self)),
    {
        let ghost order = self.order@;
        assert(next_at(self.headers@, order, -1));
        let next = self.headers[0].next;
        proof {
            if order.len() > 0 {
                assert(order[0] < self.headers@.len());
            }
        }
        self.headers[index].prev = link_prev(0);
        self.headers[index].next = next;
        self.headers[next].prev = link_prev(index);
        self.headers[0].next = index;
        self.order = Ghost(seq![index] + order);
        proof {
            lemma_link(old(self).headers@, order, self.headers@, index);
        }
    }

    fn remove(&mut self, index: usize)
        ensures
            final(self).list_wf(),
            final(self).prev_wf(),
            final(self).same_blocks(old(self)),
    {
        let ghost order = self.order@;
        let ghost p = order.index_of(index);
        proof {
            assert(order[p] == index);
            assert(next_at(self.headers@, order, p));
            assert(prev_at(self.headers@, order, p));
            if p > 0 {
                assert(order[p - 1] < self.headers@.len());
            }
            if p + 1 < order.len() {
                assert(order[p + 1] < self.headers@.len());
            }
        }
        let next = self.headers[index].next;
        let prev = gc_ref_count(&self.headers[index]);
        self.headers[prev].next = next;
        self.headers[next].prev = link_prev(prev);
        self.headers[index].next = NULL;
        self.headers[index].prev = 0;
        self.order = Ghost(order.remove(p));
        proof {
            lemma_unlink(old(self).headers@, order, self.headers@, index);
        }
    }

    fn default_extras(&self) -> Self::Extras {
        ()
    }
}

impl<T: Trace> CcObjectSpace<T> {
    /// The values and the reference counts are those of `other`.
    pub closed spec fn same_blocks(&self, other: &Self) -> bool {
        &&& self.values@ == other.values@
        &&& self.headers@.len() == other.headers@.len()
        &&& forall|i: int|
            0 <= i < self.headers@.len() ==> (#[trigger] self.headers@[i]).ref_count
                == other.headers@[i].ref_count
    }

    /// The model has the same blocks where values and counts are the same.
    proof fn lemma_same_blocks_view(&self, other: &Self)
        requires
            self.same_blocks(other),
        ensures
            self@.blocks == other@.blocks,
    {
        assert(self@.blocks =~= other@.blocks);
    }

    /// Makes a block for `value` and returns the one handle to it. The block
    /// is listed if the value asks to be tracked.
    ///
    /// The handles that `value` holds pass from the caller to the space.
    pub fn create(&mut self, value: T) -> (handle: Cc)
        requires
            old(self).wf(),
            old(self)@.wf_with(value.edges()),
            old(self)@.blocks.len() <= MAX_REF_COUNT,
        ensures
            final(self).wf(),
            handle.index() == old(self)@.blocks.len(),
            final(self)@ == old(self)@.created(value.edges(), value.type_tracked()),
            final(self)@.wf_with(seq![handle.index()]),
            final(self).value(handle.index()) == value,
            forall|i: usize|
                old(self)@.is_live(i) ==> #[trigger] final(self).value(i) == old(self).value(i),
    {
        let index = self.headers.len();
        let listed = value.is_type_tracked();
        let ghost edges = value.edges();
        self.headers.push(GcHeader::unlinked(1));
        self.values.push(Some(value));
        let ghost pushed = *self;
        proof {
            assert forall|k: int| 0 <= k < self.order@.len() implies self.order@[k] != index by {}
            lemma_list_frame(old(self).headers@, self.headers@, self.order@);
            lemma_back_frame(old(self).headers@, self.headers@, self.order@);
            assert(pushed@.blocks =~= old(self)@.blocks.push(
                BlockView { live: true, ref_count: 1, edges },
            ));
        }
        if listed {
            self.insert(index);
            proof {
                self.lemma_same_blocks_view(&pushed);
            }
        }
        proof {
            old(self)@.lemma_created_wf(edges, listed);
            old(self)@.lemma_created_outside(edges, listed);

            assert(self@ =~= old(self)@.created(edges, listed));
            assert forall|i: int|
                0 < i < self.values@.len() && (#[trigger] self.values@[i]) is Some implies (
            self.order@.contains(i as usize) <==> self.values@[i]->0.type_tracked()) by {
                if listed {
                    let after = seq![index] + old(self).order@;
                    assert(after[0] == index);
                    if old(self).order@.contains(i as usize) {
                        let k = choose|k: int|
                            0 <= k < old(self).order@.len() && old(self).order@[k] == i as usize;
                        assert(after[k + 1] == i as usize);
                    }
                }
            }
        }
        Cc::at(index)
    }

    /// Makes one more handle to the block that `handle` names.
    pub fn clone_handle(&mut self, handle: &Cc) -> (cloned: Cc)
        requires
            old(self).wf(),
            old(self)@.is_live(handle.index()),
            old(self)@.ref_count(handle.index()) < MAX_REF_COUNT,
        ensures
            final(self).wf(),
            cloned.index() == handle.index(),
            final(self)@ == old(self)@.with_ref_count(
                handle.index(),
                old(self)@.ref_count(handle.index()) + 1,
            ),
            final(self)@.wf_with(seq![cloned.index()]),
            forall|i: usize| #[trigger] final(self).value(i) == old(self).value(i),
    {
        let index = handle.target();
        self.headers[index].ref_count += 1;
        proof {
            let before = old(self)@;
            let after = before.with_ref_count(index, before.ref_count(index) + 1);
            assert(self@.blocks =~= after.blocks);
            before.lemma_cloned_outside(index);
            lemma_list_frame(old(self).headers@, self.headers@, self.order@);
            lemma_back_frame(old(self).headers@, self.headers@, self.order@);
        }
        Cc::at(index)
    }

    /// The value of the block that `handle` names.
    pub fn get(&self, handle: &Cc) -> (value: &T)
        requires
            self.wf(),
            self@.is_live(handle.index()),
        ensures
            *value == self.value(handle.index()),
    {
        match &self.values[handle.target()] {
            Some(value) => value,
            None => vstd::pervasive::unreached(),
        }
    }

    /// Whether `handle` names a block of this space that holds a value.
    pub fn contains(&self, handle: &Cc) -> (live: bool)
        requires
            self.wf(),
        ensures
            live == self@.is_live(handle.index()),
    {
        let index = handle.target();
        index < self.values.len() && self.values[index].is_some()
    }

    /// The number of blocks of the space, the list head among them.
    pub fn block_count(&self) -> (count: usize)
        requires
            self.wf(),
        ensures
            count == self@.blocks.len(),
    {
        self.headers.len()
    }

    /// The header of the block at `index`, if the space has such a block.
    pub fn header_at(&self, index: usize) -> (header: Option<GcHeader>)
        requires
            self.wf(),
        ensures
            header == if index < self@.blocks.len() {
                Some(self.header(index))
            } else {
                None
            },
    {
        if index < self.headers.len() {
            Some(self.headers[index])
        } else {
            None
        }
    }

    /// The number of handles to the block that `handle` names.
    pub fn ref_count(&self, handle: &Cc) -> (count: usize)
        requires
            self.wf(),
            self@.is_live(handle.index()),
        ensures
            count == self@.ref_count(handle.index()),
    {
        self.headers[handle.target()].ref_count
    }
}

impl<T: Trace> CcObjectSpace<T> {
    /// The trial count of block `i`.
    spec fn trial(&self, i: usize) -> nat {
        self.headers@[i as int].gc_ref_count()
    }

    /// Whether block `i` carries the `COLLECTING` flag.
    spec fn collecting(&self, i: usize) -> bool {
        self.headers@[i as int].collecting()
    }

    /// The `prev` words outside the list's members are as `prev_wf` has them.
    spec fn outside_ok(&self) -> bool {
        &&& prev_at(self.headers@, self.order@, self.order@.len() as int)
        &&& forall|i: int|
            0 < i < self.headers@.len() && !self.order@.contains(i as usize) ==> (
            #[trigger] self.headers@[i]).prev == 0
    }

    /// What holds while the `prev` words of the members carry trial counts.
    spec fn scan_ok(&self) -> bool {
        &&& self.list_wf()
        &&& self.blocks_wf()
        &&& self@.wf()
        &&& self.outside_ok()
    }

    /// Every member carries its reference count as trial count, and the flag.
    spec fn snapshot_ok(&self) -> bool {
        forall|k: int|
            0 <= k < self.order@.len() ==> (#[trigger] self.headers@[self.order@[k] as int]).prev
                == trial_word(self.headers@[self.order@[k] as int].ref_count as nat)
    }

    /// Every member carries the flag, and as trial count the number of
    /// handles to it that no tracked value holds.
    spec fn subtracted_ok(&self) -> bool {
        forall|k: int|
            0 <= k < self.order@.len() ==> (
            #[trigger] self.headers@[self.order@[k] as int]).collecting()
                && self.headers@[self.order@[k] as int].gc_ref_count() == self@.external(
                self.order@[k],
            )
    }

    /// Nothing but `prev` words differs from `other`.
    spec fn only_prev_changed(&self, other: &Self) -> bool {
        &&& self.values@ == other.values@
        &&& self.order@ == other.order@
        &&& self.headers@.len() == other.headers@.len()
        &&& forall|i: int|
            0 <= i < self.headers@.len() ==> (#[trigger] self.headers@[i]).next
                == other.headers@[i].next && self.headers@[i].ref_count
                == other.headers@[i].ref_count
    }

    /// Changing `prev` words keeps the list, the blocks and the model.
    proof fn lemma_scan_frame(&self, other: &Self)
        requires
            other.list_wf(),
            other.blocks_wf(),
            self.only_prev_changed(other),
        ensures
            self.list_wf(),
            self.blocks_wf(),
            self@ == other@,
    {
        lemma_list_frame(other.headers@, self.headers@, self.order@);
        assert(self@.blocks =~= other@.blocks);
    }

    /// No header outside the list carries a flag.
    proof fn lemma_outside_clear(&self, i: usize)
        requires
            self.list_wf(),
            self.outside_ok(),
            i < self.headers@.len(),
            !self.order@.contains(i),
        ensures
            !self.collecting(i),
    {
        if i == 0 {
            let n = self.order@.len() as int;
            assert(prev_at(self.headers@, self.order@, n));
            if n > 0 {
                assert(self.order@[n - 1] < self.headers@.len());
            }
        }
    }

    /// The blocks that the value of block `i` holds handles to.
    fn trace_block(&self, i: usize) -> (targets: Vec<usize>)
        requires
            i < self.values@.len(),
            self.values@.len() == self.headers@.len(),
        ensures
            targets@ == self@.edges(i),
    {
        let mut tracer = Tracer::new();
        match &self.values[i] {
            Some(value) => {
                value.trace(&mut tracer);
                assert(tracer@ =~= value.edges());
            },
            None => {},
        }
        tracer.into_targets()
    }

    /// Copies each member's reference count into its `prev` word and sets
    /// the `COLLECTING` flag.
    fn update_refs(&mut self)
        requires
            old(self).wf(),
        ensures
            final(self).scan_ok(),
            final(self).only_prev_changed(old(self)),
            final(self).snapshot_ok(),
    {
        let visited = self.visit_list();
        let ghost order = self.order@;
        let mut k: usize = 0;
        while k < visited.len()
            invariant
                old(self).wf(),
                visited@ == order,
                order == self.order@,
                k <= visited@.len(),
                self.only_prev_changed(old(self)),
                forall|m: int|
                    0 <= m < k ==> (#[trigger] self.headers@[order[m] as int]).prev == trial_word(
                        self.headers@[order[m] as int].ref_count as nat,
                    ),
                forall|i: int|
                    0 <= i < self.headers@.len() && !order.take(k as int).contains(i as usize)
                        ==> (#[trigger] self.headers@[i]).prev == old(self).headers@[i].prev,
            decreases visited@.len() - k,
        {
            let i = visited[k];
            assert(order[k as int] == i);
            assert(0 < i < self.headers@.len());
            let ref_count = self.headers[i].ref_count;
            assert(old(self).headers@[i as int].ref_count <= MAX_REF_COUNT);
            let ghost before = self.headers@;
            self.headers[i].prev = trial_prev(ref_count);
            proof {
                assert forall|m: int| 0 <= m < k + 1 implies (
                #[trigger] self.headers@[order[m] as int]).prev == trial_word(
                    self.headers@[order[m] as int].ref_count as nat,
                ) by {
                    if m < k {
                        assert(order[m] != order[k as int]);
                        assert(before[order[m] as int].prev == trial_word(
                            before[order[m] as int].ref_count as nat,
                        ));
                    }
                }
                assert forall|j: int|
                    0 <= j < self.headers@.len() && !order.take(k + 1).contains(
                        j as usize,
                    ) implies (#[trigger] self.headers@[j]).prev == old(self).headers@[j].prev by {
                    assert(order.take(k + 1)[k as int] == i);
                    if order.take(k as int).contains(j as usize) {
                        let m = order.take(k as int).index_of(j as usize);
                        assert(order.take(k + 1)[m] == j as usize);
                    }
                    assert(before[j].prev == old(self).headers@[j].prev);
                }
            }
            k += 1;
        }
        proof {
            self.lemma_scan_frame(old(self));
            assert(order.take(k as int) =~= order);
            assert(prev_at(old(self).headers@, order, order.len() as int));
            assert forall|j: int|
                0 < j < self.headers@.len() && !order.contains(j as usize) implies (
            #[trigger] self.headers@[j]).prev == 0 by {
                assert(old(self).headers@[j].prev == 0);
            }
        }
    }

    /// Member `j` carries the flag, and its trial count is its reference
    /// count less the handles to it that the first `k` members hold, and
    /// less its occurrences in `extra`.
    spec fn subtracted_at(&self, view: SpaceView, k: int, extra: Seq<usize>, j: usize) -> bool {
        &&& self.collecting(j)
        &&& self.trial(j) + view.incoming_from(self.order@.take(k), j) + count_in(extra, j)
            == view.ref_count(j)
    }

    /// `subtracted_at` holds of every member.
    spec fn subtracted_upto(&self, view: SpaceView, k: int, extra: Seq<usize>) -> bool {
        forall|m: int|
            0 <= m < self.order@.len() ==> #[trigger] self.subtracted_at(
                view,
                k,
                extra,
                self.order@[m],
            )
    }

    /// Takes from each member's trial count the handles that tracked values
    /// hold to it: what is left counts the handles held elsewhere.
    fn subtract_refs(&mut self)
        requires
            old(self).scan_ok(),
            old(self).snapshot_ok(),
        ensures
            final(self).scan_ok(),
            final(self).only_prev_changed(old(self)),
            final(self).subtracted_ok(),
    {
        let visited = self.visit_list();
        let ghost order = self.order@;
        let ghost view = self@;
        let ghost none = Seq::<usize>::empty();
        let mut k: usize = 0;
        proof {
            assert forall|m: int| 0 <= m < order.len() implies #[trigger] self.subtracted_at(
                view,
                0,
                none,
                order[m],
            ) by {
                assert(self.headers@[order[m] as int].ref_count <= MAX_REF_COUNT);
                assert(order.take(0) =~= none);
            }
        }
        while k < visited.len()
            invariant
                old(self).scan_ok(),
                visited@ == order,
                order == self.order@,
                view == old(self)@,
                none == Seq::<usize>::empty(),
                k <= visited@.len(),
                self.only_prev_changed(old(self)),
                self.outside_ok(),
                self.subtracted_upto(view, k as int, none),
            decreases visited@.len() - k,
        {
            let i = visited[k];
            proof {
                assert(order[k as int] == i);
                self.lemma_scan_frame(old(self));
            }
            let targets = self.trace_block(i);
            let mut e: usize = 0;
            proof {
                assert(targets@.take(0) =~= none);
            }
            while e < targets.len()
                invariant
                    old(self).scan_ok(),
                    order == self.order@,
                    view == old(self)@,
                    none == Seq::<usize>::empty(),
                    k < order.len(),
                    e <= targets@.len(),
                    targets@ == view.edges(order[k as int]),
                    self.only_prev_changed(old(self)),
                    self.outside_ok(),
                    self.subtracted_upto(view, k as int, targets@.take(e as int)),
                decreases targets@.len() - e,
            {
                let t = targets[e];
                let ghost before = *self;
                let ghost seen = targets@.take(e as int);
                proof {
                    assert(view.is_live(order[k as int]));
                    assert(view.is_live(view.blocks[order[k as int] as int].edges[e as int]));
                    self.lemma_scan_frame(old(self));
                    assert(targets@.take(e + 1) =~= seen.push(t));
                }
                if is_collecting(&self.headers[t]) {
                    proof {
                        if !order.contains(t) {
                            self.lemma_outside_clear(t);
                        }
                        let m = order.index_of(t);
                        assert(self.subtracted_at(view, k as int, seen, order[m]));
                        lemma_count_in_take(targets@, e as int, t);
                        lemma_count_in_take_le(targets@, e + 1, t);
                        view.lemma_incoming_from_take(order, k as int, t);
                        view.lemma_incoming_from_take_le(order, k + 1, t);
                        assert(view.incoming(t) + count_in(none, t) <= view.ref_count(t));
                    }
                    edit_gc_ref_count(&mut self.headers[t], -1);
                    proof {
                        assert(prev_at(before.headers@, order, order.len() as int));
                        assert forall|j: int|
                            0 < j < self.headers@.len() && !order.contains(j as usize) implies (
                        #[trigger] self.headers@[j]).prev == 0 by {
                            assert(before.headers@[j].prev == 0);
                        }
                    }
                }
                proof {
                    assert forall|m: int|
                        0 <= m < order.len() implies #[trigger] self.subtracted_at(
                        view,
                        k as int,
                        seen.push(t),
                        order[m],
                    ) by {
                        assert(before.subtracted_at(view, k as int, seen, order[m]));
                        lemma_count_in_push(seen, t, order[m]);
                    }
                }
                e += 1;
            }
            proof {
                assert(targets@.take(e as int) =~= targets@);
                assert forall|m: int| 0 <= m < order.len() implies #[trigger] self.subtracted_at(
                    view,
                    k + 1,
                    none,
                    order[m],
                ) by {
                    assert(self.subtracted_at(view, k as int, targets@, order[m]));
                    view.lemma_incoming_from_take(order, k as int, order[m]);
                }
            }
            k += 1;
        }
        proof {
            self.lemma_scan_frame(old(self));
            assert(order.take(k as int) =~= order);
            assert forall|m: int| 0 <= m < order.len() implies (
            #[trigger] self.headers@[order[m] as int]).collecting()
                && self.headers@[order[m] as int].gc_ref_count() == self@.external(order[m]) by {
                assert(self.subtracted_at(view, k as int, none, order[m]));
            }
        }
    }
}

impl<T: Trace> CcObjectSpace<T> {
    /// What the marking pass keeps of member `j`: while it carries the flag
    /// its trial count is untouched, and it loses the flag only if reachable.
    spec fn mark_at(&self, j: usize) -> bool {
        if self.collecting(j) {
            self.trial(j) == self@.external(j)
        } else {
            self@.reachable(j)
        }
    }

    /// No block that `j` holds a handle to carries the flag.
    spec fn closed_at(&self, j: usize) -> bool {
        forall|e: int|
            0 <= e < self@.edges(j).len() ==> !self.collecting(#[trigger] self@.edges(j)[e])
    }

    /// What the marking pass keeps: the scan's invariant, and `mark_at` of every member.
    spec fn mark_ok(&self) -> bool {
        &&& self.scan_ok()
        &&& forall|j: usize| self.order@.contains(j) ==> #[trigger] self.mark_at(j)
    }

    /// No header of `self` carries a flag that it does not carry in `other`.
    spec fn flags_within(&self, other: &Self) -> bool {
        forall|i: int|
            0 <= i < self.headers@.len() && (#[trigger] self.headers@[i]).collecting()
                ==> other.headers@[i].collecting()
    }

    /// The members other than `except` that lost the flag since `other` are closed.
    spec fn cleared_closed(&self, other: &Self, except: usize) -> bool {
        forall|j: usize|
            self.order@.contains(j) && j != except && other.collecting(j) && !self.collecting(j)
                ==> #[trigger] self.closed_at(j)
    }

    /// A closed member stays closed while flags are only cleared.
    proof fn lemma_closed_stays(&self, other: &Self, j: usize)
        requires
            other.closed_at(j),
            self@ == other@,
            self.headers@.len() == other.headers@.len(),
            self.flags_within(other),
            self@.wf(),
            j < self.headers@.len(),
            self.headers@.len() == self@.blocks.len(),
        ensures
            self.closed_at(j),
    {
        assert forall|e: int| 0 <= e < self@.edges(j).len() implies !self.collecting(
            #[trigger] self@.edges(j)[e],
        ) by {
            let t = self@.edges(j)[e];
            assert(self@.is_live(self@.blocks[j as int].edges[e]));
            assert(!other.collecting(other@.edges(j)[e]));
            if self.headers@[t as int].collecting() {
                assert(other.headers@[t as int].collecting());
            }
        }
    }

    /// The model has one block for each header, and the list's members.
    proof fn lemma_view_len(&self)
        ensures
            self@.blocks.len() == self.headers@.len(),
            self@.listed == self.order@,
    {
    }

    /// Clears the flag of `x` and of every member that `x` leads to through
    /// members that still carry it.
    fn revive(&mut self, x: usize)
        requires
            old(self).mark_ok(),
            x < old(self).headers@.len(),
            old(self).order@.contains(x) ==> old(self)@.reachable(x),
        ensures
            final(self).mark_ok(),
            final(self).only_prev_changed(old(self)),
            !final(self).collecting(x),
            final(self).flags_within(old(self)),
            final(self).cleared_closed(old(self), 0),
            flag_count(final(self).headers@) <= flag_count(old(self).headers@),
        decreases flag_count(old(self).headers@),
    {
        proof {
            self.lemma_view_len();
        }
        if is_collecting(&self.headers[x]) {
            proof {
                if !self.order@.contains(x) {
                    self.lemma_outside_clear(x);
                }
                assert(self.mark_at(x));
            }
            let revived = gc_ref_count(&self.headers[x]) == 0;
            unset_collecting(&mut self.headers[x]);
            if revived {
                edit_gc_ref_count(&mut self.headers[x], 1);
            }
            proof {
                self.lemma_scan_frame(old(self));
                lemma_flag_count_change(old(self).headers@, self.headers@, x as int);
                assert(prev_at(old(self).headers@, self.order@, self.order@.len() as int));
                assert forall|j: usize| self.order@.contains(j) implies #[trigger] self.mark_at(
                    j,
                ) by {
                    assert(old(self).mark_at(j));
                }
            }
            let targets = self.trace_block(x);
            let mut e: usize = 0;
            while e < targets.len()
                invariant
                    old(self).mark_ok(),
                    self.mark_ok(),
                    self.only_prev_changed(old(self)),
                    x < self.headers@.len(),
                    self.order@.contains(x),
                    self@.reachable(x),
                    targets@ == self@.edges(x),
                    e <= targets@.len(),
                    !self.collecting(x),
                    self.flags_within(old(self)),
                    self.cleared_closed(old(self), x),
                    forall|m: int| 0 <= m < e ==> !self.collecting(#[trigger] targets@[m]),
                    flag_count(self.headers@) < flag_count(old(self).headers@),
                decreases targets@.len() - e,
            {
                let t = targets[e];
                let ghost before = *self;
                proof {
                    self.lemma_view_len();
                    let k = self.order@.index_of(x);
                    assert(self@.is_live(self@.listed[k]));
                    assert(self@.is_live(self@.blocks[x as int].edges[e as int]));
                    if self.order@.contains(t) {
                        assert(self@.edges(x)[e as int] == t);
                        self@.lemma_reachable_step(x, t);
                    }
                }
                self.revive(t);
                proof {
                    self.lemma_scan_frame(&before);
                    self.lemma_view_len();
                    assert forall|j: usize|
                        self.order@.contains(j) && j != x && old(self).collecting(j)
                            && !self.collecting(j) implies #[trigger] self.closed_at(j) by {
                        let m = self.order@.index_of(j);
                        assert(0 < self.order@[m] < self.headers@.len());
                        if before.collecting(j) {
                            assert(self.cleared_closed(&before, 0));
                        } else {
                            assert(before.closed_at(j));
                            self.lemma_closed_stays(&before, j);
                        }
                    }
                    assert forall|m: int| 0 <= m < e + 1 implies !self.collecting(
                        #[trigger] targets@[m],
                    ) by {
                        if m < e {
                            assert(!before.collecting(targets@[m]));
                            assert(self@.is_live(self@.blocks[x as int].edges[m]));
                        }
                    }
                }
                e += 1;
            }
            proof {
                assert(self.closed_at(x));
            }
        } else {
            proof {
                assert forall|j: usize|
                    self.order@.contains(j) && j != 0 && old(self).collecting(j)
                        && !self.collecting(j) implies #[trigger] self.closed_at(j) by {}
            }
        }
    }

    /// Every reachable member has lost the flag, once every root has and
    /// every member without the flag is closed.
    proof fn lemma_marked_path(&self, p: Seq<usize>)
        requires
            self.scan_ok(),
            self@.is_path(p),
            forall|j: usize| #[trigger] self@.is_root(j) ==> !self.collecting(j),
            forall|j: usize|
                self.order@.contains(j) && !self.collecting(j) ==> #[trigger] self.closed_at(j),
        ensures
            !self.collecting(p.last()),
        decreases p.len(),
    {
        if p.len() == 1 {
            assert(self@.is_root(p[0]));
        } else {
            let q = p.drop_last();
            self@.lemma_path_prefix(p);
            self.lemma_marked_path(q);
            let i = q.last();
            assert(self@.listed.contains(q[q.len() - 1]));
            assert(self.closed_at(i));
            let e = self@.edges(i).index_of(p.last());
            assert(self@.edges(i)[e] == p.last());
        }
    }

    /// Clears the flag of every reachable member, so that the members that
    /// still carry it are the garbage.
    fn mark_reachable(&mut self)
        requires
            old(self).scan_ok(),
            old(self).subtracted_ok(),
        ensures
            final(self).scan_ok(),
            final(self).only_prev_changed(old(self)),
            final(self).marked_ok(),
    {
        let visited = self.visit_list();
        let ghost order = self.order@;
        let mut k: usize = 0;
        proof {
            self.lemma_view_len();
            assert forall|j: usize| self.order@.contains(j) implies #[trigger] self.mark_at(
                j,
            ) && self.collecting(j) by {
                let m = self.order@.index_of(j);
                assert(self.headers@[self.order@[m] as int].collecting());
            }
        }
        while k < visited.len()
            invariant
                old(self).scan_ok(),
                visited@ == order,
                order == self.order@,
                k <= visited@.len(),
                self.mark_ok(),
                self.only_prev_changed(old(self)),
                forall|m: int|
                    0 <= m < k && self@.is_root(#[trigger] order[m]) ==> !self.collecting(
                        order[m],
                    ),
                forall|j: usize|
                    self.order@.contains(j) && !self.collecting(j) ==> #[trigger] self.closed_at(
                        j,
                    ),
            decreases visited@.len() - k,
        {
            let i = visited[k];
            proof {
                self.lemma_view_len();
                assert(order[k as int] == i);
                assert(0 < order[k as int] < self.headers@.len());
                assert(self.order@.contains(i));
                assert(self.mark_at(i));
            }
            if is_collecting(&self.headers[i]) && !is_unreachable(&self.headers[i]) {
                let ghost entry = *self;
                unset_collecting(&mut self.headers[i]);
                proof {
                    self.lemma_scan_frame(&entry);
                    self.lemma_view_len();
                    assert(self@.is_root(i));
                    self@.lemma_root_reachable(i);
                    assert(prev_at(entry.headers@, self.order@, self.order@.len() as int));
                    assert forall|j: usize| self.order@.contains(j) implies #[trigger] self.mark_at(
                        j,
                    ) by {
                        assert(entry.mark_at(j));
                    }
                    assert forall|j: usize|
                        self.order@.contains(j) && j != i && !self.collecting(j)
                            implies #[trigger] self.closed_at(j) by {
                        let m = self.order@.index_of(j);
                        assert(0 < self.order@[m] < self.headers@.len());
                        assert(entry.closed_at(j));
                        self.lemma_closed_stays(&entry, j);
                    }
                }
                let targets = self.trace_block(i);
                let mut e: usize = 0;
                while e < targets.len()
                    invariant
                        old(self).scan_ok(),
                        order == self.order@,
                        k < order.len(),
                        i == order[k as int],
                        self.mark_ok(),
                        self.only_prev_changed(old(self)),
                        self.order@.contains(i),
                        self@.reachable(i),
                        targets@ == self@.edges(i),
                        e <= targets@.len(),
                        !self.collecting(i),
                        forall|m: int|
                            0 <= m < k && self@.is_root(#[trigger] order[m]) ==> !self.collecting(
                                order[m],
                            ),
                        forall|j: usize|
                            self.order@.contains(j) && j != i && !self.collecting(j)
                                ==> #[trigger] self.closed_at(j),
                        forall|m: int| 0 <= m < e ==> !self.collecting(#[trigger] targets@[m]),
                    decreases targets@.len() - e,
                {
                    let t = targets[e];
                    let ghost before = *self;
                    proof {
                        self.lemma_view_len();
                        assert(self@.is_live(self@.listed[k as int]));
                        assert(self@.is_live(self@.blocks[i as int].edges[e as int]));
                        if self.order@.contains(t) {
                            assert(self@.edges(i)[e as int] == t);
                            self@.lemma_reachable_step(i, t);
                        }
                    }
                    self.revive(t);
                    proof {
                        self.lemma_scan_frame(&before);
                        self.lemma_view_len();
                        assert forall|j: usize|
                            self.order@.contains(j) && j != i && !self.collecting(j)
                                implies #[trigger] self.closed_at(j) by {
                            let m = self.order@.index_of(j);
                            assert(0 < self.order@[m] < self.headers@.len());
                            if before.collecting(j) {
                                assert(self.cleared_closed(&before, 0));
                            } else {
                                assert(before.closed_at(j));
                                self.lemma_closed_stays(&before, j);
                            }
                        }
                        assert forall|m: int| 0 <= m < e + 1 implies !self.collecting(
                            #[trigger] targets@[m],
                        ) by {
                            if m < e {
                                assert(!before.collecting(targets@[m]));
                                assert(self@.is_live(self@.blocks[i as int].edges[m]));
                            }
                        }
                        assert forall|m: int|
                            0 <= m < k && self@.is_root(#[trigger] order[m])
                                implies !self.collecting(order[m]) by {
                            assert(!before.collecting(order[m]));
                            assert(0 < order[m] < self.headers@.len());
                        }
                    }
                    e += 1;
                }
                proof {
                    assert(self.closed_at(i));
                }
            }
            k += 1;
        }
        proof {
            self.lemma_view_len();
            assert forall|j: usize| #[trigger] self@.is_root(j) implies !self.collecting(j) by {
                let m = order.index_of(j);
                assert(order[m] == j);
            }
            assert forall|j: usize| self.order@.contains(j) implies #[trigger] self.marked_at(
                j,
            ) by {
                assert(self.mark_at(j));
                if self@.reachable(j) {
                    let p = choose|p: Seq<usize>| #[trigger] self@.is_path(p) && p.last() == j;
                    self.lemma_marked_path(p);
                }
                if self.collecting(j) && self@.external(j) > 0 {
                    assert(self@.is_root(j));
                }
            }
        }
    }

    /// Member `j` carries the flag, with a trial count of zero, if it is
    /// garbage, and no flag if it is reachable.
    spec fn marked_at(&self, j: usize) -> bool {
        &&& self.collecting(j) <==> !self@.reachable(j)
        &&& self.headers@[j as int].unreachable() <==> !self@.reachable(j)
    }

    /// The members that still carry the flag are the garbage.
    spec fn marked_ok(&self) -> bool {
        forall|j: usize| self.order@.contains(j) ==> #[trigger] self.marked_at(j)
    }
}

impl<T: Trace> CcObjectSpace<T> {
    /// Rewrites every member's `prev` word as the link to its predecessor.
    fn restore_prev(&mut self)
        requires
            old(self).list_wf(),
            old(self).outside_ok(),
        ensures
            final(self).list_wf(),
            final(self).prev_wf(),
            final(self).only_prev_changed(old(self)),
    {
        let visited = self.visit_list();
        let ghost order = self.order@;
        let mut prev: usize = 0;
        let mut k: usize = 0;
        while k < visited.len()
            invariant
                old(self).list_wf(),
                old(self).outside_ok(),
                visited@ == order,
                order == self.order@,
                k <= visited@.len(),
                self.only_prev_changed(old(self)),
                prev == node_at(order, k - 1),
                forall|m: int| 0 <= m < k ==> #[trigger] prev_at(self.headers@, order, m),
                forall|i: int|
                    0 <= i < self.headers@.len() && !order.take(k as int).contains(i as usize)
                        ==> (#[trigger] self.headers@[i]).prev == old(self).headers@[i].prev,
            decreases visited@.len() - k,
        {
            let i = visited[k];
            proof {
                assert(order[k as int] == i);
                assert(0 < order[k as int] < self.headers@.len());
                if k > 0 {
                    assert(0 < order[k - 1] < self.headers@.len());
                }
            }
            let ghost before = self.headers@;
            self.headers[i].prev = link_prev(prev);
            proof {
                assert forall|m: int| 0 <= m < k + 1 implies #[trigger] prev_at(
                    self.headers@,
                    order,
                    m,
                ) by {
                    if m < k {
                        assert(prev_at(before, order, m));
                        assert(order[m] != order[k as int]);
                    }
                }
                assert forall|j: int|
                    0 <= j < self.headers@.len() && !order.take(k + 1).contains(
                        j as usize,
                    ) implies (#[trigger] self.headers@[j]).prev == old(self).headers@[j].prev by {
                    assert(order.take(k + 1)[k as int] == i);
                    if order.take(k as int).contains(j as usize) {
                        let m = order.take(k as int).index_of(j as usize);
                        assert(order.take(k + 1)[m] == j as usize);
                    }
                    assert(before[j].prev == old(self).headers@[j].prev);
                }
            }
            prev = i;
            k += 1;
        }
        proof {
            lemma_list_frame(old(self).headers@, self.headers@, order);
            assert(order.take(k as int) =~= order);
            let n = order.len() as int;
            assert(prev_at(old(self).headers@, order, n));
            assert forall|m: int| 0 <= m <= n implies #[trigger] prev_at(
                self.headers@,
                order,
                m,
            ) by {}
            assert forall|j: int|
                0 < j < self.headers@.len() && !order.contains(j as usize) implies (
            #[trigger] self.headers@[j]).prev == 0 by {
                assert(old(self).headers@[j].prev == 0);
            }
        }
    }

    /// The reference count of block `j` between staging and freeing. `entry`
    /// is the space before staging, `staged` its garbage: the block has the
    /// count it had, one more if it is staged, less the handles to it that
    /// the first `counted` staged blocks held, and less its occurrences in
    /// `extra`.
    spec fn staged_count(
        entry: &Self,
        staged: Seq<usize>,
        counted: int,
        extra: Seq<usize>,
        j: usize,
    ) -> int {
        entry.headers@[j as int].ref_count + (if staged.contains(j) {
            1int
        } else {
            0int
        }) - entry@.incoming_from(staged.take(counted), j) - count_in(extra, j)
    }

    /// Block `j` between staging and freeing: it has the count that
    /// `staged_count` gives, and the value it had unless it is among the
    /// first `gone` staged blocks or has lost its last handle.
    spec fn staged_at(
        &self,
        entry: &Self,
        staged: Seq<usize>,
        gone: int,
        counted: int,
        extra: Seq<usize>,
        j: usize,
    ) -> bool {
        &&& self.headers@[j as int].ref_count == Self::staged_count(
            entry,
            staged,
            counted,
            extra,
            j,
        )
        &&& self.values@[j as int] is Some <==> (entry.values@[j as int] is Some && !staged.take(
            gone,
        ).contains(j) && self.headers@[j as int].ref_count > 0)
        &&& self.values@[j as int] is Some ==> self.values@[j as int] == entry.values@[j as int]
    }

    /// `staged_at` holds of every block.
    spec fn staged_ok(
        &self,
        entry: &Self,
        staged: Seq<usize>,
        gone: int,
        counted: int,
        extra: Seq<usize>,
    ) -> bool {
        &&& self.headers@.len() == entry.headers@.len()
        &&& self.values@.len() == entry.values@.len()
        &&& self.headers@.len() == self.values@.len()
        &&& self.headers@.len() <= MAX_REF_COUNT + 1
        &&& forall|j: usize|
            j < self.headers@.len() ==> #[trigger] self.staged_at(
                entry,
                staged,
                gone,
                counted,
                extra,
                j,
            )
    }

    /// The staged blocks have given up what they held; the first `freed` of
    /// them have lost the collector's handle too, the others are as in
    /// `dropped`.
    spec fn freed_ok(&self, dropped: &Self, staged: Seq<usize>, freed: int) -> bool {
        &&& self.same_links(dropped)
        &&& self.values@ == dropped.values@
        &&& forall|j: int|
            0 <= j < self.headers@.len() ==> (#[trigger] self.headers@[j]).ref_count == (
            if staged.take(freed).contains(j as usize) {
                0
            } else {
                dropped.headers@[j].ref_count
            })
    }

    /// Only reference counts and values differ from `other`.
    spec fn same_links(&self, other: &Self) -> bool {
        &&& self.order@ == other.order@
        &&& self.headers@.len() == other.headers@.len()
        &&& self.values@.len() == other.values@.len()
        &&& forall|i: int|
            0 <= i < self.headers@.len() ==> (#[trigger] self.headers@[i]).next
                == other.headers@[i].next && self.headers@[i].prev == other.headers@[i].prev
    }

    /// Changing counts and values keeps the shape of the list.
    proof fn lemma_same_links(&self, other: &Self)
        requires
            self.same_links(other),
            other.list_wf(),
        ensures
            self.list_wf(),
            other.prev_wf() ==> self.prev_wf(),
            other.outside_ok() ==> self.outside_ok(),
    {
        lemma_list_frame(other.headers@, self.headers@, self.order@);
        if other.prev_wf() {
            lemma_back_frame(other.headers@, self.headers@, self.order@);
        }
        if other.outside_ok() {
            assert(prev_at(other.headers@, self.order@, self.order@.len() as int));
            assert forall|i: int|
                0 < i < self.headers@.len() && !self.order@.contains(i as usize) implies (
            #[trigger] self.headers@[i]).prev == 0 by {
                assert(other.headers@[i].prev == 0);
            }
        }
    }

    /// Takes one more handle to block `i`, for the collector itself.
    fn gc_clone(&mut self, i: usize) -> (staged: usize)
        requires
            i < old(self).headers@.len(),
            old(self).headers@[i as int].ref_count < usize::MAX,
        ensures
            staged == i,
            final(self).same_links(old(self)),
            final(self).values@ == old(self).values@,
            final(self).headers@[i as int].ref_count == old(self).headers@[i as int].ref_count
                + 1,
            forall|j: int|
                0 <= j < final(self).headers@.len() && j != i ==> (
                #[trigger] final(self).headers@[j]).ref_count == old(self).headers@[j].ref_count,
    {
        self.headers[i].ref_count += 1;
        i
    }

    /// Gives up one handle to block `t`. A block that loses its last handle
    /// here is one that no list holds: its value is dropped.
    fn release_edge(
        &mut self,
        t: usize,
        Ghost(entry): Ghost<&Self>,
        Ghost(staged): Ghost<Seq<usize>>,
        Ghost(gone): Ghost<int>,
        Ghost(counted): Ghost<int>,
        Ghost(extra): Ghost<Seq<usize>>,
    )
        requires
            old(self).staged_ok(entry, staged, gone, counted, extra),
            t < old(self).headers@.len(),
            old(self).headers@[t as int].ref_count >= 1,
        ensures
            final(self).staged_ok(entry, staged, gone, counted, extra.push(t)),
            final(self).same_links(old(self)),
    {
        self.headers[t].ref_count -= 1;
        if self.headers[t].ref_count == 0 {
            let _ = self.values[t].take();
        }
        proof {
            assert forall|j: usize| j < self.headers@.len() implies #[trigger] self.staged_at(
                entry,
                staged,
                gone,
                counted,
                extra.push(t),
                j,
            ) by {
                assert(old(self).staged_at(entry, staged, gone, counted, extra, j));
                lemma_count_in_push(extra, t, j);
            }
        }
    }

    /// Takes the staged block `d` off the list, drops its value, and gives
    /// up the handles that the value held. The block itself stays, kept by
    /// the collector's own handle.
    fn gc_drop_t(
        &mut self,
        d: usize,
        Ghost(entry): Ghost<&Self>,
        Ghost(staged): Ghost<Seq<usize>>,
        Ghost(k): Ghost<int>,
    )
        requires
            entry.scan_ok(),
            staged == entry@.garbage(),
            0 <= k < staged.len(),
            d == staged[k],
            old(self).list_wf(),
            old(self).prev_wf(),
            old(self).order@ == without(entry.order@, staged.take(k)),
            old(self).staged_ok(entry, staged, k, k, Seq::empty()),
        ensures
            final(self).list_wf(),
            final(self).prev_wf(),
            final(self).order@ == without(entry.order@, staged.take(k + 1)),
            final(self).staged_ok(entry, staged, k + 1, k + 1, Seq::empty()),
    {
        let ghost view = entry@;
        let ghost none = Seq::<usize>::empty();
        proof {
            entry.lemma_view_len();
            view.lemma_select_no_duplicates(view.listed, true);
            assert(staged.contains(staged[k]));
            view.lemma_select_contains(view.listed, true, d);
            if staged.take(k).contains(d) {
                let m = staged.take(k).index_of(d);
                assert(staged[m] == staged[k]);
            }
            lemma_without_contains(entry.order@, staged.take(k), d);
            lemma_without_one_more(entry.order@, staged.take(k), d);
            assert(staged.take(k + 1) =~= staged.take(k).push(d));
            let m = view.listed.index_of(d);
            assert(view.is_live(view.listed[m]));
            view.lemma_garbage_bound(k, d);
            assert(self.staged_at(entry, staged, k, k, none, d));
        }
        self.remove(d);
        let ghost unlinked = *self;
        let targets = self.trace_block(d);
        let _ = self.values[d].take();
        proof {
            assert(targets@ == view.edges(d));
            assert(targets@.take(0) =~= none);
            assert forall|j: usize| j < self.headers@.len() implies #[trigger] self.staged_at(
                entry,
                staged,
                k + 1,
                k,
                none,
                j,
            ) by {
                assert(old(self).staged_at(entry, staged, k, k, none, j));
                lemma_push_contains(staged.take(k), d, j);
            }
            assert(self.same_links(&unlinked));
            self.lemma_same_links(&unlinked);
        }
        let mut e: usize = 0;
        while e < targets.len()
            invariant
                entry.scan_ok(),
                view == entry@,
                staged == view.garbage(),
                0 <= k < staged.len(),
                d == staged[k],
                targets@ == view.edges(d),
                e <= targets@.len(),
                self.list_wf(),
                self.prev_wf(),
                self.order@ == without(entry.order@, staged.take(k + 1)),
                self.staged_ok(entry, staged, k + 1, k, targets@.take(e as int)),
            decreases targets@.len() - e,
        {
            let t = targets[e];
            let ghost before = *self;
            let ghost seen = targets@.take(e as int);
            proof {
                entry.lemma_view_len();
                view.lemma_release_bound(k, e as int);
                assert(staged.contains(staged[k]));
                view.lemma_select_contains(view.listed, true, d);
                let m = view.listed.index_of(d);
                assert(view.is_live(view.listed[m]));
                assert(view.is_live(view.blocks[d as int].edges[e as int]));
                assert(self.staged_at(entry, staged, k + 1, k, seen, t));
            }
            self.release_edge(t, Ghost(entry), Ghost(staged), Ghost(k + 1), Ghost(k), Ghost(seen));
            proof {
                assert(targets@.take(e + 1) =~= seen.push(t));
                self.lemma_same_links(&before);
            }
            e += 1;
        }
        proof {
            assert(targets@.take(e as int) =~= targets@);
            assert forall|j: usize| j < self.headers@.len() implies #[trigger] self.staged_at(
                entry,
                staged,
                k + 1,
                k + 1,
                none,
                j,
            ) by {
                assert(self.staged_at(entry, staged, k + 1, k, targets@, j));
                view.lemma_incoming_from_take(staged, k, j);
            }
        }
    }
}

impl<T: Trace> CcObjectSpace<T> {
    /// Once every staged block has given up what it held and has lost the
    /// collector's handle, the space is the collected space.
    proof fn lemma_release_done(&self, entry: &Self, dropped: &Self, staged: Seq<usize>)
        requires
            entry.scan_ok(),
            staged == entry@.garbage(),
            dropped.list_wf(),
            dropped.prev_wf(),
            dropped.order@ == without(entry.order@, staged),
            dropped.staged_ok(
                entry,
                staged,
                staged.len() as int,
                staged.len() as int,
                Seq::empty(),
            ),
            self.freed_ok(dropped, staged, staged.len() as int),
        ensures
            self.wf(),
            self@ == entry@.collected(),
            forall|i: usize| self@.is_live(i) ==> #[trigger] self.value(i) == entry.value(i),
    {
        let view = entry@;
        let after = view.collected();
        let none = Seq::<usize>::empty();
        entry.lemma_view_len();
        self.lemma_view_len();
        self.lemma_same_links(dropped);
        assert(staged.take(staged.len() as int) =~= staged);
        assert forall|x: usize| staged.contains(x) <==> view.is_garbage(x) by {
            view.lemma_select_contains(view.listed, true, x);
        }
        assert forall|k: int| 0 <= k < view.listed.len() implies (staged.contains(
            #[trigger] view.listed[k],
        ) <==> !view.reachable(view.listed[k])) by {
            assert(view.listed.contains(view.listed[k]));
        }
        view.lemma_without_garbage(view.listed, staged);
        assert forall|i: int| 0 <= i < self.headers@.len() implies self.block_view(i)
            == view.collected_block(i) by {
            let j = i as usize;
            assert(view.blocks[i] == entry.block_view(i));
            assert(dropped.staged_at(
                entry,
                staged,
                staged.len() as int,
                staged.len() as int,
                none,
                j,
            ));
            assert(self.headers@[i].ref_count == (if staged.contains(j) {
                0
            } else {
                dropped.headers@[i].ref_count
            }));
            if view.is_garbage(j) {
                let m = view.listed.index_of(j);
                assert(view.is_live(view.listed[m]));
            }
        }
        assert(self@.blocks =~= after.blocks);
        assert(self@ == after);
        view.lemma_collected_wf();
        assert forall|i: int| 0 <= i < self.headers@.len() implies (
        #[trigger] self.headers@[i]).ref_count <= MAX_REF_COUNT by {
            assert(entry.headers@[i].ref_count <= MAX_REF_COUNT);
            assert(dropped.staged_at(
                entry,
                staged,
                staged.len() as int,
                staged.len() as int,
                none,
                i as usize,
            ));
        }
        assert forall|i: int|
            0 < i < self.values@.len() && (#[trigger] self.values@[i]) is Some implies (
        self.order@.contains(i as usize) <==> self.values@[i]->0.type_tracked()) by {
            assert(dropped.staged_at(
                entry,
                staged,
                staged.len() as int,
                staged.len() as int,
                none,
                i as usize,
            ));
            assert(entry.values@[i] is Some);
            lemma_without_contains(entry.order@, staged, i as usize);
        }
        assert(self.values@[0] is None) by {
            assert(dropped.staged_at(
                entry,
                staged,
                staged.len() as int,
                staged.len() as int,
                none,
                0,
            ));
            assert(entry.values@[0] is None);
        }
        assert forall|i: usize| self@.is_live(i) implies #[trigger] self.value(i) == entry.value(
            i,
        ) by {
            assert(dropped.staged_at(
                entry,
                staged,
                staged.len() as int,
                staged.len() as int,
                none,
                i,
            ));
        }
    }

    /// Drops the values of the garbage, then frees its blocks. Returns the
    /// number of blocks freed.
    fn release_unreachable(&mut self) -> (count: usize)
        requires
            old(self).scan_ok(),
            old(self).subtracted_ok(),
        ensures
            final(self).wf(),
            final(self)@ == old(self)@.collected(),
            count == old(self)@.garbage().len(),
            forall|i: usize|
                final(self)@.is_live(i) ==> #[trigger] final(self).value(i) == old(self).value(i),
    {
        // Members that a chain of handles reaches from outside lose the flag.
        self.mark_reachable();
        let ghost entry = *self;
        let ghost view = self@;
        let ghost order = self.order@;
        let ghost none = Seq::<usize>::empty();
        proof {
            self.lemma_scan_frame(old(self));
            self.lemma_view_len();
        }
        let visited = self.visit_list();

        // Count the garbage, so that the staging list is allocated once.
        let mut count: usize = 0;
        let mut k: usize = 0;
        assert(order.take(0) =~= none);
        while k < visited.len()
            invariant
                *self == entry,
                entry.scan_ok(),
                entry.marked_ok(),
                view == entry@,
                order == entry.order@,
                visited@ == order,
                k <= visited@.len(),
                count <= k,
                count == view.select(order.take(k as int), true).len(),
            decreases visited@.len() - k,
        {
            let i = visited[k];
            proof {
                assert(order[k as int] == i);
                assert(0 < order[k as int] < self.headers@.len());
                assert(order.contains(i));
                assert(entry.marked_at(i));
                view.lemma_select_take(order, k as int, true);
            }
            if is_unreachable(&self.headers[i]) {
                count += 1;
            }
            k += 1;
        }
        assert(order.take(k as int) =~= order);

        // Stage the garbage: one more handle to each block keeps it while
        // the values are dropped.
        let mut to_drop: Vec<usize> = Vec::with_capacity(count);
        proof {
            assert forall|j: usize| j < self.headers@.len() implies #[trigger] self.staged_at(
                &entry,
                to_drop@,
                0,
                0,
                none,
                j,
            ) by {
                assert(to_drop@.take(0) =~= none);
                assert(view.blocks[j as int] == entry.block_view(j as int));
            }
        }
        k = 0;
        while k < visited.len()
            invariant
                entry.scan_ok(),
                entry.marked_ok(),
                view == entry@,
                order == entry.order@,
                none == Seq::<usize>::empty(),
                visited@ == order,
                k <= visited@.len(),
                self.same_links(&entry),
                to_drop@ == view.select(order.take(k as int), true),
                self.staged_ok(&entry, to_drop@, 0, 0, none),
            decreases visited@.len() - k,
        {
            let i = visited[k];
            proof {
                assert(order[k as int] == i);
                assert(0 < order[k as int] < self.headers@.len());
                assert(order.contains(i));
                assert(entry.marked_at(i));
                view.lemma_select_take(order, k as int, true);
                view.lemma_select_contains(order.take(k as int), true, i);
                if order.take(k as int).contains(i) {
                    let m = order.take(k as int).index_of(i);
                    assert(order[m] == order[k as int]);
                }
                assert(entry.headers@[i as int].ref_count <= MAX_REF_COUNT);
                assert(self.staged_at(&entry, to_drop@, 0, 0, none, i));
                assert(to_drop@.take(0) =~= none);
            }
            if is_unreachable(&self.headers[i]) {
                let ghost before = *self;
                let ghost chosen = to_drop@;
                let staged = self.gc_clone(i);
                to_drop.push(staged);
                proof {
                    assert forall|j: usize|
                        j < self.headers@.len() implies #[trigger] self.staged_at(
                        &entry,
                        to_drop@,
                        0,
                        0,
                        none,
                        j,
                    ) by {
                        assert(before.staged_at(&entry, chosen, 0, 0, none, j));
                        lemma_push_contains(chosen, i, j);
                        assert(chosen.take(0) =~= none);
                        assert(to_drop@.take(0) =~= none);
                    }
                }
            }
            k += 1;
        }
        let ghost staged = to_drop@;
        proof {
            assert(order.take(k as int) =~= order);
            self.lemma_same_links(&entry);
        }

        // Make the list whole again, so that blocks can leave it.
        let ghost linked = *self;
        self.restore_prev();
        proof {
            lemma_without_nothing(order);
            assert(staged.take(0) =~= none);
            assert forall|j: usize| j < self.headers@.len() implies #[trigger] self.staged_at(
                &entry,
                staged,
                0,
                0,
                none,
                j,
            ) by {
                assert(linked.staged_at(&entry, staged, 0, 0, none, j));
            }
        }

        // Drop the values. The blocks stay, so that a value that gives up
        // a handle to another staged block finds that block's count.
        k = 0;
        while k < to_drop.len()
            invariant
                entry.scan_ok(),
                view == entry@,
                staged == view.garbage(),
                staged == to_drop@,
                none == Seq::<usize>::empty(),
                k <= staged.len(),
                self.list_wf(),
                self.prev_wf(),
                self.order@ == without(entry.order@, staged.take(k as int)),
                self.staged_ok(&entry, staged, k as int, k as int, none),
            decreases staged.len() - k,
        {
            let d = to_drop[k];
            self.gc_drop_t(d, Ghost(&entry), Ghost(staged), Ghost(k as int));
            k += 1;
        }

        // Only the collector's handles are left to the staged blocks: giving
        // them up frees the blocks.
        let ghost dropped = *self;
        proof {
            assert(staged.take(k as int) =~= staged);
            assert(staged.take(0) =~= none);
            view.lemma_select_no_duplicates(view.listed, true);
        }
        k = 0;
        while k < to_drop.len()
            invariant
                entry.scan_ok(),
                view == entry@,
                staged == view.garbage(),
                staged == to_drop@,
                staged.no_duplicates(),
                none == Seq::<usize>::empty(),
                k <= staged.len(),
                dropped.staged_ok(&entry, staged, staged.len() as int, staged.len() as int, none),
                self.freed_ok(&dropped, staged, k as int),
            decreases staged.len() - k,
        {
            let d = to_drop[k];
            proof {
                entry.lemma_view_len();
                assert(staged.contains(staged[k as int]));
                view.lemma_select_contains(view.listed, true, d);
                view.lemma_garbage_counts(d);
                let m = view.listed.index_of(d);
                assert(view.is_live(view.listed[m]));
                assert(staged.take(staged.len() as int) =~= staged);
                if staged.take(k as int).contains(d) {
                    let m2 = staged.take(k as int).index_of(d);
                    assert(staged[m2] == staged[k as int]);
                }
                assert(dropped.staged_at(
                    &entry,
                    staged,
                    staged.len() as int,
                    staged.len() as int,
                    none,
                    d,
                ));
                assert(self.headers@[d as int].ref_count == 1);
            }
            let ghost before = self.headers@;
            self.headers[d].ref_count -= 1;
            proof {
                assert(staged.take(k + 1) =~= staged.take(k as int).push(d));
                assert forall|j: int| 0 <= j < self.headers@.len() implies (
                #[trigger] self.headers@[j]).ref_count == (if staged.take(k + 1).contains(
                    j as usize,
                ) {
                    0
                } else {
                    dropped.headers@[j].ref_count
                }) by {
                    lemma_push_contains(staged.take(k as int), d, j as usize);
                    assert(before[j].ref_count == (if staged.take(k as int).contains(j as usize) {
                        0
                    } else {
                        dropped.headers@[j].ref_count
                    }));
                }
            }
            k += 1;
        }
        proof {
            self.lemma_release_done(&entry, &dropped, staged);
            assert forall|i: usize| self@.is_live(i) implies #[trigger] self.value(i) == old(
                self,
            ).value(i) by {
                assert(self.value(i) == entry.value(i));
            }
        }
        count
    }

    /// Scans the list and collects the cycles in it.
    fn collect_list(&mut self) -> (count: usize)
        requires
            old(self).wf(),
        ensures
            final(self).wf(),
            final(self)@ == old(self)@.collected(),
            count == old(self)@.garbage().len(),
            forall|i: usize|
                final(self)@.is_live(i) ==> #[trigger] final(self).value(i) == old(self).value(i),
    {
        self.update_refs();
        let ghost snapshot = *self;
        proof {
            self.lemma_scan_frame(old(self));
        }
        self.subtract_refs();
        proof {
            self.lemma_scan_frame(&snapshot);
        }
        self.release_unreachable()
    }

    /// Collects the cyclic garbage that the space tracks: drops the values
    /// of the tracked blocks that no chain of handles reaches from a handle
    /// held outside the tracked values, and frees these blocks. Returns
    /// their number.
    pub fn collect_cycles(&mut self) -> (count: usize)
        requires
            old(self).wf(),
        ensures
            final(self).wf(),
            final(self)@ == old(self)@.collected(),
            count == old(self)@.garbage().len(),
            forall|i: usize|
                final(self)@.is_live(i) ==> #[trigger] final(self).value(i) == old(self).value(i),
    {
        self.collect_list()
    }
}

impl<T: Trace> CcObjectSpace<T> {
    /// Gives up `handle`. If it was the last handle to its block, the block
    /// leaves the list, its value is dropped, and the handles that the value
    /// held are given up in turn.
    pub fn drop_handle(&mut self, handle: Cc)
        requires
            old(self).wf(),
            old(self)@.wf_with(seq![handle.index()]),
        ensures
            final(self).wf(),
            final(self)@ == old(self)@.released(seq![handle.index()]),
            forall|i: usize|
                final(self)@.is_live(i) ==> #[trigger] final(self).value(i) == old(self).value(i),
    {
        let mut pending: Vec<usize> = Vec::new();
        pending.push(handle.target());
        assert(pending@ =~= seq![handle.index()]);
        while pending.len() > 0
            invariant
                self.list_wf(),
                self.prev_wf(),
                self.blocks_wf(),
                self@.wf_with(pending@),
                self@.released(pending@) == old(self)@.released(seq![handle.index()]),
                forall|i: usize|
                    self@.is_live(i) ==> #[trigger] self.value(i) == old(self).value(i),
            decreases total_refs(self@.blocks), pending@.len(),
        {
            let ghost view = self@;
            let ghost before = *self;
            let ghost all = pending@;
            let t = pending.pop().unwrap();
            let ghost rest = pending@;
            proof {
                self.lemma_view_len();
                assert(all =~= rest.push(t));
                assert(all.drop_last() =~= rest);
                assert(view.is_live(all[all.len() - 1]));
                assert(view.blocks[t as int].ref_count >= 1);
            }
            if self.headers[t].ref_count > 1 {
                self.headers[t].ref_count -= 1;
                proof {
                    let lowered = view.with_ref_count(t, (view.ref_count(t) - 1) as nat);
                    view.lemma_lowered_wf(t, rest);
                    lemma_total_refs_update(view.blocks, t as int, lowered.blocks[t as int]);
                    assert(self.same_links(&before));
                    self.lemma_same_links(&before);
                    assert(self@.blocks =~= lowered.blocks);
                    assert(self@ == lowered);
                    assert forall|i: usize| self@.is_live(i) implies #[trigger] self.value(i)
                        == old(self).value(i) by {
                        assert(before@.is_live(i));
                        assert(before.value(i) == old(self).value(i));
                    }
                    assert forall|i: int| 0 <= i < self.headers@.len() implies (
                    #[trigger] self.headers@[i]).ref_count <= MAX_REF_COUNT by {
                        assert(before.headers@[i].ref_count <= MAX_REF_COUNT);
                    }
                }
            } else {
                proof {
                    view.lemma_destroyed_wf(t, rest);
                    lemma_total_refs_update(view.blocks, t as int, dead_block());
                    lemma_listed_by_next(self.headers@, self.order@, t);
                }
                if self.headers[t].next != NULL {
                    self.remove(t);
                    proof {
                        lemma_without_one_more(before.order@, Seq::empty(), t);
                        lemma_without_nothing(before.order@);
                    }
                } else {
                    proof {
                        lemma_without_absent(before.order@, Seq::empty(), t);
                        lemma_without_nothing(before.order@);
                    }
                }
                let ghost unlinked = *self;
                proof {
                    assert(Seq::<usize>::empty().push(t) =~= seq![t]);
                    assert(self.order@ == without(before.order@, seq![t]));
                }
                let mut targets = self.trace_block(t);
                let _ = self.values[t].take();
                self.headers[t].ref_count = 0;
                pending.append(&mut targets);
                proof {
                    let gone = view.destroyed(t);
                    assert(self.same_links(&unlinked));
                    self.lemma_same_links(&unlinked);
                    assert(self@.blocks =~= gone.blocks);
                    assert(self@ == gone);
                    assert(pending@ =~= rest + view.edges(t));
                    assert forall|i: usize| self@.is_live(i) implies #[trigger] self.value(i)
                        == old(self).value(i) by {
                        assert(before@.is_live(i));
                        assert(before.value(i) == old(self).value(i));
                    }
                    assert forall|i: int| 0 <= i < self.headers@.len() implies (
                    #[trigger] self.headers@[i]).ref_count <= MAX_REF_COUNT by {
                        assert(before.headers@[i].ref_count <= MAX_REF_COUNT);
                    }
                    assert forall|i: int|
                        0 < i < self.values@.len() && (#[trigger] self.values@[i]) is Some implies (
                    self.order@.contains(i as usize) <==> self.values@[i]->0.type_tracked()) by {
                        assert(before.values@[i] is Some);
                        lemma_without_contains(before.order@, seq![t], i as usize);
                        lemma_push_contains(Seq::empty(), t, i as usize);
                        assert(!Seq::<usize>::empty().contains(i as usize));
                    }
                }
            }
        }
        proof {
            assert(self@.released(pending@) == self@);
        }
    }

    /// Replaces the value of the block that `handle` names by what `f` makes
    /// of it.
    ///
    /// The handles that the old value held pass to `f`, and those that the
    /// new value holds pass to the space: `f` may keep the ones it was given
    /// and add ones that the caller held.
    pub fn update<F: FnOnce(T) -> T>(&mut self, handle: &Cc, f: F)
        requires
            old(self).wf(),
            old(self)@.is_live(handle.index()),
            call_requires(f, (old(self).value(handle.index()),)),
            forall|v: T|
                call_ensures(f, (old(self).value(handle.index()),), v) ==> v.type_tracked()
                    == old(self).value(handle.index()).type_tracked() && old(self)@.with_edges(
                    handle.index(),
                    Seq::empty(),
                ).wf_with(#[trigger] v.edges()),
        ensures
            final(self).wf(),
            call_ensures(
                f,
                (old(self).value(handle.index()),),
                final(self).value(handle.index()),
            ),
            final(self)@ == old(self)@.with_edges(
                handle.index(),
                final(self).value(handle.index()).edges(),
            ),
            forall|i: usize|
                old(self)@.is_live(i) && i != handle.index() ==> #[trigger] final(self).value(i)
                    == old(self).value(i),
    {
        let index = handle.target();
        proof {
            self.lemma_view_len();
        }
        match self.values[index].take() {
            Some(value) => {
                let new_value = f(value);
                let listed = new_value.is_type_tracked();
                let ghost edges = new_value.edges();
                self.values[index] = Some(new_value);
                proof {
                    let view = old(self)@;
                    assert(old(self).values@[index as int] is Some);
                    assert(listed == old(self).order@.contains(index));
                    view.lemma_with_edges_wf(index, edges);
                    assert(self@.blocks =~= view.with_edges(index, edges).blocks);
                    assert(self.same_links(old(self)));
                    self.lemma_same_links(old(self));
                    assert forall|i: int|
                        0 < i < self.values@.len() && (#[trigger] self.values@[i]) is Some implies (
                    self.order@.contains(i as usize) <==> self.values@[i]->0.type_tracked()) by {
                        if i != index {
                            assert(old(self).values@[i] is Some);
                        }
                    }
                    assert forall|i: int| 0 <= i < self.headers@.len() implies (
                    #[trigger] self.headers@[i]).ref_count <= MAX_REF_COUNT by {
                        assert(old(self).headers@[i].ref_count <= MAX_REF_COUNT);
                    }
                }
            },
            None => {
                assert(false);
            },
        }
    }
}

impl<T: Trace> Default for CcObjectSpace<T> {
    /// A space with no block.
    fn default() -> (space: Self)
        ensures
            space.wf(),
            space@ == SpaceView::empty(),
    {
        CcObjectSpace::new()
    }
}

impl<T: Trace> CcObjectSpace<T> {
    /// The header of block `i`.
    pub closed spec fn header(&self, i: usize) -> GcHeader {
        self.headers@[i as int]
    }

    /// In a consistent space the header of every tracked block is linked
    /// both ways, carries no flag, and counts at least one handle.
    pub proof fn law_headers_linked(&self, i: usize)
        requires
            self.wf(),
            self@.listed.contains(i),
        ensures
            !self.header(i).collecting(),
            self.header(i).ref_count >= 1,
            self.header(i).ref_count == self@.ref_count(i),
            self.header(i).next != NULL,
            self.header(self.header(i).next).prev == link_word(i),
            self.header(self.header(i).gc_ref_count() as usize).next == i,
    {
        let order = self.order@;
        let k = order.index_of(i);
        assert(order[k] == i);
        assert(self@.is_live(self@.listed[k]));
        assert(next_at(self.headers@, order, k));
        assert(prev_at(self.headers@, order, k));
        assert(prev_at(self.headers@, order, k + 1));
        assert(next_at(self.headers@, order, k - 1));
        if k > 0 {
            assert(0 < order[k - 1] < self.headers@.len());
        }
        if k + 1 < order.len() {
            assert(0 < order[k + 1] < self.headers@.len());
        }
    }

    /// In a consistent space a value that does not ask to be tracked is in
    /// no list, and a value that does is in the list.
    pub proof fn law_listed_iff_tracked(&self, i: usize)
        requires
            self.wf(),
            self@.is_live(i),
        ensures
            self@.listed.contains(i) <==> self.value(i).type_tracked(),
            !self.value(i).type_tracked() ==> self.header(i).next == NULL,
    {
        assert(self.values@[i as int] is Some);
        lemma_listed_by_next(self.headers@, self.order@, i);
    }
}

} // verus!
