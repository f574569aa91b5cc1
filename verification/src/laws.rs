//! What holds of every space, stated over the model.
use crate::model::count_in;
use crate::model::BlockView;
use crate::model::SpaceView;
use vstd::prelude::*;

verus! {

/// The number of blocks among `blocks` that hold a value.
pub open spec fn live_count(blocks: Seq<BlockView>) -> nat
    decreases blocks.len(),
{
    if blocks.len() == 0 {
        0
    } else {
        live_count(blocks.drop_last()) + if blocks.last().live {
            1nat
        } else {
            0nat
        }
    }
}

impl SpaceView {
    /// The number of blocks ever made in the space.
    pub open spec fn created_count(self) -> nat {
        (self.blocks.len() - 1) as nat
    }

    /// The number of blocks whose value has been dropped.
    pub open spec fn dropped_count(self) -> int {
        self.created_count() - live_count(self.blocks)
    }

    /// No handle to a block with a value is held outside the tracked values.
    pub open spec fn unreferenced(self) -> bool {
        forall|i: usize| self.is_live(i) ==> #[trigger] self.external(i) == 0
    }
}

/// Where no block holds a value, the count is zero.
proof fn lemma_live_count_none(blocks: Seq<BlockView>)
    requires
        forall|i: int| 0 <= i < blocks.len() ==> !(#[trigger] blocks[i]).live,
    ensures
        live_count(blocks) == 0,
    decreases blocks.len(),
{
    if blocks.len() > 0 {
        let rest = blocks.drop_last();
        assert forall|i: int| 0 <= i < rest.len() implies !(#[trigger] rest[i]).live by {
            assert(rest[i] == blocks[i]);
        }
        lemma_live_count_none(rest);
        assert(blocks.last() == blocks[blocks.len() - 1]);
    }
}

/// A new block adds one to the tracked blocks if its value asks to be
/// tracked, and nothing otherwise: the tracked blocks of a space in which no
/// handle was given up are the blocks made for tracked values.
pub proof fn law_create_counts(view: SpaceView, edges: Seq<usize>, listed: bool)
    requires
        view.wf(),
    ensures
        view.created(edges, listed).listed.len() == view.listed.len() + if listed {
            1nat
        } else {
            0nat
        },
        view.created(edges, listed).created_count() == view.created_count() + 1,
{
}

/// A collection reclaims exactly the tracked blocks that no chain of handles
/// reaches from a handle held outside the tracked values; the other tracked
/// blocks stay, in their order.
pub proof fn law_collects_the_unreachable(view: SpaceView, i: usize)
    requires
        view.wf(),
        view.listed.contains(i),
    ensures
        view.garbage().contains(i) <==> !view.reachable(i),
        view.collected().listed.contains(i) <==> view.reachable(i),
        view.reachable(i) ==> view.collected().is_live(i),
        !view.reachable(i) ==> !view.collected().is_live(i),
{
    view.lemma_select_contains(view.listed, true, i);
    view.lemma_select_contains(view.listed, false, i);
    if view.reachable(i) {
        view.lemma_survivor_block(i);
    } else {
        let k = view.listed.index_of(i);
        assert(view.is_live(view.listed[k]));
    }
}

/// Once the handles held outside the tracked values are all given up, the
/// tracked blocks that reference counting has left are garbage, all of them:
/// a collection reclaims exactly these, and then the space tracks nothing.
pub proof fn law_unreferenced_is_garbage(view: SpaceView)
    requires
        view.wf(),
        forall|k: int|
            0 <= k < view.listed.len() ==> view.external(#[trigger] view.listed[k]) == 0,
    ensures
        view.garbage() == view.listed,
        view.collected().listed == Seq::<usize>::empty(),
{
    assert forall|k: int| 0 <= k < view.listed.len() implies !view.reachable(
        #[trigger] view.listed[k],
    ) by {
        let x = view.listed[k];
        if view.reachable(x) {
            let p = choose|p: Seq<usize>| #[trigger] view.is_path(p) && p.last() == x;
            assert(view.is_root(p[0]));
            let m = view.listed.index_of(p[0]);
            assert(view.external(view.listed[m]) == 0);
        }
    }
    view.lemma_select_all(view.listed);
}

/// Every value is dropped, and none twice: when no handle is held outside
/// the tracked values, a collection leaves no block with a value, so that as
/// many values have been dropped as blocks were made.
pub proof fn law_every_value_dropped(view: SpaceView)
    requires
        view.wf(),
        view.unreferenced(),
    ensures
        forall|i: usize| !view.collected().is_live(i),
        view.collected().dropped_count() == view.created_count(),
        view.collected().created_count() == view.created_count(),
{
    let after = view.collected();
    assert forall|k: int| 0 <= k < view.listed.len() implies view.external(
        #[trigger] view.listed[k],
    ) == 0 by {
        assert(view.is_live(view.listed[k]));
    }
    law_unreferenced_is_garbage(view);
    assert forall|i: int| 0 <= i < after.blocks.len() implies !(
    #[trigger] after.blocks[i]).live by {
        if view.blocks[i].live && i > 0 {
            assert(view.is_live(i as usize));
            assert(view.external(i as usize) == 0);
        }
    }
    lemma_live_count_none(after.blocks);
}

/// A value dropped by a collection stays dropped: a block without a value
/// has none after a collection.
pub proof fn law_collection_revives_nothing(view: SpaceView, i: usize)
    requires
        view.wf(),
        !view.is_live(i),
    ensures
        !view.collected().is_live(i),
{
}

/// The last handle to a block takes the block with it at once, tracked or
/// not: no collection is needed.
pub proof fn law_last_handle_drops(view: SpaceView, target: usize)
    requires
        view.wf_with(seq![target]),
        view.ref_count(target) == 1,
    ensures
        !view.released(seq![target]).is_live(target),
        view.released(seq![target]).wf(),
{
    let pending = seq![target];
    let rest = Seq::<usize>::empty();
    assert(pending =~= rest.push(target));
    assert(pending.drop_last() =~= rest);
    assert(view.is_live(pending[0]));
    view.lemma_destroyed_wf(target, rest);
    let gone = view.destroyed(target);
    gone.lemma_released_wf(rest + view.edges(target));
    view.lemma_released_wf(pending);
    assert(view.released(pending) == gone.released(rest + view.edges(target)));
    if view.released(pending).is_live(target) {
        assert(gone.released(rest + view.edges(target)).is_live(target));
    }
}

/// A handle to a block that has other handles only lowers its count.
pub proof fn law_other_handles_keep(view: SpaceView, target: usize)
    requires
        view.wf_with(seq![target]),
        view.ref_count(target) > 1,
    ensures
        view.released(seq![target]) == view.with_ref_count(
            target,
            (view.ref_count(target) - 1) as nat,
        ),
{
    let pending = seq![target];
    assert(pending.drop_last() =~= Seq::<usize>::empty());
    assert(view.is_live(pending[0]));
    let lowered = view.with_ref_count(target, (view.ref_count(target) - 1) as nat);
    assert(lowered.released(Seq::empty()) == lowered);
}

/// A second collection right after a collection finds nothing and changes
/// nothing.
pub proof fn law_collect_twice(view: SpaceView)
    requires
        view.wf(),
    ensures
        view.collected().wf(),
        view.collected().garbage().len() == 0,
        view.collected().collected() == view.collected(),
{
    view.lemma_collected_wf();
    view.lemma_collected_settled();
}

/// A collection leaves the counts consistent: a block that stays has at
/// least one handle, and no fewer than the tracked values hold to it.
pub proof fn law_survivors_counted(view: SpaceView, i: usize)
    requires
        view.wf(),
        view.collected().is_live(i),
    ensures
        view.is_live(i),
        view.collected().ref_count(i) >= 1,
        view.collected().ref_count(i) >= view.collected().incoming(i),
        view.collected().external(i) == view.external(i),
        view.collected().edges(i) == view.edges(i),
{
    view.lemma_collected_wf();
    let after = view.collected();
    assert(after.incoming(i) + count_in(Seq::empty(), i) <= after.ref_count(i));
    view.lemma_collected_incoming(i);
    view.lemma_garbage_incoming_le(i);
}

/// Giving up handles takes nothing from a block that stays but the handles
/// given up: the handles to it that are held outside the tracked values are
/// as many as before, less those. A block goes only when the handles given
/// up were all the handles to it that were held outside the tracked values.
pub proof fn law_release_is_local(view: SpaceView, pending: Seq<usize>, i: usize)
    requires
        view.wf_with(pending),
        view.is_live(i),
    ensures
        view.released(pending).wf(),
        view.released(pending).is_live(i) ==> view.released(pending).external(i)
            == view.external(i) - count_in(pending, i) && view.released(pending).edges(i)
            == view.edges(i),
        !view.released(pending).is_live(i) ==> view.external(i) == count_in(pending, i),
{
    view.lemma_released_wf(pending);
    view.lemma_released_external(pending, i);
}

/// Once every handle that is held outside the tracked values has been given
/// up, one collection leaves no value: what reference counting has not
/// dropped is garbage, and every value ever stored has been dropped.
pub proof fn law_nothing_outlives_its_handles(view: SpaceView, pending: Seq<usize>)
    requires
        view.wf_with(pending),
        forall|i: usize| view.is_live(i) ==> #[trigger] view.external(i) == count_in(pending, i),
    ensures
        view.released(pending).unreferenced(),
        view.released(pending).garbage() == view.released(pending).listed,
        forall|i: usize| !view.released(pending).collected().is_live(i),
        view.released(pending).collected().dropped_count() == view.created_count(),
{
    let left = view.released(pending);
    view.lemma_released_wf(pending);
    assert forall|i: usize| left.is_live(i) implies #[trigger] left.external(i) == 0 by {
        view.lemma_released_external(pending, i);
        assert(view.external(i) == count_in(pending, i));
    }
    assert forall|k: int| 0 <= k < left.listed.len() implies left.external(
        #[trigger] left.listed[k],
    ) == 0 by {
        assert(left.is_live(left.listed[k]));
    }
    law_unreferenced_is_garbage(left);
    law_every_value_dropped(left);
}

} // verus!
