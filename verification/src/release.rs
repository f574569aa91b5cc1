//! What giving up handles does to a space: the count of a block goes down,
//! and a block that loses its last handle is destroyed and gives up the
//! handles that its value held.
use crate::model::count_in;
use crate::model::dead_block;
use crate::model::lemma_count_in_concat;
use crate::model::lemma_count_in_contains;
use crate::model::lemma_count_in_push;
use crate::model::BlockView;
use crate::model::SpaceView;
use crate::reach::lemma_without_absent;
use crate::reach::lemma_without_contains;
use crate::reach::lemma_without_no_duplicates;
use crate::reach::lemma_without_nothing;
use crate::reach::lemma_without_one_more;
use crate::reach::without;
use vstd::prelude::*;

verus! {

/// The sum of the reference counts of `blocks`.
pub open spec fn total_refs(blocks: Seq<BlockView>) -> nat
    decreases blocks.len(),
{
    if blocks.len() == 0 {
        0
    } else {
        total_refs(blocks.drop_last()) + blocks.last().ref_count
    }
}

/// Replacing one block moves the sum by the difference of the counts.
pub proof fn lemma_total_refs_update(blocks: Seq<BlockView>, i: int, block: BlockView)
    requires
        0 <= i < blocks.len(),
    ensures
        total_refs(blocks.update(i, block)) + blocks[i].ref_count == total_refs(blocks)
            + block.ref_count,
    decreases blocks.len(),
{
    let after = blocks.update(i, block);
    if i == blocks.len() - 1 {
        assert(after.drop_last() =~= blocks.drop_last());
    } else {
        assert(after.drop_last() =~= blocks.drop_last().update(i, block));
        lemma_total_refs_update(blocks.drop_last(), i, block);
    }
}

impl SpaceView {
    /// The space without the value of block `i`.
    pub open spec fn destroyed(self, i: usize) -> SpaceView {
        SpaceView {
            blocks: self.blocks.update(i as int, dead_block()),
            listed: without(self.listed, seq![i]),
        }
    }

    /// The space after the handles `pending` were given up, the last first.
    /// A handle to a block with other handles lowers its count. The last
    /// handle to a block destroys it, and the handles that its value held
    /// are given up in turn.
    pub open spec fn released(self, pending: Seq<usize>) -> SpaceView
        decreases total_refs(self.blocks), pending.len(),
    {
        if pending.len() == 0 {
            self
        } else {
            let t = pending.last();
            let rest = pending.drop_last();
            if !self.is_live(t) || self.ref_count(t) == 0 {
                self.released(rest)
            } else if self.ref_count(t) > 1 {
                proof {
                    lemma_total_refs_update(
                        self.blocks,
                        t as int,
                        BlockView {
                            ref_count: (self.ref_count(t) - 1) as nat,
                            ..self.blocks[t as int]
                        },
                    );
                }
                self.with_ref_count(t, (self.ref_count(t) - 1) as nat).released(rest)
            } else {
                proof {
                    lemma_total_refs_update(self.blocks, t as int, dead_block());
                }
                self.destroyed(t).released(rest + self.edges(t))
            }
        }
    }

    /// Taking one source out of the list takes its handles out of the count.
    pub proof fn lemma_incoming_from_remove(self, sources: Seq<usize>, p: int, target: usize)
        requires
            0 <= p < sources.len(),
        ensures
            self.incoming_from(sources.remove(p), target) + count_in(
                self.edges(sources[p]),
                target,
            ) == self.incoming_from(sources, target),
    {
        let head = sources.take(p);
        let tail = sources.skip(p + 1);
        assert(sources =~= head + seq![sources[p]] + tail);
        assert(sources.remove(p) =~= head + tail);
        self.lemma_incoming_from_concat(head, tail, target);
        self.lemma_incoming_from_concat(head + seq![sources[p]], tail, target);
        self.lemma_incoming_from_concat(head, seq![sources[p]], target);
        self.lemma_incoming_from_one(sources[p], target);
    }

    /// The tracked values of the space without block `t` hold the handles
    /// that they held, but for those of the value of `t`.
    pub proof fn lemma_destroyed_incoming(self, t: usize, base: Seq<usize>, target: usize)
        requires
            self.wf_with(base),
            self.is_live(t),
        ensures
            self.destroyed(t).incoming(target) + count_in(self.edges(t), target)
                == self.incoming(target),
    {
        let after = self.destroyed(t);
        let one = seq![t];
        assert(one =~= Seq::<usize>::empty().push(t));
        assert forall|k: int| 0 <= k < after.listed.len() implies after.edges(
            #[trigger] after.listed[k],
        ) == self.edges(after.listed[k]) by {
            let x = after.listed[k];
            assert(after.listed.contains(x));
            lemma_without_contains(self.listed, one, x);
            assert(one[0] == t);
            let m = self.listed.index_of(x);
            assert(self.is_live(self.listed[m]));
        }
        after.lemma_incoming_from_frame(self, after.listed, target);
        if self.listed.contains(t) {
            lemma_without_one_more(self.listed, Seq::empty(), t);
            lemma_without_nothing(self.listed);
            let p = self.listed.index_of(t);
            self.lemma_incoming_from_remove(self.listed, p, target);
        } else {
            lemma_without_absent(self.listed, Seq::empty(), t);
            lemma_without_nothing(self.listed);
            assert(self.edges(t).len() == 0);
        }
    }

    /// Giving up a handle to a block that has others keeps the graph consistent.
    pub proof fn lemma_lowered_wf(self, t: usize, rest: Seq<usize>)
        requires
            self.wf_with(rest.push(t)),
            self.ref_count(t) > 1,
        ensures
            self.with_ref_count(t, (self.ref_count(t) - 1) as nat).wf_with(rest),
    {
        let pending = rest.push(t);
        assert(pending[rest.len() as int] == t);
        assert(self.is_live(pending[rest.len() as int]));
        assert forall|k: int| 0 <= k < rest.len() implies self.is_live(#[trigger] rest[k]) by {
            assert(pending[k] == rest[k]);
        }
        assert forall|j: usize| j < self.blocks.len() && j != t implies #[trigger] self.incoming(
            j,
        ) + count_in(rest, j) <= self.ref_count(j) by {
            lemma_count_in_push(rest, t, j);
            assert(self.incoming(j) + count_in(pending, j) <= self.ref_count(j));
        }
        lemma_count_in_push(rest, t, t);
        assert(self.incoming(t) + count_in(pending, t) <= self.ref_count(t));
        self.lemma_with_ref_count_wf(t, (self.ref_count(t) - 1) as nat, pending, rest);
    }

    /// Giving up the last handle to a block keeps the graph consistent: the
    /// block goes, and the handles of its value are held by nobody.
    pub proof fn lemma_destroyed_wf(self, t: usize, rest: Seq<usize>)
        requires
            self.wf_with(rest.push(t)),
            self.ref_count(t) == 1,
        ensures
            self.destroyed(t).wf_with(rest + self.edges(t)),
            self.incoming(t) == 0,
            !rest.contains(t),
            !self.edges(t).contains(t),
    {
        let pending = rest.push(t);
        let after = self.destroyed(t);
        let handed = rest + self.edges(t);
        let one = seq![t];
        assert(one =~= Seq::<usize>::empty().push(t));
        assert(pending[rest.len() as int] == t);
        assert(self.is_live(pending[rest.len() as int]));
        lemma_count_in_push(rest, t, t);
        assert(self.incoming(t) + count_in(pending, t) <= self.ref_count(t));
        lemma_count_in_contains(rest, t);
        // Nobody holds a handle to `t`.
        assert forall|k: int| 0 <= k < self.listed.len() implies !self.edges(
            #[trigger] self.listed[k],
        ).contains(t) by {
            self.lemma_incoming_from_member(self.listed, k, t);
            lemma_count_in_contains(self.edges(self.listed[k]), t);
        }
        assert forall|i: int| 0 <= i < self.blocks.len() implies !(
        #[trigger] self.blocks[i]).edges.contains(t) by {
            let edges = self.blocks[i].edges;
            if edges.contains(t) {
                assert(edges.len() > 0);
                if !self.blocks[i].live {
                    assert(self.blocks[i] == dead_block());
                } else {
                    assert(self.is_live(i as usize));
                    assert(self.edges(i as usize) == edges);
                    if self.listed.contains(i as usize) {
                        let k = self.listed.index_of(i as usize);
                        assert(!self.edges(self.listed[k]).contains(t));
                    }
                }
            }
        }
        assert(self.edges(t) == self.blocks[t as int].edges);
        lemma_without_no_duplicates(self.listed, one);
        assert forall|k: int| 0 <= k < after.listed.len() implies after.is_live(
            #[trigger] after.listed[k],
        ) by {
            let x = after.listed[k];
            assert(after.listed.contains(x));
            lemma_without_contains(self.listed, one, x);
            assert(one[0] == t);
            let m = self.listed.index_of(x);
            assert(self.is_live(self.listed[m]));
        }
        assert forall|i: int, e: int|
            0 <= i < after.blocks.len() && 0 <= e < after.blocks[i].edges.len()
                implies after.is_live(#[trigger] after.blocks[i].edges[e]) by {
            assert(i != t);
            assert(self.is_live(self.blocks[i].edges[e]));
            assert(self.blocks[i].edges.contains(self.blocks[i].edges[e]));
        }
        assert forall|i: usize| after.is_live(i) && !after.listed.contains(i) implies (
        #[trigger] after.edges(i)).len() == 0 by {
            lemma_without_contains(self.listed, one, i);
            assert(one[0] == t);
            if one.contains(i) {
                let m = one.index_of(i);
                assert(one[m] == i);
            }
            assert(self.edges(i).len() == 0);
        }
        assert forall|k: int| 0 <= k < handed.len() implies after.is_live(
            #[trigger] handed[k],
        ) by {
            if k < rest.len() {
                assert(pending[k] == rest[k]);
                assert(self.is_live(pending[k]));
                assert(rest.contains(rest[k]));
            } else {
                let e = k - rest.len();
                assert(handed[k] == self.blocks[t as int].edges[e]);
                assert(self.is_live(self.blocks[t as int].edges[e]));
                assert(self.edges(t).contains(self.edges(t)[e]));
            }
        }
        assert forall|j: usize| j < after.blocks.len() implies #[trigger] after.incoming(j)
            + count_in(handed, j) <= after.ref_count(j) by {
            self.lemma_destroyed_incoming(t, pending, j);
            lemma_count_in_concat(rest, self.edges(t), j);
            lemma_count_in_push(rest, t, j);
            assert(self.incoming(j) + count_in(pending, j) <= self.ref_count(j));
            if j == t {
                lemma_count_in_contains(self.edges(t), t);
            }
        }
    }

    /// Giving up handles that are held outside the tracked values leaves a
    /// consistent graph with as many blocks, in which what was gone is gone.
    pub proof fn lemma_released_wf(self, pending: Seq<usize>)
        requires
            self.wf_with(pending),
        ensures
            self.released(pending).wf(),
            self.released(pending).blocks.len() == self.blocks.len(),
            forall|i: usize|
                #![trigger self.released(pending).is_live(i)]
                self.released(pending).is_live(i) ==> self.is_live(i) && self.released(
                    pending,
                ).edges(i) == self.edges(i),
        decreases total_refs(self.blocks), pending.len(),
    {
        if pending.len() > 0 {
            let t = pending.last();
            let rest = pending.drop_last();
            assert(pending =~= rest.push(t));
            assert(self.is_live(pending[pending.len() - 1]));
            assert(self.blocks[t as int].ref_count >= 1);
            if self.ref_count(t) > 1 {
                let lowered = self.with_ref_count(t, (self.ref_count(t) - 1) as nat);
                self.lemma_lowered_wf(t, rest);
                lemma_total_refs_update(self.blocks, t as int, lowered.blocks[t as int]);
                lowered.lemma_released_wf(rest);
                assert forall|i: usize|
                    #![trigger self.released(pending).is_live(i)]
                    self.released(pending).is_live(i) implies self.is_live(i) && self.released(
                    pending,
                ).edges(i) == self.edges(i) by {
                    assert(lowered.released(rest).is_live(i));
                }
            } else {
                let gone = self.destroyed(t);
                self.lemma_destroyed_wf(t, rest);
                lemma_total_refs_update(self.blocks, t as int, dead_block());
                gone.lemma_released_wf(rest + self.edges(t));
                assert forall|i: usize|
                    #![trigger self.released(pending).is_live(i)]
                    self.released(pending).is_live(i) implies self.is_live(i) && self.released(
                    pending,
                ).edges(i) == self.edges(i) by {
                    assert(gone.released(rest + self.edges(t)).is_live(i));
                }
            }
        }
    }

    /// Giving up handles leaves to every block that stays the handles held
    /// outside the tracked values, but for those given up; and a block goes
    /// only when the handles given up were all that were held outside.
    pub proof fn lemma_released_external(self, pending: Seq<usize>, i: usize)
        requires
            self.wf_with(pending),
            self.is_live(i),
        ensures
            self.released(pending).is_live(i) ==> self.released(pending).external(i)
                == self.external(i) - count_in(pending, i),
            !self.released(pending).is_live(i) ==> self.external(i) == count_in(pending, i),
        decreases total_refs(self.blocks), pending.len(),
    {
        if pending.len() > 0 {
            let t = pending.last();
            let rest = pending.drop_last();
            assert(pending =~= rest.push(t));
            assert(self.is_live(pending[pending.len() - 1]));
            assert(self.blocks[t as int].ref_count >= 1);
            lemma_count_in_push(rest, t, i);
            if self.ref_count(t) > 1 {
                let lowered = self.with_ref_count(t, (self.ref_count(t) - 1) as nat);
                self.lemma_lowered_wf(t, rest);
                lemma_total_refs_update(self.blocks, t as int, lowered.blocks[t as int]);
                lowered.lemma_incoming_from_frame(self, self.listed, i);
                lowered.lemma_released_external(rest, i);
            } else {
                let gone = self.destroyed(t);
                let handed = rest + self.edges(t);
                self.lemma_destroyed_wf(t, rest);
                lemma_total_refs_update(self.blocks, t as int, dead_block());
                if i == t {
                    gone.lemma_released_wf(handed);
                    lemma_count_in_contains(rest, t);
                } else {
                    self.lemma_destroyed_incoming(t, pending, i);
                    lemma_count_in_concat(rest, self.edges(t), i);
                    gone.lemma_released_external(handed, i);
                }
            }
        }
    }
}

} // verus!
