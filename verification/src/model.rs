//! The mathematical model of an object space: blocks, their reference counts
//! and the edges between them, and what collection does to them.
use vstd::prelude::*;

verus! {

/// What the model knows of one block.
pub struct BlockView {
    /// The block holds a value.
    pub live: bool,
    /// The number of handles to the block.
    pub ref_count: nat,
    /// The blocks named by the handles that the block's value holds.
    pub edges: Seq<usize>,
}

/// The model of a space: its blocks by index, and the indices of the tracked
/// blocks in list order. Block `0` is the list's head and never holds a value.
pub struct SpaceView {
    pub blocks: Seq<BlockView>,
    pub listed: Seq<usize>,
}

/// The view of a block that holds no value.
pub open spec fn dead_block() -> BlockView {
    BlockView { live: false, ref_count: 0, edges: Seq::empty() }
}

/// The number of times that `target` occurs in `s`.
pub open spec fn count_in(s: Seq<usize>, target: usize) -> nat
    decreases s.len(),
{
    if s.len() == 0 {
        0
    } else {
        count_in(s.drop_last(), target) + if s.last() == target {
            1nat
        } else {
            0nat
        }
    }
}

/// Appending `x` adds one occurrence of `x`.
pub proof fn lemma_count_in_push(s: Seq<usize>, x: usize, target: usize)
    ensures
        count_in(s.push(x), target) == count_in(s, target) + if x == target {
            1nat
        } else {
            0nat
        },
{
    assert(s.push(x).drop_last() =~= s);
}

/// The occurrences in a concatenation are those in its parts.
pub proof fn lemma_count_in_concat(a: Seq<usize>, b: Seq<usize>, target: usize)
    ensures
        count_in(a + b, target) == count_in(a, target) + count_in(b, target),
    decreases b.len(),
{
    if b.len() == 0 {
        assert(a + b =~= a);
    } else {
        assert((a + b).drop_last() =~= a + b.drop_last());
        lemma_count_in_concat(a, b.drop_last(), target);
    }
}

/// One more member of `s` adds its occurrence.
pub proof fn lemma_count_in_take(s: Seq<usize>, k: int, target: usize)
    requires
        0 <= k < s.len(),
    ensures
        count_in(s.take(k + 1), target) == count_in(s.take(k), target) + if s[k] == target {
            1nat
        } else {
            0nat
        },
{
    assert(s.take(k + 1) =~= s.take(k).push(s[k]));
    lemma_count_in_push(s.take(k), s[k], target);
}

/// What `s` holds occurs in it at least once, and nothing else does.
pub proof fn lemma_count_in_contains(s: Seq<usize>, target: usize)
    ensures
        s.contains(target) <==> count_in(s, target) > 0,
    decreases s.len(),
{
    if s.len() > 0 {
        lemma_count_in_contains(s.drop_last(), target);
        if s.contains(target) {
            let k = choose|k: int| 0 <= k < s.len() && s[k] == target;
            if k < s.len() - 1 {
                assert(s.drop_last()[k] == target);
            }
        }
        if s.drop_last().contains(target) {
            let k = choose|k: int| 0 <= k < s.drop_last().len() && s.drop_last()[k] == target;
            assert(s[k] == target);
        }
        if s.last() == target {
            assert(s[s.len() - 1] == target);
        }
    }
}

/// A prefix holds no more occurrences than the whole.
pub proof fn lemma_count_in_take_le(s: Seq<usize>, k: int, target: usize)
    requires
        0 <= k <= s.len(),
    ensures
        count_in(s.take(k), target) <= count_in(s, target),
{
    assert(s =~= s.take(k) + s.skip(k));
    lemma_count_in_concat(s.take(k), s.skip(k), target);
}

impl SpaceView {
    /// The space with no block but the list head.
    pub open spec fn empty() -> SpaceView {
        SpaceView { blocks: seq![dead_block()], listed: Seq::empty() }
    }

    /// Whether `i` names a block that holds a value.
    pub open spec fn is_live(self, i: usize) -> bool {
        0 < i < self.blocks.len() && self.blocks[i as int].live
    }

    /// The number of handles to block `i`.
    pub open spec fn ref_count(self, i: usize) -> nat {
        self.blocks[i as int].ref_count
    }

    /// The blocks named by the handles that the value of block `i` holds.
    pub open spec fn edges(self, i: usize) -> Seq<usize> {
        self.blocks[i as int].edges
    }

    /// The number of handles to `target` that the values of `sources` hold.
    pub open spec fn incoming_from(self, sources: Seq<usize>, target: usize) -> nat
        decreases sources.len(),
    {
        if sources.len() == 0 {
            0
        } else {
            self.incoming_from(sources.drop_last(), target) + count_in(
                self.edges(sources.last()),
                target,
            )
        }
    }

    /// The number of handles to `target` that tracked values hold.
    pub open spec fn incoming(self, target: usize) -> nat {
        self.incoming_from(self.listed, target)
    }

    /// The number of handles to `target` that no tracked value holds.
    pub open spec fn external(self, target: usize) -> int {
        self.ref_count(target) - self.incoming(target)
    }

    /// The graph is consistent, and the handles `pending` are held outside
    /// the tracked values: each block's reference count covers the handles
    /// that tracked values hold to it and its occurrences in `pending`.
    pub open spec fn wf_with(self, pending: Seq<usize>) -> bool {
        &&& 1 <= self.blocks.len() <= usize::MAX
        &&& !self.blocks[0].live
        &&& self.listed.no_duplicates()
        &&& forall|k: int| 0 <= k < self.listed.len() ==> self.is_live(#[trigger] self.listed[k])
        &&& forall|i: int|
            0 <= i < self.blocks.len() ==> if (#[trigger] self.blocks[i]).live {
                self.blocks[i].ref_count >= 1
            } else {
                self.blocks[i] == dead_block()
            }
        &&& forall|i: int, e: int|
            0 <= i < self.blocks.len() && 0 <= e < self.blocks[i].edges.len() ==> self.is_live(
                #[trigger] self.blocks[i].edges[e],
            )
        &&& forall|i: usize|
            self.is_live(i) && !self.listed.contains(i) ==> (#[trigger] self.edges(i)).len() == 0
        &&& forall|k: int| 0 <= k < pending.len() ==> self.is_live(#[trigger] pending[k])
        &&& forall|j: usize|
            j < self.blocks.len() ==> #[trigger] self.incoming(j) + count_in(pending, j)
                <= self.ref_count(j)
    }

    /// The graph is consistent.
    pub open spec fn wf(self) -> bool {
        self.wf_with(Seq::empty())
    }

    /// The space after a block with the given edges was added: the new block
    /// has one handle and, if `listed`, goes to the front of the list.
    pub open spec fn created(self, edges: Seq<usize>, listed: bool) -> SpaceView {
        SpaceView {
            blocks: self.blocks.push(BlockView { live: true, ref_count: 1, edges }),
            listed: if listed {
                seq![self.blocks.len() as usize] + self.listed
            } else {
                self.listed
            },
        }
    }

    /// The space with the reference count of block `i` replaced.
    pub open spec fn with_ref_count(self, i: usize, ref_count: nat) -> SpaceView {
        SpaceView {
            blocks: self.blocks.update(
                i as int,
                BlockView { ref_count, ..self.blocks[i as int] },
            ),
            listed: self.listed,
        }
    }

    /// The space with the edges of block `i` replaced.
    pub open spec fn with_edges(self, i: usize, edges: Seq<usize>) -> SpaceView {
        SpaceView {
            blocks: self.blocks.update(i as int, BlockView { edges, ..self.blocks[i as int] }),
            listed: self.listed,
        }
    }

    /// The handles from a concatenation are those from its parts.
    pub proof fn lemma_incoming_from_concat(self, a: Seq<usize>, b: Seq<usize>, target: usize)
        ensures
            self.incoming_from(a + b, target) == self.incoming_from(a, target)
                + self.incoming_from(b, target),
        decreases b.len(),
    {
        if b.len() == 0 {
            assert(a + b =~= a);
        } else {
            assert((a + b).drop_last() =~= a + b.drop_last());
            self.lemma_incoming_from_concat(a, b.drop_last(), target);
        }
    }

    /// The handles from one source are the occurrences in its edges.
    pub proof fn lemma_incoming_from_one(self, i: usize, target: usize)
        ensures
            self.incoming_from(seq![i], target) == count_in(self.edges(i), target),
    {
        let one = seq![i];
        assert(one.drop_last() =~= Seq::<usize>::empty());
        assert(one.last() == i);
        assert(self.incoming_from(one.drop_last(), target) == 0);
    }

    /// One more source adds the occurrences in its edges.
    pub proof fn lemma_incoming_from_take(self, sources: Seq<usize>, k: int, target: usize)
        requires
            0 <= k < sources.len(),
        ensures
            self.incoming_from(sources.take(k + 1), target) == self.incoming_from(
                sources.take(k),
                target,
            ) + count_in(self.edges(sources[k]), target),
    {
        assert(sources.take(k + 1).drop_last() =~= sources.take(k));
    }

    /// A prefix of the sources holds no more handles than all of them.
    pub proof fn lemma_incoming_from_take_le(self, sources: Seq<usize>, k: int, target: usize)
        requires
            0 <= k <= sources.len(),
        ensures
            self.incoming_from(sources.take(k), target) <= self.incoming_from(sources, target),
    {
        assert(sources =~= sources.take(k) + sources.skip(k));
        self.lemma_incoming_from_concat(sources.take(k), sources.skip(k), target);
    }

    /// The count depends only on the edges of the sources.
    pub proof fn lemma_incoming_from_frame(
        self,
        other: SpaceView,
        sources: Seq<usize>,
        target: usize,
    )
        requires
            forall|k: int|
                0 <= k < sources.len() ==> self.edges(#[trigger] sources[k]) == other.edges(
                    sources[k],
                ),
        ensures
            self.incoming_from(sources, target) == other.incoming_from(sources, target),
        decreases sources.len(),
    {
        if sources.len() > 0 {
            let rest = sources.drop_last();
            assert forall|k: int| 0 <= k < rest.len() implies self.edges(#[trigger] rest[k])
                == other.edges(rest[k]) by {
                assert(rest[k] == sources[k]);
            }
            self.lemma_incoming_from_frame(other, rest, target);
            assert(sources.last() == sources[sources.len() - 1]);
        }
    }

    /// No source names `target`: the count is zero.
    pub proof fn lemma_incoming_from_none(self, sources: Seq<usize>, target: usize)
        requires
            forall|k: int|
                0 <= k < sources.len() ==> !self.edges(#[trigger] sources[k]).contains(target),
        ensures
            self.incoming_from(sources, target) == 0,
        decreases sources.len(),
    {
        if sources.len() > 0 {
            let rest = sources.drop_last();
            assert forall|k: int| 0 <= k < rest.len() implies !self.edges(
                #[trigger] rest[k],
            ).contains(target) by {
                assert(rest[k] == sources[k]);
            }
            self.lemma_incoming_from_none(rest, target);
            assert(sources.last() == sources[sources.len() - 1]);
            lemma_count_in_contains(self.edges(sources.last()), target);
        }
    }

    /// A source that names `target` is counted.
    pub proof fn lemma_incoming_from_member(self, sources: Seq<usize>, k: int, target: usize)
        requires
            0 <= k < sources.len(),
        ensures
            count_in(self.edges(sources[k]), target) <= self.incoming_from(sources, target),
        decreases sources.len(),
    {
        if k < sources.len() - 1 {
            let rest = sources.drop_last();
            assert(rest[k] == sources[k]);
            self.lemma_incoming_from_member(rest, k, target);
        }
    }

    /// Replacing the edges of one source, which occurs once, moves the count
    /// by the difference between the old and the new edges.
    pub proof fn lemma_incoming_from_with_edges(
        self,
        sources: Seq<usize>,
        i: usize,
        edges: Seq<usize>,
        target: usize,
    )
        requires
            sources.no_duplicates(),
            i < self.blocks.len(),
            forall|k: int| 0 <= k < sources.len() ==> #[trigger] sources[k] < self.blocks.len(),
        ensures
            self.with_edges(i, edges).incoming_from(sources, target) + if sources.contains(i) {
                count_in(self.edges(i), target)
            } else {
                0nat
            } == self.incoming_from(sources, target) + if sources.contains(i) {
                count_in(edges, target)
            } else {
                0nat
            },
        decreases sources.len(),
    {
        let after = self.with_edges(i, edges);
        if sources.len() > 0 {
            let rest = sources.drop_last();
            let last = sources.last();
            assert(sources[sources.len() - 1] == last);
            assert forall|a: int, b: int| 0 <= a < b < rest.len() implies rest[a] != rest[b] by {
                assert(rest[a] == sources[a] && rest[b] == sources[b]);
            }
            self.lemma_incoming_from_with_edges(rest, i, edges, target);
            if last == i {
                assert(sources.contains(i));
                if rest.contains(i) {
                    let k = choose|k: int| 0 <= k < rest.len() && rest[k] == i;
                    assert(sources[k] == i);
                    assert(false);
                }
                assert(after.edges(i) == edges);
            } else {
                assert(after.edges(last) == self.edges(last));
                if sources.contains(i) {
                    let k = choose|k: int| 0 <= k < sources.len() && sources[k] == i;
                    assert(rest[k] == i);
                }
                if rest.contains(i) {
                    let k = choose|k: int| 0 <= k < rest.len() && rest[k] == i;
                    assert(sources[k] == i);
                }
            }
        }
    }

    /// Adding a block whose handles the caller held keeps the graph consistent.
    pub proof fn lemma_created_wf(self, edges: Seq<usize>, listed: bool)
        requires
            self.wf_with(edges),
            listed || edges.len() == 0,
            self.blocks.len() < usize::MAX,
        ensures
            self.created(edges, listed).wf(),
            self.created(edges, listed).incoming(self.blocks.len() as usize) == 0,
    {
        let after = self.created(edges, listed);
        let n = self.blocks.len() as usize;
        assert(after.blocks[n as int].live);
        let none = Seq::<usize>::empty();
        assert forall|k: int| 0 <= k < after.listed.len() implies after.is_live(
            #[trigger] after.listed[k],
        ) by {
            if listed && k > 0 {
                assert(after.listed[k] == self.listed[k - 1]);
            }
        }
        assert forall|a: int, b: int| 0 <= a < b < after.listed.len() implies after.listed[a]
            != after.listed[b] by {
            if listed {
                assert(after.listed[b] == self.listed[b - 1]);
                if a > 0 {
                    assert(after.listed[a] == self.listed[a - 1]);
                }
            }
        }
        assert forall|i: int, e: int|
            0 <= i < after.blocks.len() && 0 <= e < after.blocks[i].edges.len()
                implies after.is_live(#[trigger] after.blocks[i].edges[e]) by {
            if i < n {
                assert(self.is_live(self.blocks[i].edges[e]));
            } else {
                assert(after.blocks[i].edges == edges);
                assert(self.is_live(edges[e]));
            }
        }
        assert forall|i: usize| after.is_live(i) && !after.listed.contains(i) implies (
        #[trigger] after.edges(i)).len() == 0 by {
            if i < n {
                if self.listed.contains(i) {
                    let k = choose|k: int| 0 <= k < self.listed.len() && self.listed[k] == i;
                    if listed {
                        assert(after.listed[k + 1] == i);
                    }
                }
                assert(self.edges(i).len() == 0);
            } else {
                if listed {
                    assert(after.listed[0] == n);
                }
            }
        }
        assert forall|k: int| 0 <= k < self.listed.len() implies after.edges(
            #[trigger] self.listed[k],
        ) == self.edges(self.listed[k]) by {
            assert(self.is_live(self.listed[k]));
        }
        // No handle names the new block yet.
        assert(after.incoming(n) == 0) by {
            assert forall|k: int| 0 <= k < self.listed.len() implies !self.edges(
                #[trigger] self.listed[k],
            ).contains(n) by {
                let s = self.edges(self.listed[k]);
                if s.contains(n) {
                    let e = choose|e: int| 0 <= e < s.len() && s[e] == n;
                    assert(self.is_live(self.blocks[self.listed[k] as int].edges[e]));
                }
            }
            self.lemma_incoming_from_none(self.listed, n);
            after.lemma_incoming_from_frame(self, self.listed, n);
            if edges.contains(n) {
                let e = choose|e: int| 0 <= e < edges.len() && edges[e] == n;
                assert(self.is_live(edges[e]));
            }
            lemma_count_in_contains(edges, n);
            if listed {
                after.lemma_incoming_from_concat(seq![n], self.listed, n);
                after.lemma_incoming_from_one(n, n);
            }
        }
        assert forall|j: usize| j < after.blocks.len() implies #[trigger] after.incoming(j)
            + count_in(none, j) <= after.ref_count(j) by {
            if j != n {
                after.lemma_incoming_from_frame(self, self.listed, j);
                if listed {
                    after.lemma_incoming_from_concat(seq![n], self.listed, j);
                    after.lemma_incoming_from_one(n, j);
                }
                assert(self.incoming(j) + count_in(edges, j) <= self.ref_count(j));
            }
        }
    }

    /// Changing one reference count keeps the graph consistent as long as the
    /// count still covers the handles to the block.
    pub proof fn lemma_with_ref_count_wf(
        self,
        i: usize,
        ref_count: nat,
        base: Seq<usize>,
        pending: Seq<usize>,
    )
        requires
            self.wf_with(base),
            self.is_live(i),
            ref_count >= 1,
            forall|k: int| 0 <= k < pending.len() ==> self.is_live(#[trigger] pending[k]),
            forall|j: usize|
                j < self.blocks.len() && j != i ==> #[trigger] self.incoming(j) + count_in(
                    pending,
                    j,
                ) <= self.ref_count(j),
            self.incoming(i) + count_in(pending, i) <= ref_count,
        ensures
            self.with_ref_count(i, ref_count).wf_with(pending),
    {
        let after = self.with_ref_count(i, ref_count);
        assert forall|k: int| 0 <= k < after.listed.len() implies after.is_live(
            #[trigger] after.listed[k],
        ) by {
            assert(self.is_live(self.listed[k]));
        }
        assert forall|i2: int, e: int|
            0 <= i2 < after.blocks.len() && 0 <= e < after.blocks[i2].edges.len()
                implies after.is_live(#[trigger] after.blocks[i2].edges[e]) by {
            assert(self.is_live(self.blocks[i2].edges[e]));
        }
        assert forall|i2: usize| after.is_live(i2) && !after.listed.contains(i2) implies (
        #[trigger] after.edges(i2)).len() == 0 by {
            assert(self.edges(i2).len() == 0);
        }
        assert forall|k: int| 0 <= k < pending.len() implies after.is_live(
            #[trigger] pending[k],
        ) by {
            assert(self.is_live(pending[k]));
        }
        assert forall|j: usize| j < after.blocks.len() implies #[trigger] after.incoming(j)
            + count_in(pending, j) <= after.ref_count(j) by {
            after.lemma_incoming_from_frame(self, self.listed, j);
            if j != i {
                assert(self.incoming(j) + count_in(pending, j) <= self.ref_count(j));
            }
        }
    }

    /// Replacing the value of a block by one whose handles the caller held,
    /// beside those of the old value, keeps the graph consistent.
    pub proof fn lemma_with_edges_wf(self, i: usize, edges: Seq<usize>)
        requires
            self.wf(),
            self.is_live(i),
            self.with_edges(i, Seq::empty()).wf_with(edges),
            self.listed.contains(i) || edges.len() == 0,
        ensures
            self.with_edges(i, edges).wf(),
    {
        let base = self.with_edges(i, Seq::empty());
        let after = self.with_edges(i, edges);
        let none = Seq::<usize>::empty();
        assert(after.blocks =~= base.with_edges(i, edges).blocks);
        assert(after == base.with_edges(i, edges));
        assert forall|k: int| 0 <= k < after.listed.len() implies after.is_live(
            #[trigger] after.listed[k],
        ) by {
            assert(self.is_live(self.listed[k]));
        }
        assert forall|b: int, e: int|
            0 <= b < after.blocks.len() && 0 <= e < after.blocks[b].edges.len()
                implies after.is_live(#[trigger] after.blocks[b].edges[e]) by {
            if b == i {
                assert(base.is_live(edges[e]));
            } else {
                assert(self.is_live(self.blocks[b].edges[e]));
            }
        }
        assert forall|b: usize| after.is_live(b) && !after.listed.contains(b) implies (
        #[trigger] after.edges(b)).len() == 0 by {
            if b != i {
                assert(self.edges(b).len() == 0);
            }
        }
        assert forall|j: usize| j < after.blocks.len() implies #[trigger] after.incoming(j)
            + count_in(none, j) <= after.ref_count(j) by {
            assert forall|k: int| 0 <= k < base.listed.len() implies #[trigger] base.listed[k]
                < base.blocks.len() by {
                assert(self.is_live(self.listed[k]));
            }
            base.lemma_incoming_from_with_edges(base.listed, i, edges, j);
            assert(base.incoming(j) + count_in(edges, j) <= base.ref_count(j));
            assert(count_in(base.edges(i), j) == 0);
            if !self.listed.contains(i) {
                assert(edges =~= none);
            }
        }
    }

    /// The handle to a new block is held outside the tracked values.
    pub proof fn lemma_created_outside(self, edges: Seq<usize>, listed: bool)
        requires
            self.wf_with(edges),
            listed || edges.len() == 0,
            self.blocks.len() < usize::MAX,
        ensures
            self.created(edges, listed).wf_with(seq![self.blocks.len() as usize]),
    {
        let after = self.created(edges, listed);
        let n = self.blocks.len() as usize;
        let one = seq![n];
        self.lemma_created_wf(edges, listed);
        assert(one.drop_last() =~= Seq::<usize>::empty());
        assert(after.is_live(one[0]));
        assert forall|j: usize| j < after.blocks.len() implies #[trigger] after.incoming(j)
            + count_in(one, j) <= after.ref_count(j) by {
            assert(after.incoming(j) + count_in(Seq::empty(), j) <= after.ref_count(j));
        }
    }

    /// A new handle to a block is held outside the tracked values.
    pub proof fn lemma_cloned_outside(self, i: usize)
        requires
            self.wf(),
            self.is_live(i),
        ensures
            self.with_ref_count(i, self.ref_count(i) + 1).wf_with(seq![i]),
            self.with_ref_count(i, self.ref_count(i) + 1).wf(),
    {
        let one = seq![i];
        let none = Seq::<usize>::empty();
        assert(one.drop_last() =~= none);
        assert(self.is_live(one[0]));
        assert forall|j: usize| j < self.blocks.len() && j != i implies #[trigger] self.incoming(
            j,
        ) + count_in(one, j) <= self.ref_count(j) by {
            assert(self.incoming(j) + count_in(none, j) <= self.ref_count(j));
        }
        assert(self.incoming(i) + count_in(none, i) <= self.ref_count(i));
        self.lemma_with_ref_count_wf(i, self.ref_count(i) + 1, none, one);
        self.lemma_with_ref_count_wf(i, self.ref_count(i) + 1, none, none);
    }
}

} // verus!
