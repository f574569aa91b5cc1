//! Reachability in the model, and what a collection does to a space.
//!
//! A tracked block is a root if some handle to it is held outside the tracked
//! values. A tracked block is reachable if a chain of handles leads to it from
//! a root through tracked blocks. The tracked blocks that are not reachable
//! are garbage: only cycles among themselves keep them alive.
use crate::model::count_in;
use crate::model::dead_block;
use crate::model::lemma_count_in_contains;
use crate::model::lemma_count_in_take;
use crate::model::lemma_count_in_take_le;
use crate::model::BlockView;
use crate::model::SpaceView;
use vstd::prelude::*;

verus! {

/// The members of `s` that do not occur in `removed`, in the order of `s`.
pub open spec fn without(s: Seq<usize>, removed: Seq<usize>) -> Seq<usize>
    decreases s.len(),
{
    if s.len() == 0 {
        s
    } else {
        let rest = without(s.drop_last(), removed);
        if removed.contains(s.last()) {
            rest
        } else {
            rest.push(s.last())
        }
    }
}

/// What `s.push(v)` holds is what `s` holds, and `v`.
pub proof fn lemma_push_contains(s: Seq<usize>, v: usize, x: usize)
    ensures
        s.push(v).contains(x) <==> s.contains(x) || v == x,
{
    let t = s.push(v);
    if s.contains(x) {
        let k = s.index_of(x);
        assert(t[k] == x);
    }
    if v == x {
        assert(t[s.len() as int] == x);
    }
    if t.contains(x) {
        let k = t.index_of(x);
        if k < s.len() {
            assert(s[k] == x);
        }
    }
}

/// What `s` holds is what `s` without its last member holds, and that member.
pub proof fn lemma_drop_last_contains(s: Seq<usize>, x: usize)
    requires
        s.len() > 0,
    ensures
        s.contains(x) <==> s.drop_last().contains(x) || s.last() == x,
{
    assert(s =~= s.drop_last().push(s.last()));
    lemma_push_contains(s.drop_last(), s.last(), x);
}

/// The last of distinct members does not occur before.
pub proof fn lemma_drop_last_no_duplicates(s: Seq<usize>)
    requires
        s.len() > 0,
        s.no_duplicates(),
    ensures
        s.drop_last().no_duplicates(),
        !s.drop_last().contains(s.last()),
{
    let rest = s.drop_last();
    assert forall|a: int, b: int| 0 <= a < b < rest.len() implies rest[a] != rest[b] by {
        assert(rest[a] == s[a] && rest[b] == s[b]);
    }
    if rest.contains(s.last()) {
        let k = rest.index_of(s.last());
        assert(s[k] == s[s.len() - 1]);
    }
}

/// Appending a new member to distinct members leaves them distinct.
pub proof fn lemma_push_no_duplicates(s: Seq<usize>, v: usize)
    requires
        s.no_duplicates(),
        !s.contains(v),
    ensures
        s.push(v).no_duplicates(),
{
    let t = s.push(v);
    assert forall|a: int, b: int| 0 <= a < b < t.len() implies t[a] != t[b] by {
        if b < s.len() {
            assert(t[a] == s[a] && t[b] == s[b]);
        } else {
            assert(t[a] == s[a]);
            assert(s.contains(s[a]));
        }
    }
}

/// What is left are the members of `s` that `removed` does not hold.
pub proof fn lemma_without_contains(s: Seq<usize>, removed: Seq<usize>, x: usize)
    ensures
        without(s, removed).contains(x) <==> s.contains(x) && !removed.contains(x),
    decreases s.len(),
{
    if s.len() > 0 {
        lemma_without_contains(s.drop_last(), removed, x);
        lemma_drop_last_contains(s, x);
        lemma_push_contains(without(s.drop_last(), removed), s.last(), x);
    }
}

/// What is left of distinct members is distinct.
pub proof fn lemma_without_no_duplicates(s: Seq<usize>, removed: Seq<usize>)
    requires
        s.no_duplicates(),
    ensures
        without(s, removed).no_duplicates(),
    decreases s.len(),
{
    if s.len() > 0 {
        lemma_drop_last_no_duplicates(s);
        lemma_without_no_duplicates(s.drop_last(), removed);
        lemma_without_contains(s.drop_last(), removed, s.last());
        if !removed.contains(s.last()) {
            lemma_push_no_duplicates(without(s.drop_last(), removed), s.last());
        }
    }
}

/// Removing nothing leaves `s`.
pub proof fn lemma_without_nothing(s: Seq<usize>)
    ensures
        without(s, Seq::empty()) == s,
    decreases s.len(),
{
    if s.len() > 0 {
        lemma_without_nothing(s.drop_last());
        assert(s.drop_last().push(s.last()) =~= s);
    }
}

/// Removing something that `s` does not hold changes nothing.
pub proof fn lemma_without_absent(s: Seq<usize>, removed: Seq<usize>, d: usize)
    requires
        !s.contains(d),
    ensures
        without(s, removed.push(d)) == without(s, removed),
    decreases s.len(),
{
    if s.len() > 0 {
        lemma_drop_last_contains(s, d);
        lemma_without_absent(s.drop_last(), removed, d);
        lemma_push_contains(removed, d, s.last());
    }
}

/// Removing one more member takes it out at its place.
pub proof fn lemma_without_one_more(s: Seq<usize>, removed: Seq<usize>, d: usize)
    requires
        s.no_duplicates(),
        s.contains(d),
        !removed.contains(d),
    ensures
        without(s, removed).contains(d),
        without(s, removed.push(d)) == without(s, removed).remove(
            without(s, removed).index_of(d),
        ),
    decreases s.len(),
{
    let last = s.last();
    let rest = s.drop_last();
    let kept = without(s, removed);
    let kept_rest = without(rest, removed);
    lemma_without_contains(s, removed, d);
    lemma_without_no_duplicates(s, removed);
    lemma_drop_last_no_duplicates(s);
    lemma_drop_last_contains(s, d);
    lemma_push_contains(removed, d, last);
    let p = kept.index_of(d);
    assert(kept[p] == d);
    if last == d {
        lemma_without_absent(rest, removed, d);
        assert(kept == kept_rest.push(d));
        if p < kept_rest.len() {
            assert(kept[p] == kept[kept.len() - 1]);
        }
        assert(kept.remove(p) =~= kept_rest);
    } else {
        lemma_without_one_more(rest, removed, d);
        lemma_without_contains(rest, removed, d);
        lemma_without_no_duplicates(rest, removed);
        let q = kept_rest.index_of(d);
        assert(kept_rest[q] == d);
        if removed.contains(last) {
            assert(kept == kept_rest);
        } else {
            assert(kept == kept_rest.push(last));
            assert(kept[q] == d);
            if p != q {
                assert(kept[p] == kept[q]);
            }
            assert(kept.remove(p) =~= kept_rest.remove(q).push(last));
        }
    }
}

impl SpaceView {
    /// Whether a handle to the tracked block `i` is held outside the tracked values.
    pub open spec fn is_root(self, i: usize) -> bool {
        self.listed.contains(i) && self.external(i) > 0
    }

    /// Whether `p` leads from a root along handles through tracked blocks.
    pub open spec fn is_path(self, p: Seq<usize>) -> bool {
        &&& p.len() >= 1
        &&& self.is_root(p[0])
        &&& forall|k: int| 0 <= k < p.len() ==> self.listed.contains(#[trigger] p[k])
        &&& forall|k: int|
            0 <= k < p.len() - 1 ==> (#[trigger] self.edges(p[k])).contains(p[k + 1])
    }

    /// Whether a chain of handles leads from a root to `i`.
    pub open spec fn reachable(self, i: usize) -> bool {
        exists|p: Seq<usize>| #[trigger] self.is_path(p) && p.last() == i
    }

    /// Whether `i` is tracked and kept alive only by unreachable blocks.
    pub open spec fn is_garbage(self, i: usize) -> bool {
        self.listed.contains(i) && !self.reachable(i)
    }

    /// The members of `sources` that are unreachable (`garbage` set) or
    /// reachable (`garbage` clear), in the order of `sources`.
    pub open spec fn select(self, sources: Seq<usize>, garbage: bool) -> Seq<usize>
        decreases sources.len(),
    {
        if sources.len() == 0 {
            sources
        } else {
            let rest = self.select(sources.drop_last(), garbage);
            if self.reachable(sources.last()) != garbage {
                rest.push(sources.last())
            } else {
                rest
            }
        }
    }

    /// The unreachable tracked blocks, in list order.
    pub open spec fn garbage(self) -> Seq<usize> {
        self.select(self.listed, true)
    }

    /// The reachable tracked blocks, in list order.
    pub open spec fn survivors(self) -> Seq<usize> {
        self.select(self.listed, false)
    }

    /// Block `i` after a collection: gone if it was garbage, or if garbage
    /// held every handle to it; else short of the handles that garbage held.
    pub open spec fn collected_block(self, i: int) -> BlockView {
        let block = self.blocks[i];
        let left = block.ref_count - self.incoming_from(self.garbage(), i as usize);
        if !block.live || self.is_garbage(i as usize) || left <= 0 {
            dead_block()
        } else {
            BlockView { live: true, ref_count: left as nat, edges: block.edges }
        }
    }

    /// The space after a collection.
    pub open spec fn collected(self) -> SpaceView {
        SpaceView {
            blocks: Seq::new(self.blocks.len(), |i: int| self.collected_block(i)),
            listed: self.survivors(),
        }
    }

    /// The selection holds the members of `sources` of the kind asked for.
    pub proof fn lemma_select_contains(self, sources: Seq<usize>, garbage: bool, x: usize)
        ensures
            self.select(sources, garbage).contains(x) <==> sources.contains(x) && self.reachable(
                x,
            ) != garbage,
        decreases sources.len(),
    {
        if sources.len() > 0 {
            self.lemma_select_contains(sources.drop_last(), garbage, x);
            lemma_drop_last_contains(sources, x);
            lemma_push_contains(self.select(sources.drop_last(), garbage), sources.last(), x);
        }
    }

    /// A selection from distinct members is distinct.
    pub proof fn lemma_select_no_duplicates(self, sources: Seq<usize>, garbage: bool)
        requires
            sources.no_duplicates(),
        ensures
            self.select(sources, garbage).no_duplicates(),
        decreases sources.len(),
    {
        if sources.len() > 0 {
            lemma_drop_last_no_duplicates(sources);
            self.lemma_select_no_duplicates(sources.drop_last(), garbage);
            self.lemma_select_contains(sources.drop_last(), garbage, sources.last());
            if self.reachable(sources.last()) != garbage {
                lemma_push_no_duplicates(
                    self.select(sources.drop_last(), garbage),
                    sources.last(),
                );
            }
        }
    }

    /// One more source joins the selection if it is of the kind asked for.
    pub proof fn lemma_select_take(self, sources: Seq<usize>, k: int, garbage: bool)
        requires
            0 <= k < sources.len(),
        ensures
            self.select(sources.take(k + 1), garbage) == if self.reachable(sources[k])
                != garbage {
                self.select(sources.take(k), garbage).push(sources[k])
            } else {
                self.select(sources.take(k), garbage)
            },
    {
        assert(sources.take(k + 1).drop_last() =~= sources.take(k));
    }

    /// Taking the unreachable members out leaves the reachable ones.
    pub proof fn lemma_without_garbage(self, sources: Seq<usize>, removed: Seq<usize>)
        requires
            forall|k: int|
                0 <= k < sources.len() ==> (removed.contains(#[trigger] sources[k])
                    <==> !self.reachable(sources[k])),
        ensures
            without(sources, removed) == self.select(sources, false),
        decreases sources.len(),
    {
        if sources.len() > 0 {
            let rest = sources.drop_last();
            assert forall|k: int| 0 <= k < rest.len() implies (removed.contains(
                #[trigger] rest[k],
            ) <==> !self.reachable(rest[k])) by {
                assert(rest[k] == sources[k]);
            }
            self.lemma_without_garbage(rest, removed);
            assert(sources.last() == sources[sources.len() - 1]);
        }
    }

    /// The handles from `sources` are those from its unreachable and those
    /// from its reachable members.
    pub proof fn lemma_incoming_split(self, sources: Seq<usize>, target: usize)
        ensures
            self.incoming_from(sources, target) == self.incoming_from(
                self.select(sources, true),
                target,
            ) + self.incoming_from(self.select(sources, false), target),
        decreases sources.len(),
    {
        if sources.len() > 0 {
            let rest = sources.drop_last();
            let last = sources.last();
            self.lemma_incoming_split(rest, target);
            let a = self.select(rest, true);
            let b = self.select(rest, false);
            assert(a.push(last).drop_last() =~= a);
            assert(b.push(last).drop_last() =~= b);
        }
    }

    /// A root is reachable.
    pub proof fn lemma_root_reachable(self, i: usize)
        requires
            self.is_root(i),
        ensures
            self.reachable(i),
    {
        let p = seq![i];
        assert(self.is_path(p));
        assert(p.last() == i);
    }

    /// A tracked block that a reachable block holds a handle to is reachable.
    pub proof fn lemma_reachable_step(self, i: usize, target: usize)
        requires
            self.reachable(i),
            self.edges(i).contains(target),
            self.listed.contains(target),
        ensures
            self.reachable(target),
    {
        let p = choose|p: Seq<usize>| #[trigger] self.is_path(p) && p.last() == i;
        let q = p.push(target);
        assert forall|k: int| 0 <= k < q.len() implies self.listed.contains(#[trigger] q[k]) by {
            if k < p.len() {
                assert(q[k] == p[k]);
            }
        }
        assert forall|k: int| 0 <= k < q.len() - 1 implies (#[trigger] self.edges(
            q[k],
        )).contains(q[k + 1]) by {
            assert(q[k] == p[k]);
            if k < p.len() - 1 {
                assert(q[k + 1] == p[k + 1]);
                assert(self.edges(p[k]).contains(p[k + 1]));
            }
        }
        assert(q[0] == p[0]);
        assert(self.is_path(q));
        assert(q.last() == target);
    }

    /// A reachable block is a root, or a reachable tracked block holds a handle to it.
    pub proof fn lemma_reachable_cases(self, target: usize)
        requires
            self.reachable(target),
        ensures
            self.listed.contains(target),
            self.is_root(target) || exists|i: usize|
                #![trigger self.edges(i)]
                self.reachable(i) && self.listed.contains(i) && self.edges(i).contains(target),
    {
        let p = choose|p: Seq<usize>| #[trigger] self.is_path(p) && p.last() == target;
        assert(self.listed.contains(p[p.len() - 1]));
        if p.len() > 1 {
            let q = p.drop_last();
            let i = q.last();
            assert forall|k: int| 0 <= k < q.len() implies self.listed.contains(
                #[trigger] q[k],
            ) by {
                assert(q[k] == p[k]);
            }
            assert forall|k: int| 0 <= k < q.len() - 1 implies (#[trigger] self.edges(
                q[k],
            )).contains(q[k + 1]) by {
                assert(q[k] == p[k] && q[k + 1] == p[k + 1]);
                assert(self.edges(p[k]).contains(p[k + 1]));
            }
            assert(q[0] == p[0]);
            assert(self.is_path(q));
            assert(self.reachable(i));
            assert(i == p[p.len() - 2]);
            assert(self.listed.contains(p[p.len() - 2]));
            assert(self.edges(p[p.len() - 2]).contains(p[p.len() - 2 + 1]));
            assert(self.edges(i).contains(target));
        }
    }

    /// The garbage holds no more handles to a block than the tracked values do.
    pub proof fn lemma_garbage_incoming_le(self, target: usize)
        ensures
            self.incoming_from(self.garbage(), target) + self.incoming_from(
                self.survivors(),
                target,
            ) == self.incoming(target),
    {
        self.lemma_incoming_split(self.listed, target);
    }

    /// A reachable block keeps a handle when the garbage gives up its own.
    pub proof fn lemma_reachable_supported(self, target: usize)
        requires
            self.wf(),
            self.reachable(target),
        ensures
            self.ref_count(target) - self.incoming_from(self.garbage(), target) >= 1,
    {
        self.lemma_reachable_cases(target);
        self.lemma_garbage_incoming_le(target);
        assert(target < self.blocks.len()) by {
            let k = self.listed.index_of(target);
            assert(self.is_live(self.listed[k]));
        }
        assert(self.incoming(target) + count_in(Seq::empty(), target) <= self.ref_count(target));
        if !self.is_root(target) {
            let i = choose|i: usize|
                #![trigger self.edges(i)]
                self.reachable(i) && self.listed.contains(i) && self.edges(i).contains(target);
            let live = self.survivors();
            self.lemma_select_contains(self.listed, false, i);
            let k = live.index_of(i);
            self.lemma_incoming_from_member(live, k, target);
            lemma_count_in_contains(self.edges(i), target);
        }
    }

    /// Every handle to a garbage block is held by garbage.
    pub proof fn lemma_garbage_counts(self, target: usize)
        requires
            self.wf(),
            self.is_garbage(target),
        ensures
            self.ref_count(target) == self.incoming_from(self.garbage(), target),
    {
        self.lemma_garbage_incoming_le(target);
        assert(target < self.blocks.len()) by {
            let k = self.listed.index_of(target);
            assert(self.is_live(self.listed[k]));
        }
        assert(self.incoming(target) + count_in(Seq::empty(), target) <= self.ref_count(target));
        if self.external(target) > 0 {
            self.lemma_root_reachable(target);
        }
        let live = self.survivors();
        assert forall|k: int| 0 <= k < live.len() implies !self.edges(
            #[trigger] live[k],
        ).contains(target) by {
            self.lemma_select_contains(self.listed, false, live[k]);
            assert(live.contains(live[k]));
            if self.edges(live[k]).contains(target) {
                self.lemma_reachable_step(live[k], target);
            }
        }
        self.lemma_incoming_from_none(live, target);
    }

    /// Every block on a path is reachable.
    pub proof fn lemma_path_members(self, p: Seq<usize>, k: int)
        requires
            self.is_path(p),
            0 <= k < p.len(),
        ensures
            self.reachable(p[k]),
    {
        let q = p.take(k + 1);
        assert forall|m: int| 0 <= m < q.len() implies self.listed.contains(#[trigger] q[m]) by {
            assert(q[m] == p[m]);
        }
        assert forall|m: int| 0 <= m < q.len() - 1 implies (#[trigger] self.edges(
            q[m],
        )).contains(q[m + 1]) by {
            assert(q[m] == p[m] && q[m + 1] == p[m + 1]);
            assert(self.edges(p[m]).contains(p[m + 1]));
        }
        assert(q[0] == p[0]);
        assert(self.is_path(q));
        assert(q.last() == p[k]);
    }

    /// A reachable block survives a collection, with the handles that
    /// garbage did not hold and with its edges.
    pub proof fn lemma_survivor_block(self, i: usize)
        requires
            self.wf(),
            self.reachable(i),
        ensures
            self.is_live(i),
            self.listed.contains(i),
            self.survivors().contains(i),
            self.collected().is_live(i),
            self.collected().edges(i) == self.edges(i),
            self.collected().ref_count(i) == self.ref_count(i) - self.incoming_from(
                self.garbage(),
                i,
            ),
    {
        self.lemma_reachable_cases(i);
        let k = self.listed.index_of(i);
        assert(self.is_live(self.listed[k]));
        self.lemma_reachable_supported(i);
        self.lemma_select_contains(self.listed, false, i);
    }

    /// In the collected space the tracked values hold the handles that the
    /// reachable values held before.
    pub proof fn lemma_collected_incoming(self, target: usize)
        requires
            self.wf(),
        ensures
            self.collected().incoming(target) == self.incoming_from(self.survivors(), target),
    {
        let after = self.collected();
        let live = self.survivors();
        assert forall|k: int| 0 <= k < live.len() implies after.edges(#[trigger] live[k])
            == self.edges(live[k]) by {
            assert(live.contains(live[k]));
            self.lemma_select_contains(self.listed, false, live[k]);
            self.lemma_survivor_block(live[k]);
        }
        after.lemma_incoming_from_frame(self, live, target);
    }

    /// A collection leaves a consistent graph.
    pub proof fn lemma_collected_wf(self)
        requires
            self.wf(),
        ensures
            self.collected().wf(),
    {
        let after = self.collected();
        let live = self.survivors();
        let none = Seq::<usize>::empty();
        self.lemma_select_no_duplicates(self.listed, false);
        assert forall|k: int| 0 <= k < after.listed.len() implies after.is_live(
            #[trigger] after.listed[k],
        ) by {
            assert(live.contains(live[k]));
            self.lemma_select_contains(self.listed, false, live[k]);
            self.lemma_survivor_block(live[k]);
        }
        assert forall|i: int| 0 <= i < after.blocks.len() implies if (
        #[trigger] after.blocks[i]).live {
            after.blocks[i].ref_count >= 1
        } else {
            after.blocks[i] == dead_block()
        } by {}
        assert forall|i: int, e: int|
            0 <= i < after.blocks.len() && 0 <= e < after.blocks[i].edges.len()
                implies after.is_live(#[trigger] after.blocks[i].edges[e]) by {
            let src = i as usize;
            let t = self.blocks[i].edges[e];
            assert(after.blocks[i].live);
            assert(after.blocks[i].edges == self.blocks[i].edges);
            assert(self.is_live(t));
            assert(self.edges(src).len() > 0);
            assert(self.is_live(src));
            assert(self.listed.contains(src));
            assert(self.reachable(src));
            assert(self.edges(src)[e] == t);
            assert(self.edges(src).contains(t));
            if self.listed.contains(t) {
                self.lemma_reachable_step(src, t);
                self.lemma_survivor_block(t);
            } else {
                self.lemma_garbage_incoming_le(t);
                self.lemma_select_contains(self.listed, false, src);
                let k = live.index_of(src);
                self.lemma_incoming_from_member(live, k, t);
                lemma_count_in_contains(self.edges(src), t);
                assert(self.incoming(t) + count_in(none, t) <= self.ref_count(t));
            }
        }
        assert forall|i: usize| after.is_live(i) && !after.listed.contains(i) implies (
        #[trigger] after.edges(i)).len() == 0 by {
            if self.listed.contains(i) {
                self.lemma_select_contains(self.listed, false, i);
            }
            assert(self.is_live(i));
            assert(self.edges(i).len() == 0);
        }
        assert forall|j: usize| j < after.blocks.len() implies #[trigger] after.incoming(j)
            + count_in(none, j) <= after.ref_count(j) by {
            self.lemma_collected_incoming(j);
            self.lemma_garbage_incoming_le(j);
            assert(self.incoming(j) + count_in(none, j) <= self.ref_count(j));
            if !self.blocks[j as int].live {
                assert forall|k: int| 0 <= k < live.len() implies !self.edges(
                    #[trigger] live[k],
                ).contains(j) by {
                    let edges = self.edges(live[k]);
                    if edges.contains(j) {
                        assert(live.contains(live[k]));
                        self.lemma_select_contains(self.listed, false, live[k]);
                        self.lemma_survivor_block(live[k]);
                        let e = edges.index_of(j);
                        assert(self.is_live(self.blocks[live[k] as int].edges[e]));
                    }
                }
                self.lemma_incoming_from_none(live, j);
            } else if self.is_garbage(j) {
                self.lemma_garbage_counts(j);
            }
        }
    }

    /// Where every member is reachable, none is selected as garbage.
    pub proof fn lemma_select_none(self, sources: Seq<usize>)
        requires
            forall|k: int| 0 <= k < sources.len() ==> self.reachable(#[trigger] sources[k]),
        ensures
            self.select(sources, true) == Seq::<usize>::empty(),
            self.select(sources, false) == sources,
        decreases sources.len(),
    {
        if sources.len() > 0 {
            let rest = sources.drop_last();
            assert forall|k: int| 0 <= k < rest.len() implies self.reachable(
                #[trigger] rest[k],
            ) by {
                assert(rest[k] == sources[k]);
            }
            self.lemma_select_none(rest);
            assert(sources.last() == sources[sources.len() - 1]);
            assert(rest.push(sources.last()) =~= sources);
        } else {
            assert(sources =~= Seq::<usize>::empty());
        }
    }

    /// Where no member is reachable, all are selected as garbage.
    pub proof fn lemma_select_all(self, sources: Seq<usize>)
        requires
            forall|k: int| 0 <= k < sources.len() ==> !self.reachable(#[trigger] sources[k]),
        ensures
            self.select(sources, true) == sources,
            self.select(sources, false) == Seq::<usize>::empty(),
        decreases sources.len(),
    {
        if sources.len() > 0 {
            let rest = sources.drop_last();
            assert forall|k: int| 0 <= k < rest.len() implies !self.reachable(
                #[trigger] rest[k],
            ) by {
                assert(rest[k] == sources[k]);
            }
            self.lemma_select_all(rest);
            assert(sources.last() == sources[sources.len() - 1]);
            assert(rest.push(sources.last()) =~= sources);
        } else {
            assert(sources =~= Seq::<usize>::empty());
        }
    }

    /// What was reachable before a collection is reachable after it.
    pub proof fn lemma_collected_reachable(self, i: usize)
        requires
            self.wf(),
            self.reachable(i),
        ensures
            self.collected().reachable(i),
    {
        let after = self.collected();
        let p = choose|p: Seq<usize>| #[trigger] self.is_path(p) && p.last() == i;
        assert forall|k: int| 0 <= k < p.len() implies after.listed.contains(#[trigger] p[k])
            && after.edges(p[k]) == self.edges(p[k]) by {
            self.lemma_path_members(p, k);
            self.lemma_survivor_block(p[k]);
        }
        assert(after.is_root(p[0])) by {
            self.lemma_path_members(p, 0);
            self.lemma_survivor_block(p[0]);
            self.lemma_collected_incoming(p[0]);
            self.lemma_garbage_incoming_le(p[0]);
        }
        assert forall|k: int| 0 <= k < p.len() - 1 implies (#[trigger] after.edges(
            p[k],
        )).contains(p[k + 1]) by {
            assert(after.listed.contains(p[k]) && after.edges(p[k]) == self.edges(p[k]));
            assert(self.edges(p[k]).contains(p[k + 1]));
        }
        assert(after.is_path(p));
    }

    /// A collection leaves no garbage.
    pub proof fn lemma_collected_settled(self)
        requires
            self.wf(),
        ensures
            self.collected().garbage() == Seq::<usize>::empty(),
            self.collected().collected() == self.collected(),
    {
        let after = self.collected();
        let live = self.survivors();
        assert forall|k: int| 0 <= k < after.listed.len() implies after.reachable(
            #[trigger] after.listed[k],
        ) by {
            assert(live.contains(live[k]));
            self.lemma_select_contains(self.listed, false, live[k]);
            self.lemma_collected_reachable(live[k]);
        }
        after.lemma_select_none(after.listed);
        let twice = after.collected();
        assert forall|i: int| 0 <= i < after.blocks.len() implies twice.blocks[i]
            == after.blocks[i] by {
            assert(after.incoming_from(Seq::<usize>::empty(), i as usize) == 0);
            if after.is_garbage(i as usize) {
                let k = after.listed.index_of(i as usize);
                assert(after.reachable(after.listed[k]));
            }
        }
        assert(twice.blocks =~= after.blocks);
    }

    /// A path without its last block is a path.
    pub proof fn lemma_path_prefix(self, p: Seq<usize>)
        requires
            self.is_path(p),
            p.len() > 1,
        ensures
            self.is_path(p.drop_last()),
            self.edges(p.drop_last().last()).contains(p.last()),
    {
        let q = p.drop_last();
        assert forall|m: int| 0 <= m < q.len() implies self.listed.contains(#[trigger] q[m]) by {
            assert(q[m] == p[m]);
        }
        assert forall|m: int| 0 <= m < q.len() - 1 implies (#[trigger] self.edges(
            q[m],
        )).contains(q[m + 1]) by {
            assert(q[m] == p[m] && q[m + 1] == p[m + 1]);
            assert(self.edges(p[m]).contains(p[m + 1]));
        }
        assert(q[0] == p[0]);
        assert(q.last() == p[p.len() - 2]);
        assert(self.edges(p[p.len() - 2]).contains(p[p.len() - 2 + 1]));
    }

    /// The handles that the first garbage blocks and the first edges of the
    /// next one hold to a block are fewer than its reference count while one
    /// more of these edges names it.
    pub proof fn lemma_release_bound(self, k: int, e: int)
        requires
            self.wf(),
            0 <= k < self.garbage().len(),
            0 <= e < self.edges(self.garbage()[k]).len(),
        ensures
            self.incoming_from(self.garbage().take(k), self.edges(self.garbage()[k])[e])
                + count_in(
                self.edges(self.garbage()[k]).take(e),
                self.edges(self.garbage()[k])[e],
            ) + 1 <= self.ref_count(self.edges(self.garbage()[k])[e]),
    {
        let staged = self.garbage();
        let edges = self.edges(staged[k]);
        let t = edges[e];
        lemma_count_in_take(edges, e, t);
        lemma_count_in_take_le(edges, e + 1, t);
        self.lemma_incoming_from_take(staged, k, t);
        self.lemma_incoming_from_take_le(staged, k + 1, t);
        self.lemma_garbage_incoming_le(t);
        assert(staged.contains(staged[k]));
        self.lemma_select_contains(self.listed, true, staged[k]);
        let m = self.listed.index_of(staged[k]);
        assert(self.is_live(self.listed[m]));
        assert(self.is_live(self.blocks[staged[k] as int].edges[e]));
        assert(self.incoming(t) + count_in(Seq::empty(), t) <= self.ref_count(t));
    }

    /// The garbage holds no more handles to a block than its reference count.
    pub proof fn lemma_garbage_bound(self, k: int, target: usize)
        requires
            self.wf(),
            0 <= k <= self.garbage().len(),
            target < self.blocks.len(),
        ensures
            self.incoming_from(self.garbage().take(k), target) <= self.incoming_from(
                self.garbage(),
                target,
            ) <= self.ref_count(target),
    {
        self.lemma_incoming_from_take_le(self.garbage(), k, target);
        self.lemma_garbage_incoming_le(target);
        assert(self.incoming(target) + count_in(Seq::empty(), target) <= self.ref_count(target));
    }
}

} // verus!
