//! The shape of the list that threads through the headers of the tracked blocks.
//!
//! The list is circular: header `0` is its head, `next` leads from the head
//! through the members in order and back to the head. While no collection
//! runs, `prev` leads the other way round.
use crate::header::link_word;
use crate::header::GcHeader;
use crate::header::MAX_REF_COUNT;
use crate::header::NULL;
use vstd::prelude::*;

verus! {

/// The member of the list at position `k`; the list head before the first
/// member and after the last.
pub open spec fn node_at(order: Seq<usize>, k: int) -> usize {
    if 0 <= k < order.len() {
        order[k]
    } else {
        0
    }
}

/// The `next` of the node at position `k` names the node at position `k + 1`.
pub open spec fn next_at(headers: Seq<GcHeader>, order: Seq<usize>, k: int) -> bool {
    headers[node_at(order, k) as int].next == node_at(order, k + 1)
}

/// The `prev` of the node at position `k` links to the node at position `k - 1`.
pub open spec fn prev_at(headers: Seq<GcHeader>, order: Seq<usize>, k: int) -> bool {
    headers[node_at(order, k) as int].prev == link_word(node_at(order, k - 1))
}

/// `order` is a list of distinct blocks, none of them the head.
pub open spec fn members_ok(len: nat, order: Seq<usize>) -> bool {
    &&& 1 <= len <= MAX_REF_COUNT + 1
    &&& order.no_duplicates()
    &&& forall|k: int| 0 <= k < order.len() ==> 0 < #[trigger] order[k] < len
}

/// Following `next` from the head visits `order` and returns to the head; a
/// header outside the list has no successor.
pub open spec fn list_ok(headers: Seq<GcHeader>, order: Seq<usize>) -> bool {
    &&& members_ok(headers.len(), order)
    &&& forall|k: int| -1 <= k < order.len() ==> #[trigger] next_at(headers, order, k)
    &&& forall|i: int|
        0 < i < headers.len() && !order.contains(i as usize) ==> (#[trigger] headers[i]).next
            == NULL
}

/// Following `prev` from the head visits `order` backwards; a header outside
/// the list has an empty `prev`.
pub open spec fn back_ok(headers: Seq<GcHeader>, order: Seq<usize>) -> bool {
    &&& forall|k: int| 0 <= k <= order.len() ==> #[trigger] prev_at(headers, order, k)
    &&& forall|i: int|
        0 < i < headers.len() && !order.contains(i as usize) ==> (#[trigger] headers[i]).prev
            == 0
}

/// A listed block has a successor, an unlisted block has none.
pub proof fn lemma_listed_by_next(headers: Seq<GcHeader>, order: Seq<usize>, i: usize)
    requires
        list_ok(headers, order),
        0 < i < headers.len(),
    ensures
        order.contains(i) <==> headers[i as int].next != NULL,
{
    if order.contains(i) {
        let k = order.index_of(i);
        assert(next_at(headers, order, k));
        if k + 1 < order.len() {
            assert(order[k + 1] < headers.len());
        }
    }
}

/// Linking an unlisted block in behind the head puts it first in the list.
pub proof fn lemma_link(
    before: Seq<GcHeader>,
    order: Seq<usize>,
    after: Seq<GcHeader>,
    index: usize,
)
    requires
        list_ok(before, order),
        back_ok(before, order),
        0 < index < before.len(),
        !order.contains(index),
        after.len() == before.len(),
        after[index as int].next == node_at(order, 0),
        after[index as int].prev == link_word(0),
        after[0].next == index,
        after[node_at(order, 0) as int].prev == link_word(index),
        forall|i: int|
            0 < i < before.len() && i != index ==> (#[trigger] after[i]).next == before[i].next,
        forall|i: int|
            0 <= i < before.len() && i != index && i != node_at(order, 0) ==> (
            #[trigger] after[i]).prev == before[i].prev,
    ensures
        list_ok(after, seq![index] + order),
        back_ok(after, seq![index] + order),
{
    let longer = seq![index] + order;
    assert forall|k: int| -1 <= k <= longer.len() implies node_at(longer, k) == (if k == 0 {
        index
    } else {
        node_at(order, k - 1)
    }) by {}
    assert forall|a: int, b: int| 0 <= a < b < longer.len() implies longer[a] != longer[b] by {
        assert(longer[b] == order[b - 1]);
        if a > 0 {
            assert(longer[a] == order[a - 1]);
        }
    }
    assert forall|k: int| 0 <= k < longer.len() implies 0 < #[trigger] longer[k]
        < after.len() by {
        if k > 0 {
            assert(longer[k] == order[k - 1]);
        }
    }
    assert forall|k: int| -1 <= k < longer.len() implies #[trigger] next_at(after, longer, k) by {
        if k >= 1 {
            assert(next_at(before, order, k - 1));
            assert(node_at(longer, k) == order[k - 1]);
        }
    }
    assert forall|i: int| 0 < i < after.len() && !longer.contains(i as usize) implies (
    #[trigger] after[i]).next == NULL && after[i].prev == 0 by {
        assert(longer[0] == index);
        if order.contains(i as usize) {
            let k = order.index_of(i as usize);
            assert(longer[k + 1] == i as usize);
        }
        assert(before[i].next == NULL);
        assert(before[i].prev == 0);
        if order.len() > 0 {
            assert(order[0] == node_at(order, 0));
        }
    }
    assert forall|k: int| 0 <= k <= longer.len() implies #[trigger] prev_at(after, longer, k) by {
        if k >= 2 {
            assert(prev_at(before, order, k - 1));
            if k - 1 < order.len() {
                assert(order[k - 1] != order[0]);
            }
        }
    }
}

/// Unlinking a listed block takes it out of the list.
pub proof fn lemma_unlink(
    before: Seq<GcHeader>,
    order: Seq<usize>,
    after: Seq<GcHeader>,
    index: usize,
)
    requires
        list_ok(before, order),
        back_ok(before, order),
        order.contains(index),
        after.len() == before.len(),
        after[index as int].next == NULL,
        after[index as int].prev == 0,
        after[node_at(order, order.index_of(index) - 1) as int].next == node_at(
            order,
            order.index_of(index) + 1,
        ),
        after[node_at(order, order.index_of(index) + 1) as int].prev == link_word(
            node_at(order, order.index_of(index) - 1),
        ),
        forall|i: int|
            0 <= i < before.len() && i != index && i != node_at(order, order.index_of(index) - 1)
                ==> (#[trigger] after[i]).next == before[i].next,
        forall|i: int|
            0 <= i < before.len() && i != index && i != node_at(order, order.index_of(index) + 1)
                ==> (#[trigger] after[i]).prev == before[i].prev,
    ensures
        list_ok(after, order.remove(order.index_of(index))),
        back_ok(after, order.remove(order.index_of(index))),
{
    let p = order.index_of(index);
    let shorter = order.remove(p);
    assert(order[p] == index);
    assert forall|k: int| -1 <= k <= shorter.len() implies node_at(shorter, k) == (if k < p {
        node_at(order, k)
    } else {
        node_at(order, k + 1)
    }) by {}
    assert forall|k: int| -1 <= k <= order.len() && k != p implies node_at(order, k) != index by {
        if 0 <= k < order.len() {
            assert(order[k] != order[p]);
        }
    }
    assert forall|a: int, b: int| 0 <= a < b < shorter.len() implies shorter[a] != shorter[b] by {
        let a0 = if a < p { a } else { a + 1 };
        let b0 = if b < p { b } else { b + 1 };
        assert(shorter[a] == order[a0] && shorter[b] == order[b0]);
    }
    assert forall|k: int| 0 <= k < shorter.len() implies 0 < #[trigger] shorter[k]
        < after.len() by {
        let k0 = if k < p { k } else { k + 1 };
        assert(shorter[k] == order[k0]);
    }
    assert forall|k: int| -1 <= k < shorter.len() implies #[trigger] next_at(
        after,
        shorter,
        k,
    ) by {
        let k0 = if k < p { k } else { k + 1 };
        assert(next_at(before, order, k0));
        if k0 != p - 1 {
            if 0 <= k0 < order.len() && 0 <= p - 1 {
                assert(order[k0] != order[p - 1]);
            }
            assert(node_at(order, k0) != node_at(order, p - 1));
        }
    }
    assert forall|i: int| 0 < i < after.len() && !shorter.contains(i as usize) implies (
    #[trigger] after[i]).next == NULL && after[i].prev == 0 by {
        if i != index {
            if order.contains(i as usize) {
                let k = order.index_of(i as usize);
                let k1 = if k < p { k } else { k - 1 };
                assert(shorter[k1] == i as usize);
            }
            assert(before[i].next == NULL);
            assert(before[i].prev == 0);
            if 0 <= p - 1 {
                assert(order.contains(order[p - 1]));
            }
            if p + 1 < order.len() {
                assert(order.contains(order[p + 1]));
            }
        }
    }
    assert forall|k: int| 0 <= k <= shorter.len() implies #[trigger] prev_at(
        after,
        shorter,
        k,
    ) by {
        let k0 = if k < p { k } else { k + 1 };
        assert(prev_at(before, order, k0));
        if k0 != p + 1 {
            if 0 <= k0 < order.len() && p + 1 < order.len() {
                assert(order[k0] != order[p + 1]);
            }
            assert(node_at(order, k0) != node_at(order, p + 1));
        }
    }
}

/// The forward shape depends only on the `next` fields; headers added
/// behind the others are outside the list if they have no successor.
pub proof fn lemma_list_frame(before: Seq<GcHeader>, after: Seq<GcHeader>, order: Seq<usize>)
    requires
        list_ok(before, order),
        before.len() <= after.len() <= MAX_REF_COUNT + 1,
        forall|i: int| 0 <= i < before.len() ==> (#[trigger] after[i]).next == before[i].next,
        forall|i: int| before.len() <= i < after.len() ==> (#[trigger] after[i]).next == NULL,
    ensures
        list_ok(after, order),
{
    assert forall|k: int| -1 <= k < order.len() implies #[trigger] next_at(after, order, k) by {
        assert(next_at(before, order, k));
    }
    assert forall|i: int| 0 < i < after.len() && !order.contains(i as usize) implies (
    #[trigger] after[i]).next == NULL by {
        if i < before.len() {
            assert(before[i].next == NULL);
        }
    }
}

/// The backward shape depends only on the `prev` fields; headers added
/// behind the others are outside the list if their `prev` is empty.
pub proof fn lemma_back_frame(before: Seq<GcHeader>, after: Seq<GcHeader>, order: Seq<usize>)
    requires
        members_ok(before.len(), order),
        back_ok(before, order),
        before.len() <= after.len(),
        forall|i: int| 0 <= i < before.len() ==> (#[trigger] after[i]).prev == before[i].prev,
        forall|i: int| before.len() <= i < after.len() ==> (#[trigger] after[i]).prev == 0,
    ensures
        back_ok(after, order),
{
    assert forall|k: int| 0 <= k <= order.len() implies #[trigger] prev_at(after, order, k) by {
        assert(prev_at(before, order, k));
    }
    assert forall|i: int| 0 < i < after.len() && !order.contains(i as usize) implies (
    #[trigger] after[i]).prev == 0 by {
        if i < before.len() {
            assert(before[i].prev == 0);
        }
    }
}

} // verus!
