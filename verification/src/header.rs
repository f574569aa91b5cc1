//! The per-block header and the packed use of its `prev` word.
//!
//! Outside a collection `prev` holds the predecessor's index, shifted left by
//! one bit. During a collection the same word holds a trial reference count,
//! shifted likewise, with the `COLLECTING` flag in the lowest bit.
use vstd::prelude::*;

verus! {

/// The lowest bit of `prev`: the block is still a candidate of the running collection.
pub const PREV_MASK_COLLECTING: usize = 1;

/// The number of flag bits below the count or link that `prev` carries.
pub const PREV_SHIFT: u32 = 1;

/// The largest reference count, and the largest block index, that fits in `prev`
/// beside the flag bit.
pub const MAX_REF_COUNT: usize = usize::MAX / 2;

/// The `next` value of a header that is in no list.
pub const NULL: usize = usize::MAX;

/// The bookkeeping that every block carries.
#[derive(Clone, Copy)]
pub struct GcHeader {
    /// Predecessor link, or trial count and flag while a collection runs.
    pub prev: usize,
    /// Index of the successor in the list, `0` for the list head, `NULL` if unlinked.
    pub next: usize,
    /// Number of handles to the block.
    pub ref_count: usize,
}

/// The `prev` word that links to the block at `index`.
pub open spec fn link_word(index: usize) -> usize {
    (2 * index) as usize
}

/// The `prev` word that carries `count` with the `COLLECTING` flag set.
pub open spec fn trial_word(count: nat) -> usize {
    (2 * count + 1) as usize
}

impl GcHeader {
    /// The count (or the link) that `prev` carries above the flag bit.
    pub open spec fn gc_ref_count(&self) -> nat {
        (self.prev / 2) as nat
    }

    /// Whether the `COLLECTING` flag is set.
    pub open spec fn collecting(&self) -> bool {
        self.prev % 2 == 1
    }

    /// Whether the header is marked `UNREACHABLE`: still collecting, with no
    /// reference left from outside the candidates.
    pub open spec fn unreachable(&self) -> bool {
        self.collecting() && self.gc_ref_count() == 0
    }

    /// A header in no list, with the given reference count.
    pub fn unlinked(ref_count: usize) -> (header: GcHeader)
        ensures
            header == (GcHeader { prev: 0, next: NULL, ref_count }),
    {
        GcHeader { prev: 0, next: NULL, ref_count }
    }
}

/// Shifting a count that fits left by one bit doubles it.
pub proof fn lemma_shift_doubles(count: usize)
    requires
        count <= MAX_REF_COUNT,
    ensures
        count << 1 == 2 * count,
        2 * count + 1 <= usize::MAX,
{
    vstd::arithmetic::power2::lemma2_to64();
    vstd::bits::lemma_usize_shl_is_mul(count, 1);
}

/// The word that holds `count` with the `COLLECTING` flag set.
pub fn trial_prev(count: usize) -> (word: usize)
    requires
        count <= MAX_REF_COUNT,
    ensures
        word == trial_word(count as nat),
        word % 2 == 1,
        word / 2 == count,
{
    proof {
        lemma_shift_doubles(count);
    }
    let shifted = count << PREV_SHIFT;
    assert((shifted | 1) % 2 == 1 && (shifted | 1) / 2 == shifted / 2) by (bit_vector);
    shifted | PREV_MASK_COLLECTING
}

/// The word that links to the block at `index`, with no flag set.
pub fn link_prev(index: usize) -> (word: usize)
    requires
        index <= MAX_REF_COUNT,
    ensures
        word == link_word(index),
        word % 2 == 0,
        word / 2 == index,
{
    proof {
        lemma_shift_doubles(index);
    }
    index << PREV_SHIFT
}

/// Whether the header is still a candidate of the running collection.
pub fn is_collecting(header: &GcHeader) -> (b: bool)
    ensures
        b == header.collecting(),
{
    let prev = header.prev;
    assert(prev & 1 == prev % 2) by (bit_vector);
    (prev & PREV_MASK_COLLECTING) != 0
}

/// Whether the header is a candidate whose trial count has dropped to zero.
pub fn is_unreachable(header: &GcHeader) -> (b: bool)
    ensures
        b == header.unreachable(),
{
    let prev = header.prev;
    assert(prev >> 1 == prev / 2) by (bit_vector);
    is_collecting(header) && (prev >> PREV_SHIFT) == 0
}

/// The count that `prev` carries above the flag bit.
pub fn gc_ref_count(header: &GcHeader) -> (count: usize)
    ensures
        count == header.gc_ref_count(),
        count <= MAX_REF_COUNT,
{
    let prev = header.prev;
    assert(prev >> 1 == prev / 2) by (bit_vector);
    prev >> PREV_SHIFT
}

/// Clears the `COLLECTING` flag and keeps the count.
pub fn unset_collecting(header: &mut GcHeader)
    ensures
        !final(header).collecting(),
        final(header).gc_ref_count() == old(header).gc_ref_count(),
        final(header).next == old(header).next,
        final(header).ref_count == old(header).ref_count,
{
    let prev = header.prev;
    assert(((prev & 1) ^ prev) % 2 == 0 && ((prev & 1) ^ prev) / 2 == prev / 2) by (bit_vector);
    let new_prev = (prev & PREV_MASK_COLLECTING) ^ prev;
    header.prev = new_prev;
}

/// Adds `delta` to the count that `prev` carries and keeps the flag.
pub fn edit_gc_ref_count(header: &mut GcHeader, delta: isize)
    requires
        0 <= old(header).gc_ref_count() + delta <= MAX_REF_COUNT,
    ensures
        final(header).gc_ref_count() == old(header).gc_ref_count() + delta,
        final(header).collecting() == old(header).collecting(),
        final(header).next == old(header).next,
        final(header).ref_count == old(header).ref_count,
{
    let prev = header.prev;
    if delta >= 0 {
        let step = delta as usize;
        proof {
            lemma_shift_doubles(step);
        }
        header.prev = prev + (step << PREV_SHIFT);
    } else {
        let step = (0 - delta) as usize;
        proof {
            lemma_shift_doubles(step);
        }
        header.prev = prev - (step << PREV_SHIFT);
    }
}

/// The number of headers that carry the `COLLECTING` flag.
pub open spec fn flag_count(headers: Seq<GcHeader>) -> nat
    decreases headers.len(),
{
    if headers.len() == 0 {
        0
    } else {
        flag_count(headers.drop_last()) + if headers.last().collecting() {
            1nat
        } else {
            0nat
        }
    }
}

/// Changing the flag of one header moves the count by one.
pub proof fn lemma_flag_count_change(before: Seq<GcHeader>, after: Seq<GcHeader>, i: int)
    requires
        before.len() == after.len(),
        0 <= i < before.len(),
        forall|j: int|
            0 <= j < before.len() && j != i ==> (#[trigger] after[j]).collecting()
                == before[j].collecting(),
    ensures
        flag_count(after) + if before[i].collecting() {
            1nat
        } else {
            0nat
        } == flag_count(before) + if after[i].collecting() {
            1nat
        } else {
            0nat
        },
    decreases before.len(),
{
    let n = before.len() - 1;
    let b = before.drop_last();
    let a = after.drop_last();
    assert(after.last() == after[n] && before.last() == before[n]);
    if i < n {
        assert forall|j: int| 0 <= j < b.len() && j != i implies (#[trigger] a[j]).collecting()
            == b[j].collecting() by {
            assert(a[j] == after[j] && b[j] == before[j]);
        }
        lemma_flag_count_change(b, a, i);
        assert(a[i] == after[i] && b[i] == before[i]);
    } else {
        lemma_flag_count_same(b, a);
    }
}

/// Headers with the same flags have the same count.
pub proof fn lemma_flag_count_same(before: Seq<GcHeader>, after: Seq<GcHeader>)
    requires
        before.len() == after.len(),
        forall|j: int|
            0 <= j < before.len() ==> (#[trigger] after[j]).collecting() == before[j].collecting(),
    ensures
        flag_count(after) == flag_count(before),
    decreases before.len(),
{
    if before.len() > 0 {
        let n = before.len() - 1;
        let b = before.drop_last();
        let a = after.drop_last();
        assert(after.last() == after[n] && before.last() == before[n]);
        assert forall|j: int| 0 <= j < b.len() implies (#[trigger] a[j]).collecting()
            == b[j].collecting() by {
            assert(a[j] == after[j] && b[j] == before[j]);
        }
        lemma_flag_count_same(b, a);
    }
}

} // verus!
