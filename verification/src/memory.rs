//! Contiguous memory allocation over a single address space.
//!
//! The memory map is an ordered sequence of [`MemoryBlock`] descriptors that
//! partitions the address space: blocks are ascending, non-overlapping and
//! contiguous. A block with `process_id == 0` is free. Allocation claims a
//! free block in full when the request matches its size exactly, and otherwise
//! splits it, keeping the front portion for the requester and inserting the
//! free remainder right after it. Release marks a block free again and merges
//! it with free neighbours.

use vstd::prelude::*;

verus! {

/// One contiguous partition of the address space, with inclusive bounds.
/// `process_id == 0` marks a free block.
#[derive(Debug, Clone, Copy, PartialEq, Eq, Structural)]
pub struct MemoryBlock {
    pub start_address: i32,
    pub end_address: i32,
    pub segment_size: i32,
    pub process_id: i32,
}

/// The all-zero block returned when no placement is possible.
pub open spec fn zero_block() -> MemoryBlock {
    MemoryBlock { start_address: 0, end_address: 0, segment_size: 0, process_id: 0 }
}

impl Default for MemoryBlock {
    fn default() -> (result: Self)
        ensures
            result == zero_block(),
    {
        MemoryBlock { start_address: 0, end_address: 0, segment_size: 0, process_id: 0 }
    }
}

/// A block has non-negative inclusive bounds and a size that matches them.
pub open spec fn wf_block(b: MemoryBlock) -> bool {
    &&& 0 <= b.start_address
    &&& b.start_address <= b.end_address
    &&& b.segment_size == b.end_address - b.start_address + 1
}

/// Every block ends exactly one address before its successor starts.
pub open spec fn contiguous(m: Seq<MemoryBlock>) -> bool {
    forall|i: int|
        0 <= i && i + 1 < m.len() ==> (#[trigger] m[i]).end_address + 1 == m[i + 1].start_address
}

/// A well-formed memory map: every block is well formed and the blocks
/// partition one contiguous address range in ascending order.
pub open spec fn wf_map(m: Seq<MemoryBlock>) -> bool {
    &&& forall|i: int| 0 <= i < m.len() ==> wf_block(#[trigger] m[i])
    &&& contiguous(m)
}

/// No two neighbouring blocks are both free.
pub open spec fn no_adjacent_free(m: Seq<MemoryBlock>) -> bool {
    forall|i: int|
        0 <= i && i + 1 < m.len() ==> !((#[trigger] m[i]).process_id == 0 && m[i
            + 1].process_id == 0)
}

/// The block is free and large enough for the request.
pub open spec fn free_fits(b: MemoryBlock, request_size: i32) -> bool {
    b.process_id == 0 && request_size <= b.segment_size
}

/// The block is free and exactly as large as the request.
pub open spec fn exact_fit(b: MemoryBlock, request_size: i32) -> bool {
    b.process_id == 0 && b.segment_size == request_size
}

/// The block is free and strictly larger than the request.
pub open spec fn over_fit(b: MemoryBlock, request_size: i32) -> bool {
    b.process_id == 0 && request_size < b.segment_size
}

/// Sum of `segment_size` over the whole map.
pub open spec fn total_size(m: Seq<MemoryBlock>) -> int
    decreases m.len(),
{
    if m.len() == 0 {
        0
    } else {
        total_size(m.drop_last()) + m.last().segment_size
    }
}

/// `b` with its owner changed, as returned when a block is claimed in full.
pub open spec fn claimed_block(b: MemoryBlock, process_id: i32) -> MemoryBlock {
    MemoryBlock {
        start_address: b.start_address,
        end_address: b.end_address,
        segment_size: b.segment_size,
        process_id: process_id,
    }
}

/// The front portion of `b` after a split that claims `request_size` units.
pub open spec fn allocated_part(b: MemoryBlock, request_size: i32, process_id: i32) -> MemoryBlock {
    MemoryBlock {
        start_address: b.start_address,
        end_address: (b.start_address + request_size - 1) as i32,
        segment_size: request_size,
        process_id: process_id,
    }
}

/// The free remainder of `b` behind the claimed front portion.
pub open spec fn remainder_part(b: MemoryBlock, request_size: i32) -> MemoryBlock {
    MemoryBlock {
        start_address: (b.start_address + request_size) as i32,
        end_address: b.end_address,
        segment_size: (b.segment_size - request_size) as i32,
        process_id: 0,
    }
}

/// The map after block `p` is claimed in full by `process_id`.
pub open spec fn claim_at(m: Seq<MemoryBlock>, p: int, process_id: i32) -> Seq<MemoryBlock> {
    m.update(p, claimed_block(m[p], process_id))
}

/// The map after block `p` is split: the front becomes the occupied
/// allocation, the remainder is inserted right after it as a free block.
pub open spec fn split_at(m: Seq<MemoryBlock>, p: int, request_size: i32, process_id: i32) -> Seq<
    MemoryBlock,
> {
    m.update(p, allocated_part(m[p], request_size, process_id)).insert(
        p + 1,
        remainder_part(m[p], request_size),
    )
}

/// `p` is the first block in map order that is free and fits the request.
pub open spec fn is_first_fit(m: Seq<MemoryBlock>, request_size: i32, p: int) -> bool {
    &&& 0 <= p < m.len()
    &&& free_fits(m[p], request_size)
    &&& forall|j: int| 0 <= j < p ==> !free_fits(#[trigger] m[j], request_size)
}

/// `p` is the first block in map order that is free and matches the request
/// exactly; best fit claims such a block without splitting.
pub open spec fn is_first_exact(m: Seq<MemoryBlock>, request_size: i32, p: int) -> bool {
    &&& 0 <= p < m.len()
    &&& exact_fit(m[p], request_size)
    &&& forall|j: int| 0 <= j < p ==> !exact_fit(#[trigger] m[j], request_size)
}

/// No block matches the request exactly, and `p` is the first block in map
/// order among the free blocks, strictly larger than the request, that have
/// the smallest such size: the block best fit splits.
pub open spec fn is_best_split(m: Seq<MemoryBlock>, request_size: i32, p: int) -> bool {
    &&& forall|j: int| 0 <= j < m.len() ==> !exact_fit(#[trigger] m[j], request_size)
    &&& 0 <= p < m.len()
    &&& over_fit(m[p], request_size)
    &&& forall|j: int|
        0 <= j < m.len() && over_fit(#[trigger] m[j], request_size) ==> m[p].segment_size <= m[
            j
        ].segment_size
    &&& forall|j: int|
        0 <= j < p && over_fit(#[trigger] m[j], request_size) ==> m[p].segment_size < m[
            j
        ].segment_size
}

/// `p` is the last block in map order among the free, fitting blocks of the
/// largest such size: the block worst fit takes.
pub open spec fn is_worst_fit(m: Seq<MemoryBlock>, request_size: i32, p: int) -> bool {
    &&& 0 <= p < m.len()
    &&& free_fits(m[p], request_size)
    &&& forall|j: int|
        0 <= j < m.len() && free_fits(#[trigger] m[j], request_size) ==> m[j].segment_size <= m[
            p
        ].segment_size
    &&& forall|j: int|
        p < j < m.len() && free_fits(#[trigger] m[j], request_size) ==> m[j].segment_size < m[
            p
        ].segment_size
}

/// `p` is the first block at or past the `last_address` cursor that is free
/// and fits the request; blocks before the cursor are never considered.
pub open spec fn is_next_fit(m: Seq<MemoryBlock>, request_size: i32, last_address: i32, p: int) -> bool {
    &&& 0 <= p < m.len()
    &&& m[p].start_address >= last_address
    &&& free_fits(m[p], request_size)
    &&& forall|j: int|
        0 <= j < p && (#[trigger] m[j]).start_address >= last_address ==> !free_fits(
            m[j],
            request_size,
        )
}

/// `p` is the first entry of the map equal, field for field, to `b`.
pub open spec fn is_found_at(m: Seq<MemoryBlock>, b: MemoryBlock, p: int) -> bool {
    &&& 0 <= p < m.len()
    &&& m[p] == b
    &&& forall|j: int| 0 <= j < p ==> #[trigger] m[j] != b
}

/// `b` marked free, every other field kept.
pub open spec fn freed_version(b: MemoryBlock) -> MemoryBlock {
    MemoryBlock {
        start_address: b.start_address,
        end_address: b.end_address,
        segment_size: b.segment_size,
        process_id: 0,
    }
}

/// Index of the leftmost block a release at `p` merges: the predecessor when
/// it exists and is free, else `p` itself.
pub open spec fn left_index(m: Seq<MemoryBlock>, p: int) -> int {
    if p > 0 && m[p - 1].process_id == 0 {
        p - 1
    } else {
        p
    }
}

/// Index of the rightmost block a release at `p` merges: the successor when
/// it exists and is free, else `p` itself.
pub open spec fn right_index(m: Seq<MemoryBlock>, p: int) -> int {
    if p + 1 < m.len() && m[p + 1].process_id == 0 {
        p + 1
    } else {
        p
    }
}

/// One free block spanning blocks `l` through `r`, with their summed size.
pub open spec fn merged_block(m: Seq<MemoryBlock>, l: int, r: int) -> MemoryBlock {
    MemoryBlock {
        start_address: m[l].start_address,
        end_address: m[r].end_address,
        segment_size: total_size(m.subrange(l, r + 1)) as i32,
        process_id: 0,
    }
}

/// The map after the block at `p` is released: freed in place when neither
/// neighbour is free, otherwise replaced, together with its free neighbours,
/// by one merged free block.
pub open spec fn release_result(m: Seq<MemoryBlock>, p: int) -> Seq<MemoryBlock> {
    let l = left_index(m, p);
    let r = right_index(m, p);
    if l == r {
        m.update(p, freed_version(m[p]))
    } else {
        m.subrange(0, l) + seq![merged_block(m, l, r)] + m.subrange(r + 1, m.len() as int)
    }
}

proof fn lemma_total_size_update(m: Seq<MemoryBlock>, i: int, v: MemoryBlock)
    requires
        0 <= i < m.len(),
    ensures
        total_size(m.update(i, v)) == total_size(m) - m[i].segment_size + v.segment_size,
    decreases m.len(),
{
    if i == m.len() - 1 {
        assert(m.update(i, v).drop_last() =~= m.drop_last());
    } else {
        lemma_total_size_update(m.drop_last(), i, v);
        assert(m.update(i, v).drop_last() =~= m.drop_last().update(i, v));
    }
}

proof fn lemma_total_size_insert(m: Seq<MemoryBlock>, i: int, v: MemoryBlock)
    requires
        0 <= i <= m.len(),
    ensures
        total_size(m.insert(i, v)) == total_size(m) + v.segment_size,
    decreases m.len(),
{
    if i == m.len() {
        assert(m.insert(i, v).drop_last() =~= m);
    } else {
        lemma_total_size_insert(m.drop_last(), i, v);
        assert(m.insert(i, v).drop_last() =~= m.drop_last().insert(i, v));
        assert(m.insert(i, v).last() == m.last());
    }
}

proof fn lemma_total_size_add(s: Seq<MemoryBlock>, t: Seq<MemoryBlock>)
    ensures
        total_size(s + t) == total_size(s) + total_size(t),
    decreases t.len(),
{
    if t.len() == 0 {
        assert(s + t =~= s);
    } else {
        lemma_total_size_add(s, t.drop_last());
        assert((s + t).drop_last() =~= s + t.drop_last());
        assert((s + t).last() == t.last());
    }
}

proof fn lemma_total_size_nonneg(s: Seq<MemoryBlock>)
    requires
        forall|i: int| 0 <= i < s.len() ==> wf_block(#[trigger] s[i]),
    ensures
        total_size(s) >= 0,
    decreases s.len(),
{
    if s.len() > 0 {
        lemma_total_size_nonneg(s.drop_last());
    }
}

/// In a well-formed map the summed size of blocks `a` through `b - 1` is
/// exactly the address span they cover.
proof fn lemma_total_size_span(m: Seq<MemoryBlock>, a: int, b: int)
    requires
        wf_map(m),
        0 <= a < b <= m.len(),
    ensures
        total_size(m.subrange(a, b)) == m[b - 1].end_address - m[a].start_address + 1,
    decreases b - a,
{
    if b - a == 1 {
        assert(total_size(Seq::<MemoryBlock>::empty()) == 0);
        assert(m.subrange(a, b).drop_last() =~= Seq::<MemoryBlock>::empty());
        assert(m.subrange(a, b).last() == m[a]);
    } else {
        lemma_total_size_span(m, a, b - 1);
        assert(m.subrange(a, b).drop_last() =~= m.subrange(a, b - 1));
        assert(m.subrange(a, b).last() == m[b - 1]);
        assert(m[b - 2].end_address + 1 == m[b - 1].start_address);
    }
}

/// The summed size of any slice of a well-formed map is at most the summed
/// size of the whole map.
proof fn lemma_total_size_subrange_le(m: Seq<MemoryBlock>, a: int, b: int)
    requires
        wf_map(m),
        0 <= a <= b <= m.len(),
    ensures
        total_size(m.subrange(a, b)) <= total_size(m),
{
    assert(m =~= m.subrange(0, a) + m.subrange(a, b) + m.subrange(b, m.len() as int));
    lemma_total_size_add(m.subrange(0, a) + m.subrange(a, b), m.subrange(b, m.len() as int));
    lemma_total_size_add(m.subrange(0, a), m.subrange(a, b));
    lemma_total_size_nonneg(m.subrange(0, a));
    lemma_total_size_nonneg(m.subrange(b, m.len() as int));
}

/// Claiming a free block in full keeps the map well formed, keeps the total
/// size, and never makes two neighbouring blocks both free.
proof fn lemma_claim_keeps_invariants(m: Seq<MemoryBlock>, p: int, process_id: i32)
    requires
        wf_map(m),
        0 <= p < m.len(),
        process_id != 0,
    ensures
        wf_map(claim_at(m, p, process_id)),
        total_size(claim_at(m, p, process_id)) == total_size(m),
        no_adjacent_free(m) ==> no_adjacent_free(claim_at(m, p, process_id)),
{
    lemma_total_size_update(m, p, claimed_block(m[p], process_id));
}

/// Splitting a strictly larger free block keeps the map well formed, keeps
/// the total size, and never makes two neighbouring blocks both free.
proof fn lemma_split_keeps_invariants(m: Seq<MemoryBlock>, p: int, request_size: i32, process_id: i32)
    requires
        wf_map(m),
        0 <= p < m.len(),
        over_fit(m[p], request_size),
        1 <= request_size,
        process_id != 0,
    ensures
        wf_map(split_at(m, p, request_size, process_id)),
        total_size(split_at(m, p, request_size, process_id)) == total_size(m),
        no_adjacent_free(m) ==> no_adjacent_free(split_at(m, p, request_size, process_id)),
{
    let front = allocated_part(m[p], request_size, process_id);
    let rest = remainder_part(m[p], request_size);
    let s = split_at(m, p, request_size, process_id);
    let u = m.update(p, front);
    assert(s == u.insert(p + 1, rest));
    assert forall|i: int| 0 <= i < s.len() implies wf_block(#[trigger] s[i]) by {
        if i < p {
            assert(s[i] == m[i]);
        } else if i == p {
            assert(s[i] == front);
        } else if i == p + 1 {
            assert(s[i] == rest);
        } else {
            assert(s[i] == m[i - 1]);
        }
    }
    assert forall|i: int| 0 <= i && i + 1 < s.len() implies (#[trigger] s[i]).end_address + 1 == s[
        i + 1
    ].start_address by {
        if i + 1 < p {
            assert(s[i] == m[i] && s[i + 1] == m[i + 1]);
        } else if i + 1 == p {
            assert(s[i] == m[i] && s[i + 1] == front);
        } else if i == p {
            assert(s[i] == front && s[i + 1] == rest);
        } else if i == p + 1 {
            assert(s[i] == rest && s[i + 1] == m[i]);
        } else {
            assert(s[i] == m[i - 1] && s[i + 1] == m[i]);
        }
    }
    if no_adjacent_free(m) {
        assert forall|i: int| 0 <= i && i + 1 < s.len() implies !((#[trigger] s[i]).process_id == 0
            && s[i + 1].process_id == 0) by {
            if i + 1 < p {
                assert(s[i] == m[i] && s[i + 1] == m[i + 1]);
            } else if i + 1 == p {
                assert(s[i + 1] == front);
            } else if i == p {
                assert(s[i] == front);
            } else if i == p + 1 {
                assert(s[i] == rest && s[i + 1] == m[i]);
                assert(!(m[p].process_id == 0 && m[p + 1].process_id == 0));
            } else {
                assert(s[i] == m[i - 1] && s[i + 1] == m[i]);
            }
        }
    }
    lemma_total_size_update(m, p, front);
    lemma_total_size_insert(u, p + 1, rest);
}

/// Claims the fitting free block `p` for `process_id`: in place when the
/// request matches its size exactly, otherwise by splitting it and inserting
/// the free remainder right after the allocation. Shared by all four
/// placement policies once their scans have chosen a block.
fn place_at(
    memory_map: &mut Vec<MemoryBlock>,
    p: usize,
    request_size: i32,
    process_id: i32,
) -> (result: MemoryBlock)
    requires
        wf_map(old(memory_map)@),
        p < old(memory_map)@.len(),
        free_fits(old(memory_map)@[p as int], request_size),
        1 <= request_size,
        process_id != 0,
    ensures
        wf_map(final(memory_map)@),
        total_size(final(memory_map)@) == total_size(old(memory_map)@),
        no_adjacent_free(old(memory_map)@) ==> no_adjacent_free(final(memory_map)@),
        exact_fit(old(memory_map)@[p as int], request_size) ==> final(memory_map)@ == claim_at(
            old(memory_map)@,
            p as int,
            process_id,
        ) && result == claimed_block(old(memory_map)@[p as int], process_id),
        !exact_fit(old(memory_map)@[p as int], request_size) ==> final(memory_map)@ == split_at(
            old(memory_map)@,
            p as int,
            request_size,
            process_id,
        ) && result == allocated_part(old(memory_map)@[p as int], request_size, process_id),
        result.process_id == process_id,
        result.segment_size == request_size,
{
    let ghost m0 = memory_map@;
    if memory_map[p].segment_size == request_size {
        let mut claimed = memory_map[p];
        claimed.process_id = process_id;
        memory_map[p] = claimed;
        proof {
            lemma_claim_keeps_invariants(m0, p as int, process_id);
        }
        claimed
    } else {
        let start = memory_map[p].start_address;
        let end = memory_map[p].end_address;
        let size = memory_map[p].segment_size;
        let front = MemoryBlock {
            start_address: start,
            end_address: start + (request_size - 1),
            segment_size: request_size,
            process_id: process_id,
        };
        let rest = MemoryBlock {
            start_address: start + request_size,
            end_address: end,
            segment_size: size - request_size,
            process_id: 0,
        };
        let n = memory_map.len();
        memory_map[p] = front;
        memory_map.insert(p + 1, rest);
        proof {
            lemma_split_keeps_invariants(m0, p as int, request_size, process_id);
            assert(memory_map@ == split_at(m0, p as int, request_size, process_id));
        }
        front
    }
}

/// Scans free blocks in map order and claims the first one whose size is at
/// least `request_size`: an exact match is claimed in place, a larger one is
/// split and the free remainder inserted right after the allocation. Returns
/// the zero block, leaving the map unchanged, when no free block fits.
pub fn first_fit_allocate(
    memory_map: &mut Vec<MemoryBlock>,
    request_size: i32,
    process_id: i32,
) -> (result: MemoryBlock)
    requires
        wf_map(old(memory_map)@),
        1 <= request_size,
        process_id != 0,
    ensures
        wf_map(final(memory_map)@),
        total_size(final(memory_map)@) == total_size(old(memory_map)@),
        no_adjacent_free(old(memory_map)@) ==> no_adjacent_free(final(memory_map)@),
        forall|p: int|
            #[trigger] is_first_fit(old(memory_map)@, request_size, p) ==> if exact_fit(
                old(memory_map)@[p],
                request_size,
            ) {
                final(memory_map)@ == claim_at(old(memory_map)@, p, process_id) && result
                    == claimed_block(old(memory_map)@[p], process_id)
            } else {
                final(memory_map)@ == split_at(old(memory_map)@, p, request_size, process_id)
                    && result == allocated_part(old(memory_map)@[p], request_size, process_id)
            },
        (exists|j: int|
            0 <= j < old(memory_map)@.len() && free_fits(
                #[trigger] old(memory_map)@[j],
                request_size,
            )) <==> result.process_id == process_id,
        result.process_id == process_id ==> result.segment_size == request_size,
        result.process_id != process_id ==> result == zero_block() && final(memory_map)@ == old(
            memory_map,
        )@,
{
    let ghost m0 = memory_map@;
    let n = memory_map.len();
    let mut i: usize = 0;
    let mut position: usize = n;
    while i < n
        invariant_except_break
            position == n,
        invariant
            n == m0.len(),
            memory_map@ == m0,
            i <= n,
            forall|j: int| 0 <= j < i ==> !free_fits(#[trigger] m0[j], request_size),
        ensures
            memory_map@ == m0,
            n == m0.len(),
            position <= n,
            position == n ==> forall|j: int|
                0 <= j < m0.len() ==> !free_fits(#[trigger] m0[j], request_size),
            position < n ==> is_first_fit(m0, request_size, position as int),
        decreases n - i,
    {
        if memory_map[i].process_id == 0 && request_size <= memory_map[i].segment_size {
            position = i;
            break ;
        }
        i = i + 1;
    }
    if position < n {
        let result = place_at(memory_map, position, request_size, process_id);
        proof {
            assert forall|q: int| #[trigger] is_first_fit(m0, request_size, q) implies q
                == position as int by {}
        }
        result
    } else {
        MemoryBlock { start_address: 0, end_address: 0, segment_size: 0, process_id: 0 }
    }
}

/// Scans all free blocks. A block whose size matches the request exactly is
/// claimed at once, without a split; otherwise the first block of the
/// smallest size still larger than the request is split. Returns the zero
/// block, leaving the map unchanged, when no free block fits. Allocating a
/// request that matches some free block's size exactly never lengthens the
/// map.
pub fn best_fit_allocate(
    memory_map: &mut Vec<MemoryBlock>,
    request_size: i32,
    process_id: i32,
) -> (result: MemoryBlock)
    requires
        wf_map(old(memory_map)@),
        1 <= request_size,
        process_id != 0,
    ensures
        wf_map(final(memory_map)@),
        total_size(final(memory_map)@) == total_size(old(memory_map)@),
        no_adjacent_free(old(memory_map)@) ==> no_adjacent_free(final(memory_map)@),
        forall|p: int|
            #[trigger] is_first_exact(old(memory_map)@, request_size, p) ==> final(memory_map)@
                == claim_at(old(memory_map)@, p, process_id) && result == claimed_block(
                old(memory_map)@[p],
                process_id,
            ),
        forall|p: int|
            #[trigger] is_best_split(old(memory_map)@, request_size, p) ==> final(memory_map)@
                == split_at(old(memory_map)@, p, request_size, process_id) && result
                == allocated_part(old(memory_map)@[p], request_size, process_id),
        (exists|j: int|
            0 <= j < old(memory_map)@.len() && free_fits(
                #[trigger] old(memory_map)@[j],
                request_size,
            )) <==> result.process_id == process_id,
        result.process_id == process_id ==> result.segment_size == request_size,
        result.process_id != process_id ==> result == zero_block() && final(memory_map)@ == old(
            memory_map,
        )@,
        (exists|j: int|
            0 <= j < old(memory_map)@.len() && exact_fit(
                #[trigger] old(memory_map)@[j],
                request_size,
            )) ==> final(memory_map)@.len() == old(memory_map)@.len(),
{
    let ghost m0 = memory_map@;
    let n = memory_map.len();
    let mut i: usize = 0;
    let mut position: usize = n;
    let mut best_size: i32 = 0;
    let mut found_exact = false;
    while i < n
        invariant_except_break
            found_exact == false,
            forall|j: int| 0 <= j < i ==> !exact_fit(#[trigger] m0[j], request_size),
            position == n ==> forall|j: int| 0 <= j < i ==> !over_fit(#[trigger] m0[j], request_size),
            position < n ==> {
                &&& (position as int) < i
                &&& over_fit(m0[position as int], request_size)
                &&& best_size == m0[position as int].segment_size
                &&& forall|j: int|
                    0 <= j < i && over_fit(#[trigger] m0[j], request_size) ==> best_size <= m0[
                        j
                    ].segment_size
                &&& forall|j: int|
                    0 <= j < position && over_fit(#[trigger] m0[j], request_size) ==> best_size
                        < m0[j].segment_size
            },
        invariant
            n == m0.len(),
            memory_map@ == m0,
            i <= n,
            position <= n,
        ensures
            memory_map@ == m0,
            n == m0.len(),
            position <= n,
            found_exact ==> position < n && is_first_exact(m0, request_size, position as int),
            !found_exact ==> forall|j: int| 0 <= j < n ==> !exact_fit(#[trigger] m0[j], request_size),
            !found_exact && position == n ==> forall|j: int|
                0 <= j < n ==> !over_fit(#[trigger] m0[j], request_size),
            !found_exact && position < n ==> is_best_split(m0, request_size, position as int),
        decreases n - i,
    {
        if memory_map[i].process_id == 0 {
            if memory_map[i].segment_size == request_size {
                position = i;
                found_exact = true;
                break ;
            } else if request_size < memory_map[i].segment_size {
                if position == n || memory_map[i].segment_size < best_size {
                    position = i;
                    best_size = memory_map[i].segment_size;
                }
            }
        }
        i = i + 1;
    }
    if position < n {
        let result = place_at(memory_map, position, request_size, process_id);
        proof {
            if found_exact {
                assert forall|q: int| #[trigger] is_first_exact(m0, request_size, q) implies q
                    == position as int by {}
            } else {
                assert forall|q: int| #[trigger] is_best_split(m0, request_size, q) implies q
                    == position as int by {}
            }
        }
        result
    } else {
        MemoryBlock { start_address: 0, end_address: 0, segment_size: 0, process_id: 0 }
    }
}

/// Scans all free blocks large enough for the request and takes the one with
/// the largest size, the last such block in map order on ties; an exact
/// match is claimed in place, a larger block is split. Returns the zero
/// block, leaving the map unchanged, when no free block fits.
pub fn worst_fit_allocate(
    memory_map: &mut Vec<MemoryBlock>,
    request_size: i32,
    process_id: i32,
) -> (result: MemoryBlock)
    requires
        wf_map(old(memory_map)@),
        1 <= request_size,
        process_id != 0,
    ensures
        wf_map(final(memory_map)@),
        total_size(final(memory_map)@) == total_size(old(memory_map)@),
        no_adjacent_free(old(memory_map)@) ==> no_adjacent_free(final(memory_map)@),
        forall|p: int|
            #[trigger] is_worst_fit(old(memory_map)@, request_size, p) ==> if exact_fit(
                old(memory_map)@[p],
                request_size,
            ) {
                final(memory_map)@ == claim_at(old(memory_map)@, p, process_id) && result
                    == claimed_block(old(memory_map)@[p], process_id)
            } else {
                final(memory_map)@ == split_at(old(memory_map)@, p, request_size, process_id)
                    && result == allocated_part(old(memory_map)@[p], request_size, process_id)
            },
        (exists|j: int|
            0 <= j < old(memory_map)@.len() && free_fits(
                #[trigger] old(memory_map)@[j],
                request_size,
            )) <==> result.process_id == process_id,
        result.process_id == process_id ==> result.segment_size == request_size,
        result.process_id != process_id ==> result == zero_block() && final(memory_map)@ == old(
            memory_map,
        )@,
{
    let ghost m0 = memory_map@;
    let n = memory_map.len();
    let mut i: usize = 0;
    let mut position: usize = n;
    let mut best_size: i32 = 0;
    while i < n
        invariant
            n == m0.len(),
            memory_map@ == m0,
            i <= n,
            position <= n,
            position == n ==> forall|j: int| 0 <= j < i ==> !free_fits(#[trigger] m0[j], request_size),
            position < n ==> {
                &&& (position as int) < i
                &&& free_fits(m0[position as int], request_size)
                &&& best_size == m0[position as int].segment_size
                &&& forall|j: int|
                    0 <= j < i && free_fits(#[trigger] m0[j], request_size) ==> m0[
                        j
                    ].segment_size <= best_size
                &&& forall|j: int|
                    position < j < i && free_fits(#[trigger] m0[j], request_size) ==> m0[
                        j
                    ].segment_size < best_size
            },
        decreases n - i,
    {
        if memory_map[i].process_id == 0 && request_size <= memory_map[i].segment_size {
            if position == n || memory_map[i].segment_size >= best_size {
                position = i;
                best_size = memory_map[i].segment_size;
            }
        }
        i = i + 1;
    }
    if position < n {
        let result = place_at(memory_map, position, request_size, process_id);
        proof {
            assert forall|q: int| #[trigger] is_worst_fit(m0, request_size, q) implies q
                == position as int by {}
        }
        result
    } else {
        MemoryBlock { start_address: 0, end_address: 0, segment_size: 0, process_id: 0 }
    }
}

/// First-fit placement restricted to the blocks at or past the caller's
/// `last_address` cursor: claims the first free, fitting block whose start
/// address is at least `last_address`; an exact match is claimed in place, a
/// larger block is split. No wraparound is attempted: when nothing past the
/// cursor fits, the zero block is returned even if an earlier free block
/// would have fitted, and the map is unchanged.
pub fn next_fit_allocate(
    memory_map: &mut Vec<MemoryBlock>,
    request_size: i32,
    process_id: i32,
    last_address: i32,
) -> (result: MemoryBlock)
    requires
        wf_map(old(memory_map)@),
        1 <= request_size,
        process_id != 0,
    ensures
        wf_map(final(memory_map)@),
        total_size(final(memory_map)@) == total_size(old(memory_map)@),
        no_adjacent_free(old(memory_map)@) ==> no_adjacent_free(final(memory_map)@),
        forall|p: int|
            #[trigger] is_next_fit(old(memory_map)@, request_size, last_address, p) ==> if exact_fit(
                old(memory_map)@[p],
                request_size,
            ) {
                final(memory_map)@ == claim_at(old(memory_map)@, p, process_id) && result
                    == claimed_block(old(memory_map)@[p], process_id)
            } else {
                final(memory_map)@ == split_at(old(memory_map)@, p, request_size, process_id)
                    && result == allocated_part(old(memory_map)@[p], request_size, process_id)
            },
        (exists|j: int|
            0 <= j < old(memory_map)@.len() && (#[trigger] old(memory_map)@[j]).start_address
                >= last_address && free_fits(old(memory_map)@[j], request_size)) <==> result.process_id
            == process_id,
        result.process_id == process_id ==> result.segment_size == request_size,
        result.process_id != process_id ==> result == zero_block() && final(memory_map)@ == old(
            memory_map,
        )@,
{
    let ghost m0 = memory_map@;
    let n = memory_map.len();
    let mut i: usize = 0;
    let mut position: usize = n;
    while i < n
        invariant_except_break
            position == n,
        invariant
            n == m0.len(),
            memory_map@ == m0,
            i <= n,
            forall|j: int|
                0 <= j < i && (#[trigger] m0[j]).start_address >= last_address ==> !free_fits(
                    m0[j],
                    request_size,
                ),
        ensures
            memory_map@ == m0,
            n == m0.len(),
            position <= n,
            position == n ==> forall|j: int|
                0 <= j < n && (#[trigger] m0[j]).start_address >= last_address ==> !free_fits(
                    m0[j],
                    request_size,
                ),
            position < n ==> is_next_fit(m0, request_size, last_address, position as int),
        decreases n - i,
    {
        if memory_map[i].start_address >= last_address && memory_map[i].process_id == 0
            && request_size <= memory_map[i].segment_size {
            position = i;
            break ;
        }
        i = i + 1;
    }
    if position < n {
        let result = place_at(memory_map, position, request_size, process_id);
        proof {
            assert forall|q: int| #[trigger] is_next_fit(m0, request_size, last_address, q) implies q
                == position as int by {}
        }
        result
    } else {
        MemoryBlock { start_address: 0, end_address: 0, segment_size: 0, process_id: 0 }
    }
}

/// Releasing block `p` keeps the map well formed, keeps the total size, and,
/// in a map with no two neighbouring free blocks, leaves no two neighbouring
/// free blocks behind.
proof fn lemma_release_keeps_invariants(m: Seq<MemoryBlock>, p: int)
    requires
        wf_map(m),
        0 <= p < m.len(),
        total_size(m) <= i32::MAX,
    ensures
        wf_map(release_result(m, p)),
        total_size(release_result(m, p)) == total_size(m),
        no_adjacent_free(m) ==> no_adjacent_free(release_result(m, p)),
{
    let l = left_index(m, p);
    let r = right_index(m, p);
    let s = release_result(m, p);
    if l == r {
        lemma_total_size_update(m, p, freed_version(m[p]));
    } else {
        let mb = merged_block(m, l, r);
        lemma_total_size_span(m, l, r + 1);
        lemma_total_size_subrange_le(m, l, r + 1);
        assert forall|i: int| 0 <= i < m.subrange(l, r + 1).len() implies wf_block(
            #[trigger] m.subrange(l, r + 1)[i],
        ) by {}
        lemma_total_size_nonneg(m.subrange(l, r + 1));
        assert(total_size(m.subrange(l, r + 1)) as i32 == total_size(m.subrange(l, r + 1)));
        assert(s == m.subrange(0, l) + seq![mb] + m.subrange(r + 1, m.len() as int));
        assert(s.len() == m.len() - (r - l));
        assert forall|i: int| 0 <= i < s.len() implies s[i] == (if i < l {
            m[i]
        } else if i == l {
            mb
        } else {
            m[i + (r - l)]
        }) by {}
        if r == l + 2 {
            assert(m[l].end_address + 1 == m[l + 1].start_address);
            assert(m[l + 1].end_address + 1 == m[l + 2].start_address);
        }
        assert(wf_block(mb));
        assert forall|i: int| 0 <= i < s.len() implies wf_block(#[trigger] s[i]) by {}
        assert forall|i: int| 0 <= i && i + 1 < s.len() implies (#[trigger] s[i]).end_address + 1
            == s[i + 1].start_address by {
            if i + 1 == l {
                assert(s[i] == m[i] && s[i + 1] == mb);
            } else if i == l {
                assert(s[i] == mb && s[i + 1] == m[r + 1]);
                assert(m[r].end_address + 1 == m[r + 1].start_address);
            }
        }
        if no_adjacent_free(m) {
            assert forall|i: int| 0 <= i && i + 1 < s.len() implies !((#[trigger] s[i]).process_id
                == 0 && s[i + 1].process_id == 0) by {
                if i + 1 == l {
                    assert(s[i] == m[l - 1]);
                    assert(!(m[l - 1].process_id == 0 && m[l].process_id == 0));
                } else if i == l {
                    assert(s[i + 1] == m[r + 1]);
                    if r == p + 1 {
                        assert(!(m[r].process_id == 0 && m[r + 1].process_id == 0));
                    }
                }
            }
        }
        assert(m =~= m.subrange(0, l) + m.subrange(l, r + 1) + m.subrange(r + 1, m.len() as int));
        lemma_total_size_add(m.subrange(0, l) + m.subrange(l, r + 1), m.subrange(r + 1, m.len() as int));
        lemma_total_size_add(m.subrange(0, l), m.subrange(l, r + 1));
        lemma_total_size_add(m.subrange(0, l) + seq![mb], m.subrange(r + 1, m.len() as int));
        lemma_total_size_add(m.subrange(0, l), seq![mb]);
        assert(total_size(seq![mb]) == mb.segment_size) by {
            assert(total_size(Seq::<MemoryBlock>::empty()) == 0);
            assert(seq![mb].drop_last() =~= Seq::<MemoryBlock>::empty());
        }
    }
}

/// Finds the entry equal, field for field, to `freed_block`, marks it free,
/// and coalesces it with its free neighbours: the freed block and any free
/// immediate predecessor or successor are replaced by a single free block
/// spanning them, with their summed size. When `freed_block` matches no
/// entry, the map is unchanged.
/// Marks block `p` free and merges it with a free immediate predecessor,
/// a free immediate successor, or both: the merged blocks are replaced by
/// one free block spanning them with their summed size.
#[verifier::rlimit(50)]
fn coalesce_at(memory_map: &mut Vec<MemoryBlock>, p: usize)
    requires
        wf_map(old(memory_map)@),
        p < old(memory_map)@.len(),
        total_size(old(memory_map)@) <= i32::MAX,
    ensures
        final(memory_map)@ == release_result(old(memory_map)@, p as int),
{
    let ghost m0 = memory_map@;
    let n = memory_map.len();
    let mut l = p;
    let mut r = p;
    if p > 0 && memory_map[p - 1].process_id == 0 {
        l = p - 1;
    }
    if p + 1 < n && memory_map[p + 1].process_id == 0 {
        r = p + 1;
    }
    proof {
        assert(l as int == left_index(m0, p as int));
        assert(r as int == right_index(m0, p as int));
    }
    if l == r {
        let mut freed = memory_map[p];
        freed.process_id = 0;
        memory_map[p] = freed;
    } else {
        proof {
            lemma_total_size_span(m0, l as int, r as int + 1);
            lemma_total_size_subrange_le(m0, l as int, r as int + 1);
            assert(total_size(m0.subrange(l as int, l as int + 1)) == m0[l as int].segment_size)
                by {
                assert(total_size(Seq::<MemoryBlock>::empty()) == 0);
                assert(m0.subrange(l as int, l as int + 1).drop_last() =~= Seq::<
                    MemoryBlock,
                >::empty());
            }
            if l < p {
                lemma_total_size_span(m0, l as int, p as int + 1);
                lemma_total_size_subrange_le(m0, l as int, p as int + 1);
                assert(m0.subrange(l as int, p as int + 1).drop_last() =~= m0.subrange(
                    l as int,
                    p as int,
                ));
            }
            if r > p {
                assert(m0.subrange(l as int, r as int + 1).drop_last() =~= m0.subrange(
                    l as int,
                    p as int + 1,
                ));
            }
        }
        let mut sum: i32 = memory_map[l].segment_size;
        if l < p {
            sum = sum + memory_map[p].segment_size;
        }
        if r > p {
            sum = sum + memory_map[r].segment_size;
        }
        proof {
            assert(sum == total_size(m0.subrange(l as int, r as int + 1)));
        }
        let merged = MemoryBlock {
            start_address: memory_map[l].start_address,
            end_address: memory_map[r].end_address,
            segment_size: sum,
            process_id: 0,
        };
        memory_map[l] = merged;
        memory_map.remove(l + 1);
        if r == p + 1 && l < p {
            memory_map.remove(l + 1);
        }
        proof {
            assert(memory_map@ =~= release_result(m0, p as int));
        }
    }
}

pub fn release_memory(freed_block: MemoryBlock, memory_map: &mut Vec<MemoryBlock>)
    requires
        wf_map(old(memory_map)@),
        old(memory_map)@.len() > 0 ==> old(memory_map)@.last().end_address - old(
            memory_map,
        )@[0].start_address + 1 <= i32::MAX,
    ensures
        wf_map(final(memory_map)@),
        total_size(final(memory_map)@) == total_size(old(memory_map)@),
        no_adjacent_free(old(memory_map)@) ==> no_adjacent_free(final(memory_map)@),
        forall|p: int|
            #[trigger] is_found_at(old(memory_map)@, freed_block, p) ==> final(memory_map)@
                == release_result(old(memory_map)@, p),
        (forall|j: int| 0 <= j < old(memory_map)@.len() ==> #[trigger] old(memory_map)@[j]
            != freed_block) ==> final(memory_map)@ == old(memory_map)@,
{
    let ghost m0 = memory_map@;
    let n = memory_map.len();
    let mut i: usize = 0;
    let mut position: usize = n;
    while i < n
        invariant_except_break
            position == n,
        invariant
            n == m0.len(),
            memory_map@ == m0,
            i <= n,
            forall|j: int| 0 <= j < i ==> #[trigger] m0[j] != freed_block,
        ensures
            memory_map@ == m0,
            n == m0.len(),
            position <= n,
            position == n ==> forall|j: int| 0 <= j < n ==> #[trigger] m0[j] != freed_block,
            position < n ==> is_found_at(m0, freed_block, position as int),
        decreases n - i,
    {
        if memory_map[i] == freed_block {
            position = i;
            break ;
        }
        i = i + 1;
    }
    if position < n {
        proof {
            lemma_total_size_span(m0, 0, n as int);
            assert(m0.subrange(0, n as int) =~= m0);
        }
        coalesce_at(memory_map, position);
        proof {
            lemma_release_keeps_invariants(m0, position as int);
            assert forall|q: int| #[trigger] is_found_at(m0, freed_block, q) implies q
                == position as int by {}
        }
    }
}

} // verus!
