//! Demand-paged virtual memory with FIFO, LRU and LFU page replacement.
//!
//! The page table is a fixed-length vector of [`PTE`] entries indexed by
//! virtual page number; the frame pool is a caller-owned vector of free
//! physical frame identifiers. An access to a valid page is a hit and only
//! touches its counters. A fault is resolved from the frame pool while one is
//! free, and otherwise by evicting the victim the policy selects, fully
//! resetting the victim's entry and loading the faulting page into the
//! victim's frame.

use vstd::prelude::*;

verus! {

/// One page-table entry: the mapping state for the virtual page whose number
/// is the entry's index in the table. Invalid entries hold the sentinel `-1`
/// in every integer field.
#[derive(Debug, Clone, Copy, PartialEq, Eq, Structural)]
pub struct PTE {
    pub is_valid: bool,
    pub frame_number: i32,
    pub arrival_timestamp: i32,
    pub last_access_timestamp: i32,
    pub reference_count: i32,
}

/// The default, invalid entry.
pub open spec fn default_pte() -> PTE {
    PTE {
        is_valid: false,
        frame_number: -1i32,
        arrival_timestamp: -1i32,
        last_access_timestamp: -1i32,
        reference_count: -1i32,
    }
}

impl Default for PTE {
    fn default() -> (result: Self)
        ensures
            result == default_pte(),
    {
        PTE {
            is_valid: false,
            frame_number: -1,
            arrival_timestamp: -1,
            last_access_timestamp: -1,
            reference_count: -1,
        }
    }
}

/// The entry of a page just loaded into `frame` at time `t`.
pub open spec fn loaded_pte(frame: i32, t: i32) -> PTE {
    PTE {
        is_valid: true,
        frame_number: frame,
        arrival_timestamp: t,
        last_access_timestamp: t,
        reference_count: 1i32,
    }
}

/// `e` after a hit at time `t`: the access time is updated and the reference
/// count incremented; nothing else changes.
pub open spec fn touched_pte(e: PTE, t: i32) -> PTE {
    PTE {
        is_valid: e.is_valid,
        frame_number: e.frame_number,
        arrival_timestamp: e.arrival_timestamp,
        last_access_timestamp: t,
        reference_count: (e.reference_count + 1) as i32,
    }
}

/// Some entry of the table is valid.
pub open spec fn some_valid(pt: Seq<PTE>) -> bool {
    exists|j: int| 0 <= j < pt.len() && (#[trigger] pt[j]).is_valid
}

/// `v` is the FIFO victim: the valid entry with the smallest arrival
/// timestamp, the earliest such index on ties.
pub open spec fn is_fifo_victim(pt: Seq<PTE>, v: int) -> bool {
    &&& 0 <= v < pt.len()
    &&& pt[v].is_valid
    &&& forall|j: int|
        0 <= j < pt.len() && (#[trigger] pt[j]).is_valid ==> pt[j].arrival_timestamp >= pt[
            v
        ].arrival_timestamp
    &&& forall|j: int|
        0 <= j < v && (#[trigger] pt[j]).is_valid ==> pt[j].arrival_timestamp > pt[
            v
        ].arrival_timestamp
}

/// `v` is the LRU victim: the valid entry with the smallest last-access
/// timestamp, the earliest such index on ties.
pub open spec fn is_lru_victim(pt: Seq<PTE>, v: int) -> bool {
    &&& 0 <= v < pt.len()
    &&& pt[v].is_valid
    &&& forall|j: int|
        0 <= j < pt.len() && (#[trigger] pt[j]).is_valid ==> pt[j].last_access_timestamp >= pt[
            v
        ].last_access_timestamp
    &&& forall|j: int|
        0 <= j < v && (#[trigger] pt[j]).is_valid ==> pt[j].last_access_timestamp > pt[
            v
        ].last_access_timestamp
}

/// `v` is the LFU victim: the valid entry with the smallest reference count;
/// ties are broken by the smallest arrival timestamp among the tied entries,
/// then by the earliest index.
pub open spec fn is_lfu_victim(pt: Seq<PTE>, v: int) -> bool {
    &&& 0 <= v < pt.len()
    &&& pt[v].is_valid
    &&& forall|j: int|
        0 <= j < pt.len() && (#[trigger] pt[j]).is_valid ==> pt[j].reference_count >= pt[
            v
        ].reference_count
    &&& forall|j: int|
        0 <= j < pt.len() && (#[trigger] pt[j]).is_valid && pt[j].reference_count == pt[
            v
        ].reference_count ==> pt[j].arrival_timestamp >= pt[v].arrival_timestamp
    &&& forall|j: int|
        0 <= j < v && (#[trigger] pt[j]).is_valid && pt[j].reference_count == pt[
            v
        ].reference_count ==> pt[j].arrival_timestamp > pt[v].arrival_timestamp
}

/// Index of the FIFO victim among the first `n` entries, `-1` when none of
/// them is valid.
pub open spec fn fifo_victim_upto(pt: Seq<PTE>, n: int) -> int
    decreases n,
{
    if n <= 0 {
        -1
    } else {
        let prev = fifo_victim_upto(pt, n - 1);
        if pt[n - 1].is_valid && (prev == -1 || pt[n - 1].arrival_timestamp < pt[
            prev
        ].arrival_timestamp) {
            n - 1
        } else {
            prev
        }
    }
}

/// Index of the FIFO victim of the whole table, `-1` when no entry is valid.
pub open spec fn fifo_victim(pt: Seq<PTE>) -> int {
    fifo_victim_upto(pt, pt.len() as int)
}

/// Index of the LRU victim among the first `n` entries, `-1` when none of
/// them is valid.
pub open spec fn lru_victim_upto(pt: Seq<PTE>, n: int) -> int
    decreases n,
{
    if n <= 0 {
        -1
    } else {
        let prev = lru_victim_upto(pt, n - 1);
        if pt[n - 1].is_valid && (prev == -1 || pt[n - 1].last_access_timestamp < pt[
            prev
        ].last_access_timestamp) {
            n - 1
        } else {
            prev
        }
    }
}

/// Index of the LRU victim of the whole table, `-1` when no entry is valid.
pub open spec fn lru_victim(pt: Seq<PTE>) -> int {
    lru_victim_upto(pt, pt.len() as int)
}

/// `a` orders strictly before `b` for LFU eviction: a smaller reference
/// count, or an equal count and a smaller arrival timestamp.
pub open spec fn lfu_before(a: PTE, b: PTE) -> bool {
    a.reference_count < b.reference_count || (a.reference_count == b.reference_count
        && a.arrival_timestamp < b.arrival_timestamp)
}

/// Index of the LFU victim among the first `n` entries, `-1` when none of
/// them is valid.
pub open spec fn lfu_victim_upto(pt: Seq<PTE>, n: int) -> int
    decreases n,
{
    if n <= 0 {
        -1
    } else {
        let prev = lfu_victim_upto(pt, n - 1);
        if pt[n - 1].is_valid && (prev == -1 || lfu_before(pt[n - 1], pt[prev])) {
            n - 1
        } else {
            prev
        }
    }
}

/// Index of the LFU victim of the whole table, `-1` when no entry is valid.
pub open spec fn lfu_victim(pt: Seq<PTE>) -> int {
    lfu_victim_upto(pt, pt.len() as int)
}

/// The largest arrival timestamp among the first `n` entries, at least zero.
pub open spec fn max_arrival_upto(pt: Seq<PTE>, n: int) -> int
    decreases n,
{
    if n <= 0 {
        0
    } else {
        let prev = max_arrival_upto(pt, n - 1);
        if pt[n - 1].arrival_timestamp > prev {
            pt[n - 1].arrival_timestamp as int
        } else {
            prev
        }
    }
}

/// The synthetic logical time a batch replay starts at: one past the largest
/// arrival timestamp already in the table, so the replay never collides with
/// pre-seeded entries.
pub open spec fn replay_start_timestamp(pt: Seq<PTE>) -> int {
    max_arrival_upto(pt, pt.len() as int) + 1
}

/// One FIFO access at time `t`: the table and pool afterwards, and whether
/// the access faulted.
pub open spec fn fifo_step(pt: Seq<PTE>, page: int, pool: Seq<i32>, t: i32) -> (
    Seq<PTE>,
    Seq<i32>,
    bool,
) {
    if pt[page].is_valid {
        (pt.update(page, touched_pte(pt[page], t)), pool, false)
    } else if pool.len() > 0 {
        (pt.update(page, loaded_pte(pool.last(), t)), pool.drop_last(), true)
    } else {
        let v = fifo_victim(pt);
        if v == -1 {
            (pt, pool, true)
        } else {
            (
                pt.update(v, default_pte()).update(page, loaded_pte(pt[v].frame_number, t)),
                pool,
                true,
            )
        }
    }
}

/// The table, pool and fault count after replaying the first `n` references
/// under FIFO, one logical time unit per reference starting at `t0`.
pub open spec fn fifo_replay(pt: Seq<PTE>, refs: Seq<i32>, pool: Seq<i32>, t0: int, n: int) -> (
    Seq<PTE>,
    Seq<i32>,
    int,
)
    decreases n,
{
    if n <= 0 {
        (pt, pool, 0)
    } else {
        let prev = fifo_replay(pt, refs, pool, t0, n - 1);
        let step = fifo_step(prev.0, refs[n - 1] as int, prev.1, (t0 + n - 1) as i32);
        (
            step.0,
            step.1,
            prev.2 + if step.2 {
                1int
            } else {
                0int
            },
        )
    }
}

proof fn lemma_max_arrival_upto_le(pt: Seq<PTE>, n: int, bound: int)
    requires
        0 <= n <= pt.len(),
        0 <= bound,
        forall|j: int| 0 <= j < n ==> (#[trigger] pt[j]).arrival_timestamp <= bound,
    ensures
        0 <= max_arrival_upto(pt, n) <= bound,
    decreases n,
{
    if n > 0 {
        lemma_max_arrival_upto_le(pt, n - 1, bound);
    }
}

/// One LRU access at time `t`: the table and pool afterwards, and whether
/// the access faulted.
pub open spec fn lru_step(pt: Seq<PTE>, page: int, pool: Seq<i32>, t: i32) -> (
    Seq<PTE>,
    Seq<i32>,
    bool,
) {
    if pt[page].is_valid {
        (pt.update(page, touched_pte(pt[page], t)), pool, false)
    } else if pool.len() > 0 {
        (pt.update(page, loaded_pte(pool.last(), t)), pool.drop_last(), true)
    } else {
        let v = lru_victim(pt);
        if v == -1 {
            (pt, pool, true)
        } else {
            (
                pt.update(v, default_pte()).update(page, loaded_pte(pt[v].frame_number, t)),
                pool,
                true,
            )
        }
    }
}

/// The table, pool and fault count after replaying the first `n` references
/// under LRU, one logical time unit per reference starting at `t0`.
pub open spec fn lru_replay(pt: Seq<PTE>, refs: Seq<i32>, pool: Seq<i32>, t0: int, n: int) -> (
    Seq<PTE>,
    Seq<i32>,
    int,
)
    decreases n,
{
    if n <= 0 {
        (pt, pool, 0)
    } else {
        let prev = lru_replay(pt, refs, pool, t0, n - 1);
        let step = lru_step(prev.0, refs[n - 1] as int, prev.1, (t0 + n - 1) as i32);
        (
            step.0,
            step.1,
            prev.2 + if step.2 {
                1int
            } else {
                0int
            },
        )
    }
}

/// One LFU access at time `t`: the table and pool afterwards, and whether
/// the access faulted.
pub open spec fn lfu_step(pt: Seq<PTE>, page: int, pool: Seq<i32>, t: i32) -> (
    Seq<PTE>,
    Seq<i32>,
    bool,
) {
    if pt[page].is_valid {
        (pt.update(page, touched_pte(pt[page], t)), pool, false)
    } else if pool.len() > 0 {
        (pt.update(page, loaded_pte(pool.last(), t)), pool.drop_last(), true)
    } else {
        let v = lfu_victim(pt);
        if v == -1 {
            (pt, pool, true)
        } else {
            (
                pt.update(v, default_pte()).update(page, loaded_pte(pt[v].frame_number, t)),
                pool,
                true,
            )
        }
    }
}

/// The table, pool and fault count after replaying the first `n` references
/// under LFU, one logical time unit per reference starting at `t0`.
pub open spec fn lfu_replay(pt: Seq<PTE>, refs: Seq<i32>, pool: Seq<i32>, t0: int, n: int) -> (
    Seq<PTE>,
    Seq<i32>,
    int,
)
    decreases n,
{
    if n <= 0 {
        (pt, pool, 0)
    } else {
        let prev = lfu_replay(pt, refs, pool, t0, n - 1);
        let step = lfu_step(prev.0, refs[n - 1] as int, prev.1, (t0 + n - 1) as i32);
        (
            step.0,
            step.1,
            prev.2 + if step.2 {
                1int
            } else {
                0int
            },
        )
    }
}

proof fn lemma_fifo_victim_upto(pt: Seq<PTE>, n: int)
    requires
        0 <= n <= pt.len(),
    ensures
        ({
            let v = fifo_victim_upto(pt, n);
            &&& (v == -1 ==> forall|j: int| 0 <= j < n ==> !(#[trigger] pt[j]).is_valid)
            &&& (v != -1 ==> {
                &&& 0 <= v < n
                &&& pt[v].is_valid
                &&& forall|j: int|
                    0 <= j < n && (#[trigger] pt[j]).is_valid ==> pt[j].arrival_timestamp >= pt[
                        v
                    ].arrival_timestamp
                &&& forall|j: int|
                    0 <= j < v && (#[trigger] pt[j]).is_valid ==> pt[j].arrival_timestamp > pt[
                        v
                    ].arrival_timestamp
            })
        }),
    decreases n,
{
    if n > 0 {
        lemma_fifo_victim_upto(pt, n - 1);
    }
}

/// The index the FIFO victim function names is the valid entry with the
/// smallest arrival timestamp, earliest index on ties; it is `-1` exactly
/// when no entry is valid.
pub proof fn lemma_fifo_victim_characterises(pt: Seq<PTE>)
    ensures
        fifo_victim(pt) == -1 <==> !some_valid(pt),
        fifo_victim(pt) != -1 ==> is_fifo_victim(pt, fifo_victim(pt)),
{
    lemma_fifo_victim_upto(pt, pt.len() as int);
}

proof fn lemma_lru_victim_upto(pt: Seq<PTE>, n: int)
    requires
        0 <= n <= pt.len(),
    ensures
        ({
            let v = lru_victim_upto(pt, n);
            &&& (v == -1 ==> forall|j: int| 0 <= j < n ==> !(#[trigger] pt[j]).is_valid)
            &&& (v != -1 ==> {
                &&& 0 <= v < n
                &&& pt[v].is_valid
                &&& forall|j: int|
                    0 <= j < n && (#[trigger] pt[j]).is_valid ==> pt[j].last_access_timestamp
                        >= pt[v].last_access_timestamp
                &&& forall|j: int|
                    0 <= j < v && (#[trigger] pt[j]).is_valid ==> pt[j].last_access_timestamp
                        > pt[v].last_access_timestamp
            })
        }),
    decreases n,
{
    if n > 0 {
        lemma_lru_victim_upto(pt, n - 1);
    }
}

/// The index the LRU victim function names is the valid entry with the
/// smallest last-access timestamp, earliest index on ties; it is `-1`
/// exactly when no entry is valid.
pub proof fn lemma_lru_victim_characterises(pt: Seq<PTE>)
    ensures
        lru_victim(pt) == -1 <==> !some_valid(pt),
        lru_victim(pt) != -1 ==> is_lru_victim(pt, lru_victim(pt)),
{
    lemma_lru_victim_upto(pt, pt.len() as int);
}

proof fn lemma_lfu_victim_upto(pt: Seq<PTE>, n: int)
    requires
        0 <= n <= pt.len(),
    ensures
        ({
            let v = lfu_victim_upto(pt, n);
            &&& (v == -1 ==> forall|j: int| 0 <= j < n ==> !(#[trigger] pt[j]).is_valid)
            &&& (v != -1 ==> {
                &&& 0 <= v < n
                &&& pt[v].is_valid
                &&& forall|j: int|
                    0 <= j < n && (#[trigger] pt[j]).is_valid ==> !lfu_before(pt[j], pt[v])
                &&& forall|j: int|
                    0 <= j < v && (#[trigger] pt[j]).is_valid ==> lfu_before(pt[v], pt[j])
            })
        }),
    decreases n,
{
    if n > 0 {
        lemma_lfu_victim_upto(pt, n - 1);
    }
}

/// The index the LFU victim function names is the valid entry with the
/// smallest reference count, ties broken by the smallest arrival timestamp
/// and then by the earliest index; it is `-1` exactly when no entry is
/// valid.
pub proof fn lemma_lfu_victim_characterises(pt: Seq<PTE>)
    ensures
        lfu_victim(pt) == -1 <==> !some_valid(pt),
        lfu_victim(pt) != -1 ==> is_lfu_victim(pt, lfu_victim(pt)),
{
    lemma_lfu_victim_upto(pt, pt.len() as int);
}

/// Loads `frame` into the entry of `page_number`: the entry becomes valid
/// with both timestamps set to `current_timestamp` and a reference count of
/// one.
fn allocate_memory(
    page_table: &mut Vec<PTE>,
    page_number: usize,
    frame: i32,
    current_timestamp: i32,
)
    requires
        page_number < old(page_table)@.len(),
    ensures
        final(page_table)@ == old(page_table)@.update(
            page_number as int,
            loaded_pte(frame, current_timestamp),
        ),
{
    page_table[page_number] = PTE {
        is_valid: true,
        frame_number: frame,
        arrival_timestamp: current_timestamp,
        last_access_timestamp: current_timestamp,
        reference_count: 1,
    };
}

/// Fully resets the victim entry at `position` to the default state, then
/// loads `frame` into the entry of `page_number`.
fn replace_memory(
    position: usize,
    page_table: &mut Vec<PTE>,
    page_number: usize,
    frame: i32,
    current_timestamp: i32,
)
    requires
        position < old(page_table)@.len(),
        page_number < old(page_table)@.len(),
    ensures
        final(page_table)@ == old(page_table)@.update(position as int, default_pte()).update(
            page_number as int,
            loaded_pte(frame, current_timestamp),
        ),
{
    page_table[position] = PTE::default();
    allocate_memory(page_table, page_number, frame, current_timestamp);
}

/// Scans the table for the FIFO victim: the valid entry with the smallest
/// arrival timestamp, the earliest such index on ties. Returns the table
/// length when no entry is valid.
fn find_fifo_victim(page_table: &Vec<PTE>) -> (position: usize)
    ensures
        position <= page_table@.len(),
        position == page_table@.len() ==> fifo_victim(page_table@) == -1,
        position < page_table@.len() ==> position as int == fifo_victim(page_table@),
{
    let n = page_table.len();
    let mut i: usize = 0;
    let mut position: usize = n;
    while i < n
        invariant
            n == page_table@.len(),
            i <= n,
            position <= n,
            position == n ==> fifo_victim_upto(page_table@, i as int) == -1,
            position < n ==> position as int == fifo_victim_upto(page_table@, i as int),
        decreases n - i,
    {
        if page_table[i].is_valid && (position == n || page_table[i].arrival_timestamp
            < page_table[position].arrival_timestamp) {
            position = i;
        }
        i = i + 1;
    }
    position
}

/// Simulates one FIFO access to `page_number` at `current_timestamp` and
/// returns the physical frame now backing the page. A valid page is a hit:
/// only its access time and reference count change. Otherwise a frame is
/// popped from the pool when one is free; else the FIFO victim is evicted,
/// its entry fully reset, and its frame reused. Returns `-1`, changing
/// nothing, when there is neither a free frame nor a valid entry to evict.
pub fn process_page_access_fifo(
    page_table: &mut Vec<PTE>,
    page_number: usize,
    frame_pool: &mut Vec<i32>,
    current_timestamp: i32,
) -> (frame: i32)
    requires
        page_number < old(page_table)@.len(),
        old(page_table)@[page_number as int].reference_count < i32::MAX,
    ensures
        final(page_table)@.len() == old(page_table)@.len(),
        old(page_table)@[page_number as int].is_valid ==> {
            &&& final(page_table)@ == old(page_table)@.update(
                page_number as int,
                touched_pte(old(page_table)@[page_number as int], current_timestamp),
            )
            &&& final(frame_pool)@ == old(frame_pool)@
            &&& frame == old(page_table)@[page_number as int].frame_number
        },
        !old(page_table)@[page_number as int].is_valid && old(frame_pool)@.len() > 0 ==> {
            &&& frame == old(frame_pool)@.last()
            &&& final(frame_pool)@ == old(frame_pool)@.drop_last()
            &&& final(page_table)@ == old(page_table)@.update(
                page_number as int,
                loaded_pte(old(frame_pool)@.last(), current_timestamp),
            )
        },
        !old(page_table)@[page_number as int].is_valid && old(frame_pool)@.len() == 0 ==> {
            &&& final(frame_pool)@ == old(frame_pool)@
            &&& forall|v: int|
                #[trigger] is_fifo_victim(old(page_table)@, v) ==> {
                    &&& frame == old(page_table)@[v].frame_number
                    &&& final(page_table)@ == old(page_table)@.update(v, default_pte()).update(
                        page_number as int,
                        loaded_pte(old(page_table)@[v].frame_number, current_timestamp),
                    )
                    &&& final(page_table)@[v] == default_pte()
                }
            &&& (some_valid(old(page_table)@) ==> exists|v: int|
                #[trigger] is_fifo_victim(old(page_table)@, v))
            &&& (!some_valid(old(page_table)@) ==> final(page_table)@ == old(page_table)@ && frame
                == -1)
        },
{
    let ghost pt0 = page_table@;
    if page_table[page_number].is_valid {
        let mut e = page_table[page_number];
        e.last_access_timestamp = current_timestamp;
        e.reference_count = e.reference_count + 1;
        page_table[page_number] = e;
        e.frame_number
    } else if frame_pool.len() > 0 {
        let frame = match frame_pool.pop() {
            Some(t) => t,
            None => -1,
        };
        allocate_memory(page_table, page_number, frame, current_timestamp);
        frame
    } else {
        let position = find_fifo_victim(page_table);
        proof {
            lemma_fifo_victim_characterises(pt0);
        }
        if position < page_table.len() {
            let frame = page_table[position].frame_number;
            replace_memory(position, page_table, page_number, frame, current_timestamp);
            proof {
                assert forall|v: int| #[trigger] is_fifo_victim(pt0, v) implies v
                    == position as int by {}
            }
            frame
        } else {
            -1
        }
    }
}

/// Replays `page_references` in order under FIFO replacement, starting the
/// logical clock one past the largest arrival timestamp in the table and
/// advancing it by one per reference, hit or fault alike; the table and the
/// frame pool are mutated in place. Returns how many references faulted,
/// whether resolved from the pool, by eviction, or not at all.
pub fn count_page_faults_fifo(
    page_table: &mut Vec<PTE>,
    page_references: Vec<i32>,
    frame_pool: &mut Vec<i32>,
) -> (faults: i32)
    requires
        forall|k: int|
            0 <= k < page_references@.len() ==> 0 <= #[trigger] page_references@[k] < old(
                page_table,
            )@.len(),
        page_references@.len() + 1 <= i32::MAX,
        forall|i: int|
            0 <= i < old(page_table)@.len() ==> (#[trigger] old(
                page_table,
            )@[i]).arrival_timestamp + page_references@.len() + 1 <= i32::MAX,
        forall|i: int|
            0 <= i < old(page_table)@.len() ==> (#[trigger] old(page_table)@[i]).reference_count
                + page_references@.len() <= i32::MAX,
    ensures
        ({
            let outcome = fifo_replay(
                old(page_table)@,
                page_references@,
                old(frame_pool)@,
                replay_start_timestamp(old(page_table)@),
                page_references@.len() as int,
            );
            &&& final(page_table)@ == outcome.0
            &&& final(frame_pool)@ == outcome.1
            &&& faults == outcome.2
        }),
{
    let ghost pt0 = page_table@;
    let ghost pool0 = frame_pool@;
    let ghost t0 = replay_start_timestamp(pt0);
    let n = page_table.len();
    let m = page_references.len();
    let mut faults: i32 = 0;
    let mut current_timestamp: i32 = 0;
    let mut i: usize = 0;
    while i < n
        invariant
            n == pt0.len(),
            page_table@ == pt0,
            i <= n,
            current_timestamp as int == max_arrival_upto(pt0, i as int),
            current_timestamp >= 0,
        decreases n - i,
    {
        if page_table[i].arrival_timestamp > current_timestamp {
            current_timestamp = page_table[i].arrival_timestamp;
        }
        i = i + 1;
    }
    proof {
        lemma_max_arrival_upto_le(pt0, n as int, i32::MAX - 1 - m as int);
    }
    current_timestamp = current_timestamp + 1;
    let mut r: usize = 0;
    while r < m
        invariant
            n == pt0.len(),
            m == page_references@.len(),
            r <= m,
            page_table@.len() == n,
            current_timestamp as int == t0 + r,
            t0 + m <= i32::MAX,
            1 <= t0,
            page_table@ == fifo_replay(pt0, page_references@, pool0, t0, r as int).0,
            frame_pool@ == fifo_replay(pt0, page_references@, pool0, t0, r as int).1,
            faults as int == fifo_replay(pt0, page_references@, pool0, t0, r as int).2,
            0 <= faults <= r,
            forall|k: int|
                0 <= k < n ==> (#[trigger] page_table@[k]).reference_count + (m - r) <= i32::MAX,
            forall|k: int| 0 <= k < m ==> 0 <= #[trigger] page_references@[k] < n,
        decreases m - r,
    {
        let page_number = page_references[r] as usize;
        let ghost pre_pt = page_table@;
        let ghost pre_pool = frame_pool@;
        let ghost t_now = current_timestamp;
        if page_table[page_number].is_valid {
            let mut e = page_table[page_number];
            e.last_access_timestamp = current_timestamp;
            e.reference_count = e.reference_count + 1;
            page_table[page_number] = e;
        } else if frame_pool.len() > 0 {
            let frame = match frame_pool.pop() {
                Some(t) => t,
                None => -1,
            };
            allocate_memory(page_table, page_number, frame, current_timestamp);
            faults = faults + 1;
        } else {
            let position = find_fifo_victim(page_table);
            proof {
                lemma_fifo_victim_characterises(pre_pt);
            }
            if position < page_table.len() {
                let frame = page_table[position].frame_number;
                replace_memory(position, page_table, page_number, frame, current_timestamp);
            }
            faults = faults + 1;
        }
        proof {
            let step = fifo_step(pre_pt, page_number as int, pre_pool, t_now);
            assert(page_table@ == step.0);
            assert(frame_pool@ == step.1);
            assert(fifo_replay(pt0, page_references@, pool0, t0, r as int + 1).0 == step.0);
        }
        current_timestamp = current_timestamp + 1;
        r = r + 1;
    }
    faults
}

/// Scans the table for the LRU victim: the valid entry with the smallest
/// last-access timestamp, the earliest such index on ties. Returns the table
/// length when no entry is valid.
fn find_lru_victim(page_table: &Vec<PTE>) -> (position: usize)
    ensures
        position <= page_table@.len(),
        position == page_table@.len() ==> lru_victim(page_table@) == -1,
        position < page_table@.len() ==> position as int == lru_victim(page_table@),
{
    let n = page_table.len();
    let mut i: usize = 0;
    let mut position: usize = n;
    while i < n
        invariant
            n == page_table@.len(),
            i <= n,
            position <= n,
            position == n ==> lru_victim_upto(page_table@, i as int) == -1,
            position < n ==> position as int == lru_victim_upto(page_table@, i as int),
        decreases n - i,
    {
        if page_table[i].is_valid && (position == n || page_table[i].last_access_timestamp
            < page_table[position].last_access_timestamp) {
            position = i;
        }
        i = i + 1;
    }
    position
}

/// Simulates one LRU access to `page_number` at `current_timestamp` and
/// returns the physical frame now backing the page. A valid page is a hit:
/// only its access time and reference count change. Otherwise a frame is
/// popped from the pool when one is free; else the LRU victim is evicted,
/// its entry fully reset, and its frame reused. Returns `-1`, changing
/// nothing, when there is neither a free frame nor a valid entry to evict.
pub fn process_page_access_lru(
    page_table: &mut Vec<PTE>,
    page_number: usize,
    frame_pool: &mut Vec<i32>,
    current_timestamp: i32,
) -> (frame: i32)
    requires
        page_number < old(page_table)@.len(),
        old(page_table)@[page_number as int].reference_count < i32::MAX,
    ensures
        final(page_table)@.len() == old(page_table)@.len(),
        old(page_table)@[page_number as int].is_valid ==> {
            &&& final(page_table)@ == old(page_table)@.update(
                page_number as int,
                touched_pte(old(page_table)@[page_number as int], current_timestamp),
            )
            &&& final(frame_pool)@ == old(frame_pool)@
            &&& frame == old(page_table)@[page_number as int].frame_number
        },
        !old(page_table)@[page_number as int].is_valid && old(frame_pool)@.len() > 0 ==> {
            &&& frame == old(frame_pool)@.last()
            &&& final(frame_pool)@ == old(frame_pool)@.drop_last()
            &&& final(page_table)@ == old(page_table)@.update(
                page_number as int,
                loaded_pte(old(frame_pool)@.last(), current_timestamp),
            )
        },
        !old(page_table)@[page_number as int].is_valid && old(frame_pool)@.len() == 0 ==> {
            &&& final(frame_pool)@ == old(frame_pool)@
            &&& forall|v: int|
                #[trigger] is_lru_victim(old(page_table)@, v) ==> {
                    &&& frame == old(page_table)@[v].frame_number
                    &&& final(page_table)@ == old(page_table)@.update(v, default_pte()).update(
                        page_number as int,
                        loaded_pte(old(page_table)@[v].frame_number, current_timestamp),
                    )
                    &&& final(page_table)@[v] == default_pte()
                }
            &&& (some_valid(old(page_table)@) ==> exists|v: int|
                #[trigger] is_lru_victim(old(page_table)@, v))
            &&& (!some_valid(old(page_table)@) ==> final(page_table)@ == old(page_table)@ && frame
                == -1)
        },
{
    let ghost pt0 = page_table@;
    if page_table[page_number].is_valid {
        let mut e = page_table[page_number];
        e.last_access_timestamp = current_timestamp;
        e.reference_count = e.reference_count + 1;
        page_table[page_number] = e;
        e.frame_number
    } else if frame_pool.len() > 0 {
        let frame = match frame_pool.pop() {
            Some(t) => t,
            None => -1,
        };
        allocate_memory(page_table, page_number, frame, current_timestamp);
        frame
    } else {
        let position = find_lru_victim(page_table);
        proof {
            lemma_lru_victim_characterises(pt0);
        }
        if position < page_table.len() {
            let frame = page_table[position].frame_number;
            replace_memory(position, page_table, page_number, frame, current_timestamp);
            proof {
                assert forall|v: int| #[trigger] is_lru_victim(pt0, v) implies v
                    == position as int by {}
            }
            frame
        } else {
            -1
        }
    }
}

/// Replays `page_references` in order under LRU replacement, starting the
/// logical clock one past the largest arrival timestamp in the table and
/// advancing it by one per reference, hit or fault alike; the table and the
/// frame pool are mutated in place. Returns how many references faulted,
/// whether resolved from the pool, by eviction, or not at all.
pub fn count_page_faults_lru(
    page_table: &mut Vec<PTE>,
    page_references: Vec<i32>,
    frame_pool: &mut Vec<i32>,
) -> (faults: i32)
    requires
        forall|k: int|
            0 <= k < page_references@.len() ==> 0 <= #[trigger] page_references@[k] < old(
                page_table,
            )@.len(),
        page_references@.len() + 1 <= i32::MAX,
        forall|i: int|
            0 <= i < old(page_table)@.len() ==> (#[trigger] old(
                page_table,
            )@[i]).arrival_timestamp + page_references@.len() + 1 <= i32::MAX,
        forall|i: int|
            0 <= i < old(page_table)@.len() ==> (#[trigger] old(page_table)@[i]).reference_count
                + page_references@.len() <= i32::MAX,
    ensures
        ({
            let outcome = lru_replay(
                old(page_table)@,
                page_references@,
                old(frame_pool)@,
                replay_start_timestamp(old(page_table)@),
                page_references@.len() as int,
            );
            &&& final(page_table)@ == outcome.0
            &&& final(frame_pool)@ == outcome.1
            &&& faults == outcome.2
        }),
{
    let ghost pt0 = page_table@;
    let ghost pool0 = frame_pool@;
    let ghost t0 = replay_start_timestamp(pt0);
    let n = page_table.len();
    let m = page_references.len();
    let mut faults: i32 = 0;
    let mut current_timestamp: i32 = 0;
    let mut i: usize = 0;
    while i < n
        invariant
            n == pt0.len(),
            page_table@ == pt0,
            i <= n,
            current_timestamp as int == max_arrival_upto(pt0, i as int),
            current_timestamp >= 0,
        decreases n - i,
    {
        if page_table[i].arrival_timestamp > current_timestamp {
            current_timestamp = page_table[i].arrival_timestamp;
        }
        i = i + 1;
    }
    proof {
        lemma_max_arrival_upto_le(pt0, n as int, i32::MAX - 1 - m as int);
    }
    current_timestamp = current_timestamp + 1;
    let mut r: usize = 0;
    while r < m
        invariant
            n == pt0.len(),
            m == page_references@.len(),
            r <= m,
            page_table@.len() == n,
            current_timestamp as int == t0 + r,
            t0 + m <= i32::MAX,
            1 <= t0,
            page_table@ == lru_replay(pt0, page_references@, pool0, t0, r as int).0,
            frame_pool@ == lru_replay(pt0, page_references@, pool0, t0, r as int).1,
            faults as int == lru_replay(pt0, page_references@, pool0, t0, r as int).2,
            0 <= faults <= r,
            forall|k: int|
                0 <= k < n ==> (#[trigger] page_table@[k]).reference_count + (m - r) <= i32::MAX,
            forall|k: int| 0 <= k < m ==> 0 <= #[trigger] page_references@[k] < n,
        decreases m - r,
    {
        let page_number = page_references[r] as usize;
        let ghost pre_pt = page_table@;
        let ghost pre_pool = frame_pool@;
        let ghost t_now = current_timestamp;
        if page_table[page_number].is_valid {
            let mut e = page_table[page_number];
            e.last_access_timestamp = current_timestamp;
            e.reference_count = e.reference_count + 1;
            page_table[page_number] = e;
        } else if frame_pool.len() > 0 {
            let frame = match frame_pool.pop() {
                Some(t) => t,
                None => -1,
            };
            allocate_memory(page_table, page_number, frame, current_timestamp);
            faults = faults + 1;
        } else {
            let position = find_lru_victim(page_table);
            proof {
                lemma_lru_victim_characterises(pre_pt);
            }
            if position < page_table.len() {
                let frame = page_table[position].frame_number;
                replace_memory(position, page_table, page_number, frame, current_timestamp);
            }
            faults = faults + 1;
        }
        proof {
            let step = lru_step(pre_pt, page_number as int, pre_pool, t_now);
            assert(page_table@ == step.0);
            assert(frame_pool@ == step.1);
            assert(lru_replay(pt0, page_references@, pool0, t0, r as int + 1).0 == step.0);
        }
        current_timestamp = current_timestamp + 1;
        r = r + 1;
    }
    faults
}

/// Scans the table for the LFU victim: the valid entry with the smallest
/// reference count, ties broken by the smallest arrival timestamp among the
/// tied entries and then by the earliest index. Returns the table length
/// when no entry is valid.
fn find_lfu_victim(page_table: &Vec<PTE>) -> (position: usize)
    ensures
        position <= page_table@.len(),
        position == page_table@.len() ==> lfu_victim(page_table@) == -1,
        position < page_table@.len() ==> position as int == lfu_victim(page_table@),
{
    let n = page_table.len();
    let mut i: usize = 0;
    let mut position: usize = n;
    while i < n
        invariant
            n == page_table@.len(),
            i <= n,
            position <= n,
            position == n ==> lfu_victim_upto(page_table@, i as int) == -1,
            position < n ==> position as int == lfu_victim_upto(page_table@, i as int),
        decreases n - i,
    {
        if page_table[i].is_valid && (position == n || page_table[i].reference_count
            < page_table[position].reference_count || (page_table[i].reference_count
            == page_table[position].reference_count && page_table[i].arrival_timestamp
            < page_table[position].arrival_timestamp)) {
            position = i;
        }
        i = i + 1;
    }
    position
}

/// Simulates one LFU access to `page_number` at `current_timestamp` and
/// returns the physical frame now backing the page. A valid page is a hit:
/// only its access time and reference count change. Otherwise a frame is
/// popped from the pool when one is free; else the LFU victim is evicted,
/// its entry fully reset, and its frame reused. Returns `-1`, changing
/// nothing, when there is neither a free frame nor a valid entry to evict.
pub fn process_page_access_lfu(
    page_table: &mut Vec<PTE>,
    page_number: usize,
    frame_pool: &mut Vec<i32>,
    current_timestamp: i32,
) -> (frame: i32)
    requires
        page_number < old(page_table)@.len(),
        old(page_table)@[page_number as int].reference_count < i32::MAX,
    ensures
        final(page_table)@.len() == old(page_table)@.len(),
        old(page_table)@[page_number as int].is_valid ==> {
            &&& final(page_table)@ == old(page_table)@.update(
                page_number as int,
                touched_pte(old(page_table)@[page_number as int], current_timestamp),
            )
            &&& final(frame_pool)@ == old(frame_pool)@
            &&& frame == old(page_table)@[page_number as int].frame_number
        },
        !old(page_table)@[page_number as int].is_valid && old(frame_pool)@.len() > 0 ==> {
            &&& frame == old(frame_pool)@.last()
            &&& final(frame_pool)@ == old(frame_pool)@.drop_last()
            &&& final(page_table)@ == old(page_table)@.update(
                page_number as int,
                loaded_pte(old(frame_pool)@.last(), current_timestamp),
            )
        },
        !old(page_table)@[page_number as int].is_valid && old(frame_pool)@.len() == 0 ==> {
            &&& final(frame_pool)@ == old(frame_pool)@
            &&& forall|v: int|
                #[trigger] is_lfu_victim(old(page_table)@, v) ==> {
                    &&& frame == old(page_table)@[v].frame_number
                    &&& final(page_table)@ == old(page_table)@.update(v, default_pte()).update(
                        page_number as int,
                        loaded_pte(old(page_table)@[v].frame_number, current_timestamp),
                    )
                    &&& final(page_table)@[v] == default_pte()
                }
            &&& (some_valid(old(page_table)@) ==> exists|v: int|
                #[trigger] is_lfu_victim(old(page_table)@, v))
            &&& (!some_valid(old(page_table)@) ==> final(page_table)@ == old(page_table)@ && frame
                == -1)
        },
{
    let ghost pt0 = page_table@;
    if page_table[page_number].is_valid {
        let mut e = page_table[page_number];
        e.last_access_timestamp = current_timestamp;
        e.reference_count = e.reference_count + 1;
        page_table[page_number] = e;
        e.frame_number
    } else if frame_pool.len() > 0 {
        let frame = match frame_pool.pop() {
            Some(t) => t,
            None => -1,
        };
        allocate_memory(page_table, page_number, frame, current_timestamp);
        frame
    } else {
        let position = find_lfu_victim(page_table);
        proof {
            lemma_lfu_victim_characterises(pt0);
        }
        if position < page_table.len() {
            let frame = page_table[position].frame_number;
            replace_memory(position, page_table, page_number, frame, current_timestamp);
            proof {
                assert forall|v: int| #[trigger] is_lfu_victim(pt0, v) implies v
                    == position as int by {}
            }
            frame
        } else {
            -1
        }
    }
}

/// Replays `page_references` in order under LFU replacement, starting the
/// logical clock one past the largest arrival timestamp in the table and
/// advancing it by one per reference, hit or fault alike; the table and the
/// frame pool are mutated in place. Returns how many references faulted,
/// whether resolved from the pool, by eviction, or not at all.
pub fn count_page_faults_lfu(
    page_table: &mut Vec<PTE>,
    page_references: Vec<i32>,
    frame_pool: &mut Vec<i32>,
) -> (faults: i32)
    requires
        forall|k: int|
            0 <= k < page_references@.len() ==> 0 <= #[trigger] page_references@[k] < old(
                page_table,
            )@.len(),
        page_references@.len() + 1 <= i32::MAX,
        forall|i: int|
            0 <= i < old(page_table)@.len() ==> (#[trigger] old(
                page_table,
            )@[i]).arrival_timestamp + page_references@.len() + 1 <= i32::MAX,
        forall|i: int|
            0 <= i < old(page_table)@.len() ==> (#[trigger] old(page_table)@[i]).reference_count
                + page_references@.len() <= i32::MAX,
    ensures
        ({
            let outcome = lfu_replay(
                old(page_table)@,
                page_references@,
                old(frame_pool)@,
                replay_start_timestamp(old(page_table)@),
                page_references@.len() as int,
            );
            &&& final(page_table)@ == outcome.0
            &&& final(frame_pool)@ == outcome.1
            &&& faults == outcome.2
        }),
{
    let ghost pt0 = page_table@;
    let ghost pool0 = frame_pool@;
    let ghost t0 = replay_start_timestamp(pt0);
    let n = page_table.len();
    let m = page_references.len();
    let mut faults: i32 = 0;
    let mut current_timestamp: i32 = 0;
    let mut i: usize = 0;
    while i < n
        invariant
            n == pt0.len(),
            page_table@ == pt0,
            i <= n,
            current_timestamp as int == max_arrival_upto(pt0, i as int),
            current_timestamp >= 0,
        decreases n - i,
    {
        if page_table[i].arrival_timestamp > current_timestamp {
            current_timestamp = page_table[i].arrival_timestamp;
        }
        i = i + 1;
    }
    proof {
        lemma_max_arrival_upto_le(pt0, n as int, i32::MAX - 1 - m as int);
    }
    current_timestamp = current_timestamp + 1;
    let mut r: usize = 0;
    while r < m
        invariant
            n == pt0.len(),
            m == page_references@.len(),
            r <= m,
            page_table@.len() == n,
            current_timestamp as int == t0 + r,
            t0 + m <= i32::MAX,
            1 <= t0,
            page_table@ == lfu_replay(pt0, page_references@, pool0, t0, r as int).0,
            frame_pool@ == lfu_replay(pt0, page_references@, pool0, t0, r as int).1,
            faults as int == lfu_replay(pt0, page_references@, pool0, t0, r as int).2,
            0 <= faults <= r,
            forall|k: int|
                0 <= k < n ==> (#[trigger] page_table@[k]).reference_count + (m - r) <= i32::MAX,
            forall|k: int| 0 <= k < m ==> 0 <= #[trigger] page_references@[k] < n,
        decreases m - r,
    {
        let page_number = page_references[r] as usize;
        let ghost pre_pt = page_table@;
        let ghost pre_pool = frame_pool@;
        let ghost t_now = current_timestamp;
        if page_table[page_number].is_valid {
            let mut e = page_table[page_number];
            e.last_access_timestamp = current_timestamp;
            e.reference_count = e.reference_count + 1;
            page_table[page_number] = e;
        } else if frame_pool.len() > 0 {
            let frame = match frame_pool.pop() {
                Some(t) => t,
                None => -1,
            };
            allocate_memory(page_table, page_number, frame, current_timestamp);
            faults = faults + 1;
        } else {
            let position = find_lfu_victim(page_table);
            proof {
                lemma_lfu_victim_characterises(pre_pt);
            }
            if position < page_table.len() {
                let frame = page_table[position].frame_number;
                replace_memory(position, page_table, page_number, frame, current_timestamp);
            }
            faults = faults + 1;
        }
        proof {
            let step = lfu_step(pre_pt, page_number as int, pre_pool, t_now);
            assert(page_table@ == step.0);
            assert(frame_pool@ == step.1);
            assert(lfu_replay(pt0, page_references@, pool0, t0, r as int + 1).0 == step.0);
        }
        current_timestamp = current_timestamp + 1;
        r = r + 1;
    }
    faults
}

} // verus!
