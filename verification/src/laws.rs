//! What holds of the allocator across its operations, proved over the
//! mathematical state.

use vstd::prelude::*;
use vstd::set_lib::{lemma_int_range, lemma_len_subset, lemma_set_disjoint_lens, set_int_range};
use crate::handle::Entity;
use crate::location::{EntityMeta, Location};
use crate::table::{next_generation, Table};

verus! {

/// The generation of a slot after `frees` of its occupants were freed.
pub open spec fn generation_after(g: u32, frees: nat) -> u32
    decreases frees,
{
    if frees == 0 {
        g
    } else {
        next_generation(generation_after(g, (frees - 1) as nat))
    }
}

/// The generations of a slot run through `1 ..= u32::MAX` in a circle.
pub proof fn lemma_generation_after(g: u32, frees: nat)
    requires
        g != 0,
        frees < u32::MAX,
    ensures
        generation_after(g, frees) == (if g + frees <= u32::MAX {
            g + frees
        } else {
            g + frees - u32::MAX
        }),
    decreases frees,
{
    if frees > 0 {
        lemma_generation_after(g, (frees - 1) as nat);
    }
}

/// A slot does not come back to a generation it had before `u32::MAX` of its
/// occupants were freed, and never has generation 0.
pub proof fn lemma_generation_recurs_late(g: u32, frees: nat)
    requires
        g != 0,
        0 < frees < u32::MAX,
    ensures
        generation_after(g, frees) != g,
        generation_after(g, frees) != 0,
{
    lemma_generation_after(g, frees);
}

/// A handle whose generation is not the one of its slot names nothing: the
/// lookup fails, and the handle is not contained.
pub proof fn lemma_stale_handle(t: Table, h: Entity)
    requires
        h.id < t.meta.len(),
        t.meta[h.id as int].generation != h.generation,
    ensures
        t.get(h) is Err,
        !t.contains(h),
        !t.occupied_by(h),
{
}

/// Once an occupant is freed its handle is stale: the lookup fails and the
/// handle is not contained. The next direct allocation reuses the slot, in
/// the next generation, which is not the one of the handle.
pub proof fn lemma_free_then_lookup(t: Table, h: Entity)
    requires
        t.wf(),
        t.flushed(),
        t.occupied_by(h),
    ensures
        t.free(h).get(h) is Err,
        !t.free(h).contains(h),
        !t.free(h).occupied_by(h),
        t.free(h).allocated() == (Entity { id: h.id, generation: next_generation(h.generation) }),
        t.free(h).allocated() != h,
        t.free(h).allocate().get(h) is Err,
{
    let freed = t.free(h);
    assert(freed.pending.last() == h.id);
    lemma_stale_handle(freed, h);
    lemma_stale_handle(freed.allocate(), h);
}

/// A flush leaves no reservation behind: the cursor stands at the end of the
/// pending list.
pub proof fn lemma_flush_converges(t: Table, next: Table)
    requires
        t.wf(),
        t.flushes_to(next),
    ensures
        next.flushed(),
        next.reserved_new() == 0,
        next.boundary() == next.pending.len(),
        next.freelist().len() == next.pending.len(),
{
}

/// A flush of a table without reservations changes nothing.
pub proof fn lemma_flush_idempotent(t: Table, next: Table)
    requires
        t.wf(),
        t.flushed(),
        t.flushes_to(next),
    ensures
        next == t,
{
    assert(next.pending =~= t.pending);
    assert forall|i: int| 0 <= i < next.meta.len() implies next.meta[i] == t.meta[i] by {
        assert(t.pending.skip(t.boundary()) =~= Seq::<u32>::empty());
        assert(!t.materializes(i));
        assert(next.meta[i].location == t.flush_prior(i).location);
        assert(next.meta[i].generation == t.flush_prior(i).generation);
    }
    assert(next.meta =~= t.meta);
    assert(next =~= t);
}

/// The sum of the numbers of a list.
pub open spec fn total(counts: Seq<int>) -> int
    decreases counts.len(),
{
    if counts.len() == 0 {
        0
    } else {
        counts[0] + total(counts.drop_first())
    }
}

/// The handles of a run of reservations, one after the other, of
/// `counts[0]`, `counts[1]`, ... slots, in the order in which they are handed
/// out.
pub open spec fn reserved_by(t: Table, counts: Seq<int>) -> Seq<Entity>
    decreases counts.len(),
{
    if counts.len() == 0 {
        Seq::empty()
    } else {
        t.reserved(t.cursor, counts[0]) + reserved_by(t.reserve(counts[0]), counts.drop_first())
    }
}

/// The cursor position of the `j`-th handle of a reservation of `count`
/// slots that found the cursor at `end`.
pub open spec fn block_position(end: int, count: int, j: int) -> int {
    let start = end - count;
    let lo = if start > 0 {
        start
    } else {
        0
    };
    let hi = if end > 0 {
        end
    } else {
        0
    };
    let top = if end < 0 {
        end
    } else {
        0
    };
    if j < hi - lo {
        lo + j + 1
    } else {
        top - (j - (hi - lo))
    }
}

/// The cursor position of the `p`-th handle of a run of reservations that
/// began with the cursor at `cursor`.
pub open spec fn run_position(cursor: int, counts: Seq<int>, p: int) -> int
    decreases counts.len(),
{
    if counts.len() == 0 {
        0
    } else if p < counts[0] {
        block_position(cursor, counts[0], p)
    } else {
        run_position(cursor - counts[0], counts.drop_first(), p - counts[0])
    }
}

/// Two cursor positions belong to two slots.
pub proof fn lemma_positions_distinct(t: Table, m: int, n: int)
    requires
        t.wf(),
        m != n,
        m <= t.pending.len(),
        n <= t.pending.len(),
        m <= 0 ==> t.meta.len() - m <= u32::MAX,
        n <= 0 ==> t.meta.len() - n <= u32::MAX,
    ensures
        t.reserved_at(m).id != t.reserved_at(n).id,
{
}

/// A reservation of one slot hands out the handle of the cursor's position.
pub proof fn lemma_reserve_one(t: Table)
    ensures
        t.reserved(t.cursor, 1) == seq![t.reserved_at(t.cursor)],
{
    assert(t.reserved(t.cursor, 1) =~= seq![t.reserved_at(t.cursor)]);
}

/// A reservation hands out the handles of the positions that the cursor
/// passed, each position once.
pub proof fn lemma_block(t: Table, end: int, count: int)
    requires
        count >= 0,
    ensures
        t.reserved(end, count).len() == count,
        forall|j: int|
            0 <= j < count ==> #[trigger] t.reserved(end, count)[j] == t.reserved_at(
                block_position(end, count, j),
            ),
        forall|j: int|
            0 <= j < count ==> end - count < #[trigger] block_position(end, count, j) <= end,
        forall|i: int, j: int|
            0 <= i < j < count ==> #[trigger] block_position(end, count, i) != #[trigger] block_position(
                end,
                count,
                j,
            ),
{
}

/// A run of reservations hands out the handles of the positions that the
/// cursor passed, each position once.
pub proof fn lemma_run(t: Table, counts: Seq<int>)
    requires
        forall|k: int| 0 <= k < counts.len() ==> counts[k] >= 0,
    ensures
        total(counts) >= 0,
        reserved_by(t, counts).len() == total(counts),
        forall|p: int|
            0 <= p < total(counts) ==> #[trigger] reserved_by(t, counts)[p] == t.reserved_at(
                run_position(t.cursor, counts, p),
            ),
        forall|p: int|
            0 <= p < total(counts) ==> t.cursor - total(counts) < #[trigger] run_position(
                t.cursor,
                counts,
                p,
            ) <= t.cursor,
        forall|p: int, q: int|
            0 <= p < q < total(counts) ==> #[trigger] run_position(t.cursor, counts, p)
                != #[trigger] run_position(t.cursor, counts, q),
    decreases counts.len(),
{
    if counts.len() > 0 {
        let first = counts[0];
        let rest = counts.drop_first();
        let next = t.reserve(first);
        assert forall|k: int| 0 <= k < rest.len() implies rest[k] >= 0 by {
            assert(rest[k] == counts[k + 1]);
        }
        lemma_run(next, rest);
        lemma_block(t, t.cursor, first);
        let block = t.reserved(t.cursor, first);
        let tail = reserved_by(next, rest);
        assert forall|p: int| 0 <= p < total(counts) implies #[trigger] reserved_by(t, counts)[p]
            == t.reserved_at(run_position(t.cursor, counts, p)) by {
            if p < first {
                assert(reserved_by(t, counts)[p] == block[p]);
            } else {
                assert(reserved_by(t, counts)[p] == tail[p - first]);
                assert(next.reserved_at(run_position(next.cursor, rest, p - first))
                    == t.reserved_at(run_position(next.cursor, rest, p - first)));
            }
        }
        assert forall|p: int| 0 <= p < total(counts) implies t.cursor - total(counts)
            < #[trigger] run_position(t.cursor, counts, p) <= t.cursor by {
            if p < first {
                assert(run_position(t.cursor, counts, p) == block_position(t.cursor, first, p));
            } else {
                assert(run_position(t.cursor, counts, p) == run_position(
                    next.cursor,
                    rest,
                    p - first,
                ));
            }
        }
        assert forall|p: int, q: int| 0 <= p < q < total(counts) implies #[trigger] run_position(
            t.cursor,
            counts,
            p,
        ) != #[trigger] run_position(t.cursor, counts, q) by {
            if q < first {
                assert(run_position(t.cursor, counts, p) == block_position(t.cursor, first, p));
                assert(run_position(t.cursor, counts, q) == block_position(t.cursor, first, q));
            } else if p >= first {
                assert(run_position(t.cursor, counts, p) == run_position(
                    next.cursor,
                    rest,
                    p - first,
                ));
                assert(run_position(t.cursor, counts, q) == run_position(
                    next.cursor,
                    rest,
                    q - first,
                ));
            } else {
                assert(run_position(t.cursor, counts, p) == block_position(t.cursor, first, p));
                assert(run_position(t.cursor, counts, q) == run_position(
                    next.cursor,
                    rest,
                    q - first,
                ));
            }
        }
    }
}

/// The slots that a run of reservations hands out are pairwise distinct, as
/// long as the slot indices do not run out.
pub proof fn lemma_reservations_disjoint(t: Table, counts: Seq<int>)
    requires
        t.wf(),
        forall|k: int| 0 <= k < counts.len() ==> counts[k] >= 0,
        t.meta.len() - (t.cursor - total(counts)) <= u32::MAX + 1,
    ensures
        reserved_by(t, counts).len() == total(counts),
        forall|p: int, q: int|
            0 <= p < q < total(counts) ==> (#[trigger] reserved_by(t, counts)[p]).id != (
            #[trigger] reserved_by(t, counts)[q]).id,
{
    lemma_run(t, counts);
    assert forall|p: int, q: int| 0 <= p < q < total(counts) implies (#[trigger] reserved_by(
        t,
        counts,
    )[p]).id != (#[trigger] reserved_by(t, counts)[q]).id by {
        let m = run_position(t.cursor, counts, p);
        let n = run_position(t.cursor, counts, q);
        lemma_positions_distinct(t, m, n);
    }
}

/// Where the live count agrees with the table and every slot that was given
/// out has its location, the live count is the number of slots that hold a
/// row.
pub proof fn lemma_live_count(t: Table)
    requires
        t.wf(),
        t.counted(),
        t.all_located(),
    ensures
        t.located().finite(),
        t.located().len() == t.len,
{
    let all = set_int_range(0, t.meta.len() as int);
    let ints = Seq::new(t.pending.len(), |k: int| t.pending[k] as int);
    let waiting = ints.to_set();
    lemma_int_range(0, t.meta.len() as int);
    assert(ints.no_duplicates());
    ints.unique_seq_to_set();
    assert forall|i: int| waiting.contains(i) implies all.contains(i) && !t.located().contains(i) by {
        let k = choose|k: int| 0 <= k < ints.len() && ints[k] == i;
        assert(t.pending[k] == i);
    }
    assert forall|i: int| all.contains(i) && !waiting.contains(i) implies t.located().contains(i) by {
        if t.pending.contains(i as u32) {
            let k = choose|k: int| 0 <= k < t.pending.len() && t.pending[k] == i as u32;
            assert(ints[k] == i);
        }
    }
    lemma_len_subset(waiting, all);
    lemma_len_subset(t.located(), all);
    lemma_set_disjoint_lens(t.located(), waiting);
    assert(t.located() + waiting =~= all);
}

/// A direct allocation, followed by the caller writing a row into the slot,
/// keeps the table conserved: well formed, counted, every slot located.
pub proof fn lemma_allocate_conserves(t: Table, location: Location)
    requires
        t.wf(),
        t.flushed(),
        t.counted(),
        t.all_located(),
        t.pending.len() == 0 ==> t.meta.len() <= u32::MAX,
        !location.is_unassigned(),
    ensures
        t.allocate().wf(),
        t.allocate().counted(),
        t.allocate().locate(t.allocated().id, location).wf(),
        t.allocate().locate(t.allocated().id, location).counted(),
        t.allocate().locate(t.allocated().id, location).all_located(),
{
    let mid = t.allocate();
    let id = t.allocated().id;
    let next = mid.locate(id, location);
    if t.pending.len() > 0 {
        assert(id == t.pending.last());
        assert forall|k: int| 0 <= k < mid.pending.len() implies (#[trigger] mid.pending[k])
            != id by {
            assert(mid.pending[k] == t.pending[k]);
        }
        assert forall|i: int|
            0 <= i < next.meta.len() && !next.pending.contains(i as u32) implies !(
        #[trigger] next.meta[i]).location.is_unassigned() by {
            if i != id && t.pending.contains(i as u32) {
                let k = choose|k: int| 0 <= k < t.pending.len() && t.pending[k] == i as u32;
                assert(mid.pending[k] == i as u32);
            }
        }
    } else {
        assert forall|i: int|
            0 <= i < next.meta.len() && !next.pending.contains(i as u32) implies !(
        #[trigger] next.meta[i]).location.is_unassigned() by {
            if i != id {
                assert(next.meta[i] == t.meta[i]);
            }
        }
    }
}

/// Freeing an occupant keeps the table conserved.
pub proof fn lemma_free_conserves(t: Table, h: Entity)
    requires
        t.wf(),
        t.flushed(),
        t.counted(),
        t.all_located(),
        t.occupied_by(h),
    ensures
        t.free(h).wf(),
        t.free(h).counted(),
        t.free(h).all_located(),
        t.len > 0,
{
    t.lemma_free_wf(h);
    let next = t.free(h);
    next.lemma_pending_fits();
    assert forall|i: int|
        0 <= i < next.meta.len() && !next.pending.contains(i as u32) implies !(
    #[trigger] next.meta[i]).location.is_unassigned() by {
        assert(next.pending.last() == h.id);
        if t.pending.contains(i as u32) {
            let k = choose|k: int| 0 <= k < t.pending.len() && t.pending[k] == i as u32;
            assert(next.pending[k] == i as u32);
        }
    }
}

/// Reserving slots keeps the table conserved: it only moves the cursor.
pub proof fn lemma_reserve_conserves(t: Table, count: int)
    requires
        t.wf(),
        t.counted(),
        t.all_located(),
        count >= 0,
    ensures
        t.reserve(count).wf(),
        t.reserve(count).counted(),
        t.reserve(count).all_located(),
{
}

/// A flush keeps the live count in step with the table. Where the caller
/// gives every slot of the flush a row, the table stays conserved.
pub proof fn lemma_flush_conserves(t: Table, next: Table)
    requires
        t.wf(),
        t.counted(),
        t.flushes_to(next),
    ensures
        next.counted(),
        t.all_located() && (forall|i: int|
            0 <= i < next.meta.len() && t.materializes(i) ==> !(
            #[trigger] next.meta[i]).location.is_unassigned()) ==> next.all_located(),
{
    if t.all_located() && (forall|i: int|
        0 <= i < next.meta.len() && t.materializes(i) ==> !(
        #[trigger] next.meta[i]).location.is_unassigned()) {
        assert forall|i: int|
            0 <= i < next.meta.len() && !next.pending.contains(i as u32) implies !(
        #[trigger] next.meta[i]).location.is_unassigned() by {
            if !t.materializes(i) {
                assert(next.meta[i].location == t.flush_prior(i).location);
                if t.pending.contains(i as u32) {
                    let k = choose|k: int| 0 <= k < t.pending.len() && t.pending[k] == i as u32;
                    if k < t.boundary() {
                        assert(next.pending[k] == i as u32);
                    } else {
                        assert(t.pending.skip(t.boundary())[k - t.boundary()] == i as u32);
                    }
                }
            }
        }
    }
}

/// A forced allocation keeps the live count in step with the table.
pub proof fn lemma_alloc_at_counts(t: Table, h: Entity)
    requires
        t.wf(),
        t.flushed(),
        t.counted(),
    ensures
        t.alloc_at(h).counted(),
{
}

/// A batch allocation, once it has ended, keeps the live count in step with
/// the table.
pub proof fn lemma_alloc_many_counts(t: Table, n: int, archetype: u32, first_index: u32)
    requires
        t.wf(),
        t.flushed(),
        t.counted(),
        n >= 0,
    ensures
        t.alloc_many(n, archetype, first_index).finish_alloc_many(
            t.pending.len() - t.batch_reused(n),
        ).counted(),
{
}

/// A flush leaves a well-formed table, as long as the slot indices did not
/// run out.
pub proof fn lemma_flush_wf(t: Table, next: Table)
    requires
        t.wf(),
        t.flushes_to(next),
        next.meta.len() <= u32::MAX + 1,
    ensures
        next.wf(),
{
    assert forall|k: int| 0 <= k < next.pending.len() implies (#[trigger] next.pending[k])
        < next.meta.len() && next.meta[next.pending[k] as int].location.is_unassigned() by {
        let id = next.pending[k];
        assert(id == t.pending[k]);
        let tail = t.pending.skip(t.boundary());
        if tail.contains(id) {
            let m = choose|m: int| 0 <= m < tail.len() && tail[m] == id;
            assert(t.pending[t.boundary() + m] == t.pending[k]);
        }
        assert(!t.materializes(id as int));
        assert(next.meta[id as int].location == t.flush_prior(id as int).location);
    }
    assert forall|i: int, j: int|
        0 <= i < next.pending.len() && 0 <= j < next.pending.len() && i != j implies next.pending[i]
        != next.pending[j] by {
        assert(next.pending[i] == t.pending[i]);
        assert(next.pending[j] == t.pending[j]);
    }
    assert forall|i: int| 0 <= i < next.meta.len() implies (#[trigger] next.meta[i]).generation
        != 0 by {
        assert(next.meta[i].generation == t.flush_prior(i).generation);
    }
}

/// Rows of a batch: the `j`-th slot of the batch holds row `first_index + j`
/// of the block, a reused slot in its old generation and a new one in
/// generation 1; every other slot is as before.
pub proof fn lemma_batch_rows(t: Table, n: int, archetype: u32, first_index: u32)
    requires
        t.wf(),
        n >= 0,
        t.meta.len() + n - t.batch_reused(n) <= u32::MAX,
        first_index + n <= u32::MAX,
    ensures
        t.batch_ids(n).len() == n,
        t.batch_ids(n).no_duplicates(),
        forall|j: int|
            0 <= j < n ==> t.alloc_many(n, archetype, first_index).meta[(
            #[trigger] t.batch_ids(n)[j]) as int] == (EntityMeta {
                generation: if j < t.batch_reused(n) {
                    t.meta[t.batch_ids(n)[j] as int].generation
                } else {
                    1
                },
                location: Location { archetype, index: (first_index + j) as u32 },
            }),
        forall|i: int|
            0 <= i < t.meta.len() && !t.batch_ids(n).contains(i as u32) ==> (
            #[trigger] t.alloc_many(n, archetype, first_index).meta[i]) == t.meta[i],
{
    t.lemma_batch_ids(n);
    let ids = t.batch_ids(n);
    assert forall|j: int| 0 <= j < n implies t.alloc_many(n, archetype, first_index).meta[(
    #[trigger] ids[j]) as int] == (EntityMeta {
        generation: if j < t.batch_reused(n) {
            t.meta[ids[j] as int].generation
        } else {
            1
        },
        location: Location { archetype, index: (first_index + j) as u32 },
    }) by {
        assert(ids.contains(ids[j]));
        assert(ids[ids.index_of(ids[j])] == ids[j]);
        if j < t.batch_reused(n) {
            assert(ids[j] == t.pending[t.pending.len() - t.batch_reused(n) + j]);
        }
    }
}

/// Where the live count agrees with the table it is within the limits that
/// the operations ask of it: it is not negative and not above the table's
/// length, it is at least 1 where a slot holds an occupant, it is below the
/// table's length where a slot is pending, and after a flush it is again the
/// number of slots that are not pending.
pub proof fn lemma_counted_limits(t: Table, h: Entity)
    requires
        t.wf(),
        t.counted(),
    ensures
        0 <= t.len <= t.meta.len(),
        t.occupied_by(h) ==> t.len > 0,
        t.pending.len() > 0 ==> t.len < t.meta.len(),
        t.len + t.pending.len() - t.cursor == t.meta.len() + t.reserved_new() - t.boundary(),
{
    t.lemma_pending_fits();
    if t.occupied_by(h) {
        if t.pending.contains(h.id) {
            let k = choose|k: int| 0 <= k < t.pending.len() && t.pending[k] == h.id;
            assert(t.meta[t.pending[k] as int].location.is_unassigned());
        }
        let more = t.pending.push(h.id);
        assert forall|i: int, j: int|
            0 <= i < more.len() && 0 <= j < more.len() && i != j implies more[i] != more[j] by {
            if i < t.pending.len() {
                assert(t.pending.contains(t.pending[i]));
            }
            if j < t.pending.len() {
                assert(t.pending.contains(t.pending[j]));
            }
        }
        crate::table::lemma_distinct_below(more, t.meta.len() as int);
    }
}

/// A reservation never hands out a slot that holds a row: the slot of a
/// position that can be given out is a pending slot, which holds none, or a
/// slot beyond the table.
pub proof fn lemma_reserved_holds_no_row(t: Table, n: int)
    requires
        t.wf(),
        t.position_usable(n),
    ensures
        t.reserved_at(n).wf(),
        !t.occupied_by(t.reserved_at(n)),
        n > 0 ==> t.reserved_at(n).id < t.meta.len() && t.meta[t.reserved_at(
            n,
        ).id as int].location.is_unassigned(),
        n <= 0 ==> t.reserved_at(n).id >= t.meta.len(),
{
    if n > 0 {
        assert(t.pending[n - 1] < t.meta.len());
    }
}

/// A direct allocation adds one to the live count, leaves the slot it gives
/// out without a row and every record that the table held as it was.
pub proof fn lemma_allocate_leaves_rows(t: Table)
    requires
        t.wf(),
        t.pending.len() == 0 ==> t.meta.len() <= u32::MAX,
    ensures
        t.allocate().len == t.len + 1,
        t.allocated().id < t.allocate().meta.len(),
        t.allocate().meta[t.allocated().id as int].location.is_unassigned(),
        forall|i: int| 0 <= i < t.meta.len() ==> #[trigger] t.allocate().meta[i] == t.meta[i],
{
    if t.pending.len() > 0 {
        assert(t.pending[t.pending.len() - 1] < t.meta.len());
    }
}

/// A table is conserved when it is well formed, its live count agrees with
/// it, and every slot that was given out holds a row.
pub open spec fn conserved(t: Table) -> bool {
    t.wf() && t.counted() && t.all_located()
}

/// One step of a caller that writes the location of every slot it is given.
pub enum Step {
    /// A direct allocation; the caller writes `location` into the slot.
    Allocate { location: Location },
    /// The occupant that `entity` names is freed.
    Free { entity: Entity },
    /// `count` slots are reserved.
    Reserve { count: nat },
    /// A flush, in which the caller gives every slot a row.
    Flush,
}

/// `next` is a state that the step `step` may lead to from `t`.
pub open spec fn steps_to(t: Table, step: Step, next: Table) -> bool {
    match step {
        Step::Allocate { location } => {
            &&& t.flushed()
            &&& t.pending.len() == 0 ==> t.meta.len() <= u32::MAX
            &&& !location.is_unassigned()
            &&& next == t.allocate().locate(t.allocated().id, location)
        },
        Step::Free { entity } => {
            &&& t.flushed()
            &&& t.occupied_by(entity)
            &&& next == t.free(entity)
        },
        Step::Reserve { count } => next == t.reserve(count as int),
        Step::Flush => {
            &&& t.flushes_to(next)
            &&& next.meta.len() <= u32::MAX + 1
            &&& forall|i: int|
                0 <= i < next.meta.len() && t.materializes(i) ==> !(
                #[trigger] next.meta[i]).location.is_unassigned()
        },
    }
}

/// Every step keeps a conserved table conserved.
pub proof fn lemma_step_conserves(t: Table, step: Step, next: Table)
    requires
        conserved(t),
        steps_to(t, step, next),
    ensures
        conserved(next),
{
    match step {
        Step::Allocate { location } => {
            lemma_allocate_conserves(t, location);
        },
        Step::Free { entity } => {
            lemma_free_conserves(t, entity);
        },
        Step::Reserve { count } => {
            lemma_reserve_conserves(t, count as int);
        },
        Step::Flush => {
            lemma_flush_wf(t, next);
            lemma_flush_conserves(t, next);
        },
    }
}

/// Conservation: along any run of allocations, frees, reservations and
/// flushes that begins in a conserved table, and so in the empty one, the
/// live count is the number of slots that hold a row.
pub proof fn lemma_conservation(states: Seq<Table>, steps: Seq<Step>)
    requires
        states.len() == steps.len() + 1,
        conserved(states[0]),
        forall|k: int|
            0 <= k < steps.len() ==> steps_to(#[trigger] states[k], steps[k], states[k + 1]),
    ensures
        forall|k: int|
            0 <= k < states.len() ==> conserved(#[trigger] states[k]) && states[k].located().finite()
                && states[k].located().len() == states[k].len,
    decreases steps.len(),
{
    if steps.len() > 0 {
        let shorter = states.drop_last();
        assert forall|k: int| 0 <= k < steps.drop_last().len() implies steps_to(
            #[trigger] shorter[k],
            steps.drop_last()[k],
            shorter[k + 1],
        ) by {
            assert(steps_to(states[k], steps[k], states[k + 1]));
        }
        lemma_conservation(shorter, steps.drop_last());
        let last = steps.len() - 1;
        assert(conserved(shorter[last]));
        assert(steps_to(states[last], steps[last], states[last + 1]));
        lemma_step_conserves(states[last], steps[last], states[last + 1]);
        assert forall|k: int| 0 <= k < states.len() implies conserved(#[trigger] states[k])
            && states[k].located().finite() && states[k].located().len() == states[k].len by {
            if k < states.len() - 1 {
                assert(states[k] == shorter[k]);
            } else {
                lemma_live_count(states[k]);
            }
        }
    } else {
        lemma_live_count(states[0]);
    }
}

/// The empty table is conserved.
pub proof fn lemma_empty_conserved()
    ensures
        conserved(Table::empty()),
{
}

} // verus!
