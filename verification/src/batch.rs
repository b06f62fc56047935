//! Allocation of a run of slots for contiguous rows of one storage block.

use vstd::prelude::*;
use crate::entities::Entities;
use crate::location::{EntityMeta, Location};
use crate::table::Table;

verus! {

/// Cursor over the slots of one batch: first the reused pending entries, then
/// the new slots.
///
/// It holds no reference to the allocator, which every call takes anew.
#[derive(Clone, Copy, Debug)]
pub struct AllocManyState {
    /// Index of the next reused entry in the pending list. Right after
    /// [`Entities::alloc_many`] this is the length that
    /// [`Entities::finish_alloc_many`] cuts the list down to.
    pub pending_end: usize,
    /// The next new slot.
    pub fresh_start: u32,
    /// The end of the new slots.
    pub fresh_end: u32,
}

impl AllocManyState {
    /// The slots that are still to come, given the allocator's state.
    pub open spec fn remaining(self, table: Table) -> Seq<u32> {
        let reused = if self.pending_end < table.pending.len() {
            table.pending.skip(self.pending_end as int)
        } else {
            Seq::empty()
        };
        let fresh = if self.fresh_start < self.fresh_end {
            Seq::new(
                (self.fresh_end - self.fresh_start) as nat,
                |j: int| (self.fresh_start + j) as u32,
            )
        } else {
            Seq::empty()
        };
        reused + fresh
    }

    /// The next slot of the batch, or `None` at its end.
    pub fn next(&mut self, entities: &Entities) -> (r: Option<u32>)
        ensures
            old(self).remaining(entities@).len() == 0 ==> {
                &&& r is None
                &&& *final(self) == *old(self)
            },
            old(self).remaining(entities@).len() > 0 ==> {
                &&& r == Some(old(self).remaining(entities@)[0])
                &&& final(self).remaining(entities@) == old(self).remaining(entities@).skip(1)
            },
    {
        if self.pending_end < entities.pending.len() {
            let id = entities.pending[self.pending_end];
            self.pending_end += 1;
            assert(self.remaining(entities@) =~= old(self).remaining(entities@).skip(1));
            Some(id)
        } else if self.fresh_start < self.fresh_end {
            let id = self.fresh_start;
            self.fresh_start += 1;
            assert(self.remaining(entities@) =~= old(self).remaining(entities@).skip(1));
            Some(id)
        } else {
            None
        }
    }

    /// How many slots are still to come.
    pub fn len(&self, entities: &Entities) -> (n: usize)
        requires
            self.remaining(entities@).len() <= usize::MAX,
        ensures
            n == self.remaining(entities@).len(),
    {
        let reused = if self.pending_end < entities.pending.len() {
            entities.pending.len() - self.pending_end
        } else {
            0
        };
        let fresh = if self.fresh_start < self.fresh_end {
            (self.fresh_end - self.fresh_start) as usize
        } else {
            0
        };
        fresh + reused
    }
}

impl Entities {
    /// Allocates `n` slots for the rows `first_index .. first_index + n` of
    /// block `archetype` and writes their locations.
    ///
    /// Pending slots are reused first, the most recently freed ones, and keep
    /// their generation; what is missing are new slots in generation 1. The
    /// pending list keeps the reused entries until
    /// [`Entities::finish_alloc_many`] is called with the `pending_end` of the
    /// state that is returned here.
    pub fn alloc_many(&mut self, n: u32, archetype: u32, first_index: u32) -> (state:
        AllocManyState)
        requires
            old(self).wf(),
            old(self)@.flushed(),
            old(self).meta.len() + n - old(self)@.batch_reused(n as int) < u32::MAX,
            old(self).meta.len() + n - old(self)@.batch_reused(n as int) <= isize::MAX,
            first_index + n <= u32::MAX,
            old(self).len + n <= u32::MAX,
        ensures
            final(self)@ == old(self)@.alloc_many(n as int, archetype, first_index),
            state.pending_end == old(self).pending.len() - old(self)@.batch_reused(n as int),
            state.fresh_start == old(self).meta.len(),
            state.fresh_end == final(self).meta.len(),
            state.remaining(final(self)@) == old(self)@.batch_ids(n as int),
            final(self).wf_upto(state.pending_end as int),
    {
        let ghost before = self@;
        let ghost ids = before.batch_ids(n as int);
        proof {
            before.lemma_batch_ids(n as int);
        }
        let reused: usize = if (n as usize) < self.pending.len() {
            n as usize
        } else {
            self.pending.len()
        };
        let fresh: u32 = n - reused as u32;
        let pending_end = self.pending.len() - reused;
        let mut k = pending_end;
        let mut row = first_index;
        while k < self.pending.len()
            invariant
                before.wf(),
                pending_end <= k <= self.pending.len(),
                pending_end == before.pending.len() - reused,
                reused == before.batch_reused(n as int),
                first_index + n <= u32::MAX,
                row == first_index + (k - pending_end),
                self.pending@ == before.pending,
                self.free_cursor == before.cursor,
                self.len == before.len,
                self.meta@.len() == before.meta.len(),
                forall|j: int|
                    pending_end <= j < k ==> self.meta@[(#[trigger] before.pending[j]) as int] == (
                    EntityMeta {
                        generation: before.meta[before.pending[j] as int].generation,
                        location: Location { archetype, index: (first_index + j - pending_end) as u32 },
                    }),
                forall|i: int|
                    0 <= i < before.meta.len() && !before.pending.subrange(
                        pending_end as int,
                        k as int,
                    ).contains(i as u32) ==> #[trigger] self.meta@[i] == before.meta[i],
            decreases self.pending.len() - k,
        {
            let id = self.pending[k] as usize;
            assert(!before.pending.subrange(pending_end as int, k as int).contains(id as u32)) by {
                let done = before.pending.subrange(pending_end as int, k as int);
                if done.contains(id as u32) {
                    let j = choose|j: int| 0 <= j < done.len() && done[j] == id as u32;
                    assert(before.pending[pending_end + j] == before.pending[k as int]);
                }
            }
            self.meta[id].location = Location { archetype, index: row };
            row += 1;
            k += 1;
            proof {
                let done = before.pending.subrange(pending_end as int, k as int);
                assert forall|j: int| pending_end <= j < k implies self.meta@[(
                #[trigger] before.pending[j]) as int] == (EntityMeta {
                    generation: before.meta[before.pending[j] as int].generation,
                    location: Location { archetype, index: (first_index + j - pending_end) as u32 },
                }) by {
                    if j < k - 1 {
                        assert(before.pending[j] != before.pending[k - 1]);
                    }
                }
                assert forall|i: int|
                    0 <= i < before.meta.len() && !done.contains(i as u32) implies #[trigger] self.meta@[i]
                    == before.meta[i] by {
                    assert(done[k - 1 - pending_end] == id as u32);
                    let earlier = before.pending.subrange(pending_end as int, k - 1);
                    if earlier.contains(i as u32) {
                        let j = choose|j: int| 0 <= j < earlier.len() && earlier[j] == i as u32;
                        assert(done[j] == i as u32);
                    }
                }
            }
        }
        let ghost mid = self.meta@;
        let fresh_start = self.meta.len() as u32;
        let mut j: u32 = 0;
        while j < fresh
            invariant
                j <= fresh,
                fresh == n - reused,
                reused <= n,
                row == first_index + reused,
                first_index + n <= u32::MAX,
                before.meta.len() + fresh < u32::MAX,
                self.pending@ == before.pending,
                self.free_cursor == before.cursor,
                self.len == before.len,
                self.meta@.len() == before.meta.len() + j,
                mid.len() == before.meta.len(),
                forall|i: int| 0 <= i < before.meta.len() ==> #[trigger] self.meta@[i] == mid[i],
                forall|i: int|
                    before.meta.len() <= i < before.meta.len() + j ==> #[trigger] self.meta@[i] == (
                    EntityMeta {
                        generation: 1,
                        location: Location {
                            archetype,
                            index: (first_index + reused + i - before.meta.len()) as u32,
                        },
                    }),
            decreases fresh - j,
        {
            self.meta.push(
                EntityMeta { generation: 1, location: Location { archetype, index: row + j } },
            );
            j += 1;
        }
        self.len += n;
        let state = AllocManyState { pending_end, fresh_start, fresh_end: fresh_start + fresh };
        proof {
            let target = before.alloc_many(n as int, archetype, first_index);
            let count = before.meta.len() as int;
            let done = before.pending.subrange(pending_end as int, before.pending.len() as int);
            assert forall|i: int| 0 <= i < self.meta@.len() implies self.meta@[i] == target.meta[i] by {
                if ids.contains(i as u32) {
                    let j = ids.index_of(i as u32);
                    assert(ids[j] == i as u32);
                    if j < reused {
                        assert(ids[j] == before.pending[pending_end + j]);
                        assert(self.meta@[i] == mid[i]);
                    } else {
                        assert(ids[j] == count + j - reused);
                    }
                } else {
                    if i >= count {
                        assert(ids[reused + i - count] == i as u32);
                    } else if done.contains(i as u32) {
                        let j = choose|j: int| 0 <= j < done.len() && done[j] == i as u32;
                        assert(ids[j] == i as u32);
                    }
                }
            }
            assert(self.meta@ =~= target.meta);
            assert(state.remaining(self@) =~= ids);
            assert forall|k: int|
                0 <= k < self@.pending.len() && k < pending_end implies self@.meta[(
            #[trigger] self@.pending[k]) as int].location.is_unassigned() by {
                let id = before.pending[k];
                if ids.contains(id) {
                    let j = ids.index_of(id);
                    assert(ids[j] == id);
                    if j < reused {
                        assert(ids[j] == before.pending[pending_end + j]);
                    } else {
                        assert(ids[j] == count + j - reused);
                    }
                }
            }
        }
        state
    }

    /// Ends a batch: takes the reused entries off the pending list, which
    /// keeps its first `pending_end` entries, and sets the cursor to the
    /// list's end.
    pub fn finish_alloc_many(&mut self, pending_end: usize)
        requires
            old(self).wf_upto(pending_end as int),
        ensures
            final(self)@ == old(self)@.finish_alloc_many(pending_end as int),
            final(self).wf(),
            final(self)@.flushed(),
    {
        proof {
            self@.lemma_finish_alloc_many_wf(pending_end as int);
            self@.finish_alloc_many(pending_end as int).lemma_pending_fits();
        }
        self.pending.truncate(pending_end);
        self.free_cursor = self.pending.len() as isize;
    }
}

} // verus!
