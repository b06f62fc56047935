//! The mathematical state of the allocator and its transitions.
//!
//! [`Table`] is what an [`crate::Entities`] value stands for: the slot records,
//! the pending list, the reservation cursor and the live count, as sequences
//! and unbounded integers. Every operation of the allocator is described here
//! as a function on tables; the executable code is proved against these.

use vstd::prelude::*;
use crate::handle::Entity;
use crate::location::{EntityMeta, Location, NoSuchEntity};

verus! {

/// The generation of a slot after its occupant was freed: one more than
/// before, and 1 after the largest, so never 0.
pub open spec fn next_generation(g: u32) -> u32 {
    if g == u32::MAX {
        1
    } else {
        (g + 1) as u32
    }
}

/// The slot indices of a list of handles, in list order.
pub open spec fn handle_ids(handles: Seq<Entity>) -> Seq<u32> {
    Seq::new(handles.len(), |k: int| handles[k].id)
}

/// The least table length that holds the slot of every handle of the list:
/// one more than the largest slot index, and 0 for the empty list.
pub open spec fn slots_for(handles: Seq<Entity>) -> int
    decreases handles.len(),
{
    if handles.len() == 0 {
        0
    } else {
        let rest = slots_for(handles.drop_last());
        if handles.last().id + 1 > rest {
            handles.last().id + 1
        } else {
            rest
        }
    }
}

/// State of the allocator.
#[verifier::ext_equal]
pub struct Table {
    /// One record per slot, indexed by slot index. Only ever grows.
    pub meta: Seq<EntityMeta>,
    /// Slot indices that wait for reuse. The entries below the boundary are
    /// free; those from the boundary on are reserved and wait for a flush.
    pub pending: Seq<u32>,
    /// The reservation cursor. When it is not negative it is the boundary.
    /// When it is negative the whole pending list is reserved, and so are
    /// `-cursor` slots that the table does not hold yet.
    pub cursor: int,
    /// The live count.
    pub len: int,
}

impl Table {
    /// The table without slots.
    pub open spec fn empty() -> Table {
        Table { meta: Seq::empty(), pending: Seq::empty(), cursor: 0, len: 0 }
    }

    /// The invariant, but for one point: only the first `free_end` pending
    /// entries are known to hold no row.
    pub open spec fn wf_upto(self, free_end: int) -> bool {
        &&& self.meta.len() <= u32::MAX + 1
        &&& self.cursor <= self.pending.len()
        &&& self.pending.no_duplicates()
        &&& forall|k: int|
            0 <= k < self.pending.len() ==> (#[trigger] self.pending[k]) < self.meta.len()
        &&& forall|k: int|
            0 <= k < self.pending.len() && k < free_end ==> self.meta[(
            #[trigger] self.pending[k]) as int].location.is_unassigned()
        &&& forall|i: int| 0 <= i < self.meta.len() ==> (#[trigger] self.meta[i]).generation != 0
    }

    /// The invariant of the allocator: every slot has a 32-bit index; the
    /// cursor does not pass the end of the pending list; no slot is pending
    /// twice; every pending slot exists and holds no row; no generation is
    /// zero.
    pub open spec fn wf(self) -> bool {
        self.wf_upto(self.pending.len() as int)
    }

    /// No reservation waits for a flush.
    pub open spec fn flushed(self) -> bool {
        self.cursor == self.pending.len()
    }

    /// The live count agrees with the table: every slot is either pending or
    /// counted.
    pub open spec fn counted(self) -> bool {
        self.len == self.meta.len() - self.pending.len()
    }

    /// The slots that hold a row.
    pub open spec fn located(self) -> Set<int> {
        Set::new(|i: int| 0 <= i < self.meta.len() && !self.meta[i].location.is_unassigned())
    }

    /// Every slot that is not pending holds a row: the caller has written
    /// the location of each slot that it was given.
    pub open spec fn all_located(self) -> bool {
        forall|i: int|
            0 <= i < self.meta.len() && !self.pending.contains(i as u32)
                ==> !(#[trigger] self.meta[i]).location.is_unassigned()
    }

    /// The state after the caller wrote `location` into slot `id`.
    pub open spec fn locate(self, id: u32, location: Location) -> Table {
        Table {
            meta: self.meta.update(
                id as int,
                EntityMeta { generation: self.meta[id as int].generation, location },
            ),
            ..self
        }
    }

    /// The table with the cursor at `cursor`, or as it is where `cursor` lies
    /// above the pending list and so is no cursor of this table.
    pub open spec fn with_cursor(self, cursor: int) -> Table {
        Table {
            cursor: if cursor <= self.pending.len() {
                cursor
            } else {
                self.cursor
            },
            ..self
        }
    }

    /// How much room a capacity hint for `additional` direct allocations asks
    /// for when `free` slots are free: what the free slots do not cover.
    pub open spec fn shortfall(additional: int, free: int) -> int {
        if additional > free {
            additional - free
        } else {
            0
        }
    }

    /// Index in the pending list where the reserved entries begin.
    pub open spec fn boundary(self) -> int {
        if self.cursor >= 0 {
            self.cursor
        } else {
            0
        }
    }

    /// Number of reserved slots that the table does not hold yet.
    pub open spec fn reserved_new(self) -> int {
        if self.cursor < 0 {
            -self.cursor
        } else {
            0
        }
    }

    /// The handle that names slot `id` right now.
    pub open spec fn handle_of(self, id: u32) -> Entity {
        Entity { id, generation: self.meta[id as int].generation }
    }

    /// The handles of the free entries of the pending list, in list order.
    pub open spec fn freelist(self) -> Seq<Entity> {
        Seq::new(self.boundary() as nat, |k: int| self.handle_of(self.pending[k]))
    }

    /// `h` names the occupant of a slot that holds a row.
    pub open spec fn occupied_by(self, h: Entity) -> bool {
        &&& h.id < self.meta.len()
        &&& self.meta[h.id as int].generation == h.generation
        &&& !self.meta[h.id as int].location.is_unassigned()
    }

    /// `h` names a reserved slot that the table does not hold yet.
    pub open spec fn reserved_beyond(self, h: Entity) -> bool {
        &&& h.id >= self.meta.len()
        &&& h.generation == 1
        &&& h.id < self.meta.len() + self.reserved_new()
    }

    /// `h` names a slot of the table that is reserved and waits for a flush.
    pub open spec fn reserved_pending(self, h: Entity) -> bool {
        &&& h.id < self.meta.len()
        &&& self.meta[h.id as int].generation == h.generation
        &&& self.pending.skip(self.boundary()).contains(h.id)
    }

    /// Result of a lookup.
    pub open spec fn get(self, h: Entity) -> Result<Location, NoSuchEntity> {
        if self.occupied_by(h) {
            Ok(self.meta[h.id as int].location)
        } else if self.reserved_beyond(h) {
            Ok(Location::spec_unassigned())
        } else {
            Err(NoSuchEntity)
        }
    }

    /// `h` names an occupant or a reservation.
    pub open spec fn contains(self, h: Entity) -> bool {
        self.occupied_by(h) || self.reserved_pending(h) || self.reserved_beyond(h)
    }

    /// The handle that a direct allocation returns.
    pub open spec fn allocated(self) -> Entity {
        if self.pending.len() > 0 {
            self.handle_of(self.pending.last())
        } else {
            Entity { id: self.meta.len() as u32, generation: 1 }
        }
    }

    /// The state after a direct allocation: the last pending entry leaves the
    /// list, or, if there is none, a new slot joins the table.
    pub open spec fn allocate(self) -> Table {
        if self.pending.len() > 0 {
            Table {
                pending: self.pending.drop_last(),
                cursor: self.pending.len() - 1,
                len: self.len + 1,
                ..self
            }
        } else {
            Table { meta: self.meta.push(EntityMeta::spec_empty()), len: self.len + 1, ..self }
        }
    }

    /// The state after the occupant `h` was freed.
    pub open spec fn free(self, h: Entity) -> Table {
        Table {
            meta: self.meta.update(
                h.id as int,
                EntityMeta {
                    generation: next_generation(h.generation),
                    location: Location::spec_unassigned(),
                },
            ),
            pending: self.pending.push(h.id),
            cursor: (self.pending.len() + 1) as int,
            len: self.len - 1,
        }
    }

    /// What a forced allocation at `h` displaces: nothing when the slot is
    /// new or pending, else the slot's location.
    pub open spec fn displaced_by(self, h: Entity) -> Option<Location> {
        if h.id >= self.meta.len() || self.pending.contains(h.id) {
            None
        } else {
            Some(self.meta[h.id as int].location)
        }
    }

    /// The state after a forced allocation at `h`.
    pub open spec fn alloc_at(self, h: Entity) -> Table {
        if h.id >= self.meta.len() {
            let between = Seq::new(
                (h.id - self.meta.len()) as nat,
                |k: int| (self.meta.len() + k) as u32,
            );
            let grown = self.meta + Seq::new(
                (h.id + 1 - self.meta.len()) as nat,
                |k: int| EntityMeta::spec_empty(),
            );
            Table {
                meta: grown.update(
                    h.id as int,
                    EntityMeta { generation: h.generation, location: Location::spec_unassigned() },
                ),
                pending: self.pending + between,
                cursor: (self.pending.len() + between.len()) as int,
                len: self.len + 1,
            }
        } else if self.pending.contains(h.id) {
            let k = self.pending.index_of(h.id);
            let rest = self.pending.update(k, self.pending.last()).drop_last();
            Table {
                meta: self.meta.update(
                    h.id as int,
                    EntityMeta { generation: h.generation, ..self.meta[h.id as int] },
                ),
                pending: rest,
                cursor: rest.len() as int,
                len: self.len + 1,
            }
        } else {
            Table {
                meta: self.meta.update(
                    h.id as int,
                    EntityMeta { generation: h.generation, location: Location::spec_unassigned() },
                ),
                ..self
            }
        }
    }

    /// Cursor position `n` can be given out: it does not lie above the
    /// pending list, and the slot beyond the table that a position `n <= 0`
    /// stands for has a 32-bit index.
    pub open spec fn position_usable(self, n: int) -> bool {
        &&& n <= self.pending.len()
        &&& n <= 0 ==> self.meta.len() - n <= u32::MAX
    }

    /// The positions `end - count + 1 ..= end` can be given out.
    pub open spec fn range_usable(self, end: int, count: int) -> bool {
        &&& end <= self.pending.len()
        &&& end - count < 0 ==> self.meta.len() - (end - count) <= u32::MAX
    }

    /// What a reservation of one slot returns when it finds the cursor at
    /// `n`: the handle of that position, or nothing where the position cannot
    /// be given out.
    pub open spec fn try_reserved_at(self, n: int) -> Option<Entity> {
        if self.position_usable(n) {
            Some(self.reserved_at(n))
        } else {
            None
        }
    }

    /// What a reservation of `count` slots returns when it finds the cursor
    /// at `end`: the handles of the positions `end - count + 1 ..= end`, or
    /// nothing where these cannot be given out or the cursor cannot move that
    /// far down.
    pub open spec fn try_reserved(self, end: int, count: int) -> Option<Seq<Entity>> {
        if self.range_usable(end, count) && end - count >= isize::MIN {
            Some(self.reserved(end, count))
        } else {
            None
        }
    }

    /// The handle that belongs to cursor position `n`: for a positive `n` the
    /// pending entry just below it, else the `-n`-th slot beyond the table,
    /// in its first generation.
    pub open spec fn reserved_at(self, n: int) -> Entity {
        if n > 0 {
            self.handle_of(self.pending[n - 1])
        } else {
            Entity { id: (self.meta.len() - n) as u32, generation: 1 }
        }
    }

    /// The state after `count` slots were reserved: the cursor moved down.
    pub open spec fn reserve(self, count: int) -> Table {
        Table { cursor: self.cursor - count, ..self }
    }

    /// The handles of a reservation of `count` slots that found the cursor at
    /// `end`: the positions `end - count + 1 ..= end`, the recycled slots
    /// first, in list order, then the new slots, in rising order.
    pub open spec fn reserved(self, end: int, count: int) -> Seq<Entity> {
        let start = end - count;
        let lo = if start > 0 { start } else { 0 };
        let hi = if end > 0 { end } else { 0 };
        let top = if end < 0 { end } else { 0 };
        Seq::new(
            count as nat,
            |j: int|
                if j < hi - lo {
                    self.reserved_at(lo + j + 1)
                } else {
                    self.reserved_at(top - (j - (hi - lo)))
                },
        )
    }

    /// How many pending entries a batch of `n` slots reuses: all of them, or
    /// `n` if there are more.
    pub open spec fn batch_reused(self, n: int) -> int {
        if n < self.pending.len() {
            n
        } else {
            self.pending.len() as int
        }
    }

    /// The slots of a batch of `n`, in the order of their rows: the last
    /// pending entries, in list order, then new slots, in rising order.
    pub open spec fn batch_ids(self, n: int) -> Seq<u32> {
        let reused = self.batch_reused(n);
        self.pending.skip(self.pending.len() - reused) + Seq::new(
            (n - reused) as nat,
            |j: int| (self.meta.len() + j) as u32,
        )
    }

    /// The state after a batch of `n` slots was allocated for the rows
    /// `first_index ..` of block `archetype`: the `j`-th slot of the batch
    /// holds row `first_index + j`; a new slot is in generation 1. The
    /// pending list still holds the reused entries.
    pub open spec fn alloc_many(self, n: int, archetype: u32, first_index: u32) -> Table {
        let ids = self.batch_ids(n);
        Table {
            meta: Seq::new(
                (self.meta.len() + n - self.batch_reused(n)) as nat,
                |i: int|
                    if ids.contains(i as u32) {
                        EntityMeta {
                            generation: if i < self.meta.len() {
                                self.meta[i].generation
                            } else {
                                1
                            },
                            location: Location {
                                archetype,
                                index: (first_index + ids.index_of(i as u32)) as u32,
                            },
                        }
                    } else {
                        self.meta[i]
                    },
            ),
            len: self.len + n,
            ..self
        }
    }

    /// The state after a batch ended: the pending list is cut down to its
    /// first `pending_end` entries, and the cursor stands at its end.
    pub open spec fn finish_alloc_many(self, pending_end: int) -> Table {
        let kept = if pending_end < self.pending.len() {
            self.pending.take(pending_end)
        } else {
            self.pending
        };
        Table { pending: kept, cursor: kept.len() as int, ..self }
    }

    /// The state after the pending list was replaced by the slots of
    /// `handles`: the table is long enough for each of them, each of them is
    /// in the generation of its handle, and nothing is reserved. Locations
    /// and the live count stay.
    pub open spec fn set_freelist(self, handles: Seq<Entity>) -> Table {
        let ids = handle_ids(handles);
        let count = if slots_for(handles) > self.meta.len() {
            slots_for(handles)
        } else {
            self.meta.len() as int
        };
        Table {
            meta: Seq::new(
                count as nat,
                |i: int|
                    {
                        let prior = if i < self.meta.len() {
                            self.meta[i]
                        } else {
                            EntityMeta::spec_empty()
                        };
                        if ids.contains(i as u32) {
                            EntityMeta {
                                generation: handles[ids.index_of(i as u32)].generation,
                                location: prior.location,
                            }
                        } else {
                            prior
                        }
                    },
            ),
            pending: ids,
            cursor: handles.len() as int,
            len: self.len,
        }
    }

    /// A flush brings slot `i` into use: the slot is reserved, either beyond
    /// the table or in the pending list.
    pub open spec fn materializes(self, i: int) -> bool {
        ||| self.meta.len() <= i < self.meta.len() + self.reserved_new()
        ||| self.pending.skip(self.boundary()).contains(i as u32)
    }

    /// The record that a flush finds for slot `i`: that of the table, or,
    /// for a slot beyond it, the record of a slot that was never used.
    pub open spec fn flush_prior(self, i: int) -> EntityMeta {
        if i < self.meta.len() {
            self.meta[i]
        } else {
            EntityMeta::spec_empty()
        }
    }

    /// `next` is a state that a flush may lead to.
    ///
    /// The table holds the reserved slots beyond it, in generation 1. The
    /// pending list keeps its free entries only, and the cursor stands at
    /// its end. The live count grew by the number of reserved slots. No
    /// generation changed, and no location but those of the reserved slots,
    /// which are the caller's to set.
    pub open spec fn flushes_to(self, next: Table) -> bool {
        &&& next.pending == self.pending.take(self.boundary())
        &&& next.cursor == next.pending.len()
        &&& next.len == self.len + self.pending.len() - self.cursor
        &&& next.meta.len() == self.meta.len() + self.reserved_new()
        &&& forall|i: int|
            0 <= i < next.meta.len() ==> (#[trigger] next.meta[i]).generation == self.flush_prior(
                i,
            ).generation
        &&& forall|i: int|
            0 <= i < next.meta.len() && !self.materializes(i) ==> (#[trigger] next.meta[i]).location
                == self.flush_prior(i).location
    }

    /// `id` is the index of a slot of the table or of a reserved slot beyond
    /// it.
    pub open spec fn resolvable(self, id: u32) -> bool {
        id < self.meta.len() + self.reserved_new()
    }

    /// The handle that names slot `id`, reserved slots included.
    pub open spec fn resolve(self, id: u32) -> Entity {
        if id < self.meta.len() {
            self.handle_of(id)
        } else {
            Entity { id, generation: 1 }
        }
    }
}

/// Distinct slot indices below a bound are at most as many as the bound.
pub proof fn lemma_distinct_below(s: Seq<u32>, bound: int)
    requires
        s.no_duplicates(),
        forall|k: int| 0 <= k < s.len() ==> (#[trigger] s[k]) < bound,
    ensures
        s.len() == 0 || s.len() <= bound,
    decreases s.len(),
{
    if s.len() > 0 {
        if exists|k: int| 0 <= k < s.len() && s[k] == bound - 1 {
            let k = choose|k: int| 0 <= k < s.len() && s[k] == bound - 1;
            let rest = s.remove(k);
            assert forall|j: int| 0 <= j < rest.len() implies (#[trigger] rest[j]) < bound - 1 by {
                if j < k {
                    assert(rest[j] == s[j]);
                } else {
                    assert(rest[j] == s[j + 1]);
                }
            }
            assert(rest.no_duplicates());
            lemma_distinct_below(rest, bound - 1);
        } else {
            let rest = s.drop_last();
            assert forall|j: int| 0 <= j < rest.len() implies (#[trigger] rest[j]) < bound - 1 by {
                assert(rest[j] == s[j]);
            }
            lemma_distinct_below(rest, bound - 1);
            assert(s[s.len() - 1] < bound - 1);
        }
    }
}

/// Every slot of the list lies below `slots_for`, which is 0 or one more
/// than the slot index of one of the handles.
pub proof fn lemma_slots_for(handles: Seq<Entity>)
    ensures
        slots_for(handles) >= 0,
        forall|k: int| 0 <= k < handles.len() ==> (#[trigger] handles[k]).id < slots_for(handles),
        handles.len() == 0 ==> slots_for(handles) == 0,
        handles.len() > 0 ==> exists|k: int|
            0 <= k < handles.len() && (#[trigger] handles[k]).id + 1 == slots_for(handles),
    decreases handles.len(),
{
    if handles.len() > 0 {
        let rest = handles.drop_last();
        lemma_slots_for(rest);
        assert forall|k: int| 0 <= k < handles.len() implies (#[trigger] handles[k]).id < slots_for(
            handles,
        ) by {
            if k < rest.len() {
                assert(rest[k] == handles[k]);
            }
        }
        if handles.last().id + 1 > slots_for(rest) {
            assert(handles[handles.len() - 1].id + 1 == slots_for(handles));
        } else {
            let k = choose|k: int| 0 <= k < rest.len() && (#[trigger] rest[k]).id + 1 == slots_for(rest);
            assert(handles[k] == rest[k]);
        }
    }
}

impl Table {
    /// Freeing an occupant keeps the table well formed and flushed.
    pub proof fn lemma_free_wf(self, h: Entity)
        requires
            self.wf(),
            self.flushed(),
            self.occupied_by(h),
        ensures
            self.free(h).wf(),
            self.free(h).flushed(),
            !self.pending.contains(h.id),
    {
        let next = self.free(h);
        assert(!self.pending.contains(h.id));
        assert forall|i: int, j: int|
            0 <= i < next.pending.len() && 0 <= j < next.pending.len() && i != j implies next.pending[i]
            != next.pending[j] by {
            if i < self.pending.len() {
                assert(self.pending[i] == next.pending[i]);
                assert(self.pending.contains(self.pending[i]));
            }
            if j < self.pending.len() {
                assert(self.pending[j] == next.pending[j]);
                assert(self.pending.contains(self.pending[j]));
            }
        }
        assert forall|k: int| 0 <= k < next.pending.len() implies (#[trigger] next.pending[k])
            < next.meta.len() && next.meta[next.pending[k] as int].location.is_unassigned() by {
            if k < self.pending.len() {
                assert(self.pending[k] == next.pending[k]);
            }
        }
    }

    /// A forced allocation keeps the table well formed and flushed.
    pub proof fn lemma_alloc_at_wf(self, h: Entity)
        requires
            self.wf(),
            self.flushed(),
            h.wf(),
        ensures
            self.alloc_at(h).wf(),
            self.alloc_at(h).flushed(),
    {
        let next = self.alloc_at(h);
        if h.id >= self.meta.len() {
            assert forall|i: int, j: int|
                0 <= i < next.pending.len() && 0 <= j < next.pending.len() && i != j implies next.pending[i]
                != next.pending[j] by {
                if i < self.pending.len() {
                    assert(next.pending[i] == self.pending[i]);
                }
                if j < self.pending.len() {
                    assert(next.pending[j] == self.pending[j]);
                }
            }
            assert forall|k: int| 0 <= k < next.pending.len() implies (#[trigger] next.pending[k])
                < next.meta.len() && next.meta[next.pending[k] as int].location.is_unassigned() by {
                if k < self.pending.len() {
                    assert(next.pending[k] == self.pending[k]);
                }
            }
        } else if self.pending.contains(h.id) {
            let k = self.pending.index_of(h.id);
            assert forall|i: int, j: int|
                0 <= i < next.pending.len() && 0 <= j < next.pending.len() && i != j implies next.pending[i]
                != next.pending[j] by {
                let last = self.pending.len() - 1;
                assert(next.pending[i] == self.pending[if i == k { last } else { i }]);
                assert(next.pending[j] == self.pending[if j == k { last } else { j }]);
            }
            assert forall|i: int| 0 <= i < next.pending.len() implies (#[trigger] next.pending[i])
                < next.meta.len() && next.meta[next.pending[i] as int].location.is_unassigned() by {
                let last = self.pending.len() - 1;
                assert(next.pending[i] == self.pending[if i == k { last } else { i }]);
            }
        } else {
            assert forall|i: int| 0 <= i < next.pending.len() implies (#[trigger] next.pending[i])
                < next.meta.len() && next.meta[next.pending[i] as int].location.is_unassigned() by {
                assert(self.pending.contains(self.pending[i]));
            }
        }
    }

    /// The slots of a batch are distinct, and each is a pending slot or a
    /// slot beyond the table.
    pub proof fn lemma_batch_ids(self, n: int)
        requires
            self.wf(),
            n >= 0,
            self.meta.len() + n - self.batch_reused(n) <= u32::MAX,
        ensures
            self.batch_ids(n).len() == n,
            self.batch_ids(n).no_duplicates(),
            forall|j: int|
                0 <= j < self.batch_reused(n) ==> (#[trigger] self.batch_ids(n)[j])
                    == self.pending[self.pending.len() - self.batch_reused(n) + j],
            forall|j: int|
                self.batch_reused(n) <= j < n ==> (#[trigger] self.batch_ids(n)[j])
                    == self.meta.len() + j - self.batch_reused(n),
    {
        let ids = self.batch_ids(n);
        let reused = self.batch_reused(n);
        assert forall|i: int, j: int| 0 <= i < ids.len() && 0 <= j < ids.len() && i != j implies ids[i]
            != ids[j] by {
            if i < reused {
                assert(ids[i] == self.pending[self.pending.len() - reused + i]);
            }
            if j < reused {
                assert(ids[j] == self.pending[self.pending.len() - reused + j]);
            }
        }
    }

    /// Ending a batch brings the invariant back.
    pub proof fn lemma_finish_alloc_many_wf(self, pending_end: int)
        requires
            self.wf_upto(pending_end),
            pending_end >= 0,
        ensures
            self.finish_alloc_many(pending_end).wf(),
            self.finish_alloc_many(pending_end).flushed(),
    {
        let next = self.finish_alloc_many(pending_end);
        assert forall|k: int| 0 <= k < next.pending.len() implies (#[trigger] next.pending[k])
            < next.meta.len() && next.meta[next.pending[k] as int].location.is_unassigned() by {
            assert(next.pending[k] == self.pending[k]);
        }
        assert forall|i: int, j: int|
            0 <= i < next.pending.len() && 0 <= j < next.pending.len() && i != j implies next.pending[i]
            != next.pending[j] by {
            assert(next.pending[i] == self.pending[i]);
            assert(next.pending[j] == self.pending[j]);
        }
    }

    /// Writing the location of a slot that is not pending keeps the table
    /// well formed. A slot that holds a row is not pending.
    pub proof fn lemma_locate_wf(self, id: u32, location: Location)
        requires
            self.wf(),
            id < self.meta.len(),
            !self.pending.contains(id) || !self.meta[id as int].location.is_unassigned(),
        ensures
            !self.pending.contains(id),
            self.locate(id, location).wf(),
            self.locate(id, location).flushed() == self.flushed(),
    {
        let next = self.locate(id, location);
        assert(!self.pending.contains(id));
        assert forall|k: int| 0 <= k < next.pending.len() implies (#[trigger] next.pending[k])
            < next.meta.len() && next.meta[next.pending[k] as int].location.is_unassigned() by {
            assert(self.pending.contains(self.pending[k]));
        }
    }

    /// The slot of a direct allocation is a slot of the table and no longer
    /// pending.
    pub proof fn lemma_allocated_slot(self)
        requires
            self.wf(),
            self.pending.len() == 0 ==> self.meta.len() <= u32::MAX,
        ensures
            self.allocated().id < self.allocate().meta.len(),
            !self.allocate().pending.contains(self.allocated().id),
    {
        let next = self.allocate();
        if self.pending.len() > 0 {
            assert forall|k: int| 0 <= k < next.pending.len() implies next.pending[k]
                != self.allocated().id by {
                assert(next.pending[k] == self.pending[k]);
            }
        }
    }

    /// In a well-formed table the pending list is no longer than the table.
    pub proof fn lemma_pending_fits(self)
        requires
            self.wf_upto(0),
        ensures
            self.pending.len() <= self.meta.len(),
    {
        lemma_distinct_below(self.pending, self.meta.len() as int);
    }
}

} // verus!
