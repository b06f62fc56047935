//! Reservation of slots through the cursor, and the flush that commits them.
//!
//! A reservation is one subtraction on the cursor. Which handles belong to
//! it depends on the table and on the value that the cursor had, and on
//! nothing else: [`Entities::reserved_at`] and [`Entities::reserved`] compute
//! them under shared access, so that a front which keeps the cursor in an
//! atomic integer can hand out handles to many threads at once, each after
//! one fetch-and-subtract. [`Entities::reserve_entity`] and
//! [`Entities::reserve_entities`] move the allocator's own cursor, under
//! exclusive access. Two reservations never pass the same cursor position,
//! and two positions never name the same slot.

use vstd::prelude::*;
use crate::entities::Entities;
use crate::handle::Entity;
use crate::location::{EntityMeta, Location};
use crate::table::Table;

verus! {

/// The handles of one reservation, handed out one by one: the recycled slots
/// first, then the new ones.
pub struct ReserveEntitiesIterator<'a> {
    /// The table, for the generation of a recycled slot.
    meta: &'a [EntityMeta],
    /// The pending list.
    pending: &'a [u32],
    /// Index in the pending list of the next recycled slot.
    next_recycled: usize,
    /// Index in the pending list where the recycled slots end.
    end_recycled: usize,
    /// The next new slot.
    next_fresh: u32,
    /// The end of the new slots.
    end_fresh: u32,
}

impl<'a> ReserveEntitiesIterator<'a> {
    #[verifier::type_invariant]
    spec fn inv(self) -> bool {
        &&& self.next_recycled <= self.end_recycled <= self.pending@.len()
        &&& self.next_fresh <= self.end_fresh
        &&& (self.end_recycled - self.next_recycled) + (self.end_fresh - self.next_fresh)
            <= u32::MAX
        &&& forall|k: int|
            self.next_recycled <= k < self.end_recycled ==> (#[trigger] self.pending@[k])
                < self.meta@.len()
    }

    /// The handles that are still to come.
    pub closed spec fn remaining(self) -> Seq<Entity> {
        Seq::new(
            (self.end_recycled - self.next_recycled) as nat,
            |j: int|
                Entity {
                    id: self.pending@[self.next_recycled + j],
                    generation: self.meta@[self.pending@[self.next_recycled + j] as int].generation,
                },
        ) + Seq::new(
            (self.end_fresh - self.next_fresh) as nat,
            |j: int| Entity { id: (self.next_fresh + j) as u32, generation: 1 },
        )
    }

    /// The next handle of the reservation, or `None` at its end.
    pub fn next(&mut self) -> (r: Option<Entity>)
        ensures
            old(self).remaining().len() == 0 ==> {
                &&& r is None
                &&& final(self).remaining().len() == 0
            },
            old(self).remaining().len() > 0 ==> {
                &&& r == Some(old(self).remaining()[0])
                &&& final(self).remaining() == old(self).remaining().skip(1)
            },
    {
        proof {
            use_type_invariant(&*self);
        }
        if self.next_recycled < self.end_recycled {
            let id = self.pending[self.next_recycled];
            let generation = self.meta[id as usize].generation;
            self.next_recycled += 1;
            assert(self.remaining() =~= old(self).remaining().skip(1));
            Some(Entity { id, generation })
        } else if self.next_fresh < self.end_fresh {
            let id = self.next_fresh;
            self.next_fresh += 1;
            assert(self.remaining() =~= old(self).remaining().skip(1));
            Some(Entity { id, generation: 1 })
        } else {
            None
        }
    }

    /// How many handles are still to come.
    pub fn len(&self) -> (n: usize)
        ensures
            n == self.remaining().len(),
    {
        proof {
            use_type_invariant(self);
        }
        (self.end_recycled - self.next_recycled) + (self.end_fresh - self.next_fresh) as usize
    }
}

impl Entities {
    /// The handle of a reservation that found the cursor at `n`: the pending
    /// entry just below a positive `n`, in its current generation, else the
    /// `-n`-th slot beyond the table, in generation 1.
    pub fn reserved_at(&self, n: isize) -> (e: Entity)
        requires
            self.wf(),
            self@.position_usable(n as int),
        ensures
            e == self@.reserved_at(n as int),
            e.wf(),
    {
        if n > 0 {
            let id = self.pending[(n - 1) as usize];
            Entity { id, generation: self.meta[id as usize].generation }
        } else {
            Entity { id: (self.meta.len() as i64 - n as i64) as u32, generation: 1 }
        }
    }

    /// The handle of a reservation that found the cursor at `n`, if that
    /// position can be given out.
    pub fn try_reserved_at(&self, n: isize) -> (r: Option<Entity>)
        requires
            self.wf(),
        ensures
            r == self@.try_reserved_at(n as int),
    {
        let usable = if n > 0 {
            n as usize <= self.pending.len()
        } else {
            self.meta.len() as i128 - n as i128 <= u32::MAX as i128
        };
        if usable {
            Some(self.reserved_at(n))
        } else {
            None
        }
    }

    /// The handles of a reservation of `count` slots that found the cursor at
    /// `range_end`, if those positions can be given out.
    pub fn try_reserved(&self, range_end: isize, count: u32) -> (r: Option<
        ReserveEntitiesIterator<'_>,
    >)
        requires
            self.wf(),
        ensures
            r is Some <==> self@.try_reserved(range_end as int, count as int) is Some,
            r matches Some(handles) ==> Some(handles.remaining()) == self@.try_reserved(
                range_end as int,
                count as int,
            ),
    {
        if self.usable(range_end, count) {
            Some(self.reserved(range_end, count))
        } else {
            None
        }
    }

    /// True when the positions `range_end - count + 1 ..= range_end` can be
    /// given out and the position below them is a cursor value.
    fn usable(&self, range_end: isize, count: u32) -> (b: bool)
        requires
            self.wf(),
        ensures
            b == (self@.range_usable(range_end as int, count as int) && range_end - count
                >= isize::MIN),
    {
        if range_end > 0 && range_end as usize > self.pending.len() {
            return false;
        }
        let range_start = range_end as i128 - count as i128;
        if range_start < isize::MIN as i128 {
            return false;
        }
        range_start >= 0 || self.meta.len() as i128 - range_start <= u32::MAX as i128
    }

    /// Reserves one slot: moves the cursor down by one and returns the handle
    /// of the position it left.
    ///
    /// The table itself stays as it is until the next flush.
    pub fn reserve_entity(&mut self) -> (e: Entity)
        requires
            old(self).wf(),
            old(self).free_cursor > isize::MIN,
            old(self)@.position_usable(old(self)@.cursor),
        ensures
            final(self)@ == old(self)@.reserve(1),
            e == old(self)@.reserved_at(old(self)@.cursor),
            e.wf(),
            final(self).wf(),
    {
        let n = self.free_cursor;
        self.free_cursor = n - 1;
        self.reserved_at(n)
    }

    /// The handles of a reservation of `count` slots that found the cursor at
    /// `range_end`: those of the positions `range_end - count + 1 ..=
    /// range_end`, recycled slots first, in list order, then new slots, in
    /// rising order.
    pub fn reserved(&self, range_end: isize, count: u32) -> (handles: ReserveEntitiesIterator<'_>)
        requires
            self.wf(),
            self@.range_usable(range_end as int, count as int),
            range_end - count >= isize::MIN,
        ensures
            handles.remaining() == self@.reserved(range_end as int, count as int),
    {
        let range_start = (range_end as i64 - count as i64) as isize;
        let lo: usize = if range_start > 0 {
            range_start as usize
        } else {
            0
        };
        let hi: usize = if range_end > 0 {
            range_end as usize
        } else {
            0
        };
        let base = self.meta.len() as i64;
        let (next_fresh, end_fresh) = if range_start >= 0 {
            (0u32, 0u32)
        } else {
            let top: i64 = if range_end < 0 {
                range_end as i64
            } else {
                0
            };
            ((base - top) as u32, (base - range_start as i64) as u32)
        };
        let handles = ReserveEntitiesIterator {
            meta: self.meta.as_slice(),
            pending: self.pending.as_slice(),
            next_recycled: lo,
            end_recycled: hi,
            next_fresh,
            end_fresh,
        };
        assert(handles.remaining() =~= self@.reserved(range_end as int, count as int));
        handles
    }

    /// Reserves `count` slots: moves the cursor down by `count` and returns
    /// the handles of the positions it passed, recycled slots first.
    ///
    /// The table itself stays as it is until the next flush.
    pub fn reserve_entities(&mut self, count: u32) -> (handles: ReserveEntitiesIterator<'_>)
        requires
            old(self).wf(),
            old(self).free_cursor - count >= isize::MIN,
            old(self)@.range_usable(old(self)@.cursor, count as int),
        ensures
            final(self)@ == old(self)@.reserve(count as int),
            handles.remaining() == old(self)@.reserved(old(self)@.cursor, count as int),
            final(self).wf(),
    {
        let range_end = self.free_cursor;
        self.free_cursor = (range_end as i64 - count as i64) as isize;
        self.reserved(range_end, count)
    }

    /// Commits the outstanding reservations.
    ///
    /// The slots that were reserved beyond the table join it in generation 1,
    /// and the reserved entries leave the pending list. `init` is called once
    /// for each of these slots, with the slot index and the slot's location,
    /// for the caller to say where the slot's data lives: first for the new
    /// slots, in rising order, then for the recycled ones, in list order. The
    /// live count grows by the number of these slots. Afterwards nothing is
    /// reserved.
    pub fn flush(&mut self, mut init: impl FnMut(u32, &mut Location))
        requires
            old(self).wf(),
            old(self).meta.len() + old(self)@.reserved_new() <= u32::MAX + 1,
            old(self).meta.len() + old(self)@.reserved_new() <= isize::MAX,
            old(self).len + old(self).pending.len() - old(self).free_cursor <= u32::MAX,
            forall|id: u32, loc: &mut Location|
                old(self)@.materializes(id as int) && *loc == old(self)@.flush_prior(
                    id as int,
                ).location ==> call_requires(init, (id, loc)),
        ensures
            old(self)@.flushes_to(final(self)@),
            forall|i: int|
                #![trigger final(self)@.meta[i]]
                0 <= i < final(self)@.meta.len() ==> {
                    &&& final(self)@.meta[i].generation == old(self)@.flush_prior(i).generation
                    &&& old(self)@.materializes(i) ==> exists|loc: &mut Location|
                        #![trigger call_ensures(init, (i as u32, loc), ())]
                        *loc == old(self)@.flush_prior(i).location
                            && *final(loc) == final(self)@.meta[i].location
                            && call_ensures(init, (i as u32, loc), ())
                },
            final(self).wf(),
            final(self)@.flushed(),
    {
        let ghost before = self@;
        let ghost init0 = init;
        proof {
            before.lemma_pending_fits();
        }
        let free_cursor = self.free_cursor;
        let old_len = self.meta.len();
        let boundary: usize = if free_cursor > 0 {
            free_cursor as usize
        } else {
            0
        };
        if free_cursor < 0 {
            let extra = (-(free_cursor + 1)) as usize + 1;
            self.meta.resize(old_len + extra, EntityMeta::empty());
            self.len += extra as u32;
            self.free_cursor = 0;
        }
        let mut i = old_len;
        while i < self.meta.len()
            invariant
                before.wf(),
                init == init0,
                old_len == before.meta.len(),
                old_len <= i <= self.meta.len(),
                self.meta.len() == old_len + before.reserved_new(),
                self.meta.len() <= u32::MAX + 1,
                self.pending@ == before.pending,
                self.free_cursor == boundary,
                self.len == before.len + before.reserved_new(),
                forall|id: u32, loc: &mut Location|
                    before.materializes(id as int) && *loc == before.flush_prior(id as int).location
                        ==> call_requires(init, (id, loc)),
                forall|j: int| 0 <= j < old_len ==> #[trigger] self.meta@[j] == before.meta[j],
                forall|j: int|
                    #![trigger self.meta@[j]]
                    old_len <= j < i ==> self.meta@[j].generation == 1 && exists|
                        loc: &mut Location,
                    |
                        #![trigger call_ensures(init0, (j as u32, loc), ())]
                        *loc == Location::spec_unassigned() && *final(loc)
                            == self.meta@[j].location && call_ensures(init0, (j as u32, loc), ()),
                forall|j: int|
                    i <= j < self.meta.len() ==> #[trigger] self.meta@[j]
                        == EntityMeta::spec_empty(),
            decreases self.meta.len() - i,
        {
            init(i as u32, &mut self.meta[i].location);
            i += 1;
        }
        let ghost grown = self.meta@;
        self.len += (self.pending.len() - boundary) as u32;
        let mut k = boundary;
        while k < self.pending.len()
            invariant
                before.wf(),
                init == init0,
                boundary == before.boundary(),
                boundary <= k <= self.pending.len(),
                self.pending@ == before.pending,
                self.free_cursor == boundary,
                self.len == before.len + before.pending.len() - before.cursor,
                self.meta@.len() == grown.len(),
                grown.len() >= before.meta.len(),
                forall|j: int| 0 <= j < before.meta.len() ==> #[trigger] grown[j] == before.meta[j],
                forall|id: u32, loc: &mut Location|
                    before.materializes(id as int) && *loc == before.flush_prior(id as int).location
                        ==> call_requires(init, (id, loc)),
                forall|j: int|
                    0 <= j < grown.len() ==> (#[trigger] self.meta@[j]).generation
                        == grown[j].generation,
                forall|j: int|
                    #![trigger before.pending[j]]
                    boundary <= j < k ==> before.pending[j] < grown.len() && exists|
                        loc: &mut Location,
                    |
                        #![trigger call_ensures(init0, (before.pending[j], loc), ())]
                        *loc == grown[before.pending[j] as int].location && *final(loc)
                            == self.meta@[before.pending[j] as int].location && call_ensures(
                            init0,
                            (before.pending[j], loc),
                            (),
                        ),
                forall|j: int|
                    0 <= j < grown.len() && !before.pending.subrange(
                        boundary as int,
                        k as int,
                    ).contains(j as u32) ==> #[trigger] self.meta@[j] == grown[j],
            decreases self.pending.len() - k,
        {
            let id = self.pending[k];
            let ghost prior = self.meta@;
            assert(!before.pending.subrange(boundary as int, k as int).contains(id)) by {
                let done = before.pending.subrange(boundary as int, k as int);
                if done.contains(id) {
                    let j = choose|j: int| 0 <= j < done.len() && done[j] == id;
                    assert(before.pending[boundary + j] == before.pending[k as int]);
                }
            }
            assert(before.materializes(id as int)) by {
                assert(before.pending.skip(boundary as int)[k - boundary] == id);
            }
            assert(self.meta@[id as int] == grown[id as int]);
            init(id, &mut self.meta[id as usize].location);
            k += 1;
            proof {
                let done = before.pending.subrange(boundary as int, k as int);
                assert forall|j: int|
                    #![trigger before.pending[j]]
                    boundary <= j < k implies before.pending[j] < grown.len() && exists|
                    loc: &mut Location,
                |
                    #![trigger call_ensures(init0, (before.pending[j], loc), ())]
                    *loc == grown[before.pending[j] as int].location && *final(loc)
                        == self.meta@[before.pending[j] as int].location && call_ensures(
                        init0,
                        (before.pending[j], loc),
                        (),
                    ) by {
                    if j < k - 1 {
                        assert(before.pending[j] != before.pending[k - 1]);
                        assert(self.meta@[before.pending[j] as int] == prior[before.pending[j] as int]);
                    }
                }
                assert forall|j: int|
                    0 <= j < grown.len() && !done.contains(j as u32) implies #[trigger] self.meta@[j]
                    == grown[j] by {
                    assert(done[k - 1 - boundary] == id);
                    let earlier = before.pending.subrange(boundary as int, k - 1);
                    if earlier.contains(j as u32) {
                        let m = choose|m: int| 0 <= m < earlier.len() && earlier[m] == j as u32;
                        assert(done[m] == j as u32);
                    }
                }
            }
        }
        self.pending.truncate(boundary);
        proof {
            let next = self@;
            let tail = before.pending.skip(boundary as int);
            assert(tail =~= before.pending.subrange(boundary as int, before.pending.len() as int));
            assert(next.pending =~= before.pending.take(boundary as int));
            assert forall|i: int| #![trigger next.meta[i]] 0 <= i < next.meta.len() implies {
                &&& next.meta[i].generation == before.flush_prior(i).generation
                &&& !before.materializes(i) ==> next.meta[i].location == before.flush_prior(i).location
                &&& before.materializes(i) ==> exists|loc: &mut Location|
                    #![trigger call_ensures(init, (i as u32, loc), ())]
                    *loc == before.flush_prior(i).location && *final(loc) == next.meta[i].location
                        && call_ensures(init, (i as u32, loc), ())
            } by {
                if tail.contains(i as u32) {
                    let m = choose|m: int| 0 <= m < tail.len() && tail[m] == i as u32;
                    assert(before.pending[boundary + m] == i as u32);
                    assert(grown[i] == before.meta[i]);
                } else {
                    assert(next.meta[i] == grown[i]);
                    if i < before.meta.len() {
                        assert(grown[i] == before.meta[i]);
                    } else {
                        assert(grown[i].generation == 1);
                    }
                }
            }
            assert forall|j: int| 0 <= j < next.pending.len() implies (#[trigger] next.pending[j])
                < next.meta.len() && next.meta[next.pending[j] as int].location.is_unassigned() by {
                assert(next.pending[j] == before.pending[j]);
                if tail.contains(next.pending[j]) {
                    let m = choose|m: int| 0 <= m < tail.len() && tail[m] == next.pending[j];
                    assert(before.pending[boundary + m] == before.pending[j]);
                }
            }
            assert forall|i: int, j: int|
                0 <= i < next.pending.len() && 0 <= j < next.pending.len() && i != j implies next.pending[i]
                != next.pending[j] by {
                assert(next.pending[i] == before.pending[i]);
                assert(next.pending[j] == before.pending[j]);
            }
        }
    }
}

} // verus!
