//! The allocator: slot records, pending list, cursor and live count.

use vstd::prelude::*;
use crate::handle::Entity;
use crate::location::{EntityMeta, Location, NoSuchEntity};
use crate::table::Table;

verus! {

/// Allocator of entity handles.
///
/// Direct allocation, freeing and the other exclusive operations work on a
/// table without outstanding reservations. Reservations only move the cursor;
/// [`Entities::flush`] then brings the table up to date.
pub struct Entities {
    /// One record per slot.
    pub meta: Vec<EntityMeta>,
    /// Slots that wait for reuse: first the free ones, then the reserved ones.
    pub pending: Vec<u32>,
    /// The reservation cursor.
    pub free_cursor: isize,
    /// The live count.
    pub len: u32,
}

impl View for Entities {
    type V = Table;

    open spec fn view(&self) -> Table {
        Table {
            meta: self.meta@,
            pending: self.pending@,
            cursor: self.free_cursor as int,
            len: self.len as int,
        }
    }
}

impl Entities {
    /// The table is well formed, and short enough for its length to be a
    /// cursor value.
    pub open spec fn wf(&self) -> bool {
        &&& self@.wf()
        &&& self.meta.len() <= isize::MAX
    }

    /// Well formed, but for the pending entries from `free_end` on, which may
    /// hold rows: the state between a batch allocation and its end.
    pub open spec fn wf_upto(&self, free_end: int) -> bool {
        &&& self@.wf_upto(free_end)
        &&& self.meta.len() <= isize::MAX
    }

    /// An allocator without slots.
    pub fn new() -> (e: Entities)
        ensures
            e@ == Table::empty(),
            e.wf(),
    {
        Entities { meta: Vec::new(), pending: Vec::new(), free_cursor: 0, len: 0 }
    }

    /// The live count.
    pub fn len(&self) -> (n: u32)
        ensures
            n == self@.len,
    {
        self.len
    }

    /// True when reservations wait for a flush.
    pub fn needs_flush(&self) -> (b: bool)
        ensures
            b == !self@.flushed(),
    {
        self.free_cursor < 0 || self.free_cursor as usize != self.pending.len()
    }

    /// Forgets every slot: the table, the pending list, the cursor and the
    /// live count start over.
    pub fn clear(&mut self)
        ensures
            final(self)@ == Table::empty(),
            final(self).wf(),
    {
        self.meta.clear();
        self.pending.clear();
        self.free_cursor = 0;
        self.len = 0;
    }

    /// Allocates a handle directly: the last pending slot in its current
    /// generation, or, where none is pending, a new slot in generation 1.
    ///
    /// The caller writes the slot's location right afterwards.
    pub fn allocate(&mut self) -> (e: Entity)
        requires
            old(self).wf(),
            old(self)@.flushed(),
            old(self).len < u32::MAX,
            old(self).pending.len() == 0 ==> old(self).meta.len() <= u32::MAX,
            old(self).pending.len() == 0 ==> old(self).meta.len() < isize::MAX,
        ensures
            final(self)@ == old(self)@.allocate(),
            e == old(self)@.allocated(),
            final(self).wf(),
            final(self)@.flushed(),
            e.wf(),
            e.id < final(self).meta.len(),
            !final(self)@.pending.contains(e.id),
    {
        proof {
            self@.lemma_pending_fits();
            self@.lemma_allocated_slot();
        }
        self.len += 1;
        match self.pending.pop() {
            Some(id) => {
                self.free_cursor = self.pending.len() as isize;
                Entity { generation: self.meta[id as usize].generation, id }
            },
            None => {
                let id = self.meta.len() as u32;
                self.meta.push(EntityMeta::empty());
                Entity { generation: 1, id }
            },
        }
    }

    /// Frees the occupant that `entity` names and hands back its location.
    ///
    /// The slot moves on to its next generation, holds no row any more and
    /// joins the pending list. Fails, and changes nothing, when `entity` names
    /// no occupant.
    pub fn free(&mut self, entity: Entity) -> (r: Result<Location, NoSuchEntity>)
        requires
            old(self).wf(),
            old(self)@.flushed(),
            old(self)@.occupied_by(entity) ==> old(self).len > 0,
        ensures
            r is Ok <==> old(self)@.occupied_by(entity),
            r matches Ok(loc) ==> {
                &&& loc == old(self)@.meta[entity.id as int].location
                &&& final(self)@ == old(self)@.free(entity)
            },
            r is Err ==> final(self)@ == old(self)@,
            final(self).wf(),
            final(self)@.flushed(),
    {
        let index = entity.id as usize;
        if index >= self.meta.len() {
            return Err(NoSuchEntity);
        }
        let meta = self.meta[index];
        if meta.generation != entity.generation || meta.location.index == u32::MAX {
            return Err(NoSuchEntity);
        }
        proof {
            self@.lemma_free_wf(entity);
            self@.free(entity).lemma_pending_fits();
        }
        let generation = if meta.generation == u32::MAX {
            1
        } else {
            meta.generation + 1
        };
        self.meta[index] = EntityMeta { generation, location: Location::unassigned() };
        self.pending.push(entity.id);
        self.free_cursor = self.pending.len() as isize;
        self.len -= 1;
        Ok(meta.location)
    }

    /// Allocates the slot of `entity` by force and gives the slot the
    /// generation of `entity`.
    ///
    /// A slot beyond the table is made, together with the slots below it,
    /// which join the pending list. A pending slot leaves the list, whose last
    /// entry takes its place. Otherwise the slot is in use: its location is
    /// handed back for the caller to reconcile, and the slot holds no row
    /// until the caller writes one. The live count grows in the first two
    /// cases only.
    pub fn alloc_at(&mut self, entity: Entity) -> (displaced: Option<Location>)
        requires
            old(self).wf(),
            old(self)@.flushed(),
            entity.wf(),
            entity.id >= old(self).meta.len() ==> entity.id < isize::MAX,
            old(self)@.displaced_by(entity) is None ==> old(self).len < u32::MAX,
        ensures
            final(self)@ == old(self)@.alloc_at(entity),
            displaced == old(self)@.displaced_by(entity),
            final(self).wf(),
            final(self)@.flushed(),
    {
        proof {
            self@.lemma_alloc_at_wf(entity);
            self@.alloc_at(entity).lemma_pending_fits();
        }
        let index = entity.id as usize;
        if index >= self.meta.len() {
            let ghost before = self@;
            let mut id = self.meta.len();
            while id < index
                invariant
                    before.meta.len() <= id <= index,
                    index == entity.id,
                    self.meta@ == before.meta,
                    self.len == before.len,
                    self.free_cursor == before.cursor,
                    self.pending@ == before.pending + Seq::new(
                        (id - before.meta.len()) as nat,
                        |k: int| (before.meta.len() + k) as u32,
                    ),
                decreases index - id,
            {
                self.pending.push(id as u32);
                id += 1;
            }
            self.meta.resize(index + 1, EntityMeta::empty());
            self.free_cursor = self.pending.len() as isize;
            self.len += 1;
            self.meta[index].generation = entity.generation;
            assert(self.meta@ =~= before.alloc_at(entity).meta);
            None
        } else {
            match self.position(entity.id) {
                Some(k) => {
                    self.pending.swap_remove(k);
                    self.free_cursor = self.pending.len() as isize;
                    self.len += 1;
                    self.meta[index].generation = entity.generation;
                    None
                },
                None => {
                    let displaced = self.meta[index].location;
                    self.meta[index] = EntityMeta {
                        generation: entity.generation,
                        location: Location::unassigned(),
                    };
                    Some(displaced)
                },
            }
        }
    }

    /// Where `id` stands in the pending list, if it does.
    fn position(&self, id: u32) -> (r: Option<usize>)
        ensures
            r is Some <==> self.pending@.contains(id),
            r matches Some(k) ==> k < self.pending.len() && self.pending@[k as int] == id && (
            self.pending@.no_duplicates() ==> k == self.pending@.index_of(id)),
    {
        let mut k: usize = 0;
        while k < self.pending.len()
            invariant
                k <= self.pending.len(),
                forall|j: int| 0 <= j < k ==> self.pending@[j] != id,
            decreases self.pending.len() - k,
        {
            if self.pending[k] == id {
                return Some(k);
            }
            k += 1;
        }
        None
    }

    /// Hints that `additional` direct allocations are coming, so that the
    /// table can make room for those that the free slots do not cover: it
    /// asks the table's storage for [`Entities::reserve_shortfall`] more
    /// records. Nothing that the allocator reports changes.
    pub fn reserve(&mut self, additional: u32)
        requires
            old(self).wf(),
            old(self)@.flushed(),
        ensures
            final(self)@ == old(self)@,
            final(self).wf(),
    {
        let shortfall = Self::reserve_shortfall(additional, self.pending.len());
        if shortfall > 0 {
            self.meta.reserve(shortfall);
        }
    }

    /// The number of records that a capacity hint for `additional` direct
    /// allocations asks room for when `free` slots are free.
    pub fn reserve_shortfall(additional: u32, free: usize) -> (n: usize)
        ensures
            n == Table::shortfall(additional as int, free as int),
    {
        if additional as usize > free {
            additional as usize - free
        } else {
            0
        }
    }

    /// The allocator with the cursor at `cursor`. A value that lies above
    /// the pending list is no cursor of this table and is not taken over.
    pub fn with_cursor(self, cursor: isize) -> (e: Entities)
        requires
            self.wf(),
        ensures
            e@ == self@.with_cursor(cursor as int),
            e.wf(),
    {
        let mut e = self;
        if cursor <= 0 || cursor as usize <= e.pending.len() {
            e.free_cursor = cursor;
        }
        e
    }

    /// True when `entity` names an occupant or a reserved slot.
    pub fn contains(&self, entity: Entity) -> (b: bool)
        requires
            self.wf(),
        ensures
            b == self@.contains(entity),
    {
        self.contains_at(self.free_cursor, entity)
    }

    /// What [`Entities::contains`] answers with the cursor at `cursor`.
    pub fn contains_at(&self, cursor: isize, entity: Entity) -> (b: bool)
        requires
            self.wf(),
            cursor <= self@.pending.len(),
        ensures
            b == (Table { cursor: cursor as int, ..self@ }).contains(entity),
    {
        let index = entity.id as usize;
        if index < self.meta.len() {
            let meta = self.meta[index];
            meta.generation == entity.generation && (meta.location.index != u32::MAX
                || self.reserved_holds(cursor, entity.id))
        } else {
            self.beyond_table(cursor, entity)
        }
    }

    /// True when `id` stands in the part of the pending list that is reserved
    /// with the cursor at `cursor`.
    fn reserved_holds(&self, cursor: isize, id: u32) -> (b: bool)
        requires
            cursor <= self.pending.len(),
        ensures
            b == self@.pending.skip((Table { cursor: cursor as int, ..self@ }).boundary()).contains(
                id,
            ),
    {
        let start: usize = if cursor > 0 {
            cursor as usize
        } else {
            0
        };
        let ghost tail = self@.pending.skip(start as int);
        assert(start == (Table { cursor: cursor as int, ..self@ }).boundary());
        let mut k = start;
        while k < self.pending.len()
            invariant
                start <= k <= self.pending.len(),
                start == (Table { cursor: cursor as int, ..self@ }).boundary(),
                tail == self@.pending.skip(start as int),
                forall|j: int| start <= j < k ==> self.pending@[j] != id,
            decreases self.pending.len() - k,
        {
            if self.pending[k] == id {
                assert(tail[k - start] == id);
                return true;
            }
            k += 1;
        }
        assert forall|j: int| 0 <= j < tail.len() implies tail[j] != id by {
            assert(tail[j] == self.pending@[j + start]);
        }
        false
    }

    /// True when `entity` names a slot beyond the table that is reserved
    /// with the cursor at `cursor`.
    fn beyond_table(&self, cursor: isize, entity: Entity) -> (b: bool)
        requires
            entity.id >= self.meta.len(),
        ensures
            b == (Table { cursor: cursor as int, ..self@ }).reserved_beyond(entity),
    {
        if entity.generation != 1 || cursor >= 0 {
            return false;
        }
        // The cursor is negative: `over` slots beyond the table are reserved,
        // counted here from zero so that the negation cannot overflow.
        let over = (-(cursor + 1)) as usize;
        entity.id as usize - self.meta.len() <= over
    }

    /// The location of the occupant that `entity` names.
    ///
    /// For a reserved slot beyond the table the answer is the marker of "no
    /// row". Fails when `entity` names neither.
    pub fn get(&self, entity: Entity) -> (r: Result<Location, NoSuchEntity>)
        ensures
            r == self@.get(entity),
    {
        self.get_at(self.free_cursor, entity)
    }

    /// What [`Entities::get`] answers with the cursor at `cursor`.
    pub fn get_at(&self, cursor: isize, entity: Entity) -> (r: Result<Location, NoSuchEntity>)
        ensures
            r == (Table { cursor: cursor as int, ..self@ }).get(entity),
    {
        let index = entity.id as usize;
        if self.meta.len() <= index {
            if self.beyond_table(cursor, entity) {
                return Ok(Location::unassigned());
            } else {
                return Err(NoSuchEntity);
            }
        }
        let meta = self.meta[index];
        if meta.generation != entity.generation || meta.location.index == u32::MAX {
            return Err(NoSuchEntity);
        }
        Ok(meta.location)
    }

    /// Access to the location of the occupant that `entity` names, for the
    /// caller to change. Fails when `entity` names no occupant.
    ///
    /// Whatever the caller writes, a well-formed table stays well formed.
    pub fn get_mut(&mut self, entity: Entity) -> (r: Result<&mut Location, NoSuchEntity>)
        ensures
            r is Ok <==> old(self)@.occupied_by(entity),
            r matches Ok(loc) ==> {
                &&& *loc == old(self)@.meta[entity.id as int].location
                &&& final(self)@ == old(self)@.locate(entity.id, *final(loc))
            },
            r is Err ==> final(self)@ == old(self)@,
            old(self).wf() ==> final(self).wf(),
    {
        let index = entity.id as usize;
        if index >= self.meta.len() {
            return Err(NoSuchEntity);
        }
        let meta = self.meta[index];
        if meta.generation == entity.generation && meta.location.index != u32::MAX {
            proof {
                if self.wf() {
                    assert forall|location: Location| (#[trigger] self@.locate(entity.id, location)).wf() by {
                        self@.lemma_locate_wf(entity.id, location);
                    }
                }
            }
            Ok(&mut self.meta[index].location)
        } else {
            Err(NoSuchEntity)
        }
    }
}

impl Default for Entities {
    fn default() -> (e: Entities)
        ensures
            e@ == Table::empty(),
            e.wf(),
    {
        Entities::new()
    }
}

} // verus!
