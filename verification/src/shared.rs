//! Reservations through shared access.
//!
//! [`SharedEntities`] holds an allocator for the time in which threads
//! reserve handles. Its cursor is an atomic integer; a reservation is one
//! fetch-and-subtract on it, without a lock and without a retry. What the
//! cursor holds at any moment depends on the other threads, so a reservation
//! promises what holds whatever value it fetched: a handle that it returns is
//! the handle of a position that can be given out.

use core::sync::atomic::{AtomicIsize, Ordering};
use vstd::prelude::*;
use crate::entities::Entities;
use crate::handle::Entity;
use crate::location::{Location, NoSuchEntity};
use crate::reserve::ReserveEntitiesIterator;
use crate::table::Table;

verus! {

/// An allocator in its reservation phase.
///
/// It is made from an allocator and gives it back, with the cursor where the
/// reservations left it, for a flush under exclusive access.
pub struct SharedEntities {
    /// The allocator. Its own cursor rests while this phase lasts.
    entities: Entities,
    /// The cursor that the reservations move.
    cursor: AtomicIsize,
}

impl View for SharedEntities {
    type V = Table;

    /// The table as it was when the phase began, with the cursor of that
    /// moment; reservations do not change it. The shared cursor itself has no
    /// value here, since what it holds at a moment depends on the other
    /// threads: the contracts speak of it as "some cursor value".
    closed spec fn view(&self) -> Table {
        self.entities@
    }
}

impl SharedEntities {
    #[verifier::type_invariant]
    spec fn inv(self) -> bool {
        self.entities.wf()
    }

    /// Begins a reservation phase with the cursor where `entities` has it.
    pub fn new(entities: Entities) -> (shared: SharedEntities)
        requires
            entities.wf(),
        ensures
            shared@ == entities@,
    {
        let cursor = AtomicIsize::new(entities.free_cursor);
        SharedEntities { entities, cursor }
    }

    /// The allocator as it was when the phase began, for lookups next to
    /// the reservations.
    pub fn entities(&self) -> (entities: &Entities)
        ensures
            entities@ == self@,
            entities.wf(),
    {
        proof {
            use_type_invariant(self);
        }
        &self.entities
    }

    /// Subtracts `count` from the cursor and returns what it held before.
    fn take(&self, count: isize) -> isize {
        self.cursor.fetch_sub(count, Ordering::Relaxed)
    }

    /// What the cursor holds now.
    fn current(&self) -> isize {
        self.cursor.load(Ordering::Relaxed)
    }

    /// Reserves one handle, with one fetch-and-subtract.
    ///
    /// The result is what a reservation returns for the cursor value that it
    /// fetched: the handle of that position, or `None` where the position
    /// cannot be given out.
    pub fn reserve_entity(&self) -> (r: Option<Entity>)
        ensures
            exists|n: isize| r == #[trigger] self@.try_reserved_at(n as int),
            r matches Some(e) ==> e.wf(),
    {
        proof {
            use_type_invariant(self);
        }
        let n = self.take(1);
        let r = self.entities.try_reserved_at(n);
        assert(r == self@.try_reserved_at(n as int));
        r
    }

    /// Reserves `count` handles, with one fetch-and-subtract.
    ///
    /// Where `count` is no cursor value nothing is fetched, and the result is
    /// `None`. Else the result is what a reservation of `count` slots returns
    /// for the cursor value that it fetched: the handles of the positions
    /// that the cursor passed, or `None` where these cannot be given out.
    pub fn reserve_entities(&self, count: u32) -> (r: Option<ReserveEntitiesIterator<'_>>)
        ensures
            count > isize::MAX ==> r is None,
            count <= isize::MAX ==> exists|end: isize|
                {
                    &&& r is Some <==> (#[trigger] self@.try_reserved(end as int, count as int))
                        is Some
                    &&& r matches Some(handles) ==> Some(handles.remaining())
                        == self@.try_reserved(end as int, count as int)
                },
    {
        proof {
            use_type_invariant(self);
        }
        match Self::cursor_value(count) {
            Some(step) => {
                let range_end = self.take(step);
                let r = self.entities.try_reserved(range_end, count);
                assert(r is Some <==> self@.try_reserved(range_end as int, count as int) is Some);
                r
            },
            None => None,
        }
    }

    /// `count` as a cursor value, if it is one.
    fn cursor_value(count: u32) -> (r: Option<isize>)
        ensures
            r == (if count <= isize::MAX {
                Some(count as isize)
            } else {
                None
            }),
    {
        if count as u64 <= isize::MAX as u64 {
            Some(count as isize)
        } else {
            None
        }
    }

    /// True when `entity` names an occupant or a reserved slot, with the
    /// cursor as one load found it.
    pub fn contains(&self, entity: Entity) -> (b: bool)
        ensures
            exists|c: isize| b == (#[trigger] self@.with_cursor(c as int)).contains(entity),
    {
        proof {
            use_type_invariant(self);
        }
        let c = self.current();
        let cursor = if Self::below(c, self.entities.pending.len()) {
            c
        } else {
            self.entities.free_cursor
        };
        let b = self.entities.contains_at(cursor, entity);
        assert((Table { cursor: cursor as int, ..self@ }) =~= self@.with_cursor(c as int));
        b
    }

    /// The location of the occupant that `entity` names, or the marker of
    /// "no row" for a reserved slot beyond the table, with the cursor as one
    /// load found it.
    pub fn get(&self, entity: Entity) -> (r: Result<Location, NoSuchEntity>)
        ensures
            exists|c: isize| r == (#[trigger] self@.with_cursor(c as int)).get(entity),
    {
        proof {
            use_type_invariant(self);
        }
        let c = self.current();
        let cursor = if Self::below(c, self.entities.pending.len()) {
            c
        } else {
            self.entities.free_cursor
        };
        let r = self.entities.get_at(cursor, entity);
        assert((Table { cursor: cursor as int, ..self@ }) =~= self@.with_cursor(c as int));
        r
    }

    /// Ends the reservation phase: the allocator comes back with the cursor
    /// that one load of the shared cursor found, and is otherwise as it was.
    pub fn into_entities(self) -> (entities: Entities)
        ensures
            entities.wf(),
            exists|c: isize| entities@ == #[trigger] self@.with_cursor(c as int),
    {
        proof {
            use_type_invariant(&self);
        }
        let cursor = self.current();
        let entities = self.entities.with_cursor(cursor);
        assert(entities@ == self@.with_cursor(cursor as int));
        entities
    }

    /// True when `cursor` does not lie above a list of length `len`.
    fn below(cursor: isize, len: usize) -> (b: bool)
        ensures
            b == (cursor <= len),
    {
        cursor <= 0 || cursor as usize <= len
    }
}

} // verus!
