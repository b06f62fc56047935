//! Snapshot and restoration of the free slots, and handles from bare slot
//! indices.

use vstd::prelude::*;
use crate::entities::Entities;
use crate::handle::Entity;
use crate::location::EntityMeta;
use crate::table::{handle_ids, lemma_distinct_below, lemma_slots_for, slots_for, Table};

verus! {

impl Entities {
    /// The handles of the free slots, in the order of the pending list,
    /// without the reserved ones.
    pub fn freelist(&self) -> (handles: Vec<Entity>)
        requires
            self.wf(),
        ensures
            handles@ == self@.freelist(),
    {
        let free: usize = if self.free_cursor > 0 {
            self.free_cursor as usize
        } else {
            0
        };
        let mut handles: Vec<Entity> = Vec::new();
        let mut k: usize = 0;
        while k < free
            invariant
                self.wf(),
                free == self@.boundary(),
                k <= free,
                handles@ == self@.freelist().take(k as int),
            decreases free - k,
        {
            let id = self.pending[k];
            handles.push(Entity { id, generation: self.meta[id as usize].generation });
            k += 1;
            assert(handles@ =~= self@.freelist().take(k as int));
        }
        assert(handles@ =~= self@.freelist());
        handles
    }

    /// Replaces the pending list by the slots of `freelist`, to bring back a
    /// state that was saved earlier.
    ///
    /// The table grows where a slot lies beyond it. Every slot of the list
    /// takes the generation of its handle. Afterwards nothing is reserved.
    /// The slots of the list are distinct, and none of them holds a row.
    pub fn set_freelist(&mut self, freelist: &[Entity])
        requires
            old(self).wf(),
            handle_ids(freelist@).no_duplicates(),
            forall|k: int| 0 <= k < freelist@.len() ==> (#[trigger] freelist@[k]).wf(),
            forall|k: int|
                0 <= k < freelist@.len() && (#[trigger] freelist@[k]).id < old(self).meta.len()
                    ==> old(self).meta@[freelist@[k].id as int].location.is_unassigned(),
            slots_for(freelist@) <= isize::MAX,
        ensures
            final(self)@ == old(self)@.set_freelist(freelist@),
            final(self).wf(),
            final(self)@.flushed(),
    {
        let ghost before = self@;
        let ghost ids = handle_ids(freelist@);
        let ghost target = before.set_freelist(freelist@);
        let count = freelist.len();
        let mut need: usize = 0;
        let mut k: usize = 0;
        while k < count
            invariant
                count == freelist@.len(),
                k <= count,
                need == slots_for(freelist@.take(k as int)),
                slots_for(freelist@) <= isize::MAX,
            decreases count - k,
        {
            proof {
                assert(freelist@.take(k + 1).drop_last() =~= freelist@.take(k as int));
                lemma_slots_for(freelist@);
            }
            let id = freelist[k].id as usize;
            if id + 1 > need {
                need = id + 1;
            }
            k += 1;
        }
        proof {
            assert(freelist@.take(count as int) =~= freelist@);
            lemma_slots_for(freelist@);
        }
        if need > self.meta.len() {
            self.meta.resize(need, EntityMeta::empty());
        }
        let ghost grown = self.meta@;
        self.pending.clear();
        let mut k: usize = 0;
        while k < count
            invariant
                count == freelist@.len(),
                k <= count,
                ids == handle_ids(freelist@),
                ids.no_duplicates(),
                grown.len() <= u32::MAX + 1,
                forall|j: int| 0 <= j < count ==> (#[trigger] freelist@[j]).id < grown.len(),
                self.len == before.len,
                self.pending@ == ids.take(k as int),
                self.meta@.len() == grown.len(),
                forall|i: int|
                    0 <= i < grown.len() ==> #[trigger] self.meta@[i] == (if ids.take(
                        k as int,
                    ).contains(i as u32) {
                        EntityMeta {
                            generation: freelist@[ids.index_of(i as u32)].generation,
                            location: grown[i].location,
                        }
                    } else {
                        grown[i]
                    }),
            decreases count - k,
        {
            let entity = freelist[k];
            let ghost done = ids.take(k as int);
            assert(ids[k as int] == entity.id);
            assert(!done.contains(entity.id)) by {
                if done.contains(entity.id) {
                    let j = choose|j: int| 0 <= j < done.len() && done[j] == entity.id;
                    assert(ids[j] == ids[k as int]);
                }
            }
            self.pending.push(entity.id);
            self.meta[entity.id as usize].generation = entity.generation;
            k += 1;
            proof {
                let next = ids.take(k as int);
                assert(self.pending@ =~= next);
                assert forall|i: int| 0 <= i < grown.len() implies #[trigger] self.meta@[i] == (
                if next.contains(i as u32) {
                    EntityMeta {
                        generation: freelist@[ids.index_of(i as u32)].generation,
                        location: grown[i].location,
                    }
                } else {
                    grown[i]
                }) by {
                    if i == entity.id {
                        assert(next[k - 1] == i as u32);
                        assert(ids.contains(i as u32));
                        assert(ids[ids.index_of(i as u32)] == ids[k - 1]);
                    } else if done.contains(i as u32) {
                        let j = choose|j: int| 0 <= j < done.len() && done[j] == i as u32;
                        assert(next[j] == i as u32);
                    } else if next.contains(i as u32) {
                        let j = choose|j: int| 0 <= j < next.len() && next[j] == i as u32;
                        assert(done[j] == i as u32);
                    }
                }
            }
        }
        proof {
            assert(ids.take(count as int) =~= ids);
            assert(self.pending@ =~= target.pending);
            assert(self.meta@ =~= target.meta);
            lemma_distinct_below(ids, grown.len() as int);
            assert forall|j: int| 0 <= j < ids.len() implies (#[trigger] ids[j]) < grown.len()
                && target.meta[ids[j] as int].location.is_unassigned() by {
                assert(ids[j] == freelist@[j].id);
                assert(ids.contains(ids[j]));
            }
            assert forall|i: int| 0 <= i < target.meta.len() implies (#[trigger] target.meta[i]).generation
                != 0 by {
                if ids.contains(i as u32) {
                    let j = ids.index_of(i as u32);
                    assert(freelist@[j].wf());
                }
            }
        }
        self.free_cursor = count as isize;
    }

    /// The handle that names slot `id` right now, for a slot that is
    /// allocated or reserved: the table's generation, or generation 1 for a
    /// reserved slot beyond the table.
    pub fn resolve_unknown_gen(&self, id: u32) -> (e: Entity)
        requires
            self@.resolvable(id),
        ensures
            e == self@.resolve(id),
    {
        if (id as usize) < self.meta.len() {
            Entity { id, generation: self.meta[id as usize].generation }
        } else {
            Entity { id, generation: 1 }
        }
    }
}

} // verus!
