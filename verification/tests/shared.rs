use std::collections::HashSet;

use entities::{Entities, Entity, Location, SharedEntities};

fn recycled(count: u32, freed: u32) -> Entities {
    let mut e = Entities::new();
    let handles: Vec<Entity> = (0..count).map(|_| e.allocate()).collect();
    for &h in &handles {
        e.meta[h.id as usize].location = Location {
            archetype: 0,
            index: h.id,
        };
    }
    for &h in &handles[(count - freed) as usize..] {
        e.free(h).unwrap();
    }
    e
}

#[test]
fn shared_reservations_follow_the_cursor() {
    let shared = SharedEntities::new(recycled(4, 2));
    let left = &shared;
    let right = &shared;
    let a = left.reserve_entity().unwrap();
    let mut handles = right.reserve_entities(3).unwrap();
    let mut b = Vec::new();
    while let Some(h) = handles.next() {
        b.push(h);
    }
    let c = left.reserve_entity().unwrap();
    // Lookups of occupants go on meanwhile.
    assert_eq!(shared.entities().len(), 2);
    assert!(shared.entities().contains(Entity {
        id: 0,
        generation: 1
    }));
    assert_eq!(
        a,
        Entity {
            id: 3,
            generation: 2
        }
    );
    assert_eq!(
        b,
        vec![
            Entity {
                id: 2,
                generation: 2
            },
            Entity {
                id: 4,
                generation: 1
            },
            Entity {
                id: 5,
                generation: 1
            },
        ]
    );
    assert_eq!(
        c,
        Entity {
            id: 6,
            generation: 1
        }
    );

    let mut e = shared.into_entities();
    assert_eq!(e.free_cursor, 2 - 5);
    assert!(e.needs_flush());
    assert_eq!(e.len(), 2);
    let mut seen = Vec::new();
    e.flush(|id, loc| {
        loc.index = id;
        seen.push(id);
    });
    assert_eq!(seen, vec![4, 5, 6, 2, 3]);
    assert_eq!(e.len(), 7);
    assert!(!e.needs_flush());
    for h in [a, c].iter().chain(b.iter()) {
        assert!(e.contains(*h));
    }
}

#[test]
fn shared_phase_without_reservations_changes_nothing() {
    let before = recycled(3, 1);
    let snapshot = (
        before.meta.clone(),
        before.pending.clone(),
        before.free_cursor,
        before.len(),
    );
    let after = SharedEntities::new(before).into_entities();
    assert_eq!(
        snapshot,
        (
            after.meta.clone(),
            after.pending.clone(),
            after.free_cursor,
            after.len()
        )
    );
}

#[test]
fn interleaved_reservations_hand_out_distinct_slots() {
    let shared = SharedEntities::new(recycled(64, 40));
    let workers = [&shared, &shared, &shared, &shared];
    let mut all: Vec<Entity> = Vec::new();
    for round in 0..50u32 {
        for (worker, shared) in workers.iter().enumerate() {
            if (round + worker as u32) % 3 == 0 {
                let mut handles = shared.reserve_entities(round % 5).unwrap();
                assert_eq!(handles.len(), (round % 5) as usize);
                while let Some(h) = handles.next() {
                    all.push(h);
                }
            } else {
                all.push(shared.reserve_entity().unwrap());
            }
        }
    }
    let ids: HashSet<u32> = all.iter().map(|h| h.id).collect();
    assert_eq!(ids.len(), all.len());

    let mut e = shared.into_entities();
    assert_eq!(e.free_cursor, 40 - all.len() as isize);
    let mut flushed = HashSet::new();
    e.flush(|id, loc| {
        loc.index = id;
        assert!(flushed.insert(id));
    });
    assert_eq!(flushed, ids);
    assert_eq!(e.len() as usize, 24 + all.len());
    for &h in &all {
        assert!(e.get(h).is_ok());
    }
}

#[test]
fn positions_that_cannot_be_given_out() {
    let e = recycled(3, 2);
    assert_eq!(e.pending, vec![1, 2]);
    assert_eq!(e.try_reserved_at(3), None);
    assert_eq!(
        e.try_reserved_at(2),
        Some(Entity {
            id: 2,
            generation: 2
        })
    );
    assert_eq!(
        e.try_reserved_at(0),
        Some(Entity {
            id: 3,
            generation: 1
        })
    );
    assert_eq!(
        e.try_reserved_at(-(u32::MAX as isize - 3)),
        Some(Entity {
            id: u32::MAX,
            generation: 1
        })
    );
    assert_eq!(e.try_reserved_at(-(u32::MAX as isize - 2)), None);
    assert!(e.try_reserved(3, 1).is_none());
    assert!(e.try_reserved(isize::MIN, 1).is_none());
    assert!(e.try_reserved(0, u32::MAX - 2).is_none());
    let mut handles = e.try_reserved(1, 2).unwrap();
    assert_eq!(handles.len(), 2);
    assert_eq!(
        handles.next(),
        Some(Entity {
            id: 1,
            generation: 2
        })
    );
    assert_eq!(
        handles.next(),
        Some(Entity {
            id: 3,
            generation: 1
        })
    );
    assert_eq!(handles.next(), None);
}

#[test]
fn lookups_in_the_shared_phase_see_the_live_cursor() {
    let shared = SharedEntities::new(recycled(3, 1));
    let occupant = Entity {
        id: 0,
        generation: 1,
    };
    let recycled_slot = shared.reserve_entity().unwrap();
    let beyond = shared.reserve_entity().unwrap();
    assert_eq!(
        recycled_slot,
        Entity {
            id: 2,
            generation: 2
        }
    );
    assert_eq!(
        beyond,
        Entity {
            id: 3,
            generation: 1
        }
    );
    assert!(shared.contains(occupant));
    assert!(shared.contains(recycled_slot));
    assert!(shared.contains(beyond));
    assert!(!shared.contains(Entity {
        id: 4,
        generation: 1
    }));
    assert_eq!(
        shared.get(occupant),
        Ok(Location {
            archetype: 0,
            index: 0
        })
    );
    assert_eq!(
        shared.get(beyond),
        Ok(Location {
            archetype: 0,
            index: u32::MAX
        })
    );
    assert!(shared.get(recycled_slot).is_err());
    // The allocator of before the phase knows of no reservation.
    assert!(!shared.entities().contains(beyond));
    let e = shared.into_entities();
    assert_eq!(e.free_cursor, -1);
    assert!(e.contains(beyond));
}
