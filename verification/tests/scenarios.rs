use entities::{AllocManyState, Entities, Entity, EntityMeta, Location, NoSuchEntity};

fn located(e: &mut Entities, entity: Entity, archetype: u32, index: u32) {
    e.meta[entity.id as usize].location = Location { archetype, index };
}

fn drain(e: &mut Entities, count: u32) -> Vec<Entity> {
    let mut handles = e.reserve_entities(count);
    let mut out = Vec::new();
    while let Some(entity) = handles.next() {
        out.push(entity);
    }
    out
}

fn rows_held(e: &Entities) -> usize {
    e.meta
        .iter()
        .filter(|meta| meta.location.index != u32::MAX)
        .count()
}

#[test]
fn bits_layout_is_generation_high_id_low() {
    let e = Entity {
        id: 1,
        generation: 2,
    };
    assert_eq!(e.to_bits(), 0x0000_0002_0000_0001);
    assert_eq!(Entity::from_bits(0x0000_0002_0000_0001), Some(e));
    assert_eq!(
        Entity::from_bits(0xDEAD_BEEF_BAAD_F00D),
        Some(Entity {
            id: 0xBAAD_F00D,
            generation: 0xDEAD_BEEF
        })
    );
}

#[test]
fn bits_with_zero_generation_are_rejected() {
    assert_eq!(Entity::from_bits(0), None);
    assert_eq!(Entity::from_bits(1), None);
    assert_eq!(Entity::from_bits(0x0000_0000_FFFF_FFFF), None);
    assert!(Entity::from_bits(0x0000_0001_0000_0000).is_some());
}

#[test]
fn bits_roundtrip_at_the_edges() {
    for &(id, generation) in &[
        (0u32, 1u32),
        (0, u32::MAX),
        (u32::MAX, 1),
        (u32::MAX, u32::MAX),
        (7, 0x8000_0000),
    ] {
        let e = Entity { id, generation };
        assert_ne!(e.to_bits(), 0);
        assert_eq!(Entity::from_bits(e.to_bits()), Some(e));
        assert_eq!(e.id(), id);
    }
}

#[test]
fn dangling_is_the_largest_handle() {
    let d = Entity::dangling();
    assert_eq!(d.id, u32::MAX);
    assert_eq!(d.generation, u32::MAX);
    assert_eq!(d.to_bits(), u64::MAX);
}

#[test]
fn handles_order_by_id_then_generation() {
    let a = Entity {
        id: 1,
        generation: 9,
    };
    let b = Entity {
        id: 2,
        generation: 1,
    };
    let c = Entity {
        id: 2,
        generation: 2,
    };
    assert!(a < b);
    assert!(b < c);
}

#[test]
fn unassigned_marker_and_empty_record() {
    assert_eq!(
        Location::unassigned(),
        Location {
            archetype: 0,
            index: u32::MAX
        }
    );
    assert_eq!(
        EntityMeta::empty(),
        EntityMeta {
            generation: 1,
            location: Location::unassigned()
        }
    );
}

#[test]
fn new_allocator_is_empty() {
    let e = Entities::new();
    assert_eq!(e.len(), 0);
    assert!(e.meta.is_empty());
    assert!(e.pending.is_empty());
    assert_eq!(e.free_cursor, 0);
    assert!(!e.needs_flush());
}

#[test]
fn allocate_appends_then_reuses_last_freed() {
    let mut e = Entities::new();
    let a = e.allocate();
    let b = e.allocate();
    let c = e.allocate();
    assert_eq!(
        [a, b, c],
        [
            Entity {
                id: 0,
                generation: 1
            },
            Entity {
                id: 1,
                generation: 1
            },
            Entity {
                id: 2,
                generation: 1
            }
        ]
    );
    for &h in &[a, b, c] {
        located(&mut e, h, 0, 0);
    }
    assert_eq!(e.len(), 3);
    e.free(a).unwrap();
    e.free(c).unwrap();
    assert_eq!(e.pending, vec![0, 2]);
    assert_eq!(e.free_cursor, 2);
    assert_eq!(e.len(), 1);
    // The most recently freed slot comes back first, in its next generation.
    assert_eq!(
        e.allocate(),
        Entity {
            id: 2,
            generation: 2
        }
    );
    assert_eq!(e.free_cursor, 1);
    assert_eq!(
        e.allocate(),
        Entity {
            id: 0,
            generation: 2
        }
    );
    assert_eq!(
        e.allocate(),
        Entity {
            id: 3,
            generation: 1
        }
    );
    assert_eq!(e.len(), 4);
}

#[test]
fn free_returns_location_and_makes_handle_stale() {
    let mut e = Entities::new();
    let a = e.allocate();
    located(&mut e, a, 5, 6);
    assert_eq!(
        e.get(a),
        Ok(Location {
            archetype: 5,
            index: 6
        })
    );
    assert_eq!(
        e.free(a),
        Ok(Location {
            archetype: 5,
            index: 6
        })
    );
    assert_eq!(e.get(a), Err(NoSuchEntity));
    assert!(e.get_mut(a).is_err());
    assert!(!e.contains(a));
    assert_eq!(e.free(a), Err(NoSuchEntity));
    assert_eq!(e.meta[0], EntityMeta { generation: 2, location: Location::unassigned() });
    let again = e.allocate();
    assert_eq!(again.id, a.id);
    assert_ne!(again.generation, a.generation);
    located(&mut e, again, 1, 1);
    assert_eq!(e.get(a), Err(NoSuchEntity));
    assert!(e.get(again).is_ok());
}

#[test]
fn no_such_entity_for_each_cause() {
    let mut e = Entities::new();
    let a = e.allocate();
    // The slot holds no row yet.
    assert_eq!(e.get(a), Err(NoSuchEntity));
    assert!(matches!(e.get_mut(a), Err(NoSuchEntity)));
    assert_eq!(e.free(a), Err(NoSuchEntity));
    located(&mut e, a, 0, 0);
    // Wrong generation.
    let stale = Entity {
        id: a.id,
        generation: a.generation + 1,
    };
    assert_eq!(e.get(stale), Err(NoSuchEntity));
    assert!(matches!(e.get_mut(stale), Err(NoSuchEntity)));
    assert_eq!(e.free(stale), Err(NoSuchEntity));
    // Slot beyond the table.
    let beyond = Entity {
        id: 9,
        generation: 1,
    };
    assert_eq!(e.get(beyond), Err(NoSuchEntity));
    assert!(matches!(e.get_mut(beyond), Err(NoSuchEntity)));
    assert_eq!(e.free(beyond), Err(NoSuchEntity));
    assert_eq!(e.len(), 1);
    assert!(e.pending.is_empty());
}

#[test]
fn generation_wraps_to_one() {
    let mut e = Entities::new();
    let last = Entity {
        id: 0,
        generation: u32::MAX,
    };
    assert_eq!(e.alloc_at(last), None);
    located(&mut e, last, 0, 0);
    assert!(e.contains(last));
    e.free(last).unwrap();
    assert_eq!(e.meta[0].generation, 1);
    assert_eq!(
        e.allocate(),
        Entity {
            id: 0,
            generation: 1
        }
    );
}

#[test]
fn get_mut_changes_the_location() {
    let mut e = Entities::new();
    let a = e.allocate();
    located(&mut e, a, 1, 2);
    {
        let loc = e.get_mut(a).unwrap();
        assert_eq!(
            *loc,
            Location {
                archetype: 1,
                index: 2
            }
        );
        loc.archetype = 8;
        loc.index = 9;
    }
    assert_eq!(
        e.get(a),
        Ok(Location {
            archetype: 8,
            index: 9
        })
    );
    assert_eq!(e.meta[0].generation, 1);
}

#[test]
fn alloc_at_beyond_the_table_fills_the_gap() {
    let mut e = Entities::new();
    let h = Entity {
        id: 3,
        generation: 7,
    };
    assert_eq!(e.alloc_at(h), None);
    assert_eq!(e.pending, vec![0, 1, 2]);
    assert_eq!(e.free_cursor, 3);
    assert_eq!(e.meta.len(), 4);
    assert_eq!(e.len(), 1);
    assert_eq!(
        e.meta[3],
        EntityMeta {
            generation: 7,
            location: Location::unassigned()
        }
    );
    for id in 0..3 {
        assert_eq!(e.meta[id], EntityMeta::empty());
    }
    located(&mut e, h, 0, 0);
    assert!(e.contains(h));
    assert_eq!(
        e.get(h),
        Ok(Location {
            archetype: 0,
            index: 0
        })
    );
}

#[test]
fn alloc_at_pending_slot_swaps_last_into_place() {
    let mut e = Entities::new();
    e.alloc_at(Entity {
        id: 4,
        generation: 1,
    });
    assert_eq!(e.pending, vec![0, 1, 2, 3]);
    let h = Entity {
        id: 1,
        generation: 5,
    };
    assert_eq!(e.alloc_at(h), None);
    assert_eq!(e.pending, vec![0, 3, 2]);
    assert_eq!(e.free_cursor, 3);
    assert_eq!(e.len(), 2);
    assert_eq!(e.meta[1].generation, 5);
    assert_eq!(e.meta[1].location, Location::unassigned());
}

#[test]
fn alloc_at_live_slot_displaces_the_location() {
    let mut e = Entities::new();
    let a = e.allocate();
    located(&mut e, a, 2, 3);
    let h = Entity {
        id: 0,
        generation: 9,
    };
    assert_eq!(
        e.alloc_at(h),
        Some(Location {
            archetype: 2,
            index: 3
        })
    );
    assert_eq!(e.len(), 1);
    assert_eq!(
        e.meta[0],
        EntityMeta {
            generation: 9,
            location: Location::unassigned()
        }
    );
    assert!(!e.contains(a));
}

#[test]
fn reservation_straddles_recycled_and_new_slots() {
    let mut e = Entities::new();
    let handles: Vec<Entity> = (0..10).map(|_| e.allocate()).collect();
    for &h in &handles {
        located(&mut e, h, 0, h.id);
    }
    for &h in &handles[6..] {
        e.free(h).unwrap();
    }
    assert_eq!(e.pending, vec![6, 7, 8, 9]);
    assert_eq!(e.free_cursor, 4);
    assert_eq!(e.len(), 6);

    let reserved = drain(&mut e, 10);
    assert_eq!(e.free_cursor, -6);
    assert!(e.needs_flush());
    let ids: Vec<u32> = reserved.iter().map(|h| h.id).collect();
    assert_eq!(ids, vec![6, 7, 8, 9, 10, 11, 12, 13, 14, 15]);
    let generations: Vec<u32> = reserved.iter().map(|h| h.generation).collect();
    assert_eq!(generations, vec![2, 2, 2, 2, 1, 1, 1, 1, 1, 1]);
    // Nothing but the cursor moved.
    assert_eq!(e.meta.len(), 10);
    assert_eq!(e.pending, vec![6, 7, 8, 9]);
    assert_eq!(e.len(), 6);

    let mut order = Vec::new();
    e.flush(|id, loc| {
        *loc = Location {
            archetype: 1,
            index: id,
        };
        order.push(id);
    });
    // New slots first, then the recycled ones.
    assert_eq!(order, vec![10, 11, 12, 13, 14, 15, 6, 7, 8, 9]);
    assert_eq!(e.len(), 16);
    assert_eq!(e.meta.len(), 16);
    assert!(e.pending.is_empty());
    assert_eq!(e.free_cursor, 0);
    assert!(!e.needs_flush());
    for &h in handles[..6].iter().chain(reserved.iter()) {
        assert!(e.get(h).is_ok());
    }
    for &h in &reserved {
        assert_eq!(
            e.get(h),
            Ok(Location {
                archetype: 1,
                index: h.id
            })
        );
    }
}

#[test]
fn flush_keeps_the_free_entries() {
    let mut e = Entities::new();
    let handles: Vec<Entity> = (0..4).map(|_| e.allocate()).collect();
    for &h in &handles {
        located(&mut e, h, 0, 0);
    }
    for &h in &handles {
        e.free(h).unwrap();
    }
    assert_eq!(e.pending, vec![0, 1, 2, 3]);
    let first = e.reserve_entity();
    assert_eq!(
        first,
        Entity {
            id: 3,
            generation: 2
        }
    );
    assert_eq!(e.free_cursor, 3);
    let mut seen = Vec::new();
    e.flush(|id, loc| {
        loc.index = 0;
        seen.push(id);
    });
    assert_eq!(seen, vec![3]);
    assert_eq!(e.pending, vec![0, 1, 2]);
    assert_eq!(e.free_cursor, 3);
    assert_eq!(e.len(), 1);
    // A second flush finds nothing to do.
    let before = (e.meta.clone(), e.pending.clone(), e.free_cursor, e.len());
    let mut calls = 0;
    e.flush(|_, _| calls += 1);
    assert_eq!(calls, 0);
    assert_eq!(before, (e.meta.clone(), e.pending.clone(), e.free_cursor, e.len()));
}

#[test]
fn reserved_beyond_the_table_is_contained_and_unassigned() {
    let mut e = Entities::new();
    let a = e.allocate();
    located(&mut e, a, 0, 0);
    let r = e.reserve_entity();
    assert_eq!(
        r,
        Entity {
            id: 1,
            generation: 1
        }
    );
    assert!(r.id as usize >= e.meta.len());
    assert!(e.contains(r));
    assert_eq!(
        e.get(r),
        Ok(Location {
            archetype: 0,
            index: u32::MAX
        })
    );
    assert!(e.get_mut(r).is_err());
    // One slot further nothing is reserved, nor in another generation.
    assert!(!e.contains(Entity {
        id: 2,
        generation: 1
    }));
    assert_eq!(
        e.get(Entity {
            id: 2,
            generation: 1
        }),
        Err(NoSuchEntity)
    );
    assert_eq!(
        e.get(Entity {
            id: 1,
            generation: 2
        }),
        Err(NoSuchEntity)
    );
}

#[test]
fn reserved_pending_slot_is_contained_but_has_no_row() {
    let mut e = Entities::new();
    let a = e.allocate();
    located(&mut e, a, 0, 0);
    e.free(a).unwrap();
    let r = e.reserve_entity();
    assert_eq!(
        r,
        Entity {
            id: 0,
            generation: 2
        }
    );
    assert!(e.contains(r));
    assert_eq!(e.get(r), Err(NoSuchEntity));
}

#[test]
fn reserved_at_is_a_function_of_the_position() {
    let mut e = Entities::new();
    let handles: Vec<Entity> = (0..3).map(|_| e.allocate()).collect();
    for &h in &handles {
        located(&mut e, h, 0, 0);
    }
    e.free(handles[1]).unwrap();
    e.free(handles[0]).unwrap();
    assert_eq!(e.pending, vec![1, 0]);
    assert_eq!(
        e.reserved_at(2),
        Entity {
            id: 0,
            generation: 2
        }
    );
    assert_eq!(
        e.reserved_at(1),
        Entity {
            id: 1,
            generation: 2
        }
    );
    assert_eq!(
        e.reserved_at(0),
        Entity {
            id: 3,
            generation: 1
        }
    );
    assert_eq!(
        e.reserved_at(-4),
        Entity {
            id: 7,
            generation: 1
        }
    );
    assert_eq!(e.free_cursor, 2);
}

#[test]
fn reservations_hand_out_distinct_slots() {
    let mut e = Entities::new();
    let handles: Vec<Entity> = (0..5).map(|_| e.allocate()).collect();
    for &h in &handles {
        located(&mut e, h, 0, 0);
    }
    for &h in &handles[1..4] {
        e.free(h).unwrap();
    }
    let mut all = Vec::new();
    all.push(e.reserve_entity());
    all.extend(drain(&mut e, 4));
    all.push(e.reserve_entity());
    all.extend(drain(&mut e, 0));
    all.extend(drain(&mut e, 3));
    assert_eq!(all.len(), 9);
    let mut ids: Vec<u32> = all.iter().map(|h| h.id).collect();
    ids.sort_unstable();
    assert_eq!(ids, vec![1, 2, 3, 5, 6, 7, 8, 9, 10]);
    assert_eq!(e.free_cursor, 3 - 9);
}

#[test]
fn reservation_iterator_knows_its_length() {
    let mut e = Entities::new();
    let a = e.allocate();
    located(&mut e, a, 0, 0);
    e.free(a).unwrap();
    let mut handles = e.reserve_entities(3);
    assert_eq!(handles.len(), 3);
    assert_eq!(
        handles.next(),
        Some(Entity {
            id: 0,
            generation: 2
        })
    );
    assert_eq!(handles.len(), 2);
    assert_eq!(
        handles.next(),
        Some(Entity {
            id: 1,
            generation: 1
        })
    );
    assert_eq!(
        handles.next(),
        Some(Entity {
            id: 2,
            generation: 1
        })
    );
    assert_eq!(handles.len(), 0);
    assert_eq!(handles.next(), None);
    assert_eq!(handles.next(), None);
}

#[test]
fn live_count_is_the_number_of_rows() {
    let mut e = Entities::new();
    let mut live = Vec::new();
    for round in 0..6u32 {
        for _ in 0..3 {
            let h = e.allocate();
            located(&mut e, h, round, h.id);
            live.push(h);
        }
        let gone = live.remove(round as usize % live.len());
        e.free(gone).unwrap();
        assert_eq!(e.len() as usize, rows_held(&e));
        let reserved = drain(&mut e, 4);
        e.flush(|id, loc| {
            loc.archetype = 0;
            loc.index = id;
        });
        live.extend(reserved);
        assert_eq!(e.len() as usize, rows_held(&e));
        assert_eq!(e.len() as usize, live.len());
        assert_eq!(e.len() as usize, e.meta.len() - e.pending.len());
        assert_eq!(e.free_cursor as usize, e.pending.len());
    }
}

#[test]
fn batch_reuses_pending_slots_then_appends() {
    let mut e = Entities::new();
    let handles: Vec<Entity> = (0..4).map(|_| e.allocate()).collect();
    for &h in &handles {
        located(&mut e, h, 0, 0);
    }
    e.free(handles[0]).unwrap();
    e.free(handles[2]).unwrap();
    e.free(handles[3]).unwrap();
    assert_eq!(e.pending, vec![0, 2, 3]);

    let mut state: AllocManyState = e.alloc_many(4, 7, 100);
    let pending_end = state.pending_end;
    assert_eq!(pending_end, 0);
    assert_eq!(e.len(), 5);
    assert_eq!(e.meta.len(), 5);
    assert_eq!(e.pending, vec![0, 2, 3]);
    assert_eq!(state.len(&e), 4);
    let mut ids = Vec::new();
    while let Some(id) = state.next(&e) {
        ids.push(id);
    }
    assert_eq!(ids, vec![0, 2, 3, 4]);
    assert_eq!(state.len(&e), 0);
    for (row, &id) in ids.iter().enumerate() {
        assert_eq!(
            e.meta[id as usize].location,
            Location {
                archetype: 7,
                index: 100 + row as u32
            }
        );
    }
    assert_eq!(e.meta[0].generation, 2);
    assert_eq!(e.meta[4].generation, 1);
    assert_eq!(e.meta[1].location, Location { archetype: 0, index: 0 });

    e.finish_alloc_many(pending_end);
    assert!(e.pending.is_empty());
    assert_eq!(e.free_cursor, 0);
    assert!(!e.needs_flush());
    assert_eq!(e.len() as usize, rows_held(&e));
}

#[test]
fn batch_smaller_than_pending_takes_the_last_entries() {
    let mut e = Entities::new();
    let handles: Vec<Entity> = (0..4).map(|_| e.allocate()).collect();
    for &h in &handles {
        located(&mut e, h, 0, 0);
    }
    for &h in &handles {
        e.free(h).unwrap();
    }
    assert_eq!(e.pending, vec![0, 1, 2, 3]);
    let mut state = e.alloc_many(2, 1, 10);
    let pending_end = state.pending_end;
    assert_eq!(pending_end, 2);
    assert_eq!(state.next(&e), Some(2));
    assert_eq!(state.next(&e), Some(3));
    assert_eq!(state.next(&e), None);
    assert_eq!(e.meta.len(), 4);
    assert_eq!(e.meta[2].location, Location { archetype: 1, index: 10 });
    assert_eq!(e.meta[3].location, Location { archetype: 1, index: 11 });
    e.finish_alloc_many(pending_end);
    assert_eq!(e.pending, vec![0, 1]);
    assert_eq!(e.free_cursor, 2);
    assert_eq!(e.len(), 2);
    let next = e.allocate();
    assert_eq!(next, Entity { id: 1, generation: 2 });
}

#[test]
fn batch_of_nothing_changes_nothing() {
    let mut e = Entities::new();
    let a = e.allocate();
    located(&mut e, a, 0, 0);
    e.free(a).unwrap();
    let mut state = e.alloc_many(0, 3, 3);
    assert_eq!(state.pending_end, 1);
    assert_eq!(state.len(&e), 0);
    assert_eq!(state.next(&e), None);
    e.finish_alloc_many(1);
    assert_eq!(e.pending, vec![0]);
    assert_eq!(e.len(), 0);
    assert_eq!(e.free_cursor, 1);
}

#[test]
fn freelist_lists_the_free_prefix() {
    let mut e = Entities::new();
    let handles: Vec<Entity> = (0..3).map(|_| e.allocate()).collect();
    for &h in &handles {
        located(&mut e, h, 0, 0);
    }
    e.free(handles[2]).unwrap();
    e.free(handles[0]).unwrap();
    assert_eq!(
        e.freelist(),
        vec![
            Entity {
                id: 2,
                generation: 2
            },
            Entity {
                id: 0,
                generation: 2
            }
        ]
    );
    let _ = e.reserve_entity();
    assert_eq!(
        e.freelist(),
        vec![Entity {
            id: 2,
            generation: 2
        }]
    );
    let _ = drain(&mut e, 5);
    assert!(e.freelist().is_empty());
}

#[test]
fn set_freelist_restores_a_snapshot() {
    let mut e = Entities::new();
    let live = Entity {
        id: 1,
        generation: 4,
    };
    assert_eq!(e.alloc_at(live), None);
    located(&mut e, live, 0, 0);
    assert_eq!(e.pending, vec![0]);
    let saved = [
        Entity {
            id: 3,
            generation: 6,
        },
        Entity {
            id: 0,
            generation: 2,
        },
    ];
    e.set_freelist(&saved);
    assert_eq!(e.pending, vec![3, 0]);
    assert_eq!(e.free_cursor, 2);
    assert!(!e.needs_flush());
    assert_eq!(e.meta.len(), 4);
    assert_eq!(e.meta[3].generation, 6);
    assert_eq!(e.meta[0].generation, 2);
    assert_eq!(e.meta[2], EntityMeta::empty());
    assert_eq!(e.meta[1].generation, 4);
    assert_eq!(e.len(), 1);
    assert_eq!(e.freelist(), vec![saved[0], saved[1]]);
    assert_eq!(e.allocate(), saved[1]);
    assert_eq!(e.allocate(), saved[0]);
}

#[test]
fn set_freelist_with_nothing_empties_the_list() {
    let mut e = Entities::new();
    let a = e.allocate();
    located(&mut e, a, 0, 0);
    e.free(a).unwrap();
    let _ = e.reserve_entities(3);
    e.set_freelist(&[]);
    assert!(e.pending.is_empty());
    assert_eq!(e.free_cursor, 0);
    assert_eq!(e.meta.len(), 1);
}

#[test]
fn resolve_reads_generation_or_assumes_the_first() {
    let mut e = Entities::new();
    let a = e.allocate();
    located(&mut e, a, 0, 0);
    e.free(a).unwrap();
    let b = e.allocate();
    located(&mut e, b, 0, 0);
    assert_eq!(e.resolve_unknown_gen(0), b);
    assert_eq!(b.generation, 2);
    let _ = drain(&mut e, 2);
    assert_eq!(
        e.resolve_unknown_gen(2),
        Entity {
            id: 2,
            generation: 1
        }
    );
}

#[test]
fn clear_starts_over() {
    let mut e = Entities::new();
    let a = e.allocate();
    located(&mut e, a, 0, 0);
    e.free(a).unwrap();
    let _ = drain(&mut e, 3);
    e.clear();
    assert_eq!(e.len(), 0);
    assert!(e.meta.is_empty());
    assert!(e.pending.is_empty());
    assert_eq!(e.free_cursor, 0);
    assert_eq!(
        e.allocate(),
        Entity {
            id: 0,
            generation: 1
        }
    );
}

#[test]
fn capacity_hint_changes_nothing_visible() {
    let mut e = Entities::new();
    let a = e.allocate();
    located(&mut e, a, 1, 2);
    let b = e.allocate();
    located(&mut e, b, 3, 4);
    e.free(a).unwrap();
    let before = (e.meta.clone(), e.pending.clone(), e.free_cursor, e.len());
    e.reserve(0);
    e.reserve(1);
    e.reserve(1000);
    assert_eq!(before, (e.meta.clone(), e.pending.clone(), e.free_cursor, e.len()));
    assert!(e.meta.capacity() >= e.meta.len() + 999);
}

#[test]
fn lookups_at_a_given_cursor() {
    let mut e = Entities::new();
    let handles: Vec<Entity> = (0..3).map(|_| e.allocate()).collect();
    for &h in &handles {
        located(&mut e, h, 1, h.id);
    }
    e.free(handles[1]).unwrap();
    e.free(handles[2]).unwrap();
    assert_eq!(e.pending, vec![1, 2]);
    let first = Entity {
        id: 1,
        generation: 2,
    };
    let second = Entity {
        id: 2,
        generation: 2,
    };
    let beyond = Entity {
        id: 4,
        generation: 1,
    };
    // Nothing reserved.
    assert!(!e.contains_at(2, first));
    assert!(!e.contains_at(2, second));
    // The last entry reserved.
    assert!(!e.contains_at(1, first));
    assert!(e.contains_at(1, second));
    // Both reserved, and two slots beyond the table.
    assert!(e.contains_at(-2, first));
    assert!(e.contains_at(-2, beyond));
    assert!(!e.contains_at(-1, beyond));
    assert_eq!(e.get_at(-2, beyond), Ok(Location::unassigned()));
    assert_eq!(e.get_at(-1, beyond), Err(NoSuchEntity));
    assert_eq!(e.get_at(-2, second), Err(NoSuchEntity));
    assert_eq!(
        e.get_at(-2, handles[0]),
        Ok(Location {
            archetype: 1,
            index: 0
        })
    );
    // The allocator's own cursor did not move.
    assert_eq!(e.free_cursor, 2);
    assert!(e.contains_at(2, handles[0]));
}

#[test]
fn with_cursor_takes_over_a_cursor_of_the_table() {
    let mut e = Entities::new();
    let a = e.allocate();
    located(&mut e, a, 0, 0);
    e.free(a).unwrap();
    assert_eq!(e.free_cursor, 1);
    let e = e.with_cursor(-3);
    assert_eq!(e.free_cursor, -3);
    assert_eq!(e.pending, vec![0]);
    let e = e.with_cursor(0);
    assert_eq!(e.free_cursor, 0);
    // A value above the pending list is not taken over.
    let e = e.with_cursor(2);
    assert_eq!(e.free_cursor, 0);
    let e = e.with_cursor(1);
    assert_eq!(e.free_cursor, 1);
    assert_eq!(e.len(), 0);
    assert_eq!(e.meta.len(), 1);
}

#[test]
fn capacity_hint_asks_for_what_the_free_slots_do_not_cover() {
    assert_eq!(Entities::reserve_shortfall(10, 4), 6);
    assert_eq!(Entities::reserve_shortfall(4, 4), 0);
    assert_eq!(Entities::reserve_shortfall(3, 4), 0);
    assert_eq!(Entities::reserve_shortfall(0, 0), 0);
    assert_eq!(Entities::reserve_shortfall(u32::MAX, 1), u32::MAX as usize - 1);
}

#[test]
fn flush_asks_init_only_for_reserved_slots() {
    let mut e = Entities::new();
    let a = e.allocate();
    located(&mut e, a, 0, 0);
    let mut calls = Vec::new();
    e.flush(|id, _| calls.push(id));
    assert!(calls.is_empty());
    let r = e.reserve_entity();
    e.flush(|id, loc| {
        loc.index = 1;
        calls.push(id);
    });
    assert_eq!(calls, vec![r.id]);
}
