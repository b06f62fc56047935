//! Identity allocator of an entity-component runtime.
//!
//! A handle ([`Entity`]) pairs a reusable slot index with a generation counter.
//! [`Entities`] mints handles, recycles freed slots, and records for every slot
//! its current generation and the storage [`Location`] of its occupant.
//! Reservations move a signed cursor over the list of recycled slots; a later
//! [`Entities::flush`] commits them into the table. [`SharedEntities`] keeps
//! that cursor in an atomic integer, so that threads can reserve handles
//! through shared access.
//!
//! Every exclusive operation is specified against [`Table`], the mathematical
//! state of the allocator, and [`laws`] holds what is proved of the
//! operations taken together.

pub mod batch;
pub mod entities;
pub mod freelist;
pub mod handle;
pub mod laws;
pub mod location;
pub mod reserve;
pub mod shared;
pub mod table;

pub use batch::AllocManyState;
pub use entities::Entities;
pub use handle::Entity;
pub use location::{EntityMeta, Location, NoSuchEntity};
pub use reserve::ReserveEntitiesIterator;
pub use shared::SharedEntities;
pub use table::Table;
