//! A per-thread bump (arena) memory allocator core.
//!
//! Memory is handed out from growable backing blocks by advancing a bump
//! cursor. The most recently issued allocation can be grown or shrunk in
//! place; everything else is reclaimed in bulk through a scoped-reuse
//! protocol that restores a checkpoint and retains the largest block created
//! since the checkpoint as a spare.
//!
//! Block buffers are modelled with owned byte vectors plus explicit base
//! addresses drawn from a monotone address counter, so that every contract
//! about addresses, alignment and disjointness is machine-checked.

use vstd::prelude::*;

pub mod layout;
pub mod block;
pub mod arena;

pub use crate::layout::Layout;
pub use crate::layout::AllocErr;
pub use crate::layout::CannotReallocInPlace;
pub use crate::layout::MAX_OBJECT_SIZE;
pub use crate::block::OwnedArenaBlock;
pub use crate::arena::OwnedArena;
pub use crate::arena::ArenaPtr;
pub use crate::arena::Excess;
pub use crate::arena::ScopeCheckpoint;
pub use crate::arena::INITIAL_BLOCK_CAPACITY;
