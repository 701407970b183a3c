//! A handle to a heap value that owns it alone until it is first cloned,
//! and only then allocates a shared counter.

mod arena;
mod laws;
mod model;

pub use arena::{Arena, LazyRc};
pub use laws::{
    keeps_alive, lemma_finalized_once, lemma_live_count, lemma_shared_identity,
    lemma_single_owner_drop,
};
pub use model::{count_clones, count_drops, ArenaView};
