//! Core engine for a hex-grid tactical wargame: cube coordinates with the
//! axial invariant, a fixed-point hex/pixel layout, a world tile store with
//! derived ownership and locality queries, a bounded legal-move search, and a
//! byte codec for persisting a world.

pub mod codec;
pub mod editor;
pub mod frac;
pub mod hex;
pub mod layout;
pub mod search;
pub mod world;
