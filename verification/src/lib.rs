//! Recursive room-tensor architecture.
//!
//! Rooms sit at one of six depths, are placed on the grid of a tensor layer,
//! and layers are stacked into a recursive tensor whose rooms are linked
//! across depths. This crate holds the structural part of that model: depths,
//! room placement, grid queries, clocks and cross-layer links. The payload a
//! room keeps for each of its connections and tiles is a type parameter.
use vstd::prelude::*;

pub mod depth;
pub mod link;
pub mod room;
pub mod layer;
pub mod tensor;

verus! {

/// Identifies a room within its layer.
pub type RoomId = usize;

} // verus!
