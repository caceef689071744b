use vstd::prelude::*;
use crate::depth::RoomDepth;
use crate::RoomId;

verus! {

/// How a room at one depth relates to a room at another depth.
#[derive(Debug, Clone, Copy, PartialEq, Eq, Structural)]
pub enum CrossLinkType {
    /// The upper room contains the lower room.
    Contains,
    /// The lower room projects into the upper room.
    Projects,
    /// The upper room controls the lower room.
    Controls,
    /// The lower room realizes the upper room's intent.
    Realizes,
}

/// A connection between two rooms at different depths, each named by its
/// depth and its id.
#[derive(Debug, Clone, Copy)]
pub struct CrossLayerLink {
    pub upper_room: (RoomDepth, RoomId),
    pub lower_room: (RoomDepth, RoomId),
    pub link_type: CrossLinkType,
}

/// A link touches a room when that room is its upper or its lower end.
pub open spec fn link_touches(l: CrossLayerLink, depth: RoomDepth, room_id: RoomId) -> bool {
    (l.upper_room.0 == depth && l.upper_room.1 == room_id) || (l.lower_room.0 == depth
        && l.lower_room.1 == room_id)
}

/// A link touches a room exactly when that room, as a (depth, id) pair, is
/// the link's upper end or its lower end.
pub proof fn lemma_touches_means_an_end(l: CrossLayerLink, depth: RoomDepth, room_id: RoomId)
    ensures
        link_touches(l, depth, room_id) <==> (l.upper_room == (depth, room_id) || l.lower_room == (depth, room_id)),
{
}

impl CrossLayerLink {
    /// Whether the room `room_id` at `depth` is one of the two ends of this link.
    pub fn touches(&self, depth: RoomDepth, room_id: RoomId) -> (r: bool)
        ensures
            r == link_touches(*self, depth, room_id),
            r == (self.upper_room == (depth, room_id) || self.lower_room == (depth, room_id)),
    {
        (self.upper_room.0 == depth && self.upper_room.1 == room_id) || (self.lower_room.0 == depth
            && self.lower_room.1 == room_id)
    }
}

} // verus!
