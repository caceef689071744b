use vstd::prelude::*;
use std::collections::HashMap;
use crate::depth::RoomDepth;
use crate::RoomId;

verus! {

broadcast use vstd::std_specs::hash::group_hash_axioms;

/// The character of a connection between two rooms.
#[derive(Debug, Clone, Copy, PartialEq, Eq, Structural)]
pub enum ConnectionFlavor {
    /// Just met, high attraction: sparks.
    Electric,
    /// Long known and in sync: a foundation.
    Deep,
    /// Far apart but in phase.
    Resonant,
    /// Losing touch.
    Fading,
    /// A normal background connection.
    Steady,
}

/// A room in the recursive tensor.
///
/// A room sits at a depth and a grid position, keeps a clock, lists the
/// sub-rooms it contains, and keeps, for every room it is connected to, the
/// state of that connection (`C`) and the tile through which that room
/// appears here (`T`).
#[derive(Debug)]
pub struct Room<C, T> {
    pub id: RoomId,
    pub depth: RoomDepth,
    /// Ternary state: -1, 0 or +1.
    pub state: i8,
    /// How other rooms appear here, by their id.
    pub tiles: HashMap<RoomId, T>,
    /// Live connections to other rooms, by their id.
    pub connections: HashMap<RoomId, C>,
    /// Sub-rooms contained within, in the order they were added.
    pub children: Vec<RoomId>,
    /// Grid position (x, y).
    pub position: (usize, usize),
    pub tick: u64,
}

/// `after` is `before` with its clock advanced by one and nothing else changed.
pub open spec fn ticked<C, T>(before: Room<C, T>, after: Room<C, T>) -> bool {
    &&& after.tick == before.tick + 1
    &&& after.id == before.id
    &&& after.depth == before.depth
    &&& after.state == before.state
    &&& after.tiles@ == before.tiles@
    &&& after.connections@ == before.connections@
    &&& after.children@ == before.children@
    &&& after.position == before.position
}

/// Every room this room is connected to has a tile here, and every tile
/// belongs to a connected room.
pub open spec fn keyed_alike<C, T>(room: Room<C, T>) -> bool {
    room.connections@.dom() == room.tiles@.dom()
}

impl<C, T> Room<C, T> {
    /// A room with the given id and depth: neutral state, no connections,
    /// tiles or children, placed at (0, 0), its clock at zero.
    pub fn new(id: RoomId, depth: RoomDepth) -> (r: Self)
        ensures
            r.id == id,
            r.depth == depth,
            r.state == 0,
            r.tiles@ == Map::<RoomId, T>::empty(),
            r.connections@ == Map::<RoomId, C>::empty(),
            r.children@ == Seq::<RoomId>::empty(),
            r.position == (0usize, 0usize),
            r.tick == 0,
    {
        Room {
            id,
            depth,
            state: 0,
            tiles: HashMap::new(),
            connections: HashMap::new(),
            children: Vec::new(),
            position: (0, 0),
            tick: 0,
        }
    }

    /// The same room placed at grid position (x, y).
    pub fn at(self, x: usize, y: usize) -> (r: Self)
        ensures
            r.position == (x, y),
            r.id == self.id,
            r.depth == self.depth,
            r.state == self.state,
            r.tiles@ == self.tiles@,
            r.connections@ == self.connections@,
            r.children@ == self.children@,
            r.tick == self.tick,
    {
        let mut r = self;
        r.position = (x, y);
        r
    }

    /// Connects this room to `other`: records the state of the connection and
    /// the tile through which `other` appears here, replacing those of an
    /// earlier connection to `other`.
    pub fn attach(&mut self, other: RoomId, connection: C, tile: T)
        ensures
            final(self).connections@ == old(self).connections@.insert(other, connection),
            final(self).tiles@ == old(self).tiles@.insert(other, tile),
            final(self).id == old(self).id,
            final(self).depth == old(self).depth,
            final(self).state == old(self).state,
            final(self).children@ == old(self).children@,
            final(self).position == old(self).position,
            final(self).tick == old(self).tick,
    {
        self.connections.insert(other, connection);
        self.tiles.insert(other, tile);
    }

    /// Adds a child room (one level deeper) after those already listed.
    pub fn add_child(&mut self, child_id: RoomId)
        ensures
            final(self).children@ == old(self).children@.push(child_id),
            final(self).id == old(self).id,
            final(self).depth == old(self).depth,
            final(self).state == old(self).state,
            final(self).tiles@ == old(self).tiles@,
            final(self).connections@ == old(self).connections@,
            final(self).position == old(self).position,
            final(self).tick == old(self).tick,
    {
        self.children.push(child_id);
    }

    /// Advances the room's clock by one. The states of its connections and
    /// tiles are left as they are: refreshing them is up to their type.
    pub fn advance_clock(&mut self)
        requires
            old(self).tick < u64::MAX,
        ensures
            ticked(*old(self), *final(self)),
    {
        self.tick = self.tick + 1;
    }
}

impl<C: Clone, T: Clone> Clone for Room<C, T> {
    /// A copy of the room: same id, depth, state, children, position and
    /// clock, and the same connections and tiles.
    fn clone(&self) -> (r: Self)
        ensures
            r.id == self.id,
            r.depth == self.depth,
            r.state == self.state,
            r.children@ == self.children@,
            r.position == self.position,
            r.tick == self.tick,
            r.tiles@ == self.tiles@,
            r.connections@ == self.connections@,
    {
        Room {
            id: self.id,
            depth: self.depth,
            state: self.state,
            tiles: self.tiles.clone(),
            connections: self.connections.clone(),
            children: self.children.clone(),
            position: self.position,
            tick: self.tick,
        }
    }
}

/// A room without connections or tiles, as `new` makes it, has a tile for
/// exactly the rooms it is connected to.
pub proof fn lemma_new_room_keyed_alike<C, T>(room: Room<C, T>)
    requires
        room.connections@ == Map::<RoomId, C>::empty(),
        room.tiles@ == Map::<RoomId, T>::empty(),
    ensures
        keyed_alike(room),
{
    assert(room.connections@.dom() =~= room.tiles@.dom());
}

/// Connecting a room to another keeps its tiles and connections keyed by the
/// same rooms, and the other room then has both a connection and a tile.
pub proof fn lemma_attach_keeps_keys_alike<C, T>(before: Room<C, T>, after: Room<C, T>, other: RoomId, connection: C, tile: T)
    requires
        keyed_alike(before),
        after.connections@ == before.connections@.insert(other, connection),
        after.tiles@ == before.tiles@.insert(other, tile),
    ensures
        keyed_alike(after),
        after.connections@.contains_key(other),
        after.tiles@.contains_key(other),
{
    assert(after.connections@.dom() =~= after.tiles@.dom());
}

} // verus!
