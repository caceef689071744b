use vstd::prelude::*;
use std::collections::HashMap;
use vstd::std_specs::iter::IteratorSpec;
use crate::depth::RoomDepth;
use crate::room::{Room, ticked};
use crate::RoomId;

verus! {

broadcast use vstd::std_specs::hash::group_hash_axioms;

/// A tensor layer: the rooms of one depth, arranged on a `width` by `height`
/// grid and kept by id.
pub struct TensorLayer<C, T> {
    pub depth: RoomDepth,
    pub rooms: HashMap<RoomId, Room<C, T>>,
    pub width: usize,
    pub height: usize,
}

/// What a walk over a map's entries yields: every entry once, each pair
/// being a key of the map with the value kept under it, no key twice.
proof fn lemma_iter_pairs<V>(m: &HashMap<RoomId, V>)
    ensures
        ({
            let v = vstd::std_specs::hash::spec_hash_map_iter(m).remaining();
            &&& v.len() == m@.dom().len()
            &&& forall|i: int| 0 <= i < v.len() ==> m@.contains_key(*v[i].0) && m@[*v[i].0] == *v[i].1
            &&& forall|k: RoomId| #[trigger] m@.contains_key(k) ==> v.contains((&k, &m@[k]))
        }),
{
    let v = vstd::std_specs::hash::spec_hash_map_iter(m).remaining();
    assert forall|i: int| 0 <= i < v.len() implies m@.contains_key(*v[i].0) && m@[*v[i].0] == *v[i].1 by {
        assert(m@.contains_key(*v[i].0));
    }
}

/// In a walk without repeated pairs, no key comes twice.
proof fn lemma_iter_keys_distinct<V>(m: &HashMap<RoomId, V>, v: Seq<(&RoomId, &V)>)
    requires
        v.no_duplicates(),
        forall|i: int| 0 <= i < v.len() ==> m@.contains_key(*v[i].0) && m@[*v[i].0] == *v[i].1,
    ensures
        forall|i: int, j: int| 0 <= i < v.len() && 0 <= j < v.len() && i != j ==> *v[i].0 != *v[j].0,
{
    assert forall|i: int, j: int| 0 <= i < v.len() && 0 <= j < v.len() && i != j implies *v[i].0 != *v[j].0 by {
        if *v[i].0 == *v[j].0 {
            assert(v[i] == v[j]);
        }
    }
}

/// Both coordinates of a position fit an `i32`.
pub open spec fn small_position(p: (usize, usize)) -> bool {
    p.0 <= 0x7fff_ffffusize && p.1 <= 0x7fff_ffffusize
}

/// For positions whose coordinates fit an `i32`, the diagonal offset is the
/// difference x - y itself, and it always fits an `i32`.
pub proof fn lemma_diagonal_offset_is_difference(p: (usize, usize))
    requires
        small_position(p),
    ensures
        diagonal_offset(p) == p.0 - p.1,
        diagonal_fits(p),
{
    let x = p.0;
    let y = p.1;
    assert(x <= 0x7fff_ffffusize ==> (x as i32) as int == x as int) by (bit_vector);
    assert(y <= 0x7fff_ffffusize ==> (y as i32) as int == y as int) by (bit_vector);
}

/// A line of the grid along which rooms are selected.
enum GridLine {
    Column(usize),
    Row(usize),
    Diagonal(i32),
}

/// The difference x - y of a position, each coordinate read as an `i32`.
pub open spec fn diagonal_offset(p: (usize, usize)) -> int {
    (p.0 as i32) as int - (p.1 as i32) as int
}

/// Whether `diagonal_offset` of a position fits an `i32`.
pub open spec fn diagonal_fits(p: (usize, usize)) -> bool {
    i32::MIN <= diagonal_offset(p) <= i32::MAX
}

spec fn on_line(p: (usize, usize), line: GridLine) -> bool {
    match line {
        GridLine::Column(x) => p.0 == x,
        GridLine::Row(y) => p.1 == y,
        GridLine::Diagonal(offset) => diagonal_offset(p) == offset as int,
    }
}

spec fn line_fits(p: (usize, usize), line: GridLine) -> bool {
    match line {
        GridLine::Diagonal(_) => diagonal_fits(p),
        _ => true,
    }
}

fn is_on_line(p: (usize, usize), line: &GridLine) -> (r: bool)
    requires
        line_fits(p, *line),
    ensures
        r == on_line(p, *line),
{
    match line {
        GridLine::Column(x) => p.0 == *x,
        GridLine::Row(y) => p.1 == *y,
        GridLine::Diagonal(offset) => p.0 as i32 - p.1 as i32 == *offset,
    }
}

/// A coordinate moved by `d`, computed as `i32` and read back as `usize`.
pub open spec fn shift(c: usize, d: i32) -> usize {
    ((c as i32) + d) as usize
}

/// A coordinate that can be moved by -1 and +1 as an `i32` without overflow.
pub open spec fn shiftable(c: usize) -> bool {
    i32::MIN < (c as i32) && (c as i32) < i32::MAX
}

/// The eight directions to the cells around a cell, in the order they are
/// looked at: left, right, up, down, then the four corners.
pub open spec fn neighbor_offsets() -> Seq<(i32, i32)> {
    seq![(-1i32, 0i32), (1i32, 0i32), (0i32, -1i32), (0i32, 1i32), (-1i32, -1i32), (-1i32, 1i32), (1i32, -1i32), (1i32, 1i32)]
}

/// The cells around (x, y), in the order of `neighbor_offsets`.
pub open spec fn neighbor_cells(x: usize, y: usize) -> Seq<(usize, usize)> {
    neighbor_offsets().map_values(|d: (i32, i32)| (shift(x, d.0), shift(y, d.1)))
}

fn neighbor_offset(j: usize) -> (r: (i32, i32))
    requires
        j < 8,
    ensures
        r == neighbor_offsets()[j as int],
{
    if j == 0 {
        (-1, 0)
    } else if j == 1 {
        (1, 0)
    } else if j == 2 {
        (0, -1)
    } else if j == 3 {
        (0, 1)
    } else if j == 4 {
        (-1, -1)
    } else if j == 5 {
        (-1, 1)
    } else if j == 6 {
        (1, -1)
    } else {
        (1, 1)
    }
}

impl<C, T> TensorLayer<C, T> {
    /// Whether `room` is one of the layer's rooms (kept under some id).
    pub open spec fn holds(self, room: Room<C, T>) -> bool {
        exists|k: RoomId| #[trigger] self.rooms@.contains_key(k) && self.rooms@[k] == room
    }

    /// Whether some room of the layer is placed at (x, y).
    pub open spec fn occupied(self, x: usize, y: usize) -> bool {
        exists|k: RoomId| #[trigger] self.rooms@.contains_key(k) && self.rooms@[k].position == (x, y)
    }

    /// `r` lists, each once and in some order, the rooms of the layer whose
    /// position satisfies `keep`; `ks` are the ids they are kept under.
    pub open spec fn lists_by(self, r: Seq<&Room<C, T>>, keep: spec_fn((usize, usize)) -> bool, ks: Seq<RoomId>) -> bool {
        &&& ks.len() == r.len()
        &&& ks.no_duplicates()
        &&& forall|i: int| 0 <= i < ks.len() ==> self.rooms@.contains_key(#[trigger] ks[i])
            && self.rooms@[ks[i]] == *r[i] && keep(r[i].position)
        &&& forall|k: RoomId| #[trigger] self.rooms@.contains_key(k) && keep(self.rooms@[k].position) ==> ks.contains(k)
    }

    /// `r` lists, each once and in some order, the rooms of the layer whose
    /// position satisfies `keep`.
    pub open spec fn lists(self, r: Seq<&Room<C, T>>, keep: spec_fn((usize, usize)) -> bool) -> bool {
        exists|ks: Seq<RoomId>| self.lists_by(r, keep, ks)
    }

    /// A cell that lies inside the grid and holds a room.
    pub open spec fn found_cell(self, c: (usize, usize)) -> bool {
        c.0 < self.width && c.1 < self.height && self.occupied(c.0, c.1)
    }

    /// The cells around the position `p` that lie inside the grid and hold a
    /// room, in the order they are looked at.
    pub open spec fn occupied_neighbor_cells(self, p: (usize, usize)) -> Seq<(usize, usize)> {
        neighbor_cells(p.0, p.1).filter(|c: (usize, usize)| self.found_cell(c))
    }

    /// Some room of the layer has id `id` and is placed at `cell`.
    pub open spec fn room_named_at(self, id: RoomId, cell: (usize, usize)) -> bool {
        exists|k: RoomId| #[trigger] self.rooms@.contains_key(k) && self.rooms@[k].id == id
            && self.rooms@[k].position == cell
    }

    /// `r` names, for each cell of `cells` in turn, a room of the layer placed there.
    pub open spec fn names_rooms_at(self, r: Seq<RoomId>, cells: Seq<(usize, usize)>) -> bool {
        &&& r.len() == cells.len()
        &&& forall|i: int| 0 <= i < r.len() ==> #[trigger] self.room_named_at(r[i], cells[i])
    }

    /// An empty layer of the given depth and grid size.
    pub fn new(depth: RoomDepth, width: usize, height: usize) -> (l: Self)
        ensures
            l.depth == depth,
            l.width == width,
            l.height == height,
            l.rooms@ == Map::<RoomId, Room<C, T>>::empty(),
    {
        TensorLayer { depth, rooms: HashMap::new(), width, height }
    }

    /// Adds a room under its id, replacing any room kept under that id.
    pub fn add_room(&mut self, room: Room<C, T>)
        ensures
            final(self).rooms@ == old(self).rooms@.insert(room.id, room),
            final(self).depth == old(self).depth,
            final(self).width == old(self).width,
            final(self).height == old(self).height,
    {
        let id = room.id;
        self.rooms.insert(id, room);
    }

    /// A room placed at grid position (x, y), if there is one. Where several
    /// rooms share the position, which of them is returned is unspecified.
    pub fn room_at(&self, x: usize, y: usize) -> (r: Option<&Room<C, T>>)
        ensures
            r matches Some(room) ==> self.holds(*room) && room.position == (x, y),
            r is None <==> !self.occupied(x, y),
    {
        match self.id_at(x, y) {
            Some(k) => self.rooms.get(&k),
            None => None,
        }
    }

    /// The id under which a room placed at (x, y) is kept, if there is one.
    fn id_at(&self, x: usize, y: usize) -> (r: Option<RoomId>)
        ensures
            r matches Some(k) ==> self.rooms@.contains_key(k) && self.rooms@[k].position == (x, y),
            r is None <==> !self.occupied(x, y),
    {
        let iter = self.rooms.iter();
        let ghost pairs = iter.remaining();
        proof {
            lemma_iter_pairs(&self.rooms);
        }
        for pair in it: iter
            invariant
                it.seq() == pairs,
                pairs == vstd::std_specs::hash::spec_hash_map_iter(&self.rooms).remaining(),
                forall|i: int| 0 <= i < it.index() ==> (#[trigger] it.seq()[i]).1.position != (x, y),
        {
            let (id, room) = pair;
            if room.position.0 == x && room.position.1 == y {
                proof {
                    let k = *pairs[it.index()].0;
                    assert(self.rooms@.contains_key(k));
                }
                return Some(*id);
            }
        }
        proof {
            if self.occupied(x, y) {
                let k = choose|k: RoomId| #[trigger] self.rooms@.contains_key(k) && self.rooms@[k].position == (x, y);
                assert(pairs.contains((&k, &self.rooms@[k])));
                let i = choose|i: int| 0 <= i < pairs.len() && pairs[i] == (&k, &self.rooms@[k]);
                assert(pairs[i].1.position != (x, y));
            }
        }
        None
    }

    /// Mutable access to a room placed at (x, y), if there is one. Where
    /// several rooms share the position, which of them is given is
    /// unspecified; the room given stays kept under its id with whatever
    /// changes are made through the reference.
    pub fn room_at_mut(&mut self, x: usize, y: usize) -> (r: Option<&mut Room<C, T>>)
        ensures
            r is None <==> !old(self).occupied(x, y),
            r is None ==> final(self).rooms@ == old(self).rooms@,
            r matches Some(room) ==> exists|k: RoomId| #[trigger] old(self).rooms@.contains_key(k)
                && old(self).rooms@[k] == *room && room.position == (x, y)
                && final(self).rooms@ == old(self).rooms@.insert(k, *final(room)),
            final(self).depth == old(self).depth,
            final(self).width == old(self).width,
            final(self).height == old(self).height,
    {
        match self.id_at(x, y) {
            Some(k) => {
                match self.rooms.entry(k) {
                    std::collections::hash_map::Entry::Occupied(o) => Some(o.into_mut()),
                    std::collections::hash_map::Entry::Vacant(_) => {
                        proof {
                            assert(false);
                        }
                        None
                    },
                }
            },
            None => None,
        }
    }

    /// The ids of the rooms around room `room_id` on the grid: for each of
    /// the eight surrounding cells in turn (left, right, up, down, then the
    /// corners) that lies inside the grid and holds a room, the id of one
    /// room placed there. Empty when the layer has no room `room_id`.
    pub fn neighbors(&self, room_id: RoomId) -> (r: Vec<RoomId>)
        requires
            self.rooms@.contains_key(room_id) ==> shiftable(self.rooms@[room_id].position.0)
                && shiftable(self.rooms@[room_id].position.1),
        ensures
            !self.rooms@.contains_key(room_id) ==> r@.len() == 0,
            self.rooms@.contains_key(room_id) ==> self.names_rooms_at(
                r@,
                self.occupied_neighbor_cells(self.rooms@[room_id].position),
            ),
    {
        match self.rooms.get(&room_id) {
            Some(room) => {
                let (x, y) = room.position;
                let ghost cells = neighbor_cells(x, y);
                let ghost found = |c: (usize, usize)| self.found_cell(c);
                let mut neighbors: Vec<RoomId> = Vec::new();
                let mut j: usize = 0;
                while j < 8
                    invariant
                        j <= 8,
                        shiftable(x),
                        shiftable(y),
                        cells == neighbor_cells(x, y),
                        found == (|c: (usize, usize)| self.found_cell(c)),
                        self.names_rooms_at(neighbors@, cells.take(j as int).filter(found)),
                    decreases 8 - j,
                {
                    let (dx, dy) = neighbor_offset(j);
                    let nx = (x as i32 + dx) as usize;
                    let ny = (y as i32 + dy) as usize;
                    let ghost before = neighbors@;
                    proof {
                        assert(cells[j as int] == (nx, ny));
                        assert(cells.take(j + 1).drop_last() =~= cells.take(j as int));
                        reveal_with_fuel(Seq::filter, 1);
                    }
                    if nx < self.width && ny < self.height {
                        if let Some(n) = self.room_at(nx, ny) {
                            neighbors.push(n.id);
                            proof {
                                let k = choose|k: RoomId| #[trigger] self.rooms@.contains_key(k) && self.rooms@[k] == *n;
                                assert(self.room_named_at(n.id, (nx, ny)));
                                let fs = cells.take(j + 1).filter(found);
                                assert forall|i: int| 0 <= i < neighbors@.len() implies #[trigger] self.room_named_at(neighbors@[i], fs[i]) by {
                                    if i < before.len() {
                                        assert(neighbors@[i] == before[i]);
                                    }
                                }
                            }
                        }
                    }
                    j = j + 1;
                }
                proof {
                    assert(cells.take(8) =~= cells);
                }
                neighbors
            },
            None => Vec::new(),
        }
    }

    /// The ids under which the layer keeps its rooms, each once.
    fn room_ids(&self) -> (ks: Vec<RoomId>)
        ensures
            ks@.no_duplicates(),
            forall|k: RoomId| ks@.contains(k) <==> self.rooms@.contains_key(k),
    {
        let mut ks: Vec<RoomId> = Vec::new();
        let iter = self.rooms.iter();
        let ghost pairs = iter.remaining();
        proof {
            lemma_iter_pairs(&self.rooms);
            lemma_iter_keys_distinct(&self.rooms, pairs);
        }
        for pair in it: iter
            invariant
                it.seq() == pairs,
                pairs.len() == self.rooms@.dom().len(),
                forall|i: int| 0 <= i < pairs.len() ==> self.rooms@.contains_key(*pairs[i].0)
                    && self.rooms@[*pairs[i].0] == *pairs[i].1,
                forall|k: RoomId| #[trigger] self.rooms@.contains_key(k) ==> pairs.contains((&k, &self.rooms@[k])),
                forall|i: int, j: int| 0 <= i < pairs.len() && 0 <= j < pairs.len() && i != j ==> *pairs[i].0 != *pairs[j].0,
                ks@.len() == it.index(),
                forall|i: int| 0 <= i < it.index() ==> ks@[i] == *pairs[i].0,
        {
            let (id, _room) = pair;
            ks.push(*id);
        }
        proof {
            assert forall|i: int, j: int| 0 <= i < ks@.len() && 0 <= j < ks@.len() && i != j implies ks@[i] != ks@[j] by {}
            assert forall|k: RoomId| ks@.contains(k) <==> self.rooms@.contains_key(k) by {
                if self.rooms@.contains_key(k) {
                    let i = choose|i: int| 0 <= i < pairs.len() && pairs[i] == (&k, &self.rooms@[k]);
                    assert(ks@[i] == k);
                }
                if ks@.contains(k) {
                    let i = choose|i: int| 0 <= i < ks@.len() && ks@[i] == k;
                    assert(self.rooms@.contains_key(*pairs[i].0));
                }
            }
        }
        ks
    }

    /// Advances the clock of every room of the layer by one, leaving the
    /// rooms' connection and tile states as they are.
    pub fn advance_clock(&mut self)
        requires
            forall|k: RoomId| #[trigger] old(self).rooms@.contains_key(k) ==> old(self).rooms@[k].tick < u64::MAX,
        ensures
            final(self).rooms@.dom() == old(self).rooms@.dom(),
            forall|k: RoomId| #[trigger] old(self).rooms@.contains_key(k) ==> ticked(old(self).rooms@[k], final(self).rooms@[k]),
            final(self).depth == old(self).depth,
            final(self).width == old(self).width,
            final(self).height == old(self).height,
    {
        let ks = self.room_ids();
        let ghost start = self.rooms@;
        let mut j: usize = 0;
        while j < ks.len()
            invariant
                j <= ks@.len(),
                ks@.no_duplicates(),
                forall|k: RoomId| ks@.contains(k) <==> start.contains_key(k),
                forall|k: RoomId| #[trigger] start.contains_key(k) ==> start[k].tick < u64::MAX,
                self.rooms@.dom() == start.dom(),
                forall|i: int| 0 <= i < j ==> ticked(start[ks@[i]], #[trigger] self.rooms@[ks@[i]]),
                forall|i: int| j <= i < ks@.len() ==> #[trigger] self.rooms@[ks@[i]] == start[ks@[i]],
                self.depth == old(self).depth,
                self.width == old(self).width,
                self.height == old(self).height,
            decreases ks@.len() - j,
        {
            let k = ks[j];
            proof {
                assert(ks@.contains(k));
            }
            let removed = self.rooms.remove(&k);
            match removed {
                Some(room) => {
                    let mut room = room;
                    room.advance_clock();
                    self.rooms.insert(k, room);
                },
                None => {},
            }
            proof {
                assert forall|i: int| j + 1 <= i < ks@.len() implies #[trigger] self.rooms@[ks@[i]] == start[ks@[i]] by {
                    assert(ks@[i] != ks@[j as int]);
                }
                assert forall|i: int| 0 <= i < j + 1 implies ticked(start[ks@[i]], #[trigger] self.rooms@[ks@[i]]) by {
                    if i < j {
                        assert(ks@[i] != ks@[j as int]);
                    }
                }
                assert(self.rooms@.dom() =~= start.dom());
            }
            j = j + 1;
        }
        proof {
            assert forall|k: RoomId| #[trigger] start.contains_key(k) implies ticked(start[k], self.rooms@[k]) by {
                assert(ks@.contains(k));
                let i = choose|i: int| 0 <= i < ks@.len() && ks@[i] == k;
            }
        }
    }

    fn select(&self, line: GridLine) -> (r: Vec<&Room<C, T>>)
        requires
            forall|k: RoomId| #[trigger] self.rooms@.contains_key(k) ==> line_fits(self.rooms@[k].position, line),
        ensures
            self.lists(r@, |p: (usize, usize)| on_line(p, line)),
    {
        let mut r: Vec<&Room<C, T>> = Vec::new();
        let ghost mut ks: Seq<RoomId> = Seq::empty();
        let ghost mut idx: Seq<int> = Seq::empty();
        let ghost keep = |p: (usize, usize)| on_line(p, line);
        let iter = self.rooms.iter();
        let ghost pairs = iter.remaining();
        proof {
            lemma_iter_pairs(&self.rooms);
            lemma_iter_keys_distinct(&self.rooms, pairs);
        }
        for pair in it: iter
            invariant
                it.seq() == pairs,
                pairs == vstd::std_specs::hash::spec_hash_map_iter(&self.rooms).remaining(),
                pairs.len() == self.rooms@.dom().len(),
                forall|i: int| 0 <= i < pairs.len() ==> self.rooms@.contains_key(*pairs[i].0)
                    && self.rooms@[*pairs[i].0] == *pairs[i].1,
                forall|k: RoomId| #[trigger] self.rooms@.contains_key(k) ==> pairs.contains((&k, &self.rooms@[k])),
                forall|i: int, j: int| 0 <= i < pairs.len() && 0 <= j < pairs.len() && i != j ==> *pairs[i].0 != *pairs[j].0,
                forall|k: RoomId| #[trigger] self.rooms@.contains_key(k) ==> line_fits(self.rooms@[k].position, line),
                ks.len() == r.len(),
                ks.no_duplicates(),
                forall|j: int| 0 <= j < ks.len() ==> self.rooms@.contains_key(#[trigger] ks[j])
                    && self.rooms@[ks[j]] == *r@[j] && on_line(r@[j].position, line),
                idx.len() == ks.len(),
                forall|j: int| 0 <= j < ks.len() ==> 0 <= #[trigger] idx[j] < it.index() && ks[j] == *pairs[idx[j]].0,
                forall|i: int| 0 <= i < it.index() && on_line(pairs[i].1.position, line) ==> ks.contains(*pairs[i].0),
        {
            let (id, room) = pair;
            let ghost n = it.index();
            let ghost old_ks = ks;
            proof {
                let k = *pairs[n].0;
                assert(self.rooms@.contains_key(k));
            }
            if is_on_line(room.position, &line) {
                proof {
                    assert forall|j: int| 0 <= j < old_ks.len() implies old_ks[j] != *id by {
                        assert(idx[j] < n);
                    }
                    ks = ks.push(*id);
                    idx = idx.push(n);
                }
                r.push(room);
            }
            proof {
                assert forall|i: int| 0 <= i < n + 1 && on_line(pairs[i].1.position, line) implies ks.contains(*pairs[i].0) by {
                    if i < n {
                        let j = choose|j: int| 0 <= j < old_ks.len() && old_ks[j] == *pairs[i].0;
                        assert(ks[j] == *pairs[i].0);
                    } else {
                        assert(ks[ks.len() - 1] == *pairs[i].0);
                    }
                }
            }
        }
        proof {
            assert forall|k: RoomId| #[trigger] self.rooms@.contains_key(k) && keep(self.rooms@[k].position) implies ks.contains(k) by {
                let i = choose|i: int| 0 <= i < pairs.len() && pairs[i] == (&k, &self.rooms@[k]);
            }
            assert(self.lists_by(r@, keep, ks));
        }
        r
    }

    /// All rooms in column x, each once, in unspecified order.
    pub fn column(&self, x: usize) -> (r: Vec<&Room<C, T>>)
        ensures
            self.lists(r@, |p: (usize, usize)| p.0 == x),
    {
        let r = self.select(GridLine::Column(x));
        proof {
            let keep = |p: (usize, usize)| p.0 == x;
            assert((|p: (usize, usize)| on_line(p, GridLine::Column(x))) =~= keep);
        }
        r
    }

    /// All rooms in row y, each once, in unspecified order.
    pub fn row(&self, y: usize) -> (r: Vec<&Room<C, T>>)
        ensures
            self.lists(r@, |p: (usize, usize)| p.1 == y),
    {
        let r = self.select(GridLine::Row(y));
        proof {
            let keep = |p: (usize, usize)| p.1 == y;
            assert((|p: (usize, usize)| on_line(p, GridLine::Row(y))) =~= keep);
        }
        r
    }

    /// All rooms whose position (x, y) has x - y equal to `offset`, the
    /// coordinates read as `i32`; each once, in unspecified order.
    pub fn diagonal(&self, offset: i32) -> (r: Vec<&Room<C, T>>)
        requires
            forall|k: RoomId| #[trigger] self.rooms@.contains_key(k) ==> diagonal_fits(self.rooms@[k].position),
        ensures
            self.lists(r@, |p: (usize, usize)| diagonal_offset(p) == offset as int),
            (forall|k: RoomId| #[trigger] self.rooms@.contains_key(k) ==> small_position(self.rooms@[k].position))
                ==> self.lists(r@, |p: (usize, usize)| p.0 - p.1 == offset as int),
    {
        let r = self.select(GridLine::Diagonal(offset));
        proof {
            let keep = |p: (usize, usize)| diagonal_offset(p) == offset as int;
            assert((|p: (usize, usize)| on_line(p, GridLine::Diagonal(offset))) =~= keep);
            if forall|k: RoomId| #[trigger] self.rooms@.contains_key(k) ==> small_position(self.rooms@[k].position) {
                let ks = choose|ks: Seq<RoomId>| self.lists_by(r@, keep, ks);
                let diff = |p: (usize, usize)| p.0 - p.1 == offset as int;
                assert forall|i: int| 0 <= i < ks.len() implies self.rooms@.contains_key(#[trigger] ks[i])
                    && self.rooms@[ks[i]] == *r@[i] && diff(r@[i].position) by {
                    assert(self.rooms@.contains_key(ks[i]));
                    lemma_diagonal_offset_is_difference(r@[i].position);
                }
                assert forall|k: RoomId| #[trigger] self.rooms@.contains_key(k) && diff(self.rooms@[k].position)
                    implies ks.contains(k) by {
                    lemma_diagonal_offset_is_difference(self.rooms@[k].position);
                }
                assert(self.lists_by(r@, diff, ks));
            }
        }
        r
    }
}

/// A room added to a layer is kept under its id, and its grid position is
/// then occupied: a later `room_at` at that position finds a room.
pub proof fn lemma_added_room_found<C, T>(before: TensorLayer<C, T>, after: TensorLayer<C, T>, room: Room<C, T>)
    requires
        after.rooms@ == before.rooms@.insert(room.id, room),
    ensures
        after.rooms@.contains_key(room.id),
        after.rooms@[room.id] == room,
        after.holds(room),
        after.occupied(room.position.0, room.position.1),
{
    assert(after.rooms@.contains_key(room.id));
}

/// What a filter keeps comes from the filtered sequence.
proof fn lemma_filter_from<A>(s: Seq<A>, keep: spec_fn(A) -> bool)
    ensures
        forall|i: int| 0 <= i < s.filter(keep).len() ==> s.contains(#[trigger] s.filter(keep)[i]),
    decreases s.len(),
{
    reveal_with_fuel(Seq::filter, 1);
    if s.len() > 0 {
        lemma_filter_from(s.drop_last(), keep);
        let sub = s.drop_last().filter(keep);
        assert forall|i: int| 0 <= i < s.filter(keep).len() implies s.contains(#[trigger] s.filter(keep)[i]) by {
            if i < sub.len() {
                assert(s.filter(keep)[i] == sub[i]);
                let j = choose|j: int| 0 <= j < s.drop_last().len() && s.drop_last()[j] == sub[i];
                assert(s[j] == sub[i]);
            } else {
                assert(s[s.len() - 1] == s.filter(keep)[i]);
            }
        }
    }
}

/// For coordinates below `i32::MAX`, moving by -1, 0 or +1 gives the
/// neighbouring coordinate, and moving 0 by -1 wraps to a value no grid size
/// `w` exceeds.
proof fn lemma_shift_small(c: usize, d: i32, w: usize)
    requires
        c < 0x7fff_ffffusize,
        -1 <= d <= 1,
    ensures
        c + d >= 0 ==> shift(c, d) == c + d,
        c + d < 0 ==> shift(c, d) >= w,
        shiftable(c),
{
    assert(c < 0x7fff_ffffusize ==> (c as i32) as int == c as int) by (bit_vector);
    assert(c < 0x7fff_ffffusize && -1i32 <= d <= 1i32 && c + d >= 0 ==> (((c as i32) + d) as usize) as int == c + d) by (bit_vector);
    assert(c < 0x7fff_ffffusize && -1i32 <= d <= 1i32 && c + d < 0 ==> ((c as i32) + d) as usize >= w) by (bit_vector);
}

/// The neighbours of a room are the rooms around it: for coordinates below
/// `i32::MAX`, every cell looked at for neighbours lies inside the grid, is
/// not the room's own cell, and is at most one step away along each axis;
/// and every occupied cell inside the grid one step away is looked at.
pub proof fn lemma_neighbors_adjacent<C, T>(layer: TensorLayer<C, T>, x: usize, y: usize)
    requires
        x < 0x7fff_ffffusize,
        y < 0x7fff_ffffusize,
    ensures
        shiftable(x) && shiftable(y),
        forall|c: (usize, usize)| #[trigger] layer.occupied_neighbor_cells((x, y)).contains(c) ==> {
            &&& c.0 < layer.width && c.1 < layer.height
            &&& layer.occupied(c.0, c.1)
            &&& c != (x, y)
            &&& x <= c.0 + 1 && c.0 <= x + 1
            &&& y <= c.1 + 1 && c.1 <= y + 1
        },
        forall|c: (usize, usize)|
            c.0 < layer.width && c.1 < layer.height && layer.occupied(c.0, c.1) && c != (x, y)
                && x <= c.0 + 1 && c.0 <= x + 1 && y <= c.1 + 1 && c.1 <= y + 1
                ==> #[trigger] layer.occupied_neighbor_cells((x, y)).contains(c),
{
    let cells = neighbor_cells(x, y);
    let found = |c: (usize, usize)| layer.found_cell(c);
    lemma_shift_small(x, 0, 0);
    lemma_shift_small(y, 0, 0);
    assert forall|j: int| 0 <= j < 8 implies {
        let d = #[trigger] neighbor_offsets()[j];
        &&& -1 <= d.0 <= 1 && -1 <= d.1 <= 1
        &&& d != (0i32, 0i32)
    } by {}
    assert forall|j: int| 0 <= j < 8 implies {
        let c = #[trigger] cells[j];
        let d = neighbor_offsets()[j];
        &&& (x + d.0 >= 0 ==> c.0 == x + d.0)
        &&& (x + d.0 < 0 ==> c.0 >= layer.width)
        &&& (y + d.1 >= 0 ==> c.1 == y + d.1)
        &&& (y + d.1 < 0 ==> c.1 >= layer.height)
    } by {
        let d = neighbor_offsets()[j];
        lemma_shift_small(x, d.0, layer.width);
        lemma_shift_small(y, d.1, layer.height);
    }
    broadcast use vstd::seq_lib::group_filter_ensures;
    assert forall|c: (usize, usize)| #[trigger] layer.occupied_neighbor_cells((x, y)).contains(c) implies {
        &&& c.0 < layer.width && c.1 < layer.height
        &&& layer.occupied(c.0, c.1)
        &&& c != (x, y)
        &&& x <= c.0 + 1 && c.0 <= x + 1
        &&& y <= c.1 + 1 && c.1 <= y + 1
    } by {
        let fs = cells.filter(found);
        lemma_filter_from(cells, found);
        let i = choose|i: int| 0 <= i < fs.len() && fs[i] == c;
        assert(found(fs[i]));
        assert(cells.contains(fs[i]));
        let j = choose|j: int| 0 <= j < cells.len() && cells[j] == c;
        let d = neighbor_offsets()[j];
        assert(-1 <= d.0 <= 1 && -1 <= d.1 <= 1);
    }
    assert forall|c: (usize, usize)|
        c.0 < layer.width && c.1 < layer.height && layer.occupied(c.0, c.1) && c != (x, y)
            && x <= c.0 + 1 && c.0 <= x + 1 && y <= c.1 + 1 && c.1 <= y + 1
        implies #[trigger] layer.occupied_neighbor_cells((x, y)).contains(c) by {
        let dx: int = c.0 - x;
        let dy: int = c.1 - y;
        let j: int = if dx == -1 && dy == 0 {
            0
        } else if dx == 1 && dy == 0 {
            1
        } else if dx == 0 && dy == -1 {
            2
        } else if dx == 0 && dy == 1 {
            3
        } else if dx == -1 && dy == -1 {
            4
        } else if dx == -1 && dy == 1 {
            5
        } else if dx == 1 && dy == -1 {
            6
        } else {
            7
        };
        assert(cells[j] == c);
        assert(found(cells[j]));
    }
}

} // verus!
