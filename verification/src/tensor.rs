use vstd::prelude::*;
use crate::depth::RoomDepth;
use crate::layer::TensorLayer;
use crate::link::{CrossLayerLink, link_touches, lemma_touches_means_an_end};
use crate::room::{Room, ticked};
use crate::RoomId;

verus! {

broadcast use vstd::std_specs::hash::group_hash_axioms;

/// The full recursive tensor: layers stacked by depth, links between rooms
/// of different depths, and a clock.
pub struct RecursiveTensor<C, T> {
    /// The layers, at most one per depth, in the order their depths were
    /// first added.
    pub layers: Vec<TensorLayer<C, T>>,
    pub cross_layer_connections: Vec<CrossLayerLink>,
    pub tick: u64,
}

/// No two layers share a depth.
pub open spec fn depths_distinct<C, T>(layers: Seq<TensorLayer<C, T>>) -> bool {
    forall|i: int, j: int| 0 <= i < layers.len() && 0 <= j < layers.len() && i != j
        ==> (#[trigger] layers[i]).depth != (#[trigger] layers[j]).depth
}

/// The number of rooms kept by all the layers together.
pub open spec fn rooms_total<C, T>(layers: Seq<TensorLayer<C, T>>) -> nat
    decreases layers.len(),
{
    if layers.len() == 0 {
        0
    } else {
        rooms_total(layers.drop_last()) + layers.last().rooms@.len()
    }
}

/// The position of the first layer of depth `d`, if any.
pub open spec fn find_depth<C, T>(layers: Seq<TensorLayer<C, T>>, d: RoomDepth) -> Option<int>
    decreases layers.len(),
{
    if layers.len() == 0 {
        None
    } else {
        match find_depth(layers.drop_last(), d) {
            Some(i) => Some(i),
            None => if layers.last().depth == d {
                Some(layers.len() - 1)
            } else {
                None
            },
        }
    }
}

/// `find_depth` gives the first position holding a layer of the depth, and
/// nothing when no layer has it.
pub proof fn lemma_find_depth<C, T>(layers: Seq<TensorLayer<C, T>>, d: RoomDepth)
    ensures
        find_depth(layers, d) matches Some(i) ==> 0 <= i < layers.len() && layers[i].depth == d
            && forall|j: int| 0 <= j < i ==> (#[trigger] layers[j]).depth != d,
        find_depth(layers, d) is None ==> forall|j: int| 0 <= j < layers.len() ==> (#[trigger] layers[j]).depth != d,
    decreases layers.len(),
{
    if layers.len() > 0 {
        lemma_find_depth(layers.drop_last(), d);
        assert forall|j: int| 0 <= j < layers.len() - 1 implies #[trigger] layers[j] == layers.drop_last()[j] by {}
    }
}

/// The layer kept at depth `d`: the first (with distinct depths, the only)
/// layer of that depth.
pub open spec fn layer_at<C, T>(layers: Seq<TensorLayer<C, T>>, d: RoomDepth) -> Option<TensorLayer<C, T>> {
    match find_depth(layers, d) {
        Some(i) => Some(layers[i]),
        None => None,
    }
}

/// `after` is the layer `before` with every room's clock advanced by one.
pub open spec fn layer_ticked<C, T>(before: TensorLayer<C, T>, after: TensorLayer<C, T>) -> bool {
    &&& after.depth == before.depth
    &&& after.width == before.width
    &&& after.height == before.height
    &&& after.rooms@.dom() == before.rooms@.dom()
    &&& forall|k: RoomId| #[trigger] before.rooms@.contains_key(k) ==> ticked(before.rooms@[k], after.rooms@[k])
}

/// Every room of the layer can have its clock advanced once more.
pub open spec fn layer_can_tick<C, T>(l: TensorLayer<C, T>) -> bool {
    forall|k: RoomId| #[trigger] l.rooms@.contains_key(k) ==> l.rooms@[k].tick < u64::MAX
}

impl<C, T> RecursiveTensor<C, T> {
    /// An empty tensor: no layers, no links, its clock at zero.
    pub fn new() -> (t: Self)
        ensures
            t.layers@ == Seq::<TensorLayer<C, T>>::empty(),
            depths_distinct(t.layers@),
            t.cross_layer_connections@ == Seq::<CrossLayerLink>::empty(),
            t.tick == 0,
    {
        RecursiveTensor { layers: Vec::new(), cross_layer_connections: Vec::new(), tick: 0 }
    }

    /// Adds a layer at its depth, replacing the layer kept at that depth if
    /// there is one. Read as a map from depth to layer, the layers then map
    /// the added layer's depth to it and every other depth as before.
    pub fn add_layer(&mut self, layer: TensorLayer<C, T>)
        requires
            depths_distinct(old(self).layers@),
        ensures
            find_depth(old(self).layers@, layer.depth) matches Some(i)
                ==> final(self).layers@ == old(self).layers@.update(i, layer),
            find_depth(old(self).layers@, layer.depth) is None
                ==> final(self).layers@ == old(self).layers@.push(layer),
            depths_distinct(final(self).layers@),
            layer_at(final(self).layers@, layer.depth) == Some(layer),
            forall|d: RoomDepth| d != layer.depth ==> #[trigger] layer_at(final(self).layers@, d) == layer_at(old(self).layers@, d),
            final(self).cross_layer_connections@ == old(self).cross_layer_connections@,
            final(self).tick == old(self).tick,
    {
        let mut i: usize = 0;
        while i < self.layers.len()
            invariant
                i <= self.layers@.len(),
                self.layers@ == old(self).layers@,
                depths_distinct(old(self).layers@),
                self.cross_layer_connections@ == old(self).cross_layer_connections@,
                self.tick == old(self).tick,
                forall|j: int| 0 <= j < i ==> (#[trigger] self.layers@[j]).depth != layer.depth,
            decreases self.layers@.len() - i,
        {
            if self.layers[i].depth == layer.depth {
                proof {
                    lemma_find_depth_at(old(self).layers@, layer.depth, i as int);
                }
                let ghost added = layer;
                self.layers.set(i, layer);
                proof {
                    lemma_add_layer_as_map(old(self).layers@, self.layers@, added);
                }
                return;
            }
            i = i + 1;
        }
        proof {
            lemma_find_depth(old(self).layers@, layer.depth);
        }
        let ghost added = layer;
        self.layers.push(layer);
        proof {
            lemma_add_layer_as_map(old(self).layers@, self.layers@, added);
        }
    }

    /// The layer kept at depth `depth`, if there is one.
    pub fn layer(&self, depth: RoomDepth) -> (r: Option<&TensorLayer<C, T>>)
        ensures
            find_depth(self.layers@, depth) matches Some(i) ==> r == Some(&self.layers@[i]),
            find_depth(self.layers@, depth) is None ==> r is None,
            layer_at(self.layers@, depth) == (match r {
                Some(l) => Some(*l),
                None => None,
            }),
    {
        let mut i: usize = 0;
        while i < self.layers.len()
            invariant
                i <= self.layers@.len(),
                forall|j: int| 0 <= j < i ==> (#[trigger] self.layers@[j]).depth != depth,
            decreases self.layers@.len() - i,
        {
            if self.layers[i].depth == depth {
                proof {
                    lemma_find_depth_at(self.layers@, depth, i as int);
                }
                return Some(&self.layers[i]);
            }
            i = i + 1;
        }
        proof {
            lemma_find_depth(self.layers@, depth);
        }
        None
    }

    /// Records a link between rooms at two depths, after those recorded
    /// before.
    pub fn link_across(&mut self, link: CrossLayerLink)
        ensures
            final(self).cross_layer_connections@ == old(self).cross_layer_connections@.push(link),
            final(self).layers@ == old(self).layers@,
            final(self).tick == old(self).tick,
    {
        self.cross_layer_connections.push(link);
    }

    /// Advances the tensor's clock by one, and the clock of every room of
    /// every layer by one, leaving connection and tile states as they are.
    pub fn advance_clock(&mut self)
        requires
            old(self).tick < u64::MAX,
            forall|i: int| 0 <= i < old(self).layers@.len() ==> layer_can_tick(#[trigger] old(self).layers@[i]),
        ensures
            final(self).tick == old(self).tick + 1,
            final(self).layers@.len() == old(self).layers@.len(),
            forall|i: int| 0 <= i < old(self).layers@.len()
                ==> layer_ticked(#[trigger] old(self).layers@[i], final(self).layers@[i]),
            depths_distinct(old(self).layers@) ==> depths_distinct(final(self).layers@),
            final(self).cross_layer_connections@ == old(self).cross_layer_connections@,
    {
        self.tick = self.tick + 1;
        let mut i: usize = 0;
        while i < self.layers.len()
            invariant
                i <= self.layers@.len(),
                self.layers@.len() == old(self).layers@.len(),
                self.tick == old(self).tick + 1,
                self.cross_layer_connections@ == old(self).cross_layer_connections@,
                forall|j: int| 0 <= j < i ==> layer_ticked(#[trigger] old(self).layers@[j], self.layers@[j]),
                forall|j: int| i <= j < self.layers@.len() ==> #[trigger] self.layers@[j] == old(self).layers@[j],
                forall|j: int| 0 <= j < old(self).layers@.len() ==> layer_can_tick(#[trigger] old(self).layers@[j]),
            decreases self.layers@.len() - i,
        {
            proof {
                assert(layer_can_tick(old(self).layers@[i as int]));
            }
            self.layers[i].advance_clock();
            i = i + 1;
        }
        proof {
            if depths_distinct(old(self).layers@) {
                assert forall|a: int, b: int| 0 <= a < self.layers@.len() && 0 <= b < self.layers@.len() && a != b
                    implies (#[trigger] self.layers@[a]).depth != (#[trigger] self.layers@[b]).depth by {
                    assert(layer_ticked(old(self).layers@[a], self.layers@[a]));
                    assert(layer_ticked(old(self).layers@[b], self.layers@[b]));
                    assert(old(self).layers@[a].depth != old(self).layers@[b].depth);
                }
            }
        }
    }

    /// For each layer in turn that has a room at grid position (x, y), its
    /// depth and one room of it placed there (which one, where several share
    /// the position, is unspecified). Each depth comes at most once, and
    /// every layer with a room there is represented.
    pub fn vertical_slice(&self, x: usize, y: usize) -> (r: Vec<(RoomDepth, &Room<C, T>)>)
        requires
            depths_distinct(self.layers@),
        ensures
            r@.len() <= self.layers@.len(),
            forall|j: int, k: int| 0 <= j < r@.len() && 0 <= k < r@.len() && j != k
                ==> (#[trigger] r@[j]).0 != (#[trigger] r@[k]).0,
            forall|a: int| 0 <= a < self.layers@.len() && (#[trigger] self.layers@[a]).occupied(x, y)
                ==> exists|j: int| 0 <= j < r@.len() && (#[trigger] r@[j]).0 == self.layers@[a].depth,
            ({
                let found = self.layers@.filter(|l: TensorLayer<C, T>| l.occupied(x, y));
                &&& r@.len() == found.len()
                &&& forall|i: int| 0 <= i < r@.len() ==> (#[trigger] r@[i]).0 == found[i].depth
                    && found[i].holds(*r@[i].1) && r@[i].1.position == (x, y)
            }),
    {
        let ghost keep = |l: TensorLayer<C, T>| l.occupied(x, y);
        let mut slice: Vec<(RoomDepth, &Room<C, T>)> = Vec::new();
        let ghost mut idx: Seq<int> = Seq::empty();
        let mut i: usize = 0;
        while i < self.layers.len()
            invariant
                i <= self.layers@.len(),
                depths_distinct(self.layers@),
                keep == (|l: TensorLayer<C, T>| l.occupied(x, y)),
                idx.len() == slice@.len(),
                forall|j: int| 0 <= j < idx.len() ==> 0 <= #[trigger] idx[j] < i
                    && self.layers@[idx[j]].depth == slice@[j].0,
                forall|j: int, k: int| 0 <= j < k < idx.len() ==> #[trigger] idx[j] < #[trigger] idx[k],
                forall|a: int| 0 <= a < i && (#[trigger] self.layers@[a]).occupied(x, y) ==> idx.contains(a),
                ({
                    let found = self.layers@.take(i as int).filter(keep);
                    &&& slice@.len() == found.len()
                    &&& forall|j: int| 0 <= j < slice@.len() ==> (#[trigger] slice@[j]).0 == found[j].depth
                        && found[j].holds(*slice@[j].1) && slice@[j].1.position == (x, y)
                }),
            decreases self.layers@.len() - i,
        {
            let layer = &self.layers[i];
            let ghost before = slice@;
            proof {
                assert(self.layers@.take(i + 1).drop_last() =~= self.layers@.take(i as int));
                reveal_with_fuel(Seq::filter, 1);
            }
            let ghost old_idx = idx;
            if let Some(room) = layer.room_at(x, y) {
                slice.push((layer.depth, room));
                proof {
                    idx = idx.push(i as int);
                    assert forall|a: int| 0 <= a < i + 1 && (#[trigger] self.layers@[a]).occupied(x, y) implies idx.contains(a) by {
                        if a < i {
                            let j = choose|j: int| 0 <= j < old_idx.len() && old_idx[j] == a;
                            assert(idx[j] == a);
                        } else {
                            assert(idx[idx.len() - 1] == a);
                        }
                    }
                    let found = self.layers@.take(i + 1).filter(keep);
                    assert forall|j: int| 0 <= j < slice@.len() implies (#[trigger] slice@[j]).0 == found[j].depth
                        && found[j].holds(*slice@[j].1) && slice@[j].1.position == (x, y) by {
                        if j < before.len() {
                            assert(slice@[j] == before[j]);
                        }
                    }
                }
            }
            i = i + 1;
        }
        proof {
            assert(self.layers@.take(self.layers@.len() as int) =~= self.layers@);
            assert forall|j: int, k: int| 0 <= j < slice@.len() && 0 <= k < slice@.len() && j != k
                implies (#[trigger] slice@[j]).0 != (#[trigger] slice@[k]).0 by {
                assert(idx[j] != idx[k]);
                assert(self.layers@[idx[j]].depth != self.layers@[idx[k]].depth);
            }
            assert forall|a: int| 0 <= a < self.layers@.len() && (#[trigger] self.layers@[a]).occupied(x, y)
                implies exists|j: int| 0 <= j < slice@.len() && (#[trigger] slice@[j]).0 == self.layers@[a].depth by {
                let j = choose|j: int| 0 <= j < idx.len() && idx[j] == a;
                assert(slice@[j].0 == self.layers@[a].depth);
            }
            lemma_increasing_bounded(idx, self.layers@.len() as int);
        }
        slice
    }

    /// All recorded links with the room `room_id` at `depth` as one of their
    /// two ends, in the order they were recorded.
    pub fn links_for_room(&self, depth: RoomDepth, room_id: RoomId) -> (r: Vec<&CrossLayerLink>)
        ensures
            r@.map_values(|l: &CrossLayerLink| *l) == self.cross_layer_connections@.filter(
                |l: CrossLayerLink| link_touches(l, depth, room_id),
            ),
            forall|i: int| 0 <= i < r@.len() ==> (#[trigger] r@[i]).upper_room == (depth, room_id)
                || r@[i].lower_room == (depth, room_id),
            forall|j: int| 0 <= j < self.cross_layer_connections@.len()
                && ((#[trigger] self.cross_layer_connections@[j]).upper_room == (depth, room_id)
                || self.cross_layer_connections@[j].lower_room == (depth, room_id))
                ==> r@.map_values(|l: &CrossLayerLink| *l).contains(self.cross_layer_connections@[j]),
    {
        let ghost keep = |l: CrossLayerLink| link_touches(l, depth, room_id);
        let ghost links = self.cross_layer_connections@;
        let mut r: Vec<&CrossLayerLink> = Vec::new();
        let mut i: usize = 0;
        while i < self.cross_layer_connections.len()
            invariant
                i <= links.len(),
                links == self.cross_layer_connections@,
                keep == (|l: CrossLayerLink| link_touches(l, depth, room_id)),
                r@.map_values(|l: &CrossLayerLink| *l) == links.take(i as int).filter(keep),
            decreases links.len() - i,
        {
            let link = &self.cross_layer_connections[i];
            let ghost before = r@;
            proof {
                assert(links.take(i + 1).drop_last() =~= links.take(i as int));
                reveal_with_fuel(Seq::filter, 1);
            }
            if link.touches(depth, room_id) {
                r.push(link);
                proof {
                    assert(r@.map_values(|l: &CrossLayerLink| *l) =~= before.map_values(|l: &CrossLayerLink| *l).push(*link));
                }
            }
            i = i + 1;
        }
        proof {
            assert(links.take(links.len() as int) =~= links);
            lemma_links_touching_are_at_an_end(links, depth, room_id);
            let rs = r@.map_values(|l: &CrossLayerLink| *l);
            assert forall|i: int| 0 <= i < r@.len() implies (#[trigger] r@[i]).upper_room == (depth, room_id)
                || r@[i].lower_room == (depth, room_id) by {
                assert(rs[i] == *r@[i]);
                assert(rs.contains(rs[i]));
            }
        }
        r
    }

    /// The number of rooms over all layers.
    pub fn total_rooms(&self) -> (n: usize)
        requires
            rooms_total(self.layers@) <= usize::MAX,
        ensures
            n == rooms_total(self.layers@),
    {
        let ghost layers = self.layers@;
        let mut n: usize = 0;
        let mut i: usize = 0;
        while i < self.layers.len()
            invariant
                i <= layers.len(),
                layers == self.layers@,
                rooms_total(layers) <= usize::MAX,
                n == rooms_total(layers.take(i as int)),
            decreases layers.len() - i,
        {
            proof {
                assert(layers.take(i + 1).drop_last() =~= layers.take(i as int));
                lemma_rooms_total_prefix(layers, i + 1);
            }
            n = n + self.layers[i].rooms.len();
            i = i + 1;
        }
        proof {
            assert(layers.take(layers.len() as int) =~= layers);
        }
        n
    }
}

/// A strictly increasing sequence of positions below `n` has at most `n`
/// entries.
proof fn lemma_increasing_bounded(idx: Seq<int>, n: int)
    requires
        0 <= n,
        forall|j: int| 0 <= j < idx.len() ==> 0 <= #[trigger] idx[j] < n,
        forall|j: int, k: int| 0 <= j < k < idx.len() ==> #[trigger] idx[j] < #[trigger] idx[k],
    ensures
        idx.len() <= n,
    decreases idx.len(),
{
    if idx.len() > 0 {
        let last = idx.last();
        let rest = idx.drop_last();
        assert forall|j: int| 0 <= j < rest.len() implies 0 <= #[trigger] rest[j] < last by {
            assert(idx[j] < idx[idx.len() - 1]);
        }
        lemma_increasing_bounded(rest, last);
        assert(0 <= idx[idx.len() - 1] < n);
    }
}

/// The rooms of some first layers are no more than the rooms of all layers.
proof fn lemma_rooms_total_prefix<C, T>(layers: Seq<TensorLayer<C, T>>, n: int)
    requires
        0 <= n <= layers.len(),
    ensures
        rooms_total(layers.take(n)) <= rooms_total(layers),
    decreases layers.len(),
{
    if n < layers.len() {
        assert(layers.drop_last().take(n) =~= layers.take(n));
        lemma_rooms_total_prefix(layers.drop_last(), n);
    } else {
        assert(layers.take(n) =~= layers);
    }
}

/// Where the first layer of a depth is, given where it is not.
proof fn lemma_find_depth_at<C, T>(layers: Seq<TensorLayer<C, T>>, d: RoomDepth, i: int)
    requires
        0 <= i < layers.len(),
        layers[i].depth == d,
        forall|j: int| 0 <= j < i ==> (#[trigger] layers[j]).depth != d,
    ensures
        find_depth(layers, d) == Some(i),
{
    lemma_find_depth(layers, d);
    if let Some(f) = find_depth(layers, d) {
        if f < i {
            assert(layers[f].depth == d);
        }
        if f > i {
            assert(layers[i].depth == d);
        }
    }
}

/// Adding a layer to layers of distinct depths leaves their depths distinct,
/// and the layer kept at the added layer's depth is then the added layer.
pub proof fn lemma_add_layer_keeps_depths_distinct<C, T>(
    before: Seq<TensorLayer<C, T>>,
    after: Seq<TensorLayer<C, T>>,
    layer: TensorLayer<C, T>,
)
    requires
        depths_distinct(before),
        find_depth(before, layer.depth) matches Some(i) ==> after == before.update(i, layer),
        find_depth(before, layer.depth) is None ==> after == before.push(layer),
    ensures
        depths_distinct(after),
        find_depth(after, layer.depth) matches Some(i) && after[i] == layer,
{
    lemma_find_depth(before, layer.depth);
    match find_depth(before, layer.depth) {
        Some(i) => {
            assert forall|a: int, b: int| 0 <= a < after.len() && 0 <= b < after.len() && a != b
                implies (#[trigger] after[a]).depth != (#[trigger] after[b]).depth by {
                assert(before[a].depth != before[b].depth);
            }
            assert forall|j: int| 0 <= j < i implies (#[trigger] after[j]).depth != layer.depth by {
                assert(before[j].depth != before[i].depth);
            }
            lemma_find_depth_at(after, layer.depth, i);
        },
        None => {
            let n = before.len() as int;
            assert forall|a: int, b: int| 0 <= a < after.len() && 0 <= b < after.len() && a != b
                implies (#[trigger] after[a]).depth != (#[trigger] after[b]).depth by {
                if a < n && b < n {
                    assert(before[a].depth != before[b].depth);
                } else if a == n {
                    assert(before[b].depth != layer.depth);
                } else {
                    assert(before[a].depth != layer.depth);
                }
            }
            assert forall|j: int| 0 <= j < n implies (#[trigger] after[j]).depth != layer.depth by {
                assert(before[j].depth != layer.depth);
            }
            lemma_find_depth_at(after, layer.depth, n);
        },
    }
}

/// Adding a layer to layers of distinct depths acts on them as on a map
/// from depth to layer: the added layer's depth maps to it, every other
/// depth maps as before, and the depths stay distinct.
pub proof fn lemma_add_layer_as_map<C, T>(
    before: Seq<TensorLayer<C, T>>,
    after: Seq<TensorLayer<C, T>>,
    layer: TensorLayer<C, T>,
)
    requires
        depths_distinct(before),
        find_depth(before, layer.depth) matches Some(i) ==> after == before.update(i, layer),
        find_depth(before, layer.depth) is None ==> after == before.push(layer),
    ensures
        depths_distinct(after),
        layer_at(after, layer.depth) == Some(layer),
        forall|d: RoomDepth| d != layer.depth ==> #[trigger] layer_at(after, d) == layer_at(before, d),
{
    lemma_add_layer_keeps_depths_distinct(before, after, layer);
    assert forall|d: RoomDepth| d != layer.depth implies #[trigger] layer_at(after, d) == layer_at(before, d) by {
        lemma_add_layer_then_layer(before, after, layer, d);
    }
}

/// Adding a layer keeps the depths of a tensor's layers distinct; the layer
/// kept at the added layer's depth is then the added layer, and the layers
/// kept at other depths stay as they were.
pub proof fn lemma_add_layer_then_layer<C, T>(
    before: Seq<TensorLayer<C, T>>,
    after: Seq<TensorLayer<C, T>>,
    layer: TensorLayer<C, T>,
    other: RoomDepth,
)
    requires
        depths_distinct(before),
        find_depth(before, layer.depth) matches Some(i) ==> after == before.update(i, layer),
        find_depth(before, layer.depth) is None ==> after == before.push(layer),
        other != layer.depth,
    ensures
        depths_distinct(after),
        find_depth(after, layer.depth) matches Some(i) && after[i] == layer,
        find_depth(after, other) matches Some(i) ==> find_depth(before, other) matches Some(j) && after[i] == before[j],
        find_depth(after, other) is None ==> find_depth(before, other) is None,
{
    lemma_add_layer_keeps_depths_distinct(before, after, layer);
    lemma_find_depth(before, layer.depth);
    lemma_find_depth(before, other);
    lemma_find_depth(after, other);
    match find_depth(after, other) {
        Some(i) => {
            assert(after[i] == before[i]);
            assert forall|j: int| 0 <= j < i implies (#[trigger] before[j]).depth != other by {
                if find_depth(before, layer.depth) != Some(j) {
                    assert(after[j] == before[j]);
                    assert(after[j].depth != other);
                }
            }
            lemma_find_depth_at(before, other, i);
        },
        None => {
            if find_depth(before, other) is Some {
                let j = find_depth(before, other)->0;
                if let Some(i) = find_depth(before, layer.depth) {
                    assert(i != j);
                }
                assert(after[j] == before[j]);
            }
        },
    }
}

/// Replacing one layer changes the rooms over all layers by the difference
/// between the new layer's rooms and the old one's.
proof fn lemma_rooms_total_update<C, T>(layers: Seq<TensorLayer<C, T>>, i: int, layer: TensorLayer<C, T>)
    requires
        0 <= i < layers.len(),
    ensures
        rooms_total(layers.update(i, layer)) + layers[i].rooms@.len() == rooms_total(layers) + layer.rooms@.len(),
    decreases layers.len(),
{
    let after = layers.update(i, layer);
    if i < layers.len() - 1 {
        assert(after.drop_last() =~= layers.drop_last().update(i, layer));
        lemma_rooms_total_update(layers.drop_last(), i, layer);
    } else {
        assert(after.drop_last() =~= layers.drop_last());
    }
}

/// Adding a layer adds its rooms to the tensor's total, less the rooms of
/// the layer it replaces at the same depth, if any.
pub proof fn lemma_add_layer_total<C, T>(
    before: Seq<TensorLayer<C, T>>,
    after: Seq<TensorLayer<C, T>>,
    layer: TensorLayer<C, T>,
)
    requires
        find_depth(before, layer.depth) matches Some(i) ==> after == before.update(i, layer),
        find_depth(before, layer.depth) is None ==> after == before.push(layer),
    ensures
        find_depth(before, layer.depth) matches Some(i) ==> rooms_total(after) + before[i].rooms@.len()
            == rooms_total(before) + layer.rooms@.len(),
        find_depth(before, layer.depth) is None ==> rooms_total(after) == rooms_total(before) + layer.rooms@.len(),
{
    lemma_find_depth(before, layer.depth);
    match find_depth(before, layer.depth) {
        Some(i) => {
            lemma_rooms_total_update(before, i, layer);
        },
        None => {
            assert(after.drop_last() =~= before);
        },
    }
}

/// The links kept for a room are exactly those with the room as their upper
/// or their lower end: every kept link has it as an end, and every link with
/// it as an end is kept.
pub proof fn lemma_links_touching_are_at_an_end(links: Seq<CrossLayerLink>, depth: RoomDepth, room_id: RoomId)
    ensures
        ({
            let kept = links.filter(|l: CrossLayerLink| link_touches(l, depth, room_id));
            &&& forall|l: CrossLayerLink| #[trigger] kept.contains(l) ==> l.upper_room == (depth, room_id)
                || l.lower_room == (depth, room_id)
            &&& forall|j: int| 0 <= j < links.len() && ((#[trigger] links[j]).upper_room == (depth, room_id)
                || links[j].lower_room == (depth, room_id)) ==> kept.contains(links[j])
        }),
{
    broadcast use vstd::seq_lib::group_filter_ensures;
    let keep = |l: CrossLayerLink| link_touches(l, depth, room_id);
    let kept = links.filter(keep);
    assert forall|l: CrossLayerLink| #[trigger] kept.contains(l) implies l.upper_room == (depth, room_id)
        || l.lower_room == (depth, room_id) by {
        let i = choose|i: int| 0 <= i < kept.len() && kept[i] == l;
        assert(keep(kept[i]));
        lemma_touches_means_an_end(l, depth, room_id);
    }
    assert forall|j: int| 0 <= j < links.len() && ((#[trigger] links[j]).upper_room == (depth, room_id)
        || links[j].lower_room == (depth, room_id)) implies kept.contains(links[j]) by {
        lemma_touches_means_an_end(links[j], depth, room_id);
        assert(keep(links[j]));
    }
}

/// A recorded link is found again from either of its two ends, and
/// recording it changes nothing for the rooms it does not touch.
pub proof fn lemma_link_found_from_both_ends(links: Seq<CrossLayerLink>, link: CrossLayerLink, depth: RoomDepth, room_id: RoomId)
    ensures
        links.push(link).filter(|l: CrossLayerLink| link_touches(l, link.upper_room.0, link.upper_room.1)).contains(link),
        links.push(link).filter(|l: CrossLayerLink| link_touches(l, link.lower_room.0, link.lower_room.1)).contains(link),
        !link_touches(link, depth, room_id) ==> links.push(link).filter(|l: CrossLayerLink| link_touches(l, depth, room_id))
            == links.filter(|l: CrossLayerLink| link_touches(l, depth, room_id)),
{
    reveal_with_fuel(Seq::filter, 1);
    let all = links.push(link);
    assert(all.drop_last() =~= links);
    let up = |l: CrossLayerLink| link_touches(l, link.upper_room.0, link.upper_room.1);
    let low = |l: CrossLayerLink| link_touches(l, link.lower_room.0, link.lower_room.1);
    assert(all.filter(up) == links.filter(up).push(link));
    assert(all.filter(up)[links.filter(up).len() as int] == link);
    assert(all.filter(low) == links.filter(low).push(link));
    assert(all.filter(low)[links.filter(low).len() as int] == link);
}

} // verus!
