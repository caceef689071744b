use room_tensor::depth::RoomDepth;
use room_tensor::layer::TensorLayer;
use room_tensor::link::{CrossLayerLink, CrossLinkType};
use room_tensor::room::Room;
use room_tensor::tensor::RecursiveTensor;

type R = Room<(), ()>;
type L = TensorLayer<(), ()>;
type Tensor = RecursiveTensor<(), ()>;

// Room

#[test]
fn test_room_new() {
    let r = R::new(0, RoomDepth::Floor);
    assert_eq!(r.state, 0);
}

#[test]
fn test_room_connect() {
    let mut r = R::new(0, RoomDepth::Floor);
    r.attach(1, (), ());
    assert!(r.connections.contains_key(&1));
    assert!(r.tiles.contains_key(&1));
}

#[test]
fn test_room_add_child() {
    let mut r = R::new(0, RoomDepth::Floor);
    r.add_child(10);
    assert!(r.children.contains(&10));
}

#[test]
fn test_room_tick() {
    let mut r = R::new(0, RoomDepth::Floor);
    r.attach(1, (), ());
    r.advance_clock();
    assert_eq!(r.tick, 1);
}

#[test]
fn test_room_at_position() {
    let r = R::new(0, RoomDepth::Floor).at(3, 4);
    assert_eq!(r.position, (3, 4));
}

// TensorLayer

#[test]
fn test_layer_new() {
    let l = L::new(RoomDepth::Floor, 4, 4);
    assert_eq!(l.width, 4);
}

#[test]
fn test_layer_add_room() {
    let mut l = L::new(RoomDepth::Floor, 4, 4);
    l.add_room(R::new(0, RoomDepth::Floor).at(0, 0));
    assert!(l.rooms.contains_key(&0));
}

#[test]
fn test_layer_room_at() {
    let mut l = L::new(RoomDepth::Floor, 4, 4);
    l.add_room(R::new(0, RoomDepth::Floor).at(2, 3));
    assert!(l.room_at(2, 3).is_some());
    assert!(l.room_at(0, 0).is_none());
}

#[test]
fn test_layer_neighbors() {
    let mut l = L::new(RoomDepth::Floor, 4, 4);
    l.add_room(R::new(0, RoomDepth::Floor).at(1, 1));
    l.add_room(R::new(1, RoomDepth::Floor).at(0, 0));
    l.add_room(R::new(2, RoomDepth::Floor).at(2, 2));
    let n = l.neighbors(0);
    assert!(!n.is_empty());
}

#[test]
fn test_layer_column() {
    let mut l = L::new(RoomDepth::Floor, 4, 4);
    l.add_room(R::new(0, RoomDepth::Floor).at(1, 0));
    l.add_room(R::new(1, RoomDepth::Floor).at(1, 2));
    l.add_room(R::new(2, RoomDepth::Floor).at(2, 1));
    let col = l.column(1);
    assert_eq!(col.len(), 2);
}

#[test]
fn test_layer_row() {
    let mut l = L::new(RoomDepth::Floor, 4, 4);
    l.add_room(R::new(0, RoomDepth::Floor).at(0, 1));
    l.add_room(R::new(1, RoomDepth::Floor).at(2, 1));
    let row = l.row(1);
    assert_eq!(row.len(), 2);
}

#[test]
fn test_layer_diagonal() {
    let mut l = L::new(RoomDepth::Floor, 4, 4);
    l.add_room(R::new(0, RoomDepth::Floor).at(0, 0));
    l.add_room(R::new(1, RoomDepth::Floor).at(1, 1));
    l.add_room(R::new(2, RoomDepth::Floor).at(0, 1));
    let diag = l.diagonal(0);
    assert_eq!(diag.len(), 2);
}

#[test]
fn test_layer_tick() {
    let mut l = L::new(RoomDepth::Floor, 4, 4);
    let mut r = R::new(0, RoomDepth::Floor);
    r.attach(1, (), ());
    l.add_room(r);
    l.advance_clock();
}

// RecursiveTensor

#[test]
fn test_recursive_new() {
    let t = Tensor::new();
    assert!(t.layers.is_empty());
}

#[test]
fn test_recursive_add_layer() {
    let mut t = Tensor::new();
    t.add_layer(L::new(RoomDepth::Floor, 4, 4));
    assert!(t.layer(RoomDepth::Floor).is_some());
}

#[test]
fn test_recursive_link_across() {
    let mut t = Tensor::new();
    t.link_across(CrossLayerLink {
        upper_room: (RoomDepth::Floor, 0),
        lower_room: (RoomDepth::Board, 1),
        link_type: CrossLinkType::Contains,
    });
    assert_eq!(t.cross_layer_connections.len(), 1);
}

#[test]
fn test_recursive_tick() {
    let mut t = Tensor::new();
    t.add_layer(L::new(RoomDepth::Floor, 4, 4));
    t.advance_clock();
    assert_eq!(t.tick, 1);
}

#[test]
fn test_recursive_vertical_slice() {
    let mut t = Tensor::new();
    let mut fl = L::new(RoomDepth::Floor, 4, 4);
    fl.add_room(R::new(0, RoomDepth::Floor).at(1, 1));
    t.add_layer(fl);
    let mut bl = L::new(RoomDepth::Board, 4, 4);
    bl.add_room(R::new(10, RoomDepth::Board).at(1, 1));
    t.add_layer(bl);
    let slice = t.vertical_slice(1, 1);
    assert_eq!(slice.len(), 2);
}

#[test]
fn test_recursive_links_for_room() {
    let mut t = Tensor::new();
    t.link_across(CrossLayerLink {
        upper_room: (RoomDepth::Floor, 0),
        lower_room: (RoomDepth::Board, 1),
        link_type: CrossLinkType::Contains,
    });
    let links = t.links_for_room(RoomDepth::Floor, 0);
    assert_eq!(links.len(), 1);
}

#[test]
fn test_recursive_total_rooms() {
    let mut t = Tensor::new();
    let mut fl = L::new(RoomDepth::Floor, 2, 2);
    fl.add_room(R::new(0, RoomDepth::Floor));
    fl.add_room(R::new(1, RoomDepth::Floor));
    t.add_layer(fl);
    assert_eq!(t.total_rooms(), 2);
}

// Depth recursion

#[test]
fn test_depth_deeper() {
    assert_eq!(RoomDepth::Floor.deeper(), Some(RoomDepth::Board));
}

#[test]
fn test_depth_metal_bottom() {
    assert_eq!(RoomDepth::Metal.deeper(), None);
}
