use room_tensor::depth::RoomDepth;
use room_tensor::layer::TensorLayer;
use room_tensor::link::{CrossLayerLink, CrossLinkType};
use room_tensor::room::Room;
use room_tensor::tensor::RecursiveTensor;

type R = Room<u32, u32>;
type L = TensorLayer<u32, u32>;
type Tensor = RecursiveTensor<u32, u32>;

fn link(upper: (RoomDepth, usize), lower: (RoomDepth, usize), kind: CrossLinkType) -> CrossLayerLink {
    CrossLayerLink { upper_room: upper, lower_room: lower, link_type: kind }
}

#[test]
fn descending_from_floor_visits_every_depth_in_order() {
    let mut seen = vec![RoomDepth::Floor];
    let mut d = RoomDepth::Floor;
    while let Some(next) = d.deeper() {
        seen.push(next);
        d = next;
    }
    assert_eq!(
        seen,
        vec![
            RoomDepth::Floor,
            RoomDepth::Board,
            RoomDepth::Panel,
            RoomDepth::Path,
            RoomDepth::Code,
            RoomDepth::Metal
        ]
    );
}

#[test]
fn each_depth_has_its_own_next_depth() {
    assert_eq!(RoomDepth::Board.deeper(), Some(RoomDepth::Panel));
    assert_eq!(RoomDepth::Panel.deeper(), Some(RoomDepth::Path));
    assert_eq!(RoomDepth::Path.deeper(), Some(RoomDepth::Code));
    assert_eq!(RoomDepth::Code.deeper(), Some(RoomDepth::Metal));
}

#[test]
fn new_room_is_neutral_and_empty() {
    let r = R::new(7, RoomDepth::Code);
    assert_eq!(r.id, 7);
    assert_eq!(r.depth, RoomDepth::Code);
    assert_eq!(r.position, (0, 0));
    assert_eq!(r.tick, 0);
    assert!(r.connections.is_empty());
    assert!(r.tiles.is_empty());
    assert!(r.children.is_empty());
}

#[test]
fn attach_keeps_connections_and_tiles_keyed_alike() {
    let mut r = R::new(0, RoomDepth::Floor);
    r.attach(1, 10, 100);
    r.attach(2, 20, 200);
    r.attach(1, 11, 101);
    assert_eq!(r.connections.len(), 2);
    assert_eq!(r.tiles.len(), 2);
    assert_eq!(r.connections[&1], 11);
    assert_eq!(r.tiles[&1], 101);
    assert_eq!(r.connections[&2], 20);
}

#[test]
fn children_keep_their_order() {
    let mut r = R::new(0, RoomDepth::Floor);
    r.add_child(5);
    r.add_child(3);
    r.add_child(5);
    assert_eq!(r.children, vec![5, 3, 5]);
}

#[test]
fn two_ticks_advance_the_clock_by_two() {
    let mut r = R::new(0, RoomDepth::Floor).at(2, 2);
    r.advance_clock();
    r.advance_clock();
    assert_eq!(r.tick, 2);
    assert_eq!(r.position, (2, 2));
}

#[test]
fn cloned_room_keeps_its_fields() {
    let mut r = R::new(4, RoomDepth::Path).at(1, 2);
    r.attach(9, 1, 2);
    r.add_child(8);
    let c = r.clone();
    assert_eq!(c.id, 4);
    assert_eq!(c.position, (1, 2));
    assert_eq!(c.children, vec![8]);
    assert_eq!(c.connections[&9], 1);
    assert_eq!(c.tiles[&9], 2);
}

#[test]
fn added_room_replaces_room_with_same_id_and_is_found() {
    let mut l = L::new(RoomDepth::Floor, 4, 4);
    l.add_room(R::new(3, RoomDepth::Floor).at(0, 0));
    l.add_room(R::new(3, RoomDepth::Floor).at(2, 1));
    assert_eq!(l.rooms.len(), 1);
    assert!(l.room_at(0, 0).is_none());
    assert_eq!(l.room_at(2, 1).map(|r| r.id), Some(3));
}

#[test]
fn room_at_on_empty_layer_is_none() {
    let l = L::new(RoomDepth::Floor, 4, 4);
    assert!(l.room_at(0, 0).is_none());
}

#[test]
fn room_at_mut_changes_the_kept_room() {
    let mut l = L::new(RoomDepth::Floor, 4, 4);
    l.add_room(R::new(1, RoomDepth::Floor).at(1, 1));
    if let Some(r) = l.room_at_mut(1, 1) {
        r.state = -1;
        r.add_child(42);
    }
    assert_eq!(l.rooms[&1].state, -1);
    assert_eq!(l.rooms[&1].children, vec![42]);
    assert!(l.room_at_mut(3, 3).is_none());
}

#[test]
fn neighbors_are_the_occupied_adjacent_cells_in_order() {
    let mut l = L::new(RoomDepth::Floor, 4, 4);
    l.add_room(R::new(0, RoomDepth::Floor).at(1, 1));
    l.add_room(R::new(1, RoomDepth::Floor).at(0, 0));
    l.add_room(R::new(2, RoomDepth::Floor).at(2, 2));
    l.add_room(R::new(3, RoomDepth::Floor).at(2, 1));
    l.add_room(R::new(4, RoomDepth::Floor).at(3, 3));
    // right (2,1), then the corners (0,0) and (2,2); (3,3) is two steps away
    assert_eq!(l.neighbors(0), vec![3, 1, 2]);
}

#[test]
fn neighbors_at_the_grid_corner_do_not_wrap() {
    let mut l = L::new(RoomDepth::Floor, 3, 3);
    l.add_room(R::new(0, RoomDepth::Floor).at(0, 0));
    l.add_room(R::new(1, RoomDepth::Floor).at(2, 2));
    l.add_room(R::new(2, RoomDepth::Floor).at(0, 1));
    assert_eq!(l.neighbors(0), vec![2]);
}

#[test]
fn neighbors_outside_the_grid_are_left_out() {
    let mut l = L::new(RoomDepth::Floor, 2, 2);
    l.add_room(R::new(0, RoomDepth::Floor).at(1, 1));
    l.add_room(R::new(1, RoomDepth::Floor).at(2, 1));
    assert!(l.neighbors(0).is_empty());
}

#[test]
fn neighbors_of_a_missing_room_are_empty() {
    let mut l = L::new(RoomDepth::Floor, 4, 4);
    l.add_room(R::new(0, RoomDepth::Floor).at(1, 1));
    assert!(l.neighbors(9).is_empty());
}

#[test]
fn column_row_and_diagonal_select_exactly_their_rooms() {
    let mut l = L::new(RoomDepth::Floor, 4, 4);
    l.add_room(R::new(0, RoomDepth::Floor).at(0, 2));
    l.add_room(R::new(1, RoomDepth::Floor).at(1, 3));
    l.add_room(R::new(2, RoomDepth::Floor).at(3, 1));
    l.add_room(R::new(3, RoomDepth::Floor).at(1, 1));
    let mut col: Vec<usize> = l.column(1).iter().map(|r| r.id).collect();
    col.sort();
    assert_eq!(col, vec![1, 3]);
    let mut row: Vec<usize> = l.row(1).iter().map(|r| r.id).collect();
    row.sort();
    assert_eq!(row, vec![2, 3]);
    let mut diag: Vec<usize> = l.diagonal(-2).iter().map(|r| r.id).collect();
    diag.sort();
    assert_eq!(diag, vec![0, 1]);
    assert_eq!(l.diagonal(2).len(), 1);
    assert!(l.column(2).is_empty());
}

#[test]
fn layer_tick_advances_every_room_once() {
    let mut l = L::new(RoomDepth::Board, 4, 4);
    let mut r = R::new(0, RoomDepth::Board);
    r.advance_clock();
    l.add_room(r);
    l.add_room(R::new(1, RoomDepth::Board));
    l.advance_clock();
    assert_eq!(l.rooms[&0].tick, 2);
    assert_eq!(l.rooms[&1].tick, 1);
}

#[test]
fn tensor_tick_advances_rooms_of_every_layer() {
    let mut t = Tensor::new();
    let mut fl = L::new(RoomDepth::Floor, 2, 2);
    fl.add_room(R::new(0, RoomDepth::Floor));
    t.add_layer(fl);
    let mut bl = L::new(RoomDepth::Board, 2, 2);
    bl.add_room(R::new(5, RoomDepth::Board));
    t.add_layer(bl);
    t.advance_clock();
    t.advance_clock();
    assert_eq!(t.tick, 2);
    assert_eq!(t.layer(RoomDepth::Floor).unwrap().rooms[&0].tick, 2);
    assert_eq!(t.layer(RoomDepth::Board).unwrap().rooms[&5].tick, 2);
}

#[test]
fn add_layer_replaces_the_layer_at_its_depth() {
    let mut t = Tensor::new();
    let mut first = L::new(RoomDepth::Floor, 2, 2);
    first.add_room(R::new(0, RoomDepth::Floor));
    first.add_room(R::new(1, RoomDepth::Floor));
    t.add_layer(first);
    t.add_layer(L::new(RoomDepth::Board, 2, 2));
    let mut second = L::new(RoomDepth::Floor, 5, 5);
    second.add_room(R::new(2, RoomDepth::Floor));
    t.add_layer(second);
    assert_eq!(t.layers.len(), 2);
    assert_eq!(t.layer(RoomDepth::Floor).unwrap().width, 5);
    assert_eq!(t.total_rooms(), 1);
    assert!(t.layer(RoomDepth::Metal).is_none());
}

#[test]
fn vertical_slice_lists_layers_in_order_with_their_rooms() {
    let mut t = Tensor::new();
    let mut bl = L::new(RoomDepth::Board, 4, 4);
    bl.add_room(R::new(10, RoomDepth::Board).at(1, 1));
    t.add_layer(bl);
    let mut fl = L::new(RoomDepth::Floor, 4, 4);
    fl.add_room(R::new(0, RoomDepth::Floor).at(2, 2));
    t.add_layer(fl);
    let mut ml = L::new(RoomDepth::Metal, 4, 4);
    ml.add_room(R::new(20, RoomDepth::Metal).at(1, 1));
    t.add_layer(ml);
    let slice: Vec<(RoomDepth, usize)> = t.vertical_slice(1, 1).iter().map(|(d, r)| (*d, r.id)).collect();
    assert_eq!(slice, vec![(RoomDepth::Board, 10), (RoomDepth::Metal, 20)]);
}

#[test]
fn link_is_found_from_both_ends_and_only_there() {
    let mut t = Tensor::new();
    t.link_across(link((RoomDepth::Floor, 0), (RoomDepth::Board, 1), CrossLinkType::Controls));
    t.link_across(link((RoomDepth::Board, 1), (RoomDepth::Panel, 2), CrossLinkType::Realizes));
    t.link_across(link((RoomDepth::Floor, 1), (RoomDepth::Board, 0), CrossLinkType::Projects));
    let board1 = t.links_for_room(RoomDepth::Board, 1);
    assert_eq!(board1.len(), 2);
    assert_eq!(board1[0].link_type, CrossLinkType::Controls);
    assert_eq!(board1[1].link_type, CrossLinkType::Realizes);
    assert_eq!(t.links_for_room(RoomDepth::Panel, 2).len(), 1);
    assert!(t.links_for_room(RoomDepth::Panel, 1).is_empty());
    assert!(link((RoomDepth::Floor, 0), (RoomDepth::Board, 1), CrossLinkType::Contains).touches(RoomDepth::Board, 1));
    assert!(!link((RoomDepth::Floor, 0), (RoomDepth::Board, 1), CrossLinkType::Contains).touches(RoomDepth::Floor, 1));
}

#[test]
fn total_rooms_sums_all_layers() {
    let mut t = Tensor::new();
    assert_eq!(t.total_rooms(), 0);
    let mut fl = L::new(RoomDepth::Floor, 2, 2);
    fl.add_room(R::new(0, RoomDepth::Floor));
    fl.add_room(R::new(1, RoomDepth::Floor));
    t.add_layer(fl);
    let mut cl = L::new(RoomDepth::Code, 2, 2);
    cl.add_room(R::new(0, RoomDepth::Code));
    t.add_layer(cl);
    assert_eq!(t.total_rooms(), 3);
}
