use ice_rooms::board::Board;
use ice_rooms::direction::Direction;
use ice_rooms::gate::GateEntry;
use ice_rooms::matrix::{Matrix, TileMap};
use ice_rooms::metadata::{GateDestination, GateMetadata};
use ice_rooms::pos::Pos;
use ice_rooms::tile::Tile;
use ice_rooms::visitations::Visitations;

fn exit_gate() -> Tile {
    Tile::Gate(GateMetadata::Exit { destination: GateDestination::NextAutoGen, label: None })
}

fn open_room(width: isize, height: isize) -> TileMap {
    let mut map: TileMap = Matrix::new(width, height);
    for x in 0..width {
        for y in 0..height {
            let border = x == 0 || y == 0 || x == width - 1 || y == height - 1;
            map.set(&Pos::new(x, y), if border { Tile::Wall } else { Tile::Ice });
        }
    }
    map
}

#[test]
fn direction_turns() {
    assert_eq!(Direction::North.left(), Direction::West);
    assert_eq!(Direction::North.right(), Direction::East);
    assert_eq!(Direction::East.reverse(), Direction::West);
    assert_eq!(Direction::South.left(), Direction::East);
    assert_eq!(Direction::all().len(), 4);
    assert_eq!(Direction::East.vector(), Pos::new(1, 0));
    assert_eq!(Direction::North.vector(), Pos::new(0, -1));
    assert_eq!(Direction::West.icon(), "<");
}

#[test]
fn pos_arithmetic() {
    let p = Pos::new(3, 4);
    assert!(!p.parity());
    assert!(Pos::new(2, 4).parity());
    assert_eq!(p.plus(Pos::new(1, -1)), Pos::new(4, 3));
    assert_eq!(p.minus(Pos::new(1, 1)), Pos::new(2, 3));
    assert_eq!(p.scaled(2), Pos::new(6, 8));
    assert_eq!(Pos::new(0, 2).midpoint(Pos::new(4, 2)), Pos::new(2, 2));
    assert_eq!(Pos::new(1, 0).rotate_left(5), Pos::new(0, 3));
}

#[test]
fn matrix_access_and_bounds() {
    let mut map: TileMap = Matrix::new(4, 3);
    assert_eq!(map.get_width(), 4);
    assert_eq!(map.get_height(), 3);
    map.set(&Pos::new(2, 1), Tile::Box);
    assert_eq!(map.at(&Pos::new(2, 1)), Tile::Box);
    assert_eq!(map.at(&Pos::new(9, 9)), Tile::Outside);
    assert_eq!(map.at(&Pos::new(-1, 0)), Tile::Outside);
    assert!(map.in_bounds(&Pos::new(3, 2)));
    assert!(!map.in_bounds(&Pos::new(4, 2)));
    assert_eq!(map.all_pos().len(), 12);
    assert_eq!(map.all_inner_pos().len(), 2);
}

#[test]
fn rotation_round_trip() {
    let mut map = open_room(5, 4);
    map.set(&Pos::new(1, 1), Tile::Box);
    map.set(&Pos::new(2, 1), Tile::WeakWall(1));
    map.set(&Pos::new(0, 2), exit_gate());
    let board = Board { map, gates: vec![GateEntry::new(Pos::new(0, 2), 5)] };
    let reference = board.clone();
    let turned = board.rotate_left().rotate_left().rotate_left().rotate_left();
    assert_eq!(turned.map.get_width(), reference.map.get_width());
    assert_eq!(turned.map.get_height(), reference.map.get_height());
    for x in 0..reference.map.get_width() {
        for y in 0..reference.map.get_height() {
            assert_eq!(
                turned.map.at(&Pos::new(x, y)),
                reference.map.at(&Pos::new(x, y))
            );
        }
    }
    assert_eq!(turned.gates[0].pos, reference.gates[0].pos);
    assert_eq!(
        turned.gates[0].inwards_direction,
        reference.gates[0].inwards_direction
    );
}

#[test]
fn single_rotation_moves_cells() {
    let mut map = open_room(4, 3);
    map.set(&Pos::new(1, 1), Tile::Box);
    let board = Board { map, gates: vec![] };
    let turned = board.rotate_left();
    assert_eq!(turned.map.get_width(), 3);
    assert_eq!(turned.map.get_height(), 4);
    assert_eq!(turned.map.at(&Pos::new(1, 2)), Tile::Box);
}

#[test]
fn gate_entry_direction_from_border() {
    assert_eq!(GateEntry::new(Pos::new(0, 3), 7).inwards_direction, Direction::East);
    assert_eq!(GateEntry::new(Pos::new(3, 0), 7).inwards_direction, Direction::South);
    assert_eq!(GateEntry::new(Pos::new(6, 3), 7).inwards_direction, Direction::West);
    assert_eq!(GateEntry::new(Pos::new(3, 6), 7).inwards_direction, Direction::North);
}

#[test]
fn visitations_track_positions() {
    let mut v = Visitations::new(9, 7);
    assert!(!v.contains(&Pos::new(3, 2)));
    v.insert(&Pos::new(3, 2));
    assert!(v.contains(&Pos::new(3, 2)));
    assert!(!v.contains(&Pos::new(2, 3)));
    v.insert(&Pos::new(8, 6));
    assert!(v.contains(&Pos::new(8, 6)));
    assert!(v.contains(&Pos::new(3, 2)));
}

#[test]
fn tile_predicates() {
    assert!(Tile::Wall.stops_player_during_sim());
    assert!(Tile::WeakWall(1).stops_player_during_sim());
    assert!(Tile::Box.stops_player_during_sim());
    assert!(!Tile::Ice.stops_player_during_sim());
    assert!(!exit_gate().stops_player_during_sim());
    assert!(Tile::Gate(GateMetadata::EntryOnly).stops_player_during_sim());
    assert!(!Tile::WeakWall(1).stops_player_during_gameplay(false));
    assert!(exit_gate().stops_player_during_gameplay(true));
    assert!(Tile::Wall.is_a_wall_for_texturing());
    assert!(Tile::Gate(GateMetadata::EntryOnly).is_a_wall_for_texturing());
    assert!(exit_gate().stops_box_during_gameplay());
    assert!(!Tile::Box.stops_box_during_gameplay());
    assert_eq!(Tile::Wall.symbol(), "#");
    assert_eq!(Tile::Box.symbol(), "b");
}
