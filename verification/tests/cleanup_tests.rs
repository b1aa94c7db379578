use ice_rooms::board::Board;
use ice_rooms::direction::Direction;
use ice_rooms::gate::GateEntry;
use ice_rooms::matrix::{Matrix, TileMap};
use ice_rooms::metadata::{GateDestination, GateMetadata};
use ice_rooms::noise_reduction::{
    asthetic_cleanup, connected, flood, heuristic_distance, prune_unreachable, remove_rooms,
};
use ice_rooms::board::TileMapWrap;
use ice_rooms::pos::Pos;
use ice_rooms::solver::{analyze, Analysis};
use ice_rooms::tile::Tile;

fn exit_gate() -> Tile {
    Tile::Gate(GateMetadata::Exit { destination: GateDestination::NextAutoGen, label: None })
}

fn open_room(width: isize, height: isize) -> TileMap {
    let mut map: TileMap = Matrix::new(width, height);
    for x in 0..width {
        for y in 0..height {
            let border = x == 0 || y == 0 || x == width - 1 || y == height - 1;
            map.set(&Pos::new(x, y), if border { Tile::Wall } else { Tile::Ice });
        }
    }
    map
}

fn gated_room() -> Board {
    let mut map = open_room(9, 9);
    map.set(&Pos::new(0, 4), Tile::Gate(GateMetadata::EntryOnly));
    map.set(&Pos::new(4, 0), exit_gate());
    // Stoppers that make the room solvable: east, north, west, north.
    map.set(&Pos::new(6, 4), Tile::Wall);
    map.set(&Pos::new(3, 1), Tile::Wall);
    // A pocket sealed away from the gates.
    map.set(&Pos::new(6, 6), Tile::Wall);
    map.set(&Pos::new(6, 7), Tile::Wall);
    map.set(&Pos::new(7, 6), Tile::Wall);
    let gates = vec![
        GateEntry::new(Pos::new(0, 4), 9),
        GateEntry::new(Pos::new(4, 0), 9),
    ];
    Board { map, gates }
}

fn maps_equal(a: &TileMap, b: &TileMap) -> bool {
    if a.get_width() != b.get_width() || a.get_height() != b.get_height() {
        return false;
    }
    for x in 0..a.get_width() {
        for y in 0..a.get_height() {
            if a.at(&Pos::new(x, y)) != b.at(&Pos::new(x, y)) {
                return false;
            }
        }
    }
    true
}

#[test]
fn flood_marks_reachable_cells_only() {
    let mut map = open_room(7, 5);
    map.set(&Pos::new(3, 1), Tile::Wall);
    map.set(&Pos::new(3, 2), Tile::Wall);
    map.set(&Pos::new(3, 3), Tile::Wall);
    let reach = flood(
        vec![Pos::new(1, 2)],
        &map,
        vec![Tile::Ice, Tile::WeakWall(1), Tile::Box],
    );
    assert!(reach.contains(&Pos::new(1, 1)));
    assert!(reach.contains(&Pos::new(2, 3)));
    // The wall cuts the room in two.
    assert!(!reach.contains(&Pos::new(4, 2)));
    assert!(!reach.contains(&Pos::new(3, 2)));
}

#[test]
fn pocket_elimination_idempotent() {
    let board = gated_room();
    let once = prune_unreachable(board.clone());
    let twice = prune_unreachable(once.clone());
    assert!(maps_equal(&once.map, &twice.map));
}

#[test]
fn pruning_seals_the_pocket() {
    let board = gated_room();
    let pruned = prune_unreachable(board);
    // The sealed corner is walled off; the open room near the gates stays.
    assert_eq!(pruned.map.at(&Pos::new(7, 7)), Tile::Wall);
    assert_eq!(pruned.map.at(&Pos::new(1, 4)), Tile::Ice);
}

#[test]
fn connected_sees_a_detour() {
    let map = open_room(7, 7);
    let p1 = Pos::new(2, 3);
    let p2 = Pos::new(3, 3);
    let wrap1 = TileMapWrap { base: &map, p: p2, tile: Tile::Wall };
    let wrap2 = TileMapWrap { base: &map, p: p1, tile: Tile::Wall };
    assert!(connected(p1, p2, &wrap1, &wrap2));
}

#[test]
fn remove_rooms_only_hardens_open_cells() {
    let mut map = open_room(9, 9);
    let before = map.clone();
    remove_rooms(&mut map, &Pos::new(0, 4), &Direction::East);
    for x in 0..9 {
        for y in 0..9 {
            let now = map.at(&Pos::new(x, y));
            let then = before.at(&Pos::new(x, y));
            assert!(now == then || now == Tile::Wall);
        }
    }
}

#[test]
fn cleanup_keeps_room_well_formed() {
    let board = gated_room();
    let analysis: Analysis = analyze(&board, 0, 1).expect("gated room is solvable");
    let cleaned = asthetic_cleanup(board, &analysis, 0);
    assert_eq!(cleaned.gates.len(), 2);
    assert!(cleaned.map.get_width() >= 3);
    assert!(cleaned.map.get_height() >= 3);
}

#[test]
fn connected_blocked_by_a_full_wall() {
    let mut map = open_room(9, 7);
    for y in 0..7 {
        map.set(&Pos::new(4, y), Tile::Wall);
    }
    let p1 = Pos::new(2, 3);
    let p2 = Pos::new(2, 4);
    // Patching each cell away leaves no detour through the dividing wall.
    map.set(&Pos::new(1, 3), Tile::Wall);
    map.set(&Pos::new(1, 4), Tile::Wall);
    map.set(&Pos::new(3, 3), Tile::Wall);
    map.set(&Pos::new(3, 4), Tile::Wall);
    map.set(&Pos::new(2, 2), Tile::Wall);
    map.set(&Pos::new(2, 5), Tile::Wall);
    let wrap1 = TileMapWrap { base: &map, p: p2, tile: Tile::Wall };
    let wrap2 = TileMapWrap { base: &map, p: p1, tile: Tile::Wall };
    assert!(!connected(p1, p2, &wrap1, &wrap2));
}

#[test]
fn manhattan_distance() {
    assert_eq!(heuristic_distance(Pos::new(1, 2), Pos::new(4, 0)), 5);
    assert_eq!(heuristic_distance(Pos::new(4, 0), Pos::new(1, 2)), 5);
    assert_eq!(heuristic_distance(Pos::new(3, 3), Pos::new(3, 3)), 0);
}

#[test]
fn pocket_pass_spares_the_entrance_corridor() {
    let mut map = open_room(9, 9);
    map.set(&Pos::new(0, 4), Tile::Gate(GateMetadata::EntryOnly));
    let before = map.at(&Pos::new(1, 4));
    remove_rooms(&mut map, &Pos::new(0, 4), &Direction::East);
    assert_eq!(map.at(&Pos::new(1, 4)), before);
}
