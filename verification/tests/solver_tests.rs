use ice_rooms::board::Board;
use ice_rooms::direction::Direction;
use ice_rooms::gate::GateEntry;
use ice_rooms::matrix::{Matrix, TileMap};
use ice_rooms::metadata::{GateDestination, GateMetadata};
use ice_rooms::pos::Pos;
use ice_rooms::solver::{analyze, step, Analysis, Route};
use ice_rooms::tile::Tile;

fn exit_gate() -> Tile {
    Tile::Gate(GateMetadata::Exit { destination: GateDestination::NextAutoGen, label: None })
}

fn open_room(width: isize, height: isize) -> TileMap {
    let mut map: TileMap = Matrix::new(width, height);
    for x in 0..width {
        for y in 0..height {
            let border = x == 0 || y == 0 || x == width - 1 || y == height - 1;
            map.set(&Pos::new(x, y), if border { Tile::Wall } else { Tile::Ice });
        }
    }
    map
}

/// A three-by-three room: entry on the left, exit on the top, one ice cell.
fn tiny_room() -> Board {
    let mut map = open_room(3, 3);
    map.set(&Pos::new(0, 1), Tile::Gate(GateMetadata::EntryOnly));
    map.set(&Pos::new(1, 0), exit_gate());
    let gates = vec![
        GateEntry::new(Pos::new(0, 1), 3),
        GateEntry::new(Pos::new(1, 0), 3),
    ];
    Board { map, gates }
}

#[test]
fn slide_rests_before_obstacle() {
    let mut map = open_room(7, 5);
    map.set(&Pos::new(4, 2), Tile::Box);
    let r = step(&map, &Pos::new(1, 2), &Direction::East);
    assert_eq!(r.pos, Pos::new(3, 2));
    assert_eq!(r.hit_pos, Pos::new(4, 2));
    assert_eq!(r.hit, Tile::Box);
    // The resting cell itself never stops the actor.
    assert!(!map.at(&r.pos).stops_player_during_sim());
    assert!(r.hit.stops_player_during_sim());
}

#[test]
fn slide_through_open_row_reaches_far_wall() {
    let map = open_room(8, 5);
    let r = step(&map, &Pos::new(1, 2), &Direction::East);
    assert_eq!(r.pos, Pos::new(6, 2));
    assert_eq!(r.hit, Tile::Wall);
}

#[test]
fn slide_staying_put_when_blocked() {
    let mut map = open_room(5, 5);
    map.set(&Pos::new(2, 2), Tile::Wall);
    let r = step(&map, &Pos::new(1, 2), &Direction::East);
    assert_eq!(r.pos, Pos::new(1, 2));
}

#[test]
fn box_cascade_slides_to_wall() {
    let mut map = open_room(7, 5);
    map.set(&Pos::new(2, 2), Tile::Box);
    let mut board = Board { map, gates: vec![] };
    board.box_cascade(&Pos::new(2, 2), &Direction::East);
    assert_eq!(board.map.at(&Pos::new(2, 2)), Tile::Ice);
    assert_eq!(board.map.at(&Pos::new(5, 2)), Tile::Box);
}

#[test]
fn box_cascade_chain_keeps_struck_box() {
    let mut map = open_room(8, 5);
    map.set(&Pos::new(2, 2), Tile::Box);
    map.set(&Pos::new(3, 2), Tile::Box);
    let mut board = Board { map, gates: vec![] };
    board.box_cascade(&Pos::new(2, 2), &Direction::East);
    assert_eq!(board.map.at(&Pos::new(2, 2)), Tile::Box);
    assert_eq!(board.map.at(&Pos::new(3, 2)), Tile::Ice);
    assert_eq!(board.map.at(&Pos::new(6, 2)), Tile::Box);
}

#[test]
fn tiny_room_solved_at_optimum() {
    let board = tiny_room();
    let analysis = analyze(&board, 0, 1).expect("the tiny room is solvable");
    // One slide in through the entrance, one turn north onto the exit.
    assert_eq!(analysis.optimal_movement_count, 2);
    assert_eq!(analysis.routes.len(), 3);
    assert_eq!(analysis.routes[0].len(), 1);
    let route = &analysis.routes[0][0];
    assert_eq!(route.solution.len(), 2);
    assert_eq!(route.solution[0].0, Direction::East);
    assert_eq!(route.solution[1].0, Direction::North);
    assert_eq!(route.solution[1].1, Pos::new(1, 0));
}

#[test]
fn returned_routes_replay_to_the_exit() {
    let board = tiny_room();
    let analysis = analyze(&board, 0, 1).expect("the tiny room is solvable");
    for tier in &analysis.routes {
        for route in tier {
            assert!(route.solves(&board, 0));
        }
    }
    assert!(analysis.check_still_applies(&board, 0));
}

#[test]
fn replay_fails_against_a_changed_room() {
    let board = tiny_room();
    let analysis = analyze(&board, 0, 1).expect("the tiny room is solvable");
    let mut walled = board.clone();
    walled.map.set(&Pos::new(1, 1), Tile::Wall);
    let route = &analysis.routes[0][0];
    assert!(!route.solves(&walled, 0));
}

#[test]
fn erosion_opens_a_way() {
    // Entry on the left, exit on the right behind a weak wall.
    let mut map = open_room(5, 3);
    map.set(&Pos::new(0, 1), Tile::Gate(GateMetadata::EntryOnly));
    map.set(&Pos::new(2, 1), Tile::WeakWall(1));
    map.set(&Pos::new(4, 1), exit_gate());
    let gates = vec![
        GateEntry::new(Pos::new(0, 1), 5),
        GateEntry::new(Pos::new(4, 1), 5),
    ];
    let board = Board { map, gates };
    let analysis = analyze(&board, 0, 1).expect("erosion makes the room solvable");
    for route in &analysis.routes[0] {
        assert!(route.solves(&board, 0));
    }
}

#[test]
fn unsolvable_room_reported() {
    let mut map = open_room(5, 5);
    map.set(&Pos::new(0, 2), Tile::Gate(GateMetadata::EntryOnly));
    // No exit gate anywhere.
    let gates = vec![
        GateEntry::new(Pos::new(0, 2), 5),
        GateEntry::new(Pos::new(4, 2), 5),
    ];
    let board = Board { map, gates };
    assert!(analyze(&board, 0, 1).is_err());
}

#[test]
fn any_path_fitness_counts_moves_and_decisions() {
    let board = tiny_room();
    let analysis = analyze(&board, 0, 1).expect("the tiny room is solvable");
    let route = &analysis.routes[0][0];
    // No open side turns exist in the tiny room: the score is the move count.
    assert_eq!(route.any_path_fitness(&board.map), 2);
    assert!(route.any_path_fitness(&board.map) > 0);
}

#[test]
fn compute_fitness_positive_in_any_path_mode() {
    let board = tiny_room();
    let analysis = analyze(&board, 0, 1).expect("the tiny room is solvable");
    let desc = ice_rooms::board_description::BoardDescription::from_list(vec![
        7, 7, 0, 0, 0, 0, 0, 0, 0, 0, 0,
    ]);
    let fitness = analysis.compute_fitness(&board.map, &desc);
    // One route of two moves: 2 * 1000 / 1.
    assert_eq!(fitness, 2000);
}

#[test]
fn prefect_path_fitness_exact_value() {
    let board = tiny_room();
    let route = Route {
        solution: vec![
            (Direction::East, Pos::new(1, 1)),
            (Direction::North, Pos::new(1, 0)),
        ],
    };
    // One leg of length one: sizes sum one, no long legs, no mutations,
    // no open side turns: (0 * 100 + 0 * 10 + 1 * 10 + 2) / 1.
    assert_eq!(route.prefect_path_fitness(&board.map), 12);
}
