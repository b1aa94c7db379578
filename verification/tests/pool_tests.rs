use ice_rooms::board::Board;
use ice_rooms::board_description::{BoardDescription, GameMode};
use ice_rooms::direction::Direction;
use ice_rooms::gate::GateEntry;
use ice_rooms::matrix::{Matrix, TileMap};
use ice_rooms::metadata::{GateDestination, GateMetadata};
use ice_rooms::pos::Pos;
use ice_rooms::solver::analyze;
use ice_rooms::worker_pool::{
    dart_get_new_board, dart_start_search, dart_stop_search, dart_worker_halt, AutoGenOutput,
    Candidate, CtrlMsg, SearchPool,
};

fn exit_gate() -> ice_rooms::tile::Tile {
    ice_rooms::tile::Tile::Gate(GateMetadata::Exit {
        destination: GateDestination::NextAutoGen,
        label: None,
    })
}

fn tiny_room() -> Board {
    let mut map: TileMap = Matrix::new(3, 3);
    for x in 0..3 {
        for y in 0..3 {
            let border = x == 0 || y == 0 || x == 2 || y == 2;
            map.set(
                &Pos::new(x, y),
                if border { ice_rooms::tile::Tile::Wall } else { ice_rooms::tile::Tile::Ice },
            );
        }
    }
    map.set(&Pos::new(0, 1), ice_rooms::tile::Tile::Gate(GateMetadata::EntryOnly));
    map.set(&Pos::new(1, 0), exit_gate());
    let gates = vec![
        GateEntry::new(Pos::new(0, 1), 3),
        GateEntry::new(Pos::new(1, 0), 3),
    ];
    Board { map, gates }
}

fn candidate(fitness: u64, marker: usize) -> Candidate {
    let board = tiny_room();
    let mut analysis = analyze(&board, 0, 1).expect("tiny room is solvable");
    analysis.optimal_movement_count = marker;
    Candidate { fitness, board, analysis }
}

#[test]
fn bounded_set_keeps_the_best() {
    let mut pool = SearchPool::new();
    pool.result_max_size = 3;
    for (fitness, marker) in [(10u64, 1usize), (50, 2), (20, 3), (40, 4), (30, 5)] {
        pool.submit(candidate(fitness, marker));
    }
    // Exactly the configured maximum survives.
    assert_eq!(pool.result_count(), 3);
    // Popping yields the three highest fitnesses, best first.
    let mut seen = Vec::new();
    for _ in 0..3 {
        match pool.get_new_room(Direction::East) {
            AutoGenOutput::Ready(db) => seen.push(db.max_movement_count.unwrap()),
            _ => panic!("a buffered room was expected"),
        }
    }
    assert_eq!(seen, vec![2, 4, 5]);
}

#[test]
fn submit_reports_the_new_cutoff() {
    let mut pool = SearchPool::new();
    pool.result_max_size = 2;
    let first = pool.submit(candidate(10, 1));
    assert_eq!(first, 10);
    let second = pool.submit(candidate(30, 2));
    assert_eq!(second, 10);
    let third = pool.submit(candidate(20, 3));
    // The weakest of the kept pair is now the cutoff.
    assert_eq!(third, 20);
}

#[test]
fn empty_pool_outcomes() {
    let mut pool = SearchPool::new();
    assert!(matches!(
        pool.get_new_room(Direction::East),
        AutoGenOutput::NoMoreBufferedBoards
    ));
    pool.result_max_size = 2;
    assert!(matches!(pool.get_new_room(Direction::East), AutoGenOutput::NotReady));
}

#[test]
fn capacity_drains_and_workers_retire() {
    let mut pool = SearchPool::new();
    let desc = BoardDescription::from_list(vec![7, 7, 0, 0, 0, 0, 0, 0, 0, 0, 0]);
    assert_eq!(desc.game_mode, GameMode::FindExit);
    let spawned = dart_start_search(&mut pool, desc, 1);
    assert_eq!(spawned, 1);
    assert_eq!(pool.worker_count, 1);
    pool.submit(candidate(10, 1));
    match dart_get_new_board(&mut pool, Direction::East) {
        AutoGenOutput::Ready(_) => {}
        _ => panic!("a buffered room was expected"),
    }
    // The last pop used up the capacity and retired the workers.
    assert_eq!(pool.worker_count, 0);
    assert!(matches!(
        dart_get_new_board(&mut pool, Direction::East),
        AutoGenOutput::NoMoreBufferedBoards
    ));
}

#[test]
fn halt_and_stop_messages() {
    let mut pool = SearchPool::new();
    let desc = BoardDescription::from_list(vec![7, 7, 0, 0, 0, 0, 0, 0, 0, 0, 1]);
    assert_eq!(desc.game_mode, GameMode::FindPerfectPath);
    dart_start_search(&mut pool, desc, 5);
    let halts = dart_worker_halt(&pool, 25);
    assert_eq!(halts.len(), 1);
    assert!(matches!(halts[0], CtrlMsg::Halt(25)));
    let killed = dart_stop_search(&mut pool);
    assert_eq!(killed, 1);
    assert_eq!(pool.worker_count, 0);
}

#[test]
fn worker_cycle_respects_the_filter() {
    let mut pool = SearchPool::new();
    pool.result_max_size = 4;
    let desc = BoardDescription::from_list(vec![7, 9, 0, 0, 0, 0, 0, 0, 0, 0, 0]);
    pool.board_desc = Some(desc);
    let mut filter = 0u64;
    for _ in 0..40 {
        filter = pool.worker_cycle(filter);
    }
    assert!(pool.result_count() <= 4);
}
