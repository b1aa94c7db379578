use std::collections::HashMap;

use ice_rooms::board::Board;
use ice_rooms::board_description::BoardDescription;
use ice_rooms::dart_board::DartBoard;
use ice_rooms::direction::Direction;
use ice_rooms::metadata::{GateDestination, GateMetadata, RoomIdAndGate};
use ice_rooms::pos::Pos;
use ice_rooms::tile::Tile;

fn zero_desc(min: isize, max: isize) -> BoardDescription {
    BoardDescription::from_list(vec![min, max, 0, 0, 0, 0, 0, 0, 0, 0, 0])
}

#[test]
fn description_round_trip() {
    let desc = BoardDescription::from_list(vec![7, 15, 1, 2, 3, 4, 5, 6, 7, 8, 1]);
    assert_eq!(BoardDescription::from_list(desc.as_list()), desc);
    assert_eq!(desc.as_list().len(), 11);
}

#[test]
fn generated_room_shape() {
    let board = Board::new_random(&zero_desc(7, 7)).expect("a seven-wide room generates");
    assert_eq!(board.map.get_width(), 7);
    assert_eq!(board.map.get_height(), 7);
    assert_eq!(board.gates.len(), 2);
    // The entry gate sits on the left border and faces east.
    assert_eq!(board.gates[0].pos.x, 0);
    assert_eq!(board.gates[0].inwards_direction, Direction::East);
    assert_eq!(
        board.map.at(&board.gates[0].pos),
        Tile::Gate(GateMetadata::EntryOnly)
    );
    match board.map.at(&board.gates[1].pos) {
        Tile::Gate(GateMetadata::Exit { destination, label }) => {
            assert!(matches!(destination, GateDestination::NextAutoGen));
            assert!(label.is_none());
        }
        other => panic!("the exit cell holds {:?}", other),
    }
    // With all densities at zero the interior is a single open room except
    // the carved entry flanks.
    for x in 1..6 {
        for y in 1..6 {
            let t = board.map.at(&Pos::new(x, y));
            assert!(t == Tile::Ice || t == Tile::Wall);
        }
    }
}

#[test]
fn degenerate_size_is_refused() {
    assert!(Board::new_random(&zero_desc(2, 3)).is_err());
}

#[test]
fn gate_metadata_ids() {
    assert_eq!(GateDestination::NextAutoGen.get_gate_id(), 0);
    let dest = GateDestination::RoomIdWithGate(RoomIdAndGate {
        room_id: "lobby".to_string(),
        gate_id: 4,
    });
    assert_eq!(dest.get_gate_id(), 4);
}

#[test]
fn dart_board_unpacks_gates() {
    let board = Board::new_random(&zero_desc(7, 9)).expect("a room generates");
    let db = DartBoard::new(board, None);
    assert_eq!(db.gate_positions.len(), 2);
    assert_eq!(db.gate_directions[0], Direction::East);
    assert_eq!(db.width, db.board.map.get_width());
    assert!(db.max_movement_count.is_none());
    assert_eq!(
        db.get_all_positions().len() as isize,
        db.width * db.height
    );
    let asset = db.asset_at(&Pos::new(3, 3));
    let _ = asset;
}

#[test]
fn lobby_parses_serialized_rows() {
    let mut meta: HashMap<u8, GateMetadata> = HashMap::new();
    meta.insert(b'A', GateMetadata::EntryOnly);
    let serialized = "# # # # \n# A     \n# # # # ".to_string();
    let db = DartBoard::new_lobby(serialized, meta, vec![], None);
    assert_eq!(db.width, 4);
    assert_eq!(db.height, 3);
    assert_eq!(db.at(&Pos::new(0, 0)), Tile::Wall);
    assert_eq!(db.at(&Pos::new(1, 1)), Tile::Gate(GateMetadata::EntryOnly));
    assert_eq!(db.at(&Pos::new(2, 1)), Tile::Ice);
    assert_eq!(db.gate_positions.len(), 1);
    assert_eq!(db.gate_positions[0], Pos::new(1, 1));
}

#[test]
fn assets_follow_the_tile_table() {
    let mut map: ice_rooms::matrix::TileMap = ice_rooms::matrix::Matrix::new(5, 5);
    for x in 0..5 {
        for y in 0..5 {
            let border = x == 0 || y == 0 || x == 4 || y == 4;
            map.set(&Pos::new(x, y), if border { Tile::Wall } else { Tile::Ice });
        }
    }
    map.set(&Pos::new(2, 2), Tile::Stop);
    let assets = ice_rooms::asset_map::AssetMap::from_tilemap(&map);
    assert_eq!(
        assets.at(&Pos::new(1, 1)),
        Some(("ice.png".to_string(), 0))
    );
    assert_eq!(
        assets.at(&Pos::new(2, 2)),
        Some(("stop.png".to_string(), 0))
    );
    assert_eq!(assets.at(&Pos::new(9, 9)), None);
}
