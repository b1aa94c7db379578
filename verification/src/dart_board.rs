use vstd::prelude::*;
use vstd::string::*;

use std::collections::HashMap;

use crate::asset_map::AssetMap;
use crate::board::Board;
use crate::direction::Direction;
use crate::gate::GateEntry;
use crate::matrix::Matrix;
use crate::metadata::{label_eq, opt_dest_eq, GateDestination, GateMetadata};
use crate::pos::Pos;
use crate::solver::Analysis;
use crate::tile::Tile;

verus! {

/// A room unpacked for the presentation layer: the board itself plus
/// flattened gate data and the per-cell asset hints.
pub struct DartBoard {
    pub board: Board,
    pub asset_map: AssetMap,
    pub analysis: Option<Analysis>,
    pub gate_destinations: Vec<Option<GateDestination>>,
    pub gate_positions: Vec<Pos>,
    pub gate_directions: Vec<Direction>,
    pub gate_lables: Vec<Option<String>>,
    pub gate_pos_to_id: Vec<(Pos, isize)>,
    pub width: isize,
    pub height: isize,
    pub max_movement_count: Option<isize>,
}

impl DartBoard {
    /// Unpacks a room: derives the asset hints and flattens each gate's
    /// position, direction, destination and label into plain lists.
    pub fn new(board: Board, analysis: Option<Analysis>) -> (r: DartBoard)
        requires
            board.wf(),
            board.gates@.len() <= 100000,
            analysis matches Option::Some(a) ==> a.optimal_movement_count <= 100000,
        ensures
            r.board.wf(),
            r.board.map@ == board.map@,
            r.board.gates@ == board.gates@,
            r.width == board.map.spec_width(),
            r.height == board.map.spec_height(),
            r.gate_positions@.len() == board.gates@.len(),
            r.gate_directions@.len() == board.gates@.len(),
            r.gate_destinations@.len() == board.gates@.len(),
            r.gate_lables@.len() == board.gates@.len(),
            r.gate_pos_to_id@.len() == board.gates@.len(),
            forall|i: int|
                0 <= i < board.gates@.len() ==> #[trigger] r.gate_positions@[i]
                    == board.gates@[i].pos,
            forall|i: int|
                0 <= i < board.gates@.len() ==> #[trigger] r.gate_directions@[i]
                    == board.gates@[i].inwards_direction,
            forall|i: int|
                0 <= i < board.gates@.len() ==> opt_dest_eq(
                    #[trigger] r.gate_destinations@[i],
                    board.spec_gate_destination(i),
                ),
            forall|i: int|
                0 <= i < board.gates@.len() ==> label_eq(
                    #[trigger] r.gate_lables@[i],
                    board.spec_gate_label(i),
                ),
            forall|i: int|
                0 <= i < board.gates@.len() ==> #[trigger] r.gate_pos_to_id@[i] == (
                    board.gates@[i].pos,
                    i as isize,
                ),
            r.analysis == analysis,
            r.max_movement_count == (match analysis {
                Option::Some(a) => Option::Some(a.optimal_movement_count as isize),
                Option::None => Option::<isize>::None,
            }),
    {
        let asset_map = AssetMap::from_tilemap(&board.map);
        let max_movement_count: Option<isize> = match &analysis {
            Option::Some(a) => Option::Some(a.optimal_movement_count as isize),
            Option::None => Option::None,
        };
        let mut gate_positions: Vec<Pos> = Vec::new();
        let mut gate_directions: Vec<Direction> = Vec::new();
        let mut gate_destinations: Vec<Option<GateDestination>> = Vec::new();
        let mut gate_lables: Vec<Option<String>> = Vec::new();
        let mut gate_pos_to_id: Vec<(Pos, isize)> = Vec::new();
        let mut i: usize = 0;
        while i < board.gates.len()
            invariant
                i <= board.gates@.len(),
                board.gates@.len() <= 100000,
                board.wf(),
                gate_positions@.len() == i,
                gate_directions@.len() == i,
                gate_destinations@.len() == i,
                gate_lables@.len() == i,
                gate_pos_to_id@.len() == i,
                forall|j: int|
                    0 <= j < i ==> #[trigger] gate_positions@[j] == board.gates@[j].pos,
                forall|j: int|
                    0 <= j < i ==> #[trigger] gate_directions@[j]
                        == board.gates@[j].inwards_direction,
                forall|j: int|
                    0 <= j < i ==> opt_dest_eq(
                        #[trigger] gate_destinations@[j],
                        board.spec_gate_destination(j),
                    ),
                forall|j: int|
                    0 <= j < i ==> label_eq(
                        #[trigger] gate_lables@[j],
                        board.spec_gate_label(j),
                    ),
                forall|j: int|
                    0 <= j < i ==> #[trigger] gate_pos_to_id@[j] == (
                        board.gates@[j].pos,
                        j as isize,
                    ),
            decreases board.gates@.len() - i,
        {
            gate_positions.push(board.get_gate_position(i));
            gate_directions.push(board.get_gate_direction(i));
            gate_destinations.push(board.get_gate_destination(i));
            gate_lables.push(board.get_gate_label(i));
            gate_pos_to_id.push((board.get_gate_position(i), i as isize));
            proof {
                assert(gate_positions@[i as int] == board.gates@[i as int].pos);
                assert(gate_directions@[i as int] == board.gates@[i as int].inwards_direction);
                assert(opt_dest_eq(
                    gate_destinations@[i as int],
                    board.spec_gate_destination(i as int),
                ));
                assert(label_eq(gate_lables@[i as int], board.spec_gate_label(i as int)));
                assert(gate_pos_to_id@[i as int] == (board.gates@[i as int].pos, i as isize));
            }
            i = i + 1;
        }
        let width = board.map.get_width();
        let height = board.map.get_height();
        DartBoard {
            asset_map,
            max_movement_count,
            gate_directions,
            gate_positions,
            gate_destinations,
            gate_lables,
            gate_pos_to_id,
            width,
            height,
            analysis,
            board,
        }
    }

    /// Rebuilds a hand-authored room from its serialized form: two bytes
    /// per tile, rows separated by line feeds, gate symbols resolved
    /// through the metadata table and sign symbols consuming the queued
    /// sign entries in order. Rows are sized by the first row, short rows
    /// padded with walls; the room is then turned until the chosen gate
    /// faces the requested way.
    #[verifier::loop_isolation(false)]
    pub fn new_lobby(
        serialized: String,
        gate_metadata: HashMap<u8, GateMetadata>,
        sign_text: Vec<(String, isize, isize)>,
        entrance_direction: Option<(usize, Direction)>,
    ) -> (r: DartBoard)
        ensures
            r.board.wf(),
    {
        let mut sign_text = sign_text;
        let bytes = serialized.as_str().as_bytes_vec();
        let mut rows: Vec<Vec<Tile>> = Vec::new();
        let mut row: Vec<Tile> = Vec::new();
        let mut gates: Vec<GateEntry> = Vec::new();
        let mut width: usize = 0;

        let mut i: usize = 0;
        let mut x: usize = 0;
        while i < bytes.len()
            invariant
                i <= bytes@.len(),
                x == row@.len(),
                x <= 10000,
                width <= 10000,
                rows@.len() <= 10000,
                gates@.len() <= 10000,
                forall|j: int| 0 <= j < rows@.len() ==> (#[trigger] rows@[j])@.len() == width,
                rows@.len() > 0 ==> width >= 1,
            decreases bytes@.len() - i,
        {
            let b = bytes[i];
            if b == 10 {
                if row.len() != 0 && rows.len() < 10000 {
                    if rows.len() == 0 {
                        width = row.len();
                    }
                    let adjusted = resize_row(row, width);
                    rows.push(adjusted);
                }
                row = Vec::new();
                x = 0;
                i = i + 1;
                continue ;
            }
            if x < 10000 {
                let tile = if b == 83 && sign_text.len() == 0 {
                    Tile::Wall
                } else {
                    Tile::from_symbol(b, &gate_metadata, &mut sign_text)
                };
                if matches!(tile, Tile::Gate(_)) && gates.len() < 10000 {
                    gates.push(
                        GateEntry::new(
                            Pos::new(x as isize, rows.len() as isize),
                            if width >= 1 {
                                width as isize
                            } else {
                                1
                            },
                        ),
                    );
                }
                row.push(tile);
                x = x + 1;
            }
            i = if bytes.len() - i >= 2 {
                i + 2
            } else {
                bytes.len()
            };
        }
        if row.len() != 0 && rows.len() < 10000 {
            if rows.len() == 0 {
                width = row.len();
            }
            let adjusted = resize_row(row, width);
            rows.push(adjusted);
        }

        let map: Matrix<Tile> = if rows.len() == 0 || width == 0 {
            Matrix::new(1, 1)
        } else {
            let mut m: Matrix<Tile> = Matrix::new(width as isize, rows.len() as isize);
            let mut y: usize = 0;
            while y < rows.len()
                invariant
                    y <= rows@.len(),
                    m.wf(),
                    m.spec_width() == width,
                    m.spec_height() == rows@.len(),
                    1 <= width <= 10000,
                    1 <= rows@.len() <= 10000,
                    forall|j: int| 0 <= j < rows@.len() ==> (#[trigger] rows@[j])@.len() == width,
                decreases rows@.len() - y,
            {
                let source = &rows[y];
                let mut cx: usize = 0;
                while cx < source.len()
                    invariant
                        cx <= source@.len(),
                        source@ == rows@[y as int]@,
                        y < rows@.len(),
                        m.wf(),
                        m.spec_width() == width,
                        m.spec_height() == rows@.len(),
                        1 <= width <= 10000,
                        1 <= rows@.len() <= 10000,
                        source@.len() == width,
                    decreases source@.len() - cx,
                {
                    let t = source[cx].clone();
                    m.set(&Pos::new(cx as isize, y as isize), t);
                    cx = cx + 1;
                }
                y = y + 1;
            }
            m
        };

        let gates_in = filter_gates(&map, gates);
        proof {
            assert(gates_in@.len() <= 10000);
        }
        let mut board = Board { map, gates: gates_in };

        if let Option::Some((entrance_gate, wanted)) = entrance_direction {
            if entrance_gate < board.gates.len() {
                let ghost target = wanted;
                let mut guard: usize = 0;
                while guard < 3 && !matches_dir(
                    board.get_gate_direction(entrance_gate),
                    wanted,
                )
                    invariant
                        board.wf(),
                        entrance_gate < board.gates@.len(),
                        board.gates@.len() <= 10000,
                        guard <= 3,
                    decreases 3 - guard,
                {
                    board = board.rotate_left();
                    guard = guard + 1;
                }
            }
        }

        DartBoard::new(board, Option::None)
    }

    /// The room turned one quarter turn counterclockwise, re-unpacked.
    pub fn rotate_left(&self) -> (r: DartBoard)
        requires
            self.board.wf(),
            self.board.gates@.len() <= 100000,
            self.analysis matches Option::Some(a) ==> a.optimal_movement_count <= 100000,
    {
        let analysis: Option<Analysis> = match &self.analysis {
            Option::Some(a) => Option::Some(a.clone()),
            Option::None => Option::None,
        };
        DartBoard::new(self.board.clone().rotate_left(), analysis)
    }

    /// Bounds-checked read of the room's grid.
    pub fn at(&self, p: &Pos) -> (r: Tile)
        requires
            self.board.map.wf(),
        ensures
            r == self.board.map.cell_or_blank(*p),
    {
        self.board.map.at(p)
    }

    /// Bounds-checked read of the per-cell asset hints.
    pub fn asset_at(&self, p: &Pos) -> (r: Option<(String, isize)>)
        requires
            self.asset_map.wf(),
        ensures
            r == self.asset_map.cell_or_blank(*p),
    {
        self.asset_map.at(p)
    }

    /// Every coordinate of the room's grid.
    pub fn get_all_positions(&self) -> (r: Vec<Pos>)
        requires
            self.board.map.wf(),
        ensures
            r@.len() == self.board.map.spec_width() * self.board.map.spec_height(),
    {
        self.board.map.all_pos()
    }

    /// Writes the room's grid to standard output.
    pub fn print(&self)
        requires
            self.board.map.wf(),
    {
        self.board.print(Vec::new());
    }
}

/// Equality test on headings.
fn matches_dir(a: Direction, b: Direction) -> (r: bool)
    ensures
        r == (a == b),
{
    match (a, b) {
        (Direction::North, Direction::North) => true,
        (Direction::South, Direction::South) => true,
        (Direction::East, Direction::East) => true,
        (Direction::West, Direction::West) => true,
        _ => false,
    }
}

/// Pads a parsed row with walls, or trims it, to the given width.
fn resize_row(row: Vec<Tile>, width: usize) -> (r: Vec<Tile>)
    requires
        width <= 10000,
    ensures
        r@.len() == width,
{
    let mut row = row;
    while row.len() > width
        invariant
            true,
        decreases row@.len(),
    {
        let _ = row.pop();
    }
    while row.len() < width
        invariant
            row@.len() <= width,
        decreases width - row@.len(),
    {
        row.push(Tile::Wall);
    }
    row
}

/// The gates of the list that stand on the given grid.
fn filter_gates(map: &crate::matrix::TileMap, gates: Vec<GateEntry>) -> (r: Vec<GateEntry>)
    requires
        map.wf(),
    ensures
        forall|i: int| 0 <= i < r@.len() ==> map.spec_in_bounds((#[trigger] r@[i]).pos),
        r@.len() <= gates@.len(),
{
    let mut r: Vec<GateEntry> = Vec::new();
    let mut i: usize = 0;
    while i < gates.len()
        invariant
            i <= gates@.len(),
            r@.len() <= i,
            map.wf(),
            forall|j: int| 0 <= j < r@.len() ==> map.spec_in_bounds((#[trigger] r@[j]).pos),
        decreases gates@.len() - i,
    {
        let g = gates[i];
        if map.in_bounds(&g.pos) {
            r.push(g);
        }
        i = i + 1;
    }
    r
}

} // verus!
