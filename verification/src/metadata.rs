use vstd::prelude::*;

use crate::board_description::BoardDescription;

verus! {

/// What a run that leaves through a final gate should report back.
#[derive(Debug)]
pub struct EndOfGameMetadata {
    pub level: isize,
    pub gamemode_desc: String,
    pub return_gate: RoomIdAndGate,
    pub best_score_id: String,
}

/// A fixed room together with one of its gates.
#[derive(Debug)]
pub struct RoomIdAndGate {
    pub room_id: String,
    pub gate_id: isize,
}

/// Where an exit gate leads.
#[derive(Debug)]
pub enum GateDestination {
    NextAutoGen,
    FirstAutogen {
        board_description: BoardDescription,
        board_count: isize,
        end_of_game_metadata: EndOfGameMetadata,
    },
    RoomIdWithGate(RoomIdAndGate),
}

/// What a gate tile carries: either it only admits entry, or it is an exit
/// with a destination and an optional label.
#[derive(Debug)]
pub enum GateMetadata {
    Exit { destination: GateDestination, label: Option<String> },
    EntryOnly,
}

/// Equality of room references, with string contents compared by value.
pub open spec fn room_eq(a: RoomIdAndGate, b: RoomIdAndGate) -> bool {
    a.room_id@ == b.room_id@ && a.gate_id == b.gate_id
}

pub open spec fn eog_eq(a: EndOfGameMetadata, b: EndOfGameMetadata) -> bool {
    &&& a.level == b.level
    &&& a.gamemode_desc@ == b.gamemode_desc@
    &&& room_eq(a.return_gate, b.return_gate)
    &&& a.best_score_id@ == b.best_score_id@
}

pub open spec fn dest_eq(a: GateDestination, b: GateDestination) -> bool {
    match (a, b) {
        (GateDestination::NextAutoGen, GateDestination::NextAutoGen) => true,
        (
            GateDestination::FirstAutogen {
                board_description: d1,
                board_count: c1,
                end_of_game_metadata: m1,
            },
            GateDestination::FirstAutogen {
                board_description: d2,
                board_count: c2,
                end_of_game_metadata: m2,
            },
        ) => d1 == d2 && c1 == c2 && eog_eq(m1, m2),
        (GateDestination::RoomIdWithGate(r1), GateDestination::RoomIdWithGate(r2)) => room_eq(
            r1,
            r2,
        ),
        _ => false,
    }
}

/// Optional destinations that agree: both absent, or both present and
/// equal.
pub open spec fn opt_dest_eq(a: Option<GateDestination>, b: Option<GateDestination>) -> bool {
    match (a, b) {
        (Option::None, Option::None) => true,
        (Option::Some(d1), Option::Some(d2)) => dest_eq(d1, d2),
        _ => false,
    }
}

pub open spec fn label_eq(a: Option<String>, b: Option<String>) -> bool {
    match (a, b) {
        (Option::None, Option::None) => true,
        (Option::Some(s1), Option::Some(s2)) => s1@ == s2@,
        _ => false,
    }
}

pub open spec fn meta_eq(a: GateMetadata, b: GateMetadata) -> bool {
    match (a, b) {
        (GateMetadata::EntryOnly, GateMetadata::EntryOnly) => true,
        (
            GateMetadata::Exit { destination: d1, label: l1 },
            GateMetadata::Exit { destination: d2, label: l2 },
        ) => dest_eq(d1, d2) && label_eq(l1, l2),
        _ => false,
    }
}

impl Clone for RoomIdAndGate {
    fn clone(&self) -> (r: Self)
        ensures
            r == *self,
    {
        RoomIdAndGate { room_id: self.room_id.clone(), gate_id: self.gate_id }
    }
}

impl Clone for EndOfGameMetadata {
    fn clone(&self) -> (r: Self)
        ensures
            r == *self,
    {
        EndOfGameMetadata {
            level: self.level,
            gamemode_desc: self.gamemode_desc.clone(),
            return_gate: self.return_gate.clone(),
            best_score_id: self.best_score_id.clone(),
        }
    }
}

impl Clone for GateDestination {
    fn clone(&self) -> (r: Self)
        ensures
            r == *self,
    {
        match self {
            GateDestination::NextAutoGen => GateDestination::NextAutoGen,
            GateDestination::FirstAutogen {
                board_description,
                board_count,
                end_of_game_metadata,
            } => GateDestination::FirstAutogen {
                board_description: *board_description,
                board_count: *board_count,
                end_of_game_metadata: end_of_game_metadata.clone(),
            },
            GateDestination::RoomIdWithGate(r) => GateDestination::RoomIdWithGate(r.clone()),
        }
    }
}

impl Clone for GateMetadata {
    fn clone(&self) -> (r: Self)
        ensures
            r == *self,
    {
        match self {
            GateMetadata::EntryOnly => GateMetadata::EntryOnly,
            GateMetadata::Exit { destination, label } => GateMetadata::Exit {
                destination: destination.clone(),
                label: match label {
                    Option::Some(s) => Option::Some(s.clone()),
                    Option::None => Option::None,
                },
            },
        }
    }
}

impl GateDestination {
    pub open spec fn spec_get_gate_id(&self) -> isize {
        match self {
            GateDestination::NextAutoGen => 0,
            GateDestination::FirstAutogen { .. } => 0,
            GateDestination::RoomIdWithGate(RoomIdAndGate { gate_id, .. }) => *gate_id,
        }
    }

    /// Which gate this destination points at inside its target room.
    pub fn get_gate_id(&self) -> (r: isize)
        ensures
            r == self.spec_get_gate_id(),
    {
        match self {
            GateDestination::NextAutoGen => 0,
            GateDestination::FirstAutogen { .. } => 0,
            GateDestination::RoomIdWithGate(RoomIdAndGate { gate_id, .. }) => *gate_id,
        }
    }
}

/// Equality test on room references matching `room_eq`.
pub fn room_id_gate_eq(a: &RoomIdAndGate, b: &RoomIdAndGate) -> (r: bool)
    ensures
        r == room_eq(*a, *b),
{
    a.room_id == b.room_id && a.gate_id == b.gate_id
}

pub fn eog_meta_eq(a: &EndOfGameMetadata, b: &EndOfGameMetadata) -> (r: bool)
    ensures
        r == eog_eq(*a, *b),
{
    a.level == b.level && a.gamemode_desc == b.gamemode_desc && room_id_gate_eq(
        &a.return_gate,
        &b.return_gate,
    ) && a.best_score_id == b.best_score_id
}

pub fn gate_dest_eq(a: &GateDestination, b: &GateDestination) -> (r: bool)
    ensures
        r == dest_eq(*a, *b),
{
    match (a, b) {
        (GateDestination::NextAutoGen, GateDestination::NextAutoGen) => true,
        (
            GateDestination::FirstAutogen {
                board_description: d1,
                board_count: c1,
                end_of_game_metadata: m1,
            },
            GateDestination::FirstAutogen {
                board_description: d2,
                board_count: c2,
                end_of_game_metadata: m2,
            },
        ) => *d1 == *d2 && *c1 == *c2 && eog_meta_eq(m1, m2),
        (GateDestination::RoomIdWithGate(r1), GateDestination::RoomIdWithGate(r2)) => {
            room_id_gate_eq(r1, r2)
        },
        _ => false,
    }
}

pub fn gate_meta_eq(a: &GateMetadata, b: &GateMetadata) -> (r: bool)
    ensures
        r == meta_eq(*a, *b),
{
    match (a, b) {
        (GateMetadata::EntryOnly, GateMetadata::EntryOnly) => true,
        (
            GateMetadata::Exit { destination: d1, label: l1 },
            GateMetadata::Exit { destination: d2, label: l2 },
        ) => {
            let labels_agree: bool = match (l1, l2) {
                (Option::None, Option::None) => true,
                (Option::Some(s1), Option::Some(s2)) => *s1 == *s2,
                _ => false,
            };
            gate_dest_eq(d1, d2) && labels_agree
        },
        _ => false,
    }
}

} // verus!
