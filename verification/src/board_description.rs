use vstd::prelude::*;

verus! {

/// Which of the two fitness scores a search run uses.
#[derive(Clone, Copy, Debug, PartialEq, Eq, Structural, Hash)]
pub enum GameMode {
    FindExit,
    FindPerfectPath,
}

impl GameMode {
    pub open spec fn spec_from_code(code: int) -> GameMode {
        if code == 0 {
            GameMode::FindExit
        } else {
            GameMode::FindPerfectPath
        }
    }

    pub fn from_code(code: isize) -> (r: GameMode)
        ensures
            r == GameMode::spec_from_code(code as int),
    {
        if code == 0 {
            GameMode::FindExit
        } else {
            GameMode::FindPerfectPath
        }
    }

    pub open spec fn spec_code(&self) -> isize {
        if self is FindExit {
            0
        } else {
            1
        }
    }

    pub fn code(&self) -> (r: isize)
        ensures
            r == self.spec_code(),
    {
        if let GameMode::FindExit = self {
            0
        } else {
            1
        }
    }
}

/// The knobs a search run is started with: the sampled size range, the
/// density ranges of the stamped features, and the fitness mode.
#[derive(Clone, Copy, Debug, PartialEq, Eq, Structural, Hash)]
pub struct BoardDescription {
    pub size_range_min: isize,
    pub size_range_max: isize,
    pub weak_walls_percentage_min: isize,
    pub weak_walls_percentage_max: isize,
    pub pilars_percentage_min: isize,
    pub pilars_percentage_max: isize,
    pub box_percentage_min: isize,
    pub box_percentage_max: isize,
    pub vignet_percentage_min: isize,
    pub vignet_percentage_max: isize,
    pub game_mode: GameMode,
}

impl BoardDescription {
    /// Rebuilds a description from the flat list produced by `as_list`.
    pub fn from_list(data: Vec<isize>) -> (r: BoardDescription)
        requires
            data@.len() >= 11,
        ensures
            r.size_range_min == data@[0],
            r.size_range_max == data@[1],
            r.weak_walls_percentage_min == data@[2],
            r.weak_walls_percentage_max == data@[3],
            r.pilars_percentage_min == data@[4],
            r.pilars_percentage_max == data@[5],
            r.box_percentage_min == data@[6],
            r.box_percentage_max == data@[7],
            r.vignet_percentage_min == data@[8],
            r.vignet_percentage_max == data@[9],
            r.game_mode == GameMode::spec_from_code(data@[10] as int),
    {
        BoardDescription {
            size_range_min: data[0],
            size_range_max: data[1],
            weak_walls_percentage_min: data[2],
            weak_walls_percentage_max: data[3],
            pilars_percentage_min: data[4],
            pilars_percentage_max: data[5],
            box_percentage_min: data[6],
            box_percentage_max: data[7],
            vignet_percentage_min: data[8],
            vignet_percentage_max: data[9],
            game_mode: GameMode::from_code(data[10]),
        }
    }

    /// Flattens the description to a plain list of integers, inverse of
    /// `from_list`.
    pub fn as_list(&self) -> (r: Vec<isize>)
        ensures
            r@ == seq![
                self.size_range_min,
                self.size_range_max,
                self.weak_walls_percentage_min,
                self.weak_walls_percentage_max,
                self.pilars_percentage_min,
                self.pilars_percentage_max,
                self.box_percentage_min,
                self.box_percentage_max,
                self.vignet_percentage_min,
                self.vignet_percentage_max,
                self.game_mode.spec_code(),
            ],
    {
        let mut r: Vec<isize> = Vec::new();
        r.push(self.size_range_min);
        r.push(self.size_range_max);
        r.push(self.weak_walls_percentage_min);
        r.push(self.weak_walls_percentage_max);
        r.push(self.pilars_percentage_min);
        r.push(self.pilars_percentage_max);
        r.push(self.box_percentage_min);
        r.push(self.box_percentage_max);
        r.push(self.vignet_percentage_min);
        r.push(self.vignet_percentage_max);
        r.push(self.game_mode.code());
        assert(r@ =~= seq![
            self.size_range_min,
            self.size_range_max,
            self.weak_walls_percentage_min,
            self.weak_walls_percentage_max,
            self.pilars_percentage_min,
            self.pilars_percentage_max,
            self.box_percentage_min,
            self.box_percentage_max,
            self.vignet_percentage_min,
            self.vignet_percentage_max,
            self.game_mode.spec_code(),
        ]);
        r
    }
}

} // verus!
