use vstd::prelude::*;

verus! {

/// The supported board sizes: 9x9, 13x13 and 19x19.
#[derive(Debug, Clone, Copy, PartialEq, Eq, Structural)]
pub enum BoardSize {
    Nine,
    Thirteen,
    Nineteen,
}

impl BoardSize {
    /// The number of lines on each side of the board.
    pub open spec fn spec_value(self) -> int {
        match self {
            BoardSize::Nine => 9,
            BoardSize::Thirteen => 13,
            BoardSize::Nineteen => 19,
        }
    }

    /// The star points (hoshi) of this board size, as (row, column) pairs.
    pub open spec fn spec_star_points(self) -> Seq<(i32, i32)> {
        match self {
            BoardSize::Nine => seq![(2, 2), (2, 6), (4, 4), (6, 2), (6, 6)],
            BoardSize::Thirteen => seq![(3, 3), (3, 9), (6, 6), (9, 3), (9, 9)],
            BoardSize::Nineteen => seq![
                (3, 3), (3, 9), (3, 15),
                (9, 3), (9, 9), (9, 15),
                (15, 3), (15, 9), (15, 15),
            ],
        }
    }

    pub fn get_value(&self) -> (r: i32)
        ensures
            r == self.spec_value(),
            9 <= r <= 19,
    {
        match self {
            BoardSize::Nine => 9,
            BoardSize::Thirteen => 13,
            BoardSize::Nineteen => 19,
        }
    }

    pub fn get_star_points(&self) -> (r: Vec<(i32, i32)>)
        ensures
            r@ == self.spec_star_points(),
    {
        let r = match self {
            BoardSize::Nine => vec![(2, 2), (2, 6), (4, 4), (6, 2), (6, 6)],
            BoardSize::Thirteen => vec![(3, 3), (3, 9), (6, 6), (9, 3), (9, 9)],
            BoardSize::Nineteen => vec![
                (3, 3), (3, 9), (3, 15),
                (9, 3), (9, 9), (9, 15),
                (15, 3), (15, 9), (15, 15),
            ],
        };
        proof {
            assert(r@ =~= self.spec_star_points());
        }
        r
    }
}

/// The settings of a board: its size, what is shown, and which rules apply.
#[derive(Debug, Clone, Copy, PartialEq, Eq, Structural)]
pub struct GoBoardConfig {
    pub board_size: BoardSize,
    pub show_coordinates: bool,
    pub show_move_numbers: bool,
    pub use_3d_stones: bool,
    pub adaptive_padding: bool,
    pub enable_hover_indicator: bool,
    pub enable_sound: bool,
    /// Take stones that lose their last liberty, and refuse suicide.
    pub enable_captures: bool,
    /// Mark the ko point after a single-stone capture and refuse an
    /// immediate retake there.
    pub enable_ko_rule: bool,
}

/// The default settings: a 19x19 board with coordinates shown, flat
/// stones, adaptive padding, hover hints, no sound, captures and ko on.
pub open spec fn default_config() -> GoBoardConfig {
    GoBoardConfig {
        board_size: BoardSize::Nineteen,
        show_coordinates: true,
        show_move_numbers: false,
        use_3d_stones: false,
        adaptive_padding: true,
        enable_hover_indicator: true,
        enable_sound: false,
        enable_captures: true,
        enable_ko_rule: true,
    }
}

impl Default for GoBoardConfig {
    fn default() -> (r: GoBoardConfig)
        ensures
            r == default_config(),
    {
        GoBoardConfig {
            board_size: BoardSize::Nineteen,
            show_coordinates: true,
            show_move_numbers: false,
            use_3d_stones: false,
            adaptive_padding: true,
            enable_hover_indicator: true,
            enable_sound: false,
            enable_captures: true,
            enable_ko_rule: true,
        }
    }
}

/// Builds a `GoBoardConfig` from the defaults, one setting at a time.
pub struct GoBoardConfigBuilder {
    config: GoBoardConfig,
}

impl View for GoBoardConfigBuilder {
    type V = GoBoardConfig;

    closed spec fn view(&self) -> GoBoardConfig {
        self.config
    }
}

impl GoBoardConfigBuilder {
    pub fn new() -> (r: GoBoardConfigBuilder)
        ensures
            r@ == default_config(),
    {
        GoBoardConfigBuilder { config: GoBoardConfig::default() }
    }

    pub fn board_size(self, size: BoardSize) -> (r: GoBoardConfigBuilder)
        ensures
            r@ == (GoBoardConfig { board_size: size, ..self@ }),
    {
        let mut b = self;
        b.config.board_size = size;
        b
    }

    pub fn show_coordinates(self, show: bool) -> (r: GoBoardConfigBuilder)
        ensures
            r@ == (GoBoardConfig { show_coordinates: show, ..self@ }),
    {
        let mut b = self;
        b.config.show_coordinates = show;
        b
    }

    pub fn show_move_numbers(self, show: bool) -> (r: GoBoardConfigBuilder)
        ensures
            r@ == (GoBoardConfig { show_move_numbers: show, ..self@ }),
    {
        let mut b = self;
        b.config.show_move_numbers = show;
        b
    }

    pub fn enable_captures(self, enable: bool) -> (r: GoBoardConfigBuilder)
        ensures
            r@ == (GoBoardConfig { enable_captures: enable, ..self@ }),
    {
        let mut b = self;
        b.config.enable_captures = enable;
        b
    }

    pub fn enable_ko_rule(self, enable: bool) -> (r: GoBoardConfigBuilder)
        ensures
            r@ == (GoBoardConfig { enable_ko_rule: enable, ..self@ }),
    {
        let mut b = self;
        b.config.enable_ko_rule = enable;
        b
    }

    pub fn build(self) -> (r: GoBoardConfig)
        ensures
            r == self@,
    {
        self.config
    }
}

} // verus!
