use vstd::prelude::*;

verus! {

/// The validated startup configuration: board dimensions, the tick-speed
/// setting (larger is faster) and the number of food cells to keep on
/// the board.
#[derive(Debug, Clone, Copy, PartialEq, Eq, Structural)]
pub struct Config {
    pub board_width: usize,
    pub board_height: usize,
    pub speed: u64,
    pub num_food: u32,
}

/// Why a requested configuration was rejected before the game started.
#[derive(Debug, Clone, Copy, PartialEq, Eq, Structural)]
pub enum ConfigError {
    ZeroWidth,
    ZeroHeight,
    BoardTooLarge,
    TooMuchFood,
}

impl Config {
    /// Validates the four startup numbers: both dimensions must be
    /// positive, the board must have an addressable cell count, and the
    /// requested food may cover at most half of the board.
    pub fn new(board_width: usize, board_height: usize, speed: u64, num_food: u32) -> (r: Result<
        Config,
        ConfigError,
    >)
        ensures
            r is Ok <==> (board_width > 0 && board_height > 0 && board_width * board_height
                <= usize::MAX && num_food <= (board_width * board_height) / 2),
            r matches Ok(c) ==> c == (Config { board_width, board_height, speed, num_food }),
            r matches Err(e) ==> e == (if board_width == 0 {
                ConfigError::ZeroWidth
            } else if board_height == 0 {
                ConfigError::ZeroHeight
            } else if board_width * board_height > usize::MAX {
                ConfigError::BoardTooLarge
            } else {
                ConfigError::TooMuchFood
            }),
    {
        if board_width == 0 {
            return Err(ConfigError::ZeroWidth);
        }
        if board_height == 0 {
            return Err(ConfigError::ZeroHeight);
        }
        let area: usize = match board_width.checked_mul(board_height) {
            Some(a) => a,
            None => {
                return Err(ConfigError::BoardTooLarge);
            },
        };
        if num_food as u64 > (area / 2) as u64 {
            return Err(ConfigError::TooMuchFood);
        }
        Ok(Config { board_width, board_height, speed, num_food })
    }

    /// The length of one tick in milliseconds: a fixed base of one second
    /// shortened by the speed setting, which counts for at most 999.
    pub fn tick_ms(&self) -> (r: u64)
        ensures
            r == 1000 - (if self.speed > 999 {
                999u64
            } else {
                self.speed
            }),
            1 <= r <= 1000,
    {
        let s: u64 = if self.speed > 999 {
            999
        } else {
            self.speed
        };
        1000 - s
    }

    /// Whether a terminal with the given cell size can show the bordered
    /// board (two columns per cell plus borders) with the header line and
    /// the message lines beneath.
    pub fn fits_terminal(&self, term_width: usize, term_height: usize) -> (r: bool)
        ensures
            r == ((self.board_width + 1) * 2 <= term_width && self.board_height + 3
                <= term_height),
    {
        let wide_enough = (self.board_width as u128 + 1) * 2 <= term_width as u128;
        let tall_enough = self.board_height as u128 + 3 <= term_height as u128;
        wide_enough && tall_enough
    }
}

} // verus!
