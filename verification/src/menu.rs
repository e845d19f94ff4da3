//! Decision logic of the command-line menus: which entry a line of input
//! selects, and how the pre-game settings are assembled from the selections.
//! Reading the lines and printing the menus is left to the caller.

use vstd::prelude::*;

verus! {

/// A numbered list of options, one of which is marked as the default.
pub struct Menu<T> {
    pub prompt: String,
    pub default: usize,
    pub options: Vec<T>,
}

impl<T> Menu<T> {
    /// The menu offers at least one option and its default is one of them.
    pub open spec fn wf(self) -> bool {
        self.options.len() > 0 && self.default < self.options.len()
    }

    /// The index selected by one line of input: an empty line (`None`) takes
    /// the default, a number takes the option it names, and anything else
    /// selects nothing, so the caller asks again.
    pub fn select_option(&self, input: Option<usize>) -> (r: Option<usize>)
        requires
            self.wf(),
        ensures
            match r {
                Some(i) => i < self.options.len() && match input {
                    None => i == self.default,
                    Some(n) => i == n,
                },
                None => input matches Some(n) && n >= self.options.len(),
            },
    {
        match input {
            None => Some(self.default),
            Some(n) => {
                if n < self.options.len() {
                    Some(n)
                } else {
                    None
                }
            },
        }
    }
}

/// Who plays a colour: a person at the terminal or the machine.
#[derive(Clone, Copy, Debug, PartialEq, Eq, Structural)]
pub enum Player {
    Human,
    Computer,
}

impl Player {
    /// The player's name as shown in prompts.
    pub fn name(&self) -> (r: &'static str) {
        match self {
            Player::Human => "human",
            Player::Computer => "computer",
        }
    }
}

/// The pre-game settings collected from the menus.
#[derive(Clone, Copy, Debug, PartialEq, Eq, Structural)]
pub struct Settings {
    pub black: Player,
    pub white: Player,
    pub board_size: usize,
    pub handicap: usize,
    pub is_gtp_mode: bool,
}

impl Default for Settings {
    /// Two human players on a full-size board, no handicap, interactive mode.
    fn default() -> (s: Settings)
        ensures
            s == (Settings {
                black: Player::Human,
                white: Player::Human,
                board_size: 19,
                handicap: 0,
                is_gtp_mode: false,
            }),
    {
        Settings {
            black: Player::Human,
            white: Player::Human,
            board_size: 19,
            handicap: 0,
            is_gtp_mode: false,
        }
    }
}

impl Settings {
    /// Builds the settings from the menu selections. Choosing text-protocol
    /// mode discards the remaining selections and keeps the defaults.
    pub fn request_new(
        is_gtp_mode: bool,
        black: Player,
        white: Player,
        board_size: usize,
        handicap: usize,
    ) -> (s: Settings)
        ensures
            s.is_gtp_mode == is_gtp_mode,
            is_gtp_mode ==> s == (Settings { is_gtp_mode: true, ..Settings {
                black: Player::Human,
                white: Player::Human,
                board_size: 19,
                handicap: 0,
                is_gtp_mode: false,
            } }),
            !is_gtp_mode ==> s == (Settings { black, white, board_size, handicap, is_gtp_mode }),
    {
        if is_gtp_mode {
            let mut s = Settings::default();
            s.is_gtp_mode = true;
            s
        } else {
            Settings { black, white, board_size, handicap, is_gtp_mode }
        }
    }

    /// The player configured for the given colour.
    pub fn get_player_settings(&self, black_to_move: bool) -> (p: Player)
        ensures
            p == if black_to_move {
                self.black
            } else {
                self.white
            },
    {
        if black_to_move {
            self.black
        } else {
            self.white
        }
    }
}

} // verus!
