//! The course of a game: waiting to start, playing, paused, over. The keys of
//! each frame drive it from one state to the next.

use crate::board::Board;
use crate::grid::Heading;
use crate::keys::KeyStates;
use crate::tile_map::TileMap;
use vstd::prelude::*;

verus! {

/// Where the game stands.
#[derive(Clone, Copy, PartialEq, Eq, Structural, Debug)]
pub enum GameState {
    Starting,
    Playing,
    GameOver,
    Paused,
}

impl GameState {
    /// The state after a frame with `keys`; `over` says whether the board,
    /// after that frame, leaves nothing to play.
    ///
    /// Space starts a game, pauses it and resumes it. A game ends when the
    /// board is full and still, or when the player gives up; ending comes
    /// before pausing.
    pub open spec fn after(self, keys: KeyStates, over: bool) -> GameState {
        match self {
            GameState::Starting | GameState::GameOver => if keys.space {
                GameState::Playing
            } else {
                self
            },
            GameState::Playing => if over || keys.r {
                GameState::GameOver
            } else if keys.space {
                GameState::Paused
            } else {
                GameState::Playing
            },
            GameState::Paused => if keys.space {
                GameState::Playing
            } else {
                GameState::Paused
            },
        }
    }

    /// Whether a frame with `keys` begins a new game.
    pub open spec fn begins(self, keys: KeyStates) -> bool {
        (self is Starting || self is GameOver) && keys.space
    }

    /// The state after a frame with `keys`.
    pub fn next(self, keys: &KeyStates, over: bool) -> (s: GameState)
        ensures
            s == self.after(*keys, over),
    {
        match self {
            GameState::Starting | GameState::GameOver => if keys.space {
                GameState::Playing
            } else {
                self
            },
            GameState::Playing => if over || keys.r {
                GameState::GameOver
            } else if keys.space {
                GameState::Paused
            } else {
                GameState::Playing
            },
            GameState::Paused => if keys.space {
                GameState::Playing
            } else {
                GameState::Paused
            },
        }
    }

    /// The line that tells the player what space does now; nothing while the
    /// game is played.
    pub fn main_text(self) -> (text: &'static str)
        ensures
            self is Starting ==> text@ == "Press Space to Start"@,
            self is Paused ==> text@ == "Press Space to Resume"@,
            self is GameOver ==> text@ == "Press Space to Restart"@,
            self is Playing ==> text@ == ""@,
    {
        match self {
            GameState::Starting => "Press Space to Start",
            GameState::Paused => "Press Space to Resume",
            GameState::GameOver => "Press Space to Restart",
            GameState::Playing => "",
        }
    }

    /// The line that names the state; nothing before the first game and while
    /// the game is played.
    pub fn subtitle_text(self) -> (text: &'static str)
        ensures
            self is Paused ==> text@ == "Game Paused"@,
            self is GameOver ==> text@ == "Game Over"@,
            self is Starting || self is Playing ==> text@ == ""@,
    {
        match self {
            GameState::Paused => "Game Paused",
            GameState::GameOver => "Game Over",
            _ => "",
        }
    }
}

/// The mathematical view of a game.
pub struct GameView {
    /// Where the game stands.
    pub state: GameState,
    /// The board.
    pub board: Board,
    /// The score after the last frame that was played, if any was.
    pub score: Option<int>,
}

impl GameView {
    /// Whether `next` can be the game one frame after `self` under `keys`.
    ///
    /// Only a game that is being played runs its board. A frame that begins a
    /// game puts a fresh board in place of the old one.
    pub open spec fn tick_result(self, keys: KeyStates, next: GameView) -> bool {
        match self.state {
            GameState::Playing => {
                &&& self.board.step_result(keys, next.board)
                &&& next.score matches Some(s) && next.board.is_score(s)
                &&& next.state == self.state.after(keys, next.board.game_over())
            },
            _ => {
                &&& next.state == self.state.after(keys, false)
                &&& next.score == self.score
                &&& if self.state.begins(keys) {
                    next.board.fresh()
                } else {
                    next.board == self.board
                }
            },
        }
    }
}

/// A game: its board and where it stands.
pub struct Game {
    state: GameState,
    tile_map: TileMap,
    score: Option<i32>,
}

impl View for Game {
    type V = GameView;

    closed spec fn view(&self) -> GameView {
        GameView {
            state: self.state,
            board: self.tile_map@,
            score: match self.score {
                Some(s) => Some(s as int),
                None => None,
            },
        }
    }
}

impl Game {
    /// A game that waits to be started, with an empty board and no score.
    pub fn new() -> (g: Game)
        ensures
            g@ == (GameView {
                state: GameState::Starting,
                board: Board { tiles: Seq::empty(), dir: Heading::Idle, settled: true },
                score: None,
            }),
    {
        Game { state: GameState::Starting, tile_map: TileMap::new(), score: None }
    }

    /// Runs the game for one frame.
    pub fn tick(&mut self, keys: &KeyStates)
        ensures
            old(self)@.tick_result(*keys, final(self)@),
            final(self)@.board.wf(),
    {
        match self.state {
            GameState::Playing => {
                self.tile_map.update(keys);
                self.score = Some(self.tile_map.get_score());
                let over: bool = self.tile_map.is_game_over();
                self.state = self.state.next(keys, over);
            },
            GameState::Starting | GameState::GameOver => {
                if keys.space {
                    self.tile_map.start();
                } else {
                    let n: usize = self.tile_map.len();
                }
                self.state = self.state.next(keys, false);
            },
            GameState::Paused => {
                let n: usize = self.tile_map.len();
                self.state = self.state.next(keys, false);
            },
        }
    }

    /// Where the game stands.
    pub fn state(&self) -> (s: GameState)
        ensures
            s == self@.state,
    {
        self.state
    }

    /// The board.
    pub fn tile_map(&self) -> (m: &TileMap)
        ensures
            m@ == self@.board,
    {
        &self.tile_map
    }

    /// The score after the last frame that was played, if any was.
    pub fn score(&self) -> (s: Option<i32>)
        ensures
            self@.score == match s {
                Some(v) => Some(v as int),
                None => None,
            },
    {
        self.score
    }
}

} // verus!
