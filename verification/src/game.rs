//! The session layered over one board: a quit flag, the round state, and the
//! mapping from discrete input events — quit, restart, pointer presses with
//! pixel coordinates — to board operations.

use vstd::prelude::*;

use crate::matrix::BoardError;
use crate::matrix::Matrix;
use crate::matrix::RevealOutcome;
use crate::matrix::same_board;

verus! {

/// The two pointer buttons the game reacts to.
#[derive(Clone, Copy, Debug, PartialEq, Eq, Structural)]
pub enum MouseButton {
    /// Reveals the pressed square.
    Primary,
    /// Toggles the flag on the pressed square.
    Secondary,
}

/// One discrete input event, already stripped of any windowing detail.
#[derive(Clone, Copy, Debug, PartialEq, Eq, Structural)]
pub enum InputEvent {
    /// Stop the game loop.
    Quit,
    /// Start a new round with the same dimensions and mine count.
    Restart,
    /// A pointer press at pixel position `(x, y)`.
    Press { button: MouseButton, x: i32, y: i32 },
}

/// One game session: a board, the session flags, and the fixed
/// pixels-per-cell scale shared by rendering and input mapping.
pub struct Game {
    map: Matrix,
    running: bool,
    finished: bool,
    won: bool,
    scale: usize,
}

impl Game {
    /// The board of the current round.
    pub closed spec fn map(self) -> Matrix {
        self.map
    }

    /// Whether the game loop should keep going.
    pub closed spec fn running(self) -> bool {
        self.running
    }

    /// Whether the current round is over.
    pub closed spec fn finished(self) -> bool {
        self.finished
    }

    /// Whether the current round was won; meaningful only when finished.
    pub closed spec fn won(self) -> bool {
        self.won
    }

    /// Pixels per cell, as a mathematical integer.
    pub closed spec fn nscale(self) -> int {
        self.scale as int
    }

    /// A well-formed session: a well-formed board, a positive scale, and a
    /// round that can only be won once it is finished.
    pub open spec fn wf(self) -> bool {
        &&& self.map().wf()
        &&& self.nscale() >= 1
        &&& (!self.finished() ==> !self.won())
    }

    /// The grid row a press at pixel height `y` lands in.
    pub open spec fn press_row(self, y: int) -> int {
        y / self.nscale()
    }

    /// The grid column a press at pixel offset `x` lands in.
    pub open spec fn press_col(self, x: int) -> int {
        x / self.nscale()
    }

    /// Whether a press at `(x, y)` lands on the grid at all.
    pub open spec fn press_hits(self, x: int, y: int) -> bool {
        &&& x >= 0
        &&& y >= 0
        &&& self.press_row(y) < self.map().nrows()
        &&& self.press_col(x) < self.map().ncols()
    }

    /// Builds a session around a freshly placed random board. Fails with
    /// `InvalidConfiguration` when the board cannot be built or the scale
    /// is zero.
    pub fn new(rows: usize, cols: usize, scale: usize, bombs: usize) -> (res: Result<
        Game,
        BoardError,
    >)
        ensures
            res is Ok <==> (1 <= rows && 1 <= cols && rows * cols <= usize::MAX && bombs < rows
                * cols && 1 <= scale),
            res matches Ok(g) ==> {
                &&& g.wf()
                &&& g.map().nrows() == rows
                &&& g.map().ncols() == cols
                &&& g.map().nmines() == bombs
                &&& g.map().all_hidden()
                &&& g.nscale() == scale
                &&& g.running()
                &&& !g.finished()
                &&& !g.won()
            },
    {
        if scale == 0 {
            return Err(BoardError::InvalidConfiguration);
        }
        match Matrix::new((rows, cols, bombs)) {
            Ok(map) => Ok(
                Game { map, running: true, finished: false, won: false, scale },
            ),
            Err(e) => Err(e),
        }
    }

    /// Builds a session around a given board, for callers that place the
    /// mines themselves. Fails with `InvalidConfiguration` when the scale
    /// is zero.
    pub fn with_board(map: Matrix, scale: usize) -> (res: Result<Game, BoardError>)
        requires
            map.wf(),
        ensures
            res is Ok <==> 1 <= scale,
            res matches Ok(g) ==> {
                &&& g.wf()
                &&& g.map() == map
                &&& g.nscale() == scale
                &&& g.running()
                &&& !g.finished()
                &&& !g.won()
            },
    {
        if scale == 0 {
            return Err(BoardError::InvalidConfiguration);
        }
        Ok(Game { map, running: true, finished: false, won: false, scale })
    }

    /// Whether the game loop should keep going.
    pub fn is_running(&self) -> (b: bool)
        ensures
            b == self.running(),
    {
        self.running
    }

    /// Whether the current round is over.
    pub fn is_finished(&self) -> (b: bool)
        ensures
            b == self.finished(),
    {
        self.finished
    }

    /// Whether the current round was won; meaningful only when finished.
    pub fn has_won(&self) -> (b: bool)
        ensures
            b == self.won(),
    {
        self.won
    }

    /// Pixels per cell.
    pub fn scale(&self) -> (s: usize)
        ensures
            s == self.nscale(),
    {
        self.scale
    }

    /// The board of the current round, for a renderer to read.
    pub fn board(&self) -> (m: &Matrix)
        ensures
            *m == self.map(),
    {
        &self.map
    }

    /// Feeds one input event into the session. A quit event stops the loop;
    /// a restart event starts a fresh round on a new board with the same
    /// configuration; a press event is ignored once the round is over or
    /// when it lands outside the grid, and otherwise reveals or flags the
    /// pressed square, ending the round when a mine is hit or the last
    /// clear square is revealed.
    pub fn handle_event(&mut self, ev: InputEvent)
        requires
            old(self).wf(),
        ensures
            final(self).wf(),
            final(self).nscale() == old(self).nscale(),
            final(self).map().nrows() == old(self).map().nrows(),
            final(self).map().ncols() == old(self).map().ncols(),
            final(self).map().nmines() == old(self).map().nmines(),
            ev is Quit ==> (!final(self).running() && final(self).map() == old(self).map()
                && final(self).finished() == old(self).finished() && final(self).won() == old(self).won()),
            ev is Restart ==> (final(self).running() == old(self).running() && !final(self).finished() && !final(self).won() && final(self).map().all_hidden()),
            ev is Press ==> final(self).running() == old(self).running(),
            (ev is Press && old(self).finished()) ==> *final(self) == *old(self),
            ev matches InputEvent::Press { button, x, y } && !old(self).finished() && !old(
                self,
            ).press_hits(x as int, y as int) ==> *final(self) == *old(self),
            ev matches InputEvent::Press { button: MouseButton::Secondary, x, y } ==> ((!old(
                self,
            ).finished() && old(self).press_hits(x as int, y as int)) ==> ({
                let r = old(self).press_row(y as int);
                let c = old(self).press_col(x as int);
                &&& final(self).finished() == old(self).finished()
                &&& final(self).won() == old(self).won()
                &&& same_board(old(self).map(), final(self).map())
                &&& forall|a: int, b: int|
                    #[trigger] final(self).map().revealed(a, b) == old(self).map().revealed(a, b)
                &&& forall|a: int, b: int|
                    (a != r || b != c) ==> #[trigger] final(self).map().flagged(a, b) == old(self).map().flagged(a, b)
                &&& final(self).map().flagged(r, c) == (!old(self).map().revealed(r, c) && !old(self).map().flagged(r, c))
            })),
            ev matches InputEvent::Press { button: MouseButton::Primary, x, y } ==> ((!old(
                self,
            ).finished() && old(self).press_hits(x as int, y as int)) ==> ({
                let r = old(self).press_row(y as int);
                let c = old(self).press_col(x as int);
                let out = old(self).map().spec_outcome(r, c);
                &&& same_board(old(self).map(), final(self).map())
                &&& final(self).finished() == (out is HitMine || out is Won)
                &&& final(self).won() == (out is Won)
                &&& (old(self).map().revealed(r, c) ==> final(self).map() == old(self).map())
                &&& (!old(self).map().revealed(r, c) ==> forall|a: int, b: int|
                    #[trigger] final(self).map().revealed(a, b) <==> (old(self).map().revealed(
                        a,
                        b,
                    ) || old(self).map().fill_reaches(r, c, a, b)))
                &&& (!old(self).map().revealed(r, c) ==> forall|a: int, b: int|
                    #[trigger] final(self).map().flagged(a, b) <==> (old(self).map().flagged(a, b)
                        && !old(self).map().fill_reaches(r, c, a, b)))
            })),
    {
        match ev {
            InputEvent::Quit => {
                self.running = false;
            },
            InputEvent::Restart => {
                let size = self.map.size();
                let bombs = self.map.mine_count();
                match Matrix::new((size.0, size.1, bombs)) {
                    Ok(map) => {
                        self.map = map;
                        self.finished = false;
                        self.won = false;
                    },
                    Err(_) => {
                        proof {
                            assert(false);
                        }
                    },
                }
            },
            InputEvent::Press { button, x, y } => {
                if self.finished {
                    return;
                }
                if x < 0 || y < 0 {
                    return;
                }
                let ux: usize = x as usize;
                let uy: usize = y as usize;
                let row: usize = uy / self.scale;
                let col: usize = ux / self.scale;
                if row < self.map.rows() && col < self.map.cols() {
                    match button {
                        MouseButton::Primary => {
                            let out = self.map.update_state(row, col);
                            match out {
                                RevealOutcome::HitMine => {
                                    self.finished = true;
                                    self.won = false;
                                },
                                RevealOutcome::Won => {
                                    self.finished = true;
                                    self.won = true;
                                },
                                RevealOutcome::Revealed => {},
                                RevealOutcome::NoOp => {},
                            }
                        },
                        MouseButton::Secondary => {
                            self.map.toggle_flag(row, col);
                        },
                    }
                }
            },
        }
    }
}

} // verus!
