//! The board engine: a pure state machine over a rectangular grid of cells.
//!
//! The engine owns mine placement (lazy, keeping the first-revealed cell and
//! its neighbours mine-free), the adjacency counts, the flood-fill reveal of
//! zero-adjacency regions, cursor navigation, marking, and the
//! Playing -> GameOver | Won transitions. It performs no I/O; a presentation
//! layer feeds it discrete commands and reads its cells back for display.
use vstd::prelude::*;

use crate::Field;
use crate::counting::grid_count;
use crate::counting::lemma_grid_count_at;
use crate::counting::lemma_grid_count_complement;
use crate::counting::lemma_grid_count_congruent;
use crate::counting::lemma_grid_count_uniform;
use crate::counting::lemma_grid_count_update;
use crate::counting::uniform_width;

verus! {

/// Which screen the surrounding application shows.
#[derive(Clone, Copy, PartialEq, Eq, Structural, Debug)]
pub enum AppState {
    TitleScreen,
    GameScreen,
}

/// Match progress: `Playing` until a mine is revealed (`GameOver`) or every
/// safe cell is revealed (`Won`); both end states are terminal.
#[derive(Clone, Copy, PartialEq, Eq, Structural, Debug)]
pub enum GameState {
    Playing,
    GameOver,
    Won,
}

/// A discrete player action, as the engine understands it. The presentation
/// layer translates raw input events into these.
#[derive(Clone, Copy, PartialEq, Eq, Structural, Debug)]
pub enum Command {
    MoveLeft,
    MoveDown,
    MoveUp,
    MoveRight,
    ToggleMark,
    Reveal,
}

/// One row of the board.
pub struct Row {
    pub fields: Vec<Field>,
}

/// The whole game: board, cursor, mine bookkeeping and match state.
pub struct Termsweeper {
    pub columns: u8,
    pub rows: u8,
    pub number_of_mines: u16,
    pub fields_left_to_reveal: u16,
    pub board: Vec<Row>,
    pub cursor: (u8, u8),
    pub initialized: bool,
    pub game_state: GameState,
}

/// Cells counted by the mine invariant.
pub open spec fn p_mine() -> spec_fn(Field) -> bool {
    |f: Field| f.is_mine
}

/// Cells counted by `fields_left_to_reveal`: safe and still hidden.
pub open spec fn p_hidden_safe() -> spec_fn(Field) -> bool {
    |f: Field| !f.revealed && !f.is_mine
}

impl Termsweeper {
    /// The board as a sequence of rows of cells.
    pub open spec fn grid(self) -> Seq<Seq<Field>> {
        self.board@.map_values(|r: Row| r.fields@)
    }

    pub open spec fn cell(self, r: int, c: int) -> Field {
        self.grid()[r][c]
    }

    pub open spec fn in_bounds(self, r: int, c: int) -> bool {
        0 <= r < self.rows as int && 0 <= c < self.columns as int
    }

    pub open spec fn total(self) -> int {
        (self.rows as int) * (self.columns as int)
    }

    /// `(nr, nc)` is a valid cell distinct from `(r, c)` and at most one step
    /// away in each coordinate.
    pub open spec fn is_neighbor(self, r: int, c: int, nr: int, nc: int) -> bool {
        &&& self.in_bounds(nr, nc)
        &&& !(nr == r && nc == c)
        &&& -1 <= nr - r <= 1
        &&& -1 <= nc - c <= 1
    }

    /// 1 if `(r, c)` is a valid cell holding a mine, else 0.
    pub open spec fn mine_at(self, r: int, c: int) -> int {
        if self.in_bounds(r, c) && self.cell(r, c).is_mine {
            1int
        } else {
            0int
        }
    }

    /// The exact number of mines among the valid neighbours of `(r, c)`.
    /// Opaque: proofs unfold it only where the eight summands matter.
    #[verifier::opaque]
    pub open spec fn adj_mines(self, r: int, c: int) -> int {
        self.mine_at(r, c - 1) + self.mine_at(r - 1, c - 1) + self.mine_at(r + 1, c - 1)
            + self.mine_at(r - 1, c) + self.mine_at(r + 1, c) + self.mine_at(r, c + 1)
            + self.mine_at(r - 1, c + 1) + self.mine_at(r + 1, c + 1)
    }

    /// 1 if `(r, c)` is a valid cell, else 0.
    pub open spec fn nb_at(self, r: int, c: int) -> int {
        if self.in_bounds(r, c) {
            1int
        } else {
            0int
        }
    }

    /// The number of valid neighbours of `(r, c)` (3 at a corner, 8 inside).
    pub open spec fn neighbor_count(self, r: int, c: int) -> int {
        self.nb_at(r, c - 1) + self.nb_at(r - 1, c - 1) + self.nb_at(r + 1, c - 1) + self.nb_at(
            r - 1,
            c,
        ) + self.nb_at(r + 1, c) + self.nb_at(r, c + 1) + self.nb_at(r - 1, c + 1) + self.nb_at(
            r + 1,
            c + 1,
        )
    }

    /// The valid neighbours of `(r, c)` as a single coordinate, or empty.
    pub open spec fn nb_opt(self, r: int, c: int) -> Seq<(u8, u8)> {
        if self.in_bounds(r, c) {
            seq![(r as u8, c as u8)]
        } else {
            Seq::empty()
        }
    }

    /// The valid neighbours of `(r, c)`, in the fixed order the engine
    /// enumerates them: the left column top to bottom is preceded by the left
    /// cell, then above, below, and the right column.
    pub open spec fn adjacent_seq(self, r: int, c: int) -> Seq<(u8, u8)> {
        self.nb_opt(r, c - 1) + self.nb_opt(r - 1, c - 1) + self.nb_opt(r + 1, c - 1) + self.nb_opt(
            r - 1,
            c,
        ) + self.nb_opt(r + 1, c) + self.nb_opt(r, c + 1) + self.nb_opt(r - 1, c + 1) + self.nb_opt(
            r + 1,
            c + 1,
        )
    }

    /// The grid is rectangular with the declared dimensions.
    pub open spec fn board_wf(self) -> bool {
        &&& self.rows >= 1
        &&& self.columns >= 1
        &&& self.grid().len() == self.rows as int
        &&& uniform_width(self.grid(), self.columns as int)
    }

    pub open spec fn cursor_wf(self) -> bool {
        self.in_bounds(self.cursor.0 as int, self.cursor.1 as int)
    }

    /// Before the first reveal no mine is placed, nothing is revealed, and
    /// every adjacency count is still 0.
    pub open spec fn blank_wf(self) -> bool {
        !self.initialized ==> {
            &&& forall|r: int, c: int|
                self.in_bounds(r, c) ==> {
                    &&& !(#[trigger] self.cell(r, c)).revealed
                    &&& !self.cell(r, c).is_mine
                    &&& self.cell(r, c).adjacent_mines == 0
                }
            &&& self.fields_left_to_reveal == 0
            &&& self.game_state == GameState::Playing
        }
    }

    /// After initialization every cell carries its exact adjacency count.
    pub open spec fn adj_wf(self) -> bool {
        self.initialized ==> forall|r: int, c: int|
            self.in_bounds(r, c) ==> (#[trigger] self.cell(r, c)).adjacent_mines as int
                == self.adj_mines(r, c)
    }

    /// The executable counters agree with the grid contents.
    pub open spec fn counts_wf(self) -> bool {
        &&& (self.initialized ==> self.number_of_mines as int == grid_count(self.grid(), p_mine()))
        &&& (self.initialized && self.game_state == GameState::Playing
            ==> self.fields_left_to_reveal as int == grid_count(self.grid(), p_hidden_safe()))
    }

    pub open spec fn all_revealed(self) -> bool {
        forall|r: int, c: int|
            self.in_bounds(r, c) ==> (#[trigger] self.cell(r, c)).revealed
    }

    /// The state machine: terminal states show the whole board; during play no
    /// mine is revealed and at least one safe cell is still hidden.
    pub open spec fn state_wf(self) -> bool {
        &&& (self.game_state != GameState::Playing ==> self.initialized && self.all_revealed())
        &&& (self.game_state == GameState::Playing && self.initialized
            ==> self.fields_left_to_reveal >= 1)
        &&& (self.game_state == GameState::Playing ==> forall|r: int, c: int|
            self.in_bounds(r, c) && (#[trigger] self.cell(r, c)).is_mine ==> !self.cell(
                r,
                c,
            ).revealed)
        &&& (self.game_state == GameState::Won ==> self.fields_left_to_reveal == 0)
    }

    /// Flood-fill closure: a revealed zero-adjacency safe cell has every
    /// neighbour revealed, so the boundary of a revealed region consists of
    /// cells with a positive count (or mines, once the match is over).
    pub open spec fn zero_closed(self) -> bool {
        forall|r: int, c: int, nr: int, nc: int|
            self.in_bounds(r, c) && self.cell(r, c).revealed && !self.cell(r, c).is_mine
                && self.cell(r, c).adjacent_mines == 0 && #[trigger] self.is_neighbor(r, c, nr, nc)
                ==> self.cell(nr, nc).revealed
    }

    /// The full invariant, established by `new` and kept by every command.
    pub open spec fn wf(self) -> bool {
        &&& self.board_wf()
        &&& self.cursor_wf()
        &&& self.blank_wf()
        &&& self.adj_wf()
        &&& self.counts_wf()
        &&& self.state_wf()
        &&& self.zero_closed()
    }

    /// `post` differs from `pre` at most in the board contents.
    pub open spec fn same_except_board(pre: Termsweeper, post: Termsweeper) -> bool {
        post == (Termsweeper { board: post.board, ..pre })
    }

    /// A fresh game: the requested dimensions, the cursor at the origin,
    /// nothing placed or revealed yet.
    pub fn new(columns: u8, rows: u8, number_of_mines: u16) -> (game: Termsweeper)
        requires
            columns >= 1,
            rows >= 1,
        ensures
            game.wf(),
            game.columns == columns,
            game.rows == rows,
            game.number_of_mines == number_of_mines,
            game.fields_left_to_reveal == 0,
            game.cursor == ((0u8, 0u8)),
            !game.initialized,
            game.game_state == GameState::Playing,
            forall|r: int, c: int|
                game.in_bounds(r, c) ==> #[trigger] game.cell(r, c) == (Field {
                    revealed: false,
                    marked: false,
                    is_mine: false,
                    adjacent_mines: 0u8,
                }),
    {
        let mut board: Vec<Row> = Vec::new();
        let mut r: u8 = 0;
        while r < rows
            invariant
                r <= rows,
                board@.len() == r as int,
                forall|i: int|
                    0 <= i < r as int ==> (#[trigger] board@[i]).fields@.len() == columns as int,
                forall|i: int, j: int|
                    0 <= i < r as int && 0 <= j < columns as int ==> #[trigger] board@[i].fields@[j]
                        == (Field {
                        revealed: false,
                        marked: false,
                        is_mine: false,
                        adjacent_mines: 0u8,
                    }),
            decreases rows - r,
        {
            let mut fields: Vec<Field> = Vec::new();
            let mut c: u8 = 0;
            while c < columns
                invariant
                    c <= columns,
                    fields@.len() == c as int,
                    forall|j: int|
                        0 <= j < c as int ==> #[trigger] fields@[j] == (Field {
                            revealed: false,
                            marked: false,
                            is_mine: false,
                            adjacent_mines: 0u8,
                        }),
                decreases columns - c,
            {
                fields.push(Field::new());
                c = c + 1;
            }
            board.push(Row { fields });
            r = r + 1;
        }
        let game = Termsweeper {
            columns,
            rows,
            number_of_mines,
            fields_left_to_reveal: 0,
            board,
            cursor: (0, 0),
            initialized: false,
            game_state: GameState::Playing,
        };
        proof {
            assert forall|i: int, j: int| game.in_bounds(i, j) implies #[trigger] game.cell(i, j)
                == (Field { revealed: false, marked: false, is_mine: false, adjacent_mines: 0u8 })
            by {
                assert(game.grid()[i] == game.board@[i].fields@);
            }
            assert forall|i: int| 0 <= i < game.grid().len() implies (#[trigger] game.grid()[i]).len()
                == game.columns as int by {
                assert(game.grid()[i] == game.board@[i].fields@);
            }
        }
        game
    }

    /// The standard match the application starts: a fresh `new(45, 18, 75)`.
    pub fn default() -> (game: Termsweeper)
        ensures
            game.wf(),
            game.columns == 45,
            game.rows == 18,
            game.number_of_mines == 75,
            game.fields_left_to_reveal == 0,
            game.cursor == ((0u8, 0u8)),
            !game.initialized,
            game.game_state == GameState::Playing,
            forall|r: int, c: int|
                game.in_bounds(r, c) ==> #[trigger] game.cell(r, c) == (Field {
                    revealed: false,
                    marked: false,
                    is_mine: false,
                    adjacent_mines: 0u8,
                }),
    {
        Self::new(45, 18, 75)
    }

    /// Read one cell.
    pub fn get_field(&self, location: (u8, u8)) -> (f: &Field)
        requires
            self.board_wf(),
            self.in_bounds(location.0 as int, location.1 as int),
        ensures
            *f == self.cell(location.0 as int, location.1 as int),
    {
        proof {
            assert(self.grid()[location.0 as int] == self.board@[location.0 as int].fields@);
        }
        &self.board[location.0 as usize].fields[location.1 as usize]
    }

    /// Overwrite one cell; everything else is untouched.
    fn set_field(&mut self, location: (u8, u8), f: Field)
        requires
            old(self).board_wf(),
            old(self).in_bounds(location.0 as int, location.1 as int),
        ensures
            final(self).board_wf(),
            Self::same_except_board(*old(self), *final(self)),
            final(self).grid() == old(self).grid().update(
                location.0 as int,
                old(self).grid()[location.0 as int].update(location.1 as int, f),
            ),
    {
        let ghost pre = *self;
        let r = location.0 as usize;
        let c = location.1 as usize;
        proof {
            assert(pre.grid()[r as int] == pre.board@[r as int].fields@);
        }
        self.board[r].fields[c] = f;
        proof {
            assert forall|i: int| 0 <= i < self.board@.len() implies (#[trigger] self.grid()[i])
                == if i == r as int {
                pre.grid()[r as int].update(c as int, f)
            } else {
                pre.grid()[i]
            } by {
                assert(self.grid()[i] == self.board@[i].fields@);
                assert(pre.grid()[i] == pre.board@[i].fields@);
                if i == r as int {
                    assert(self.board@[i].fields@ =~= pre.board@[i].fields@.update(c as int, f));
                }
            }
            assert(self.grid() =~= pre.grid().update(
                r as int,
                pre.grid()[r as int].update(c as int, f),
            ));
        }
    }
    /// `post` has exactly `pre`'s cursor move by `(dr, dc)` when that stays in
    /// bounds, and is `pre` unchanged otherwise; `moved` tells which.
    pub open spec fn move_post(
        pre: Termsweeper,
        post: Termsweeper,
        dr: int,
        dc: int,
        moved: bool,
    ) -> bool {
        let nr = pre.cursor.0 as int + dr;
        let nc = pre.cursor.1 as int + dc;
        &&& (moved <==> pre.in_bounds(nr, nc))
        &&& (moved ==> post == (Termsweeper { cursor: ((nr as u8), (nc as u8)), ..pre }))
        &&& (!moved ==> post == pre)
    }

    /// Marking toggles the mark of an unrevealed cursor cell and does nothing
    /// to a revealed one.
    pub open spec fn toggle_post(pre: Termsweeper, post: Termsweeper, changed: bool) -> bool {
        let r = pre.cursor.0 as int;
        let c = pre.cursor.1 as int;
        let f = pre.cell(r, c);
        &&& (changed <==> !f.revealed)
        &&& (!changed ==> post == pre)
        &&& (changed ==> Self::same_except_board(pre, post) && post.grid() == pre.grid().update(
            r,
            pre.grid()[r].update(c, (Field { marked: !f.marked, ..f })),
        ))
    }

    /// A cursor change within bounds keeps the invariant: every other part of
    /// `wf` speaks only of the board and the scalar counters.
    pub proof fn lemma_wf_same_board(pre: Termsweeper, post: Termsweeper)
        requires
            pre.wf(),
            post == (Termsweeper { cursor: post.cursor, ..pre }),
            post.in_bounds(post.cursor.0 as int, post.cursor.1 as int),
        ensures
            post.wf(),
    {
        assert(post.grid() == pre.grid());
        Self::lemma_adj_mines_same(pre, post);
        assert forall|i: int, j: int| post.in_bounds(i, j) implies #[trigger] post.cell(i, j)
            == pre.cell(i, j) by {}
        assert forall|i: int, j: int, ni: int, nj: int|
            post.in_bounds(i, j) && post.cell(i, j).revealed && !post.cell(i, j).is_mine
                && post.cell(i, j).adjacent_mines == 0 && #[trigger] post.is_neighbor(i, j, ni, nj)
            implies post.cell(ni, nj).revealed by {
            assert(pre.is_neighbor(i, j, ni, nj));
            assert(pre.cell(ni, nj).revealed);
        }
    }

    /// Move one cell left, if not already at the left edge.
    pub fn move_cursor_left(&mut self) -> (moved: bool)
        requires
            old(self).wf(),
        ensures
            final(self).wf(),
            Self::move_post(*old(self), *final(self), 0, -1, moved),
    {
        let ghost pre = *self;
        if self.cursor.1 != 0 {
            self.cursor = (self.cursor.0, self.cursor.1 - 1);
            proof {
                Self::lemma_wf_same_board(pre, *self);
            }
            true
        } else {
            false
        }
    }

    /// Move one cell down, if not already at the bottom edge.
    pub fn move_cursor_down(&mut self) -> (moved: bool)
        requires
            old(self).wf(),
        ensures
            final(self).wf(),
            Self::move_post(*old(self), *final(self), 1, 0, moved),
    {
        let ghost pre = *self;
        if self.cursor.0 != self.rows - 1 {
            self.cursor = (self.cursor.0 + 1, self.cursor.1);
            proof {
                Self::lemma_wf_same_board(pre, *self);
            }
            true
        } else {
            false
        }
    }

    /// Move one cell up, if not already at the top edge.
    pub fn move_cursor_up(&mut self) -> (moved: bool)
        requires
            old(self).wf(),
        ensures
            final(self).wf(),
            Self::move_post(*old(self), *final(self), -1, 0, moved),
    {
        let ghost pre = *self;
        if self.cursor.0 != 0 {
            self.cursor = (self.cursor.0 - 1, self.cursor.1);
            proof {
                Self::lemma_wf_same_board(pre, *self);
            }
            true
        } else {
            false
        }
    }

    /// Move one cell right, if not already at the right edge.
    pub fn move_cursor_right(&mut self) -> (moved: bool)
        requires
            old(self).wf(),
        ensures
            final(self).wf(),
            Self::move_post(*old(self), *final(self), 0, 1, moved),
    {
        let ghost pre = *self;
        if self.cursor.1 != self.columns - 1 {
            self.cursor = (self.cursor.0, self.cursor.1 + 1);
            proof {
                Self::lemma_wf_same_board(pre, *self);
            }
            true
        } else {
            false
        }
    }

    /// Toggle the mark on the cursor cell; revealed cells cannot be marked or
    /// unmarked.
    pub fn toggle_mark(&mut self) -> (changed: bool)
        requires
            old(self).wf(),
        ensures
            final(self).wf(),
            Self::toggle_post(*old(self), *final(self), changed),
    {
        let ghost pre = *self;
        let cur = self.cursor;
        let f = *self.get_field(cur);
        if !f.revealed {
            self.set_field(cur, Field { marked: !f.marked, ..f });
            proof {
                let r = pre.cursor.0 as int;
                let c = pre.cursor.1 as int;
                let nf = Field { marked: !f.marked, ..f };
                lemma_grid_count_update(pre.grid(), p_mine(), r, c, nf);
                lemma_grid_count_update(pre.grid(), p_hidden_safe(), r, c, nf);
                assert forall|i: int, j: int| self.in_bounds(i, j) implies (
                    #[trigger] self.cell(i, j)).is_mine == pre.cell(i, j).is_mine && self.cell(
                    i,
                    j,
                ).revealed == pre.cell(i, j).revealed && self.cell(i, j).adjacent_mines == pre.cell(
                    i,
                    j,
                ).adjacent_mines by {}
                Self::lemma_adj_mines_same(pre, *self);
                assert forall|i: int, j: int, ni: int, nj: int|
                    self.in_bounds(i, j) && self.cell(i, j).revealed && !self.cell(i, j).is_mine
                        && self.cell(i, j).adjacent_mines == 0 && #[trigger] self.is_neighbor(
                        i,
                        j,
                        ni,
                        nj,
                    ) implies self.cell(ni, nj).revealed by {
                    assert(pre.is_neighbor(i, j, ni, nj));
                }
            }
            true
        } else {
            false
        }
    }

    /// Show every cell (used when the match ends, so the full layout becomes
    /// visible); nothing else changes.
    fn reveal_all(&mut self)
        requires
            old(self).board_wf(),
        ensures
            final(self).board_wf(),
            Self::same_except_board(*old(self), *final(self)),
            forall|i: int, j: int|
                final(self).in_bounds(i, j) ==> #[trigger] final(self).cell(i, j) == (Field {
                    revealed: true,
                    ..old(self).cell(i, j)
                }),
    {
        let ghost pre = *self;
        let mut r: u8 = 0;
        while r < self.rows
            invariant
                pre.board_wf(),
                self.board_wf(),
                Self::same_except_board(pre, *self),
                r <= self.rows,
                forall|i: int, j: int|
                    self.in_bounds(i, j) && i < r as int ==> #[trigger] self.cell(i, j) == (Field {
                        revealed: true,
                        ..pre.cell(i, j)
                    }),
                forall|i: int, j: int|
                    self.in_bounds(i, j) && i >= r as int ==> #[trigger] self.cell(i, j) == pre.cell(
                        i,
                        j,
                    ),
            decreases self.rows as int - r as int,
        {
            let mut c: u8 = 0;
            while c < self.columns
                invariant
                    pre.board_wf(),
                    self.board_wf(),
                    Self::same_except_board(pre, *self),
                    r < self.rows,
                    c <= self.columns,
                    forall|i: int, j: int|
                        self.in_bounds(i, j) && (i < r as int || (i == r as int && j < c as int))
                            ==> #[trigger] self.cell(i, j) == (Field {
                            revealed: true,
                            ..pre.cell(i, j)
                        }),
                    forall|i: int, j: int|
                        self.in_bounds(i, j) && (i > r as int || (i == r as int && j >= c as int))
                            ==> #[trigger] self.cell(i, j) == pre.cell(i, j),
                decreases self.columns as int - c as int,
            {
                let ghost prev = *self;
                let f = *self.get_field((r, c));
                self.set_field((r, c), Field { revealed: true, ..f });
                proof {
                    assert forall|i: int, j: int|
                        self.in_bounds(i, j) && !(i == r as int && j == c as int) implies #[trigger] self.cell(
                        i,
                        j,
                    ) == prev.cell(i, j) by {}
                    assert(self.cell(r as int, c as int) == (Field {
                        revealed: true,
                        ..pre.cell(r as int, c as int)
                    }));
                }
                c = c + 1;
            }
            r = r + 1;
        }
    }

    /// Mines at equal coordinates make equal adjacency counts: if two boards
    /// of the same dimensions agree on `is_mine` everywhere, every
    /// `adj_mines` agrees too.
    pub proof fn lemma_adj_mines_same(pre: Termsweeper, post: Termsweeper)
        requires
            post.rows == pre.rows,
            post.columns == pre.columns,
            forall|i: int, j: int|
                pre.in_bounds(i, j) ==> (#[trigger] post.cell(i, j)).is_mine == pre.cell(
                    i,
                    j,
                ).is_mine,
        ensures
            forall|i: int, j: int| #[trigger] post.mine_at(i, j) == pre.mine_at(i, j),
            forall|i: int, j: int| #[trigger] post.adj_mines(i, j) == pre.adj_mines(i, j),
    {
        reveal(Termsweeper::adj_mines);
        assert forall|i: int, j: int| #[trigger] post.mine_at(i, j) == pre.mine_at(i, j) by {
            if pre.in_bounds(i, j) {
                assert(post.cell(i, j).is_mine == pre.cell(i, j).is_mine);
            }
        }
    }

    /// No cell has more valid neighbours than there are other cells.
    pub proof fn lemma_neighbor_count_bound(self, r: int, c: int)
        requires
            self.rows >= 1,
            self.columns >= 1,
            self.in_bounds(r, c),
        ensures
            0 <= self.neighbor_count(r, c) <= 8,
            self.neighbor_count(r, c) <= self.total() - 1,
    {
        let rows = self.rows as int;
        let cols = self.columns as int;
        let nc = self.neighbor_count(r, c);
        if rows == 1 {
            assert(nc <= cols - 1);
            assert(rows * cols == cols) by (nonlinear_arith)
                requires
                    rows == 1,
            ;
        } else if cols == 1 {
            assert(nc <= rows - 1);
            assert(rows * cols == rows) by (nonlinear_arith)
                requires
                    cols == 1,
            ;
        } else if rows == 2 && cols == 2 {
            assert(nc <= 3);
            assert(rows * cols == 4) by (nonlinear_arith)
                requires
                    rows == 2,
                    cols == 2,
            ;
        } else if rows == 2 {
            assert(nc <= 5);
            assert(rows * cols >= 6) by (nonlinear_arith)
                requires
                    rows == 2,
                    cols >= 3,
            ;
        } else if cols == 2 {
            assert(nc <= 5);
            assert(rows * cols >= 6) by (nonlinear_arith)
                requires
                    cols == 2,
                    rows >= 3,
            ;
        } else {
            assert(nc <= 8);
            assert(rows * cols >= 9) by (nonlinear_arith)
                requires
                    rows >= 3,
                    cols >= 3,
            ;
        }
    }

    /// The valid neighbours of `location`, each exactly once, in the fixed
    /// enumeration order `adjacent_seq` describes. This single resolver feeds
    /// the safe-zone computation, the adjacency counts and the flood fill.
    pub fn get_valid_adjacent_fields(&self, location: (u8, u8)) -> (v: Vec<(u8, u8)>)
        requires
            self.board_wf(),
            self.in_bounds(location.0 as int, location.1 as int),
        ensures
            v@ == self.adjacent_seq(location.0 as int, location.1 as int),
    {
        let r = location.0;
        let c = location.1;
        let ghost ri = r as int;
        let ghost ci = c as int;
        let mut v: Vec<(u8, u8)> = Vec::new();
        if c > 0 {
            v.push((r, c - 1));
            if r > 0 {
                v.push((r - 1, c - 1));
            }
            if r + 1 < self.rows {
                v.push((r + 1, c - 1));
            }
        }
        proof {
            assert(v@ =~= self.nb_opt(ri, ci - 1) + self.nb_opt(ri - 1, ci - 1) + self.nb_opt(
                ri + 1,
                ci - 1,
            ));
        }
        if r > 0 {
            v.push((r - 1, c));
        }
        if r + 1 < self.rows {
            v.push((r + 1, c));
        }
        proof {
            assert(v@ =~= self.nb_opt(ri, ci - 1) + self.nb_opt(ri - 1, ci - 1) + self.nb_opt(
                ri + 1,
                ci - 1,
            ) + self.nb_opt(ri - 1, ci) + self.nb_opt(ri + 1, ci));
        }
        if c + 1 < self.columns {
            v.push((r, c + 1));
            if r > 0 {
                v.push((r - 1, c + 1));
            }
            if r + 1 < self.rows {
                v.push((r + 1, c + 1));
            }
        }
        proof {
            assert(v@ =~= self.adjacent_seq(ri, ci));
        }
        v
    }

    /// What `adjacent_seq` holds: as many entries as there are valid
    /// neighbours, every entry a valid neighbour, and every valid neighbour
    /// among the entries.
    pub proof fn lemma_adjacent_seq_props(self, r: int, c: int)
        requires
            self.board_wf(),
            self.in_bounds(r, c),
        ensures
            self.adjacent_seq(r, c).len() == self.neighbor_count(r, c),
            forall|p: (u8, u8)| #[trigger]
                self.adjacent_seq(r, c).contains(p) ==> self.is_neighbor(
                    r,
                    c,
                    p.0 as int,
                    p.1 as int,
                ),
            forall|nr: int, nc: int| #[trigger]
                self.is_neighbor(r, c, nr, nc) ==> self.adjacent_seq(r, c).contains(
                    ((nr as u8), (nc as u8)),
                ),
    {
        broadcast use vstd::seq_lib::lemma_seq_concat_contains_all_elements;

        let s = self.adjacent_seq(r, c);
        assert forall|p: (u8, u8)| #[trigger] s.contains(p) implies self.is_neighbor(
            r,
            c,
            p.0 as int,
            p.1 as int,
        ) by {
            if self.nb_opt(r, c - 1).contains(p) {
                assert(p == (((r) as u8), ((c - 1) as u8)));
            } else if self.nb_opt(r - 1, c - 1).contains(p) {
                assert(p == (((r - 1) as u8), ((c - 1) as u8)));
            } else if self.nb_opt(r + 1, c - 1).contains(p) {
                assert(p == (((r + 1) as u8), ((c - 1) as u8)));
            } else if self.nb_opt(r - 1, c).contains(p) {
                assert(p == (((r - 1) as u8), ((c) as u8)));
            } else if self.nb_opt(r + 1, c).contains(p) {
                assert(p == (((r + 1) as u8), ((c) as u8)));
            } else if self.nb_opt(r, c + 1).contains(p) {
                assert(p == (((r) as u8), ((c + 1) as u8)));
            } else if self.nb_opt(r - 1, c + 1).contains(p) {
                assert(p == (((r - 1) as u8), ((c + 1) as u8)));
            } else {
                assert(self.nb_opt(r + 1, c + 1).contains(p));
                assert(p == (((r + 1) as u8), ((c + 1) as u8)));
            }
        }
        assert forall|nr: int, nc: int| #[trigger] self.is_neighbor(r, c, nr, nc) implies s.contains(
            ((nr as u8), (nc as u8)),
        ) by {
            let p = ((nr as u8), (nc as u8));
            assert(self.nb_opt(nr, nc) == seq![p]);
            assert(self.nb_opt(nr, nc)[0] == p);
            assert(self.nb_opt(nr, nc).contains(p));
            if nr == r && nc == c - 1 {
                assert(self.nb_opt(r, c - 1).contains(p));
            } else if nr == r - 1 && nc == c - 1 {
                assert(self.nb_opt(r - 1, c - 1).contains(p));
            } else if nr == r + 1 && nc == c - 1 {
                assert(self.nb_opt(r + 1, c - 1).contains(p));
            } else if nr == r - 1 && nc == c {
                assert(self.nb_opt(r - 1, c).contains(p));
            } else if nr == r + 1 && nc == c {
                assert(self.nb_opt(r + 1, c).contains(p));
            } else if nr == r && nc == c + 1 {
                assert(self.nb_opt(r, c + 1).contains(p));
            } else if nr == r - 1 && nc == c + 1 {
                assert(self.nb_opt(r - 1, c + 1).contains(p));
            } else {
                assert(nr == r + 1 && nc == c + 1);
                assert(self.nb_opt(r + 1, c + 1).contains(p));
            }
        }
    }
}

impl Termsweeper {
    /// Mines among the listed coordinates (valid ones; entries outside the
    /// grid count 0).
    pub open spec fn mines_in(self, s: Seq<(u8, u8)>) -> int
        decreases s.len(),
    {
        if s.len() == 0 {
            0
        } else {
            self.mines_in(s.drop_last()) + self.mine_at(
                s.last().0 as int,
                s.last().1 as int,
            )
        }
    }

    proof fn lemma_mines_in_concat(self, a: Seq<(u8, u8)>, b: Seq<(u8, u8)>)
        ensures
            self.mines_in(a + b) == self.mines_in(a) + self.mines_in(b),
        decreases b.len(),
    {
        if b.len() == 0 {
            assert(a + b =~= a);
        } else {
            assert((a + b).drop_last() =~= a + b.drop_last());
            self.lemma_mines_in_concat(a, b.drop_last());
        }
    }

    proof fn lemma_mines_in_nb(self, a: int, b: int)
        ensures
            self.mines_in(self.nb_opt(a, b)) == self.mine_at(a, b),
    {
        if self.in_bounds(a, b) {
            let s = self.nb_opt(a, b);
            assert(s.len() == 1);
            assert(s.drop_last() =~= Seq::<(u8, u8)>::empty());
            assert(self.mines_in(Seq::<(u8, u8)>::empty()) == 0);
            assert(s.last() == (((a as u8), (b as u8))));
            assert((a as u8) as int == a && (b as u8) as int == b);
            assert(self.mines_in(s) == self.mines_in(s.drop_last()) + self.mine_at(
                s.last().0 as int,
                s.last().1 as int,
            ));
        }
    }

    /// Summing mines over the neighbour list gives the adjacency count.
    pub proof fn lemma_mines_in_adjacent(self, r: int, c: int)
        requires
            self.board_wf(),
            self.in_bounds(r, c),
        ensures
            self.mines_in(self.adjacent_seq(r, c)) == self.adj_mines(r, c),
    {
        reveal(Termsweeper::adj_mines);
        let s1 = self.nb_opt(r, c - 1);
        let s2 = self.nb_opt(r - 1, c - 1);
        let s3 = self.nb_opt(r + 1, c - 1);
        let s4 = self.nb_opt(r - 1, c);
        let s5 = self.nb_opt(r + 1, c);
        let s6 = self.nb_opt(r, c + 1);
        let s7 = self.nb_opt(r - 1, c + 1);
        let s8 = self.nb_opt(r + 1, c + 1);
        self.lemma_mines_in_concat(s1, s2);
        self.lemma_mines_in_concat(s1 + s2, s3);
        self.lemma_mines_in_concat(s1 + s2 + s3, s4);
        self.lemma_mines_in_concat(s1 + s2 + s3 + s4, s5);
        self.lemma_mines_in_concat(s1 + s2 + s3 + s4 + s5, s6);
        self.lemma_mines_in_concat(s1 + s2 + s3 + s4 + s5 + s6, s7);
        self.lemma_mines_in_concat(s1 + s2 + s3 + s4 + s5 + s6 + s7, s8);
        self.lemma_mines_in_nb(r, c - 1);
        self.lemma_mines_in_nb(r - 1, c - 1);
        self.lemma_mines_in_nb(r + 1, c - 1);
        self.lemma_mines_in_nb(r - 1, c);
        self.lemma_mines_in_nb(r + 1, c);
        self.lemma_mines_in_nb(r, c + 1);
        self.lemma_mines_in_nb(r - 1, c + 1);
        self.lemma_mines_in_nb(r + 1, c + 1);
    }

    /// Count the mines among the valid neighbours of `location`, walking the
    /// shared neighbour list.
    fn count_adjacent_mines(&self, location: (u8, u8)) -> (n: u8)
        requires
            self.board_wf(),
            self.in_bounds(location.0 as int, location.1 as int),
        ensures
            n as int == self.adj_mines(location.0 as int, location.1 as int),
            n <= 8,
    {
        let ghost ri = location.0 as int;
        let ghost ci = location.1 as int;
        let adjacent = self.get_valid_adjacent_fields(location);
        let ghost s = self.adjacent_seq(ri, ci);
        proof {
            self.lemma_adjacent_seq_props(ri, ci);
            self.lemma_mines_in_adjacent(ri, ci);
            self.lemma_neighbor_count_bound(ri, ci);
            assert forall|kk: int| 0 <= kk < s.len() implies self.in_bounds(
                (#[trigger] s[kk]).0 as int,
                s[kk].1 as int,
            ) by {
                assert(s.contains(s[kk]));
            }
        }
        let mut n: u8 = 0;
        let mut k: usize = 0;
        while k < adjacent.len()
            invariant
                adjacent@ == s,
                s.len() <= 8,
                self.board_wf(),
                k <= s.len(),
                n as int == self.mines_in(s.take(k as int)),
                n as int <= k as int,
                forall|kk: int|
                    0 <= kk < s.len() ==> self.in_bounds(
                        (#[trigger] s[kk]).0 as int,
                        s[kk].1 as int,
                    ),
            decreases s.len() - k as int,
        {
            let p = adjacent[k];
            if self.get_field(p).is_mine {
                n = n + 1;
            }
            proof {
                assert(s.take(k as int + 1).drop_last() =~= s.take(k as int));
                assert(s.take(k as int + 1).last() == s[k as int]);
            }
            k = k + 1;
        }
        proof {
            assert(s.take(s.len() as int) =~= s);
        }
        n
    }

    /// `(i, j)` is the origin `(or, oc)` or one of its valid neighbours: the
    /// zone initialization keeps mine-free.
    pub open spec fn safe_cell(self, or: int, oc: int, i: int, j: int) -> bool {
        self.in_bounds(i, j) && ((i == or && j == oc) || self.is_neighbor(or, oc, i, j))
    }

    /// 1 if `(i, j)` is a safe cell with `j < jlim`.
    pub open spec fn safe_ind(self, or: int, oc: int, i: int, j: int, jlim: int) -> int {
        if j < jlim && self.safe_cell(or, oc, i, j) {
            1int
        } else {
            0int
        }
    }

    /// Safe cells in row `i` among columns `0..jlim`; only the origin's three
    /// columns can contribute.
    pub open spec fn safe_in_row_upto(self, or: int, oc: int, i: int, jlim: int) -> int {
        self.safe_ind(or, oc, i, oc - 1, jlim) + self.safe_ind(or, oc, i, oc, jlim)
            + self.safe_ind(or, oc, i, oc + 1, jlim)
    }

    /// Safe cells in the full rows `0..ilim`.
    pub open spec fn safe_rows(self, or: int, oc: int, ilim: int) -> int
        decreases ilim,
    {
        if ilim <= 0 {
            0
        } else {
            self.safe_rows(or, oc, ilim - 1) + self.safe_in_row_upto(
                or,
                oc,
                ilim - 1,
                self.columns as int,
            )
        }
    }

    proof fn lemma_safe_row_step(self, or: int, oc: int, i: int, j: int)
        requires
            0 <= j,
        ensures
            self.safe_in_row_upto(or, oc, i, j + 1) == self.safe_in_row_upto(or, oc, i, j) + (
            if self.safe_cell(or, oc, i, j) {
                1int
            } else {
                0int
            }),
    {
    }

    proof fn lemma_safe_rows_val(self, or: int, oc: int, k: int)
        requires
            self.in_bounds(or, oc),
            0 <= k,
        ensures
            self.safe_rows(or, oc, k) == (if or - 1 < k {
                self.safe_in_row_upto(or, oc, or - 1, self.columns as int)
            } else {
                0int
            }) + (if or < k {
                self.safe_in_row_upto(or, oc, or, self.columns as int)
            } else {
                0int
            }) + (if or + 1 < k {
                self.safe_in_row_upto(or, oc, or + 1, self.columns as int)
            } else {
                0int
            }),
        decreases k,
    {
        if k > 0 {
            self.lemma_safe_rows_val(or, oc, k - 1);
            if k - 1 != or - 1 && k - 1 != or && k - 1 != or + 1 {
                assert(self.safe_in_row_upto(or, oc, k - 1, self.columns as int) == 0);
            }
        }
    }

    /// The safe zone around a valid origin holds the origin and each valid
    /// neighbour exactly once.
    pub proof fn lemma_safe_rows_total(self, or: int, oc: int)
        requires
            self.board_wf(),
            self.in_bounds(or, oc),
        ensures
            self.safe_rows(or, oc, self.rows as int) == 1 + self.neighbor_count(or, oc),
    {
        self.lemma_safe_rows_val(or, oc, self.rows as int);
    }

    /// What initialization guarantees: the mine count is the request clamped
    /// to leave the safe zone free, the counter of hidden safe cells is set,
    /// the safe zone around the origin cursor holds no mine, and no
    /// visibility or mark changes.
    pub open spec fn init_post(pre: Termsweeper, post: Termsweeper) -> bool {
        let or = pre.cursor.0 as int;
        let oc = pre.cursor.1 as int;
        let cap = pre.total() - 1 - pre.neighbor_count(or, oc);
        &&& post.rows == pre.rows
        &&& post.columns == pre.columns
        &&& post.cursor == pre.cursor
        &&& post.game_state == pre.game_state
        &&& post.initialized
        &&& post.number_of_mines as int == if pre.number_of_mines as int <= cap {
            pre.number_of_mines as int
        } else {
            cap
        }
        &&& post.fields_left_to_reveal as int == post.total() - post.number_of_mines as int
        &&& !post.cell(or, oc).is_mine
        &&& forall|nr: int, nc: int| #[trigger]
            post.is_neighbor(or, oc, nr, nc) ==> !post.cell(nr, nc).is_mine
        &&& forall|i: int, j: int|
            post.in_bounds(i, j) ==> ((#[trigger] post.cell(i, j)).revealed == pre.cell(
                i,
                j,
            ).revealed && post.cell(i, j).marked == pre.cell(i, j).marked)
    }

    /// The eligible cells of row `i` among columns `0..jlim`, in column
    /// order: the valid cells outside the safe zone around `(or, oc)`.
    pub open spec fn eligible_row(self, or: int, oc: int, i: int, jlim: int) -> Seq<(u8, u8)>
        decreases jlim,
    {
        if jlim <= 0 {
            Seq::empty()
        } else if self.in_bounds(i, jlim - 1) && !self.safe_cell(or, oc, i, jlim - 1) {
            self.eligible_row(or, oc, i, jlim - 1).push(((i as u8), ((jlim - 1) as u8)))
        } else {
            self.eligible_row(or, oc, i, jlim - 1)
        }
    }

    /// The eligible cells of the full rows `0..ilim`, row-major.
    pub open spec fn eligible_rows(self, or: int, oc: int, ilim: int) -> Seq<(u8, u8)>
        decreases ilim,
    {
        if ilim <= 0 {
            Seq::empty()
        } else {
            self.eligible_rows(or, oc, ilim - 1) + self.eligible_row(
                or,
                oc,
                ilim - 1,
                self.columns as int,
            )
        }
    }

    /// Every cell outside the safe zone around `(or, oc)`, in row-major
    /// order: the pool the mines are drawn from.
    pub open spec fn eligible_cells(self, or: int, oc: int) -> Seq<(u8, u8)> {
        self.eligible_rows(or, oc, self.rows as int)
    }

    /// The pool still undrawn after the first `i` draws: each draw removes
    /// the slot `picks` selects (reduced modulo the pool size; a missing
    /// entry counts as 0) and moves the last cell into it.
    pub open spec fn pool_after(elig: Seq<(u8, u8)>, picks: Seq<usize>, i: int) -> Seq<(u8, u8)>
        decreases i,
    {
        if i <= 0 {
            elig
        } else {
            let e = Self::pool_after(elig, picks, i - 1);
            if e.len() == 0 {
                e
            } else {
                let raw = if i - 1 < picks.len() {
                    picks[i - 1] as int
                } else {
                    0int
                };
                e.update(raw % e.len() as int, e.last()).drop_last()
            }
        }
    }

    /// The cell the `i`-th draw arms (counting from 0).
    pub open spec fn mine_pick(elig: Seq<(u8, u8)>, picks: Seq<usize>, i: int) -> (u8, u8) {
        let e = Self::pool_after(elig, picks, i);
        let raw = if 0 <= i < picks.len() {
            picks[i] as int
        } else {
            0int
        };
        if e.len() == 0 {
            (0u8, 0u8)
        } else {
            e[raw % e.len() as int]
        }
    }

    /// The layout placement produces, as a function of the draws alone: a
    /// cell holds a mine exactly when one of the first `number_of_mines`
    /// draws picked it. Replaying the same picks reproduces the same layout.
    pub open spec fn layout_of(pre: Termsweeper, post: Termsweeper, picks: Seq<usize>) -> bool {
        let or = pre.cursor.0 as int;
        let oc = pre.cursor.1 as int;
        let elig = pre.eligible_cells(or, oc);
        forall|a: int, b: int|
            post.in_bounds(a, b) ==> ((#[trigger] post.cell(a, b)).is_mine <==> exists|i: int|
                0 <= i < post.number_of_mines as int && Self::mine_pick(elig, picks, i) == (
                ((a as u8), (b as u8))))
    }

    /// Place the mines and the adjacency counts, taking the draws from
    /// `picks` (each reduced modulo the number of still-eligible cells; a
    /// missing entry counts as 0). The cell under the cursor and its valid
    /// neighbours stay mine-free, and the requested mine count is clamped so
    /// that enough cells outside that zone exist. The layout is a function of
    /// the picks alone (`layout_of`), so replaying them reproduces it; on an
    /// already initialized game this is a no-op, since placement never
    /// repeats within a match.
    pub fn initialize_with_picks(&mut self, picks: &Vec<usize>)
        requires
            old(self).wf(),
        ensures
            final(self).wf(),
            old(self).initialized ==> *final(self) == *old(self),
            !old(self).initialized ==> Self::init_post(*old(self), *final(self)),
            !old(self).initialized ==> Self::layout_of(*old(self), *final(self), picks@),
    {
        if self.initialized {
            return ;
        }
        let ghost pre = *self;
        let or_u = self.cursor.0;
        let oc_u = self.cursor.1;
        let ghost or = or_u as int;
        let ghost oc = oc_u as int;
        let rows = self.rows;
        let columns = self.columns;
        let adjacent = self.get_valid_adjacent_fields((or_u, oc_u));
        proof {
            pre.lemma_adjacent_seq_props(or, oc);
            pre.lemma_neighbor_count_bound(or, oc);
            pre.lemma_safe_rows_total(or, oc);
        }

        // Every cell outside the safe zone, in row-major order.
        let mut eligible: Vec<(u8, u8)> = Vec::new();
        let mut i: u8 = 0;
        while i < rows
            invariant
                *self == pre,
                pre.wf(),
                !pre.initialized,
                pre.cursor == ((or_u, oc_u)),
                or == or_u as int,
                oc == oc_u as int,
                rows == pre.rows,
                columns == pre.columns,
                adjacent@ == pre.adjacent_seq(or, oc),
                i <= rows,
                eligible@.len() == i as int * columns as int - pre.safe_rows(or, oc, i as int),
                forall|k: int|
                    0 <= k < eligible@.len() ==> {
                        let e = #[trigger] eligible@[k];
                        &&& pre.in_bounds(e.0 as int, e.1 as int)
                        &&& !pre.safe_cell(or, oc, e.0 as int, e.1 as int)
                        &&& (e.0 as int) < i as int
                    },
                eligible@.no_duplicates(),
                eligible@ == pre.eligible_rows(or, oc, i as int),
            decreases rows as int - i as int,
        {
            let mut j: u8 = 0;
            proof {
                assert(pre.eligible_row(or, oc, i as int, 0) == Seq::<(u8, u8)>::empty());
                assert(eligible@ =~= pre.eligible_rows(or, oc, i as int) + pre.eligible_row(
                    or,
                    oc,
                    i as int,
                    0,
                ));
            }
            while j < columns
                invariant
                    *self == pre,
                    pre.wf(),
                    !pre.initialized,
                    pre.cursor == ((or_u, oc_u)),
                    or == or_u as int,
                    oc == oc_u as int,
                    rows == pre.rows,
                    columns == pre.columns,
                    adjacent@ == pre.adjacent_seq(or, oc),
                    i < rows,
                    j <= columns,
                    eligible@.len() == i as int * columns as int + j as int - (pre.safe_rows(
                        or,
                        oc,
                        i as int,
                    ) + pre.safe_in_row_upto(or, oc, i as int, j as int)),
                    forall|k: int|
                        0 <= k < eligible@.len() ==> {
                            let e = #[trigger] eligible@[k];
                            &&& pre.in_bounds(e.0 as int, e.1 as int)
                            &&& !pre.safe_cell(or, oc, e.0 as int, e.1 as int)
                            &&& ((e.0 as int) < i as int || ((e.0 as int) == i as int && (
                            e.1 as int) < j as int))
                        },
                    eligible@.no_duplicates(),
                    eligible@ == pre.eligible_rows(or, oc, i as int) + pre.eligible_row(
                        or,
                        oc,
                        i as int,
                        j as int,
                    ),
                decreases columns as int - j as int,
            {
                let p = (i, j);
                let at_origin = i == or_u && j == oc_u;
                let near_origin = vec_contains(&adjacent, p);
                proof {
                    pre.lemma_adjacent_seq_props(or, oc);
                    pre.lemma_safe_row_step(or, oc, i as int, j as int);
                    assert((at_origin || near_origin) == pre.safe_cell(
                        or,
                        oc,
                        i as int,
                        j as int,
                    )) by {
                        if near_origin {
                            assert(pre.is_neighbor(or, oc, p.0 as int, p.1 as int));
                        }
                        if pre.is_neighbor(or, oc, i as int, j as int) {
                            assert(adjacent@.contains(
                                (((i as int) as u8), ((j as int) as u8)),
                            ));
                            assert(adjacent@.contains(p));
                        }
                    }
                }
                if !(at_origin || near_origin) {
                    let ghost before = eligible@;
                    eligible.push(p);
                    proof {
                        assert forall|a: int, b: int|
                            0 <= a < eligible@.len() && 0 <= b < eligible@.len() && a != b implies
                            eligible@[a] != eligible@[b] by {
                            if a < before.len() && b < before.len() {
                                assert(before[a] != before[b]);
                            }
                        }
                    }
                }
                proof {
                    assert(pre.eligible_row(or, oc, i as int, j as int + 1)
                        == if pre.in_bounds(i as int, j as int) && !pre.safe_cell(
                        or,
                        oc,
                        i as int,
                        j as int,
                    ) {
                        pre.eligible_row(or, oc, i as int, j as int).push(p)
                    } else {
                        pre.eligible_row(or, oc, i as int, j as int)
                    });
                    assert(eligible@ =~= pre.eligible_rows(or, oc, i as int) + pre.eligible_row(
                        or,
                        oc,
                        i as int,
                        j as int + 1,
                    ));
                }
                j = j + 1;
            }
            proof {
                assert((i as int + 1) * columns as int == i as int * columns as int
                    + columns as int) by (nonlinear_arith);
                assert(pre.safe_rows(or, oc, i as int + 1) == pre.safe_rows(or, oc, i as int)
                    + pre.safe_in_row_upto(or, oc, i as int, columns as int));
                assert(pre.eligible_rows(or, oc, i as int + 1) == pre.eligible_rows(
                    or,
                    oc,
                    i as int,
                ) + pre.eligible_row(or, oc, i as int, pre.columns as int));
            }
            i = i + 1;
        }
        proof {
            pre.lemma_safe_rows_total(or, oc);
            pre.lemma_neighbor_count_bound(or, oc);
            assert(eligible@.len() == pre.total() - 1 - pre.neighbor_count(or, oc));
            assert(pre.total() <= 65025) by (nonlinear_arith)
                requires
                    pre.total() == (pre.rows as int) * (pre.columns as int),
                    pre.rows <= 255,
                    pre.columns <= 255,
            ;
        }

        // Clamp the request so that enough eligible cells exist.
        let max_mines: u16 = eligible.len() as u16;
        if self.number_of_mines > max_mines {
            self.number_of_mines = max_mines;
        }
        let count: u16 = self.number_of_mines;
        let ghost pool = pre.total() - 1 - pre.neighbor_count(or, oc);

        // Draw `count` cells from the eligible pool without replacement and
        // arm them.
        proof {
            assert(self.grid() == pre.grid());
            assert forall|x: int, y: int|
                0 <= x < pre.grid().len() && 0 <= y < pre.columns as int implies !p_mine()(
                #[trigger] pre.grid()[x][y],
            ) by {
                assert(pre.in_bounds(x, y));
                assert(!pre.cell(x, y).is_mine);
            }
            lemma_grid_count_uniform(pre.grid(), p_mine(), false, pre.columns as int);
            assert forall|k: int| 0 <= k < eligible@.len() implies !self.cell(
                (#[trigger] eligible@[k]).0 as int,
                eligible@[k].1 as int,
            ).is_mine by {
                let e = eligible@[k];
                assert(pre.in_bounds(e.0 as int, e.1 as int));
                assert(!pre.cell(e.0 as int, e.1 as int).is_mine);
            }
            assert forall|x: int, y: int| pre.safe_cell(or, oc, x, y) implies !(
            #[trigger] self.cell(x, y)).is_mine by {
                assert(pre.in_bounds(x, y));
                assert(!pre.cell(x, y).is_mine);
            }
        }
        let ghost elig0 = eligible@;
        let mut placed: u16 = 0;
        proof {
            assert(elig0 == pre.eligible_cells(or, oc));
        }
        while placed < count
            invariant
                pre.wf(),
                !pre.initialized,
                pre.cursor == ((or_u, oc_u)),
                or == or_u as int,
                oc == oc_u as int,
                rows == pre.rows,
                columns == pre.columns,
                pool == pre.total() - 1 - pre.neighbor_count(or, oc),
                count as int <= pool,
                self.rows == pre.rows,
                self.columns == pre.columns,
                self.cursor == pre.cursor,
                self.number_of_mines == count,
                self.fields_left_to_reveal == pre.fields_left_to_reveal,
                self.initialized == pre.initialized,
                self.game_state == pre.game_state,
                self.board_wf(),
                placed <= count,
                eligible@.len() + placed as int == pool,
                eligible@.no_duplicates(),
                forall|k: int|
                    0 <= k < eligible@.len() ==> {
                        let e = #[trigger] eligible@[k];
                        &&& pre.in_bounds(e.0 as int, e.1 as int)
                        &&& !pre.safe_cell(or, oc, e.0 as int, e.1 as int)
                        &&& !self.cell(e.0 as int, e.1 as int).is_mine
                    },
                forall|a: int, b: int|
                    self.in_bounds(a, b) ==> {
                        let f = #[trigger] self.cell(a, b);
                        &&& f.revealed == pre.cell(a, b).revealed
                        &&& f.marked == pre.cell(a, b).marked
                        &&& f.adjacent_mines == pre.cell(a, b).adjacent_mines
                    },
                grid_count(self.grid(), p_mine()) == placed as int,
                forall|a: int, b: int|
                    pre.safe_cell(or, oc, a, b) ==> !(#[trigger] self.cell(a, b)).is_mine,
                elig0 == pre.eligible_cells(or, oc),
                eligible@ == Self::pool_after(elig0, picks@, placed as int),
                forall|a: int, b: int|
                    self.in_bounds(a, b) ==> ((#[trigger] self.cell(a, b)).is_mine <==> exists|
                        i: int,
                    |
                        0 <= i < placed as int && Self::mine_pick(elig0, picks@, i) == (
                        ((a as u8), (b as u8)))),
            decreases count as int - placed as int,
        {
            let len = eligible.len();
            assert(len >= 1);
            let pick_raw = if (placed as usize) < picks.len() {
                picks[placed as usize]
            } else {
                0
            };
            let pick = pick_raw % len;
            let ghost before = eligible@;
            let loc = eligible.swap_remove(pick);
            proof {
                assert(loc == before[pick as int]);
                assert forall|a: int, b: int|
                    0 <= a < eligible@.len() && 0 <= b < eligible@.len() && a != b implies
                    eligible@[a] != eligible@[b] by {}
                assert forall|k: int| 0 <= k < eligible@.len() implies #[trigger] eligible@[k]
                    != loc by {
                    if k != pick as int {
                        assert(eligible@[k] == before[k]);
                    } else {
                        assert(eligible@[k] == before[before.len() - 1]);
                    }
                }
                assert forall|k: int| 0 <= k < eligible@.len() implies before.contains(
                    #[trigger] eligible@[k],
                ) by {
                    if k != pick as int {
                        assert(eligible@[k] == before[k]);
                    } else {
                        assert(eligible@[k] == before[before.len() - 1]);
                    }
                }
            }
            let ghost prev = *self;
            let f = *self.get_field(loc);
            self.set_field(loc, Field { is_mine: true, ..f });
            proof {
                lemma_grid_count_update(
                    prev.grid(),
                    p_mine(),
                    loc.0 as int,
                    loc.1 as int,
                    Field { is_mine: true, ..f },
                );
                assert forall|a: int, b: int|
                    self.in_bounds(a, b) && !(a == loc.0 as int && b == loc.1 as int) implies
                    #[trigger] self.cell(a, b) == prev.cell(a, b) by {}
                let rawspec: int = if (placed as int) < picks@.len() {
                    picks@[placed as int] as int
                } else {
                    0int
                };
                assert(Self::pool_after(elig0, picks@, placed as int + 1) == eligible@) by {
                    assert(Self::pool_after(elig0, picks@, placed as int) == before);
                    assert(pick as int == rawspec % before.len() as int);
                    assert(eligible@ == before.update(pick as int, before.last()).drop_last());
                }
                assert(Self::mine_pick(elig0, picks@, placed as int) == loc) by {
                    assert(Self::pool_after(elig0, picks@, placed as int) == before);
                    assert(loc == before[pick as int]);
                }
                assert forall|a: int, b: int| self.in_bounds(a, b) implies ((
                #[trigger] self.cell(a, b)).is_mine <==> exists|i: int|
                    0 <= i < placed as int + 1 && Self::mine_pick(elig0, picks@, i) == (
                    ((a as u8), (b as u8)))) by {
                    let q = ((a as u8), (b as u8));
                    if a == loc.0 as int && b == loc.1 as int {
                        assert(q == loc);
                        assert(self.cell(a, b).is_mine);
                        assert(0 <= placed as int && (placed as int) < placed as int + 1
                            && Self::mine_pick(elig0, picks@, placed as int) == q);
                    } else {
                        assert(self.cell(a, b) == prev.cell(a, b));
                        assert(q != loc);
                        if prev.cell(a, b).is_mine {
                            let w = choose|i: int|
                                0 <= i < placed as int && Self::mine_pick(elig0, picks@, i) == q;
                            assert(0 <= w < placed as int + 1 && Self::mine_pick(elig0, picks@, w)
                                == q);
                        }
                        if exists|i: int|
                            0 <= i < placed as int + 1 && Self::mine_pick(elig0, picks@, i) == q {
                            let w = choose|i: int|
                                0 <= i < placed as int + 1 && Self::mine_pick(elig0, picks@, i)
                                    == q;
                            if w < placed as int {
                                assert(prev.cell(a, b).is_mine);
                            } else {
                                assert(Self::mine_pick(elig0, picks@, w) == loc);
                                assert(false);
                            }
                        }
                    }
                }
            }
            placed = placed + 1;
        }

        // Fill in every adjacency count from the final mine layout.
        let ghost armed = *self;
        let mut a: u8 = 0;
        while a < rows
            invariant
                armed.board_wf(),
                rows == armed.rows,
                columns == armed.columns,
                self.rows == armed.rows,
                self.columns == armed.columns,
                self.cursor == armed.cursor,
                self.number_of_mines == armed.number_of_mines,
                self.fields_left_to_reveal == armed.fields_left_to_reveal,
                self.initialized == armed.initialized,
                self.game_state == armed.game_state,
                self.board_wf(),
                a <= rows,
                forall|x: int, y: int|
                    self.in_bounds(x, y) ==> {
                        let f = #[trigger] self.cell(x, y);
                        &&& f.is_mine == armed.cell(x, y).is_mine
                        &&& f.revealed == armed.cell(x, y).revealed
                        &&& f.marked == armed.cell(x, y).marked
                    },
                forall|x: int, y: int|
                    self.in_bounds(x, y) && x < a as int ==> (#[trigger] self.cell(
                        x,
                        y,
                    )).adjacent_mines as int == armed.adj_mines(x, y),
                forall|x: int, y: int|
                    self.in_bounds(x, y) && x >= a as int ==> (#[trigger] self.cell(
                        x,
                        y,
                    )).adjacent_mines == armed.cell(x, y).adjacent_mines,
            decreases rows as int - a as int,
        {
            let mut b: u8 = 0;
            while b < columns
                invariant
                    armed.board_wf(),
                    rows == armed.rows,
                    columns == armed.columns,
                    self.rows == armed.rows,
                    self.columns == armed.columns,
                    self.cursor == armed.cursor,
                    self.number_of_mines == armed.number_of_mines,
                    self.fields_left_to_reveal == armed.fields_left_to_reveal,
                    self.initialized == armed.initialized,
                    self.game_state == armed.game_state,
                    self.board_wf(),
                    a < rows,
                    b <= columns,
                    forall|x: int, y: int|
                        self.in_bounds(x, y) ==> {
                            let f = #[trigger] self.cell(x, y);
                            &&& f.is_mine == armed.cell(x, y).is_mine
                            &&& f.revealed == armed.cell(x, y).revealed
                            &&& f.marked == armed.cell(x, y).marked
                        },
                    forall|x: int, y: int|
                        self.in_bounds(x, y) && (x < a as int || (x == a as int && y < b as int))
                            ==> (#[trigger] self.cell(x, y)).adjacent_mines as int
                            == armed.adj_mines(x, y),
                    forall|x: int, y: int|
                        self.in_bounds(x, y) && (x > a as int || (x == a as int && y >= b as int))
                            ==> (#[trigger] self.cell(x, y)).adjacent_mines == armed.cell(
                            x,
                            y,
                        ).adjacent_mines,
                decreases columns as int - b as int,
            {
                proof {
                    Self::lemma_adj_mines_same(armed, *self);
                }
                let n = self.count_adjacent_mines((a, b));
                let ghost prev = *self;
                let f = *self.get_field((a, b));
                self.set_field((a, b), Field { adjacent_mines: n, ..f });
                proof {
                    assert forall|x: int, y: int|
                        self.in_bounds(x, y) && !(x == a as int && y == b as int) implies #[trigger] self.cell(
                        x,
                        y,
                    ) == prev.cell(x, y) by {}
                }
                b = b + 1;
            }
            a = a + 1;
        }

        // The match can start: record the counter of hidden safe cells.
        let ghost filled = *self;
        let total_cells: u16 = (columns as u16) * (rows as u16);
        proof {
            assert(columns as int * rows as int <= 65025) by (nonlinear_arith)
                requires
                    columns <= 255,
                    rows <= 255,
            ;
        }
        self.fields_left_to_reveal = total_cells - count;
        self.initialized = true;
        proof {
            assert forall|x: int, y: int| self.in_bounds(x, y) implies #[trigger] self.cell(x, y)
                == filled.cell(x, y) by {}
            assert forall|x: int, y: int| self.in_bounds(x, y) implies {
                let f = #[trigger] self.cell(x, y);
                &&& f.is_mine == armed.cell(x, y).is_mine
                &&& f.revealed == pre.cell(x, y).revealed
                &&& f.marked == pre.cell(x, y).marked
                &&& !f.revealed
            } by {
                assert(self.cell(x, y) == filled.cell(x, y));
                assert(filled.cell(x, y).is_mine == armed.cell(x, y).is_mine);
                assert(filled.cell(x, y).revealed == armed.cell(x, y).revealed);
                assert(filled.cell(x, y).marked == armed.cell(x, y).marked);
                assert(armed.cell(x, y).revealed == pre.cell(x, y).revealed);
                assert(armed.cell(x, y).marked == pre.cell(x, y).marked);
                assert(!pre.cell(x, y).revealed);
            }
            Self::lemma_adj_mines_same(armed, *self);
            assert(armed.grid().len() == self.grid().len());
            assert forall|x: int| 0 <= x < armed.grid().len() implies (
            #[trigger] armed.grid()[x]).len() == (self.grid()[x]).len() by {}
            assert forall|x: int, y: int|
                0 <= x < armed.grid().len() && 0 <= y < (#[trigger] armed.grid()[x]).len() implies
                p_mine()(#[trigger] armed.grid()[x][y]) == p_mine()(self.grid()[x][y]) by {
                assert(armed.in_bounds(x, y));
                assert(self.cell(x, y).is_mine == armed.cell(x, y).is_mine);
            }
            lemma_grid_count_congruent(armed.grid(), self.grid(), p_mine());
            assert forall|x: int, y: int|
                0 <= x < self.grid().len() && 0 <= y < (#[trigger] self.grid()[x]).len() implies
                p_hidden_safe()(#[trigger] self.grid()[x][y]) == !p_mine()(self.grid()[x][y]) by {
                assert(self.in_bounds(x, y));
                assert(!self.cell(x, y).revealed);
            }
            lemma_grid_count_complement(
                self.grid(),
                p_mine(),
                p_hidden_safe(),
                self.columns as int,
            );
            assert(grid_count(self.grid(), p_mine()) == count as int);
            assert(self.fields_left_to_reveal as int == grid_count(
                self.grid(),
                p_hidden_safe(),
            ));
            assert forall|x: int, y: int|
                self.in_bounds(x, y) implies (#[trigger] self.cell(x, y)).adjacent_mines as int
                == self.adj_mines(x, y) by {
                assert(self.cell(x, y) == filled.cell(x, y));
                assert(filled.cell(x, y).adjacent_mines as int == armed.adj_mines(x, y));
                assert(armed.adj_mines(x, y) == self.adj_mines(x, y));
            }
            assert(self.wf());
            assert(!self.cell(or, oc).is_mine) by {
                assert(pre.safe_cell(or, oc, or, oc));
            }
            assert forall|nr: int, nc: int| #[trigger]
                self.is_neighbor(or, oc, nr, nc) implies !self.cell(nr, nc).is_mine by {
                assert(pre.is_neighbor(or, oc, nr, nc));
                assert(pre.safe_cell(or, oc, nr, nc));
            }
            assert(Self::init_post(pre, *self));
        }
    }
}

impl Termsweeper {
    /// What revealing at the cursor guarantees, spelled out by case: a marked
    /// or already revealed cell leaves the whole game exactly as it was — in
    /// particular, no mines are placed. Otherwise a first reveal places the
    /// mines, clamped and keeping the cursor's safe zone clean; a mine ends
    /// the match and shows everything, the counter untouched; a safe cell is
    /// shown, the hidden-safe counter kept exact, and the match is won exactly
    /// when that counter reaches zero. While play goes on, nothing outside the
    /// flood result of the cursor cell is newly shown.
    pub open spec fn reveal_post(pre: Termsweeper, post: Termsweeper, changed: bool) -> bool {
        let r = pre.cursor.0 as int;
        let c = pre.cursor.1 as int;
        let f = pre.cell(r, c);
        let proceed = !f.marked && !f.revealed;
        let cap = pre.total() - 1 - pre.neighbor_count(r, c);
        &&& post.rows == pre.rows
        &&& post.columns == pre.columns
        &&& post.cursor == pre.cursor
        &&& (!proceed ==> !changed && post == pre)
        &&& (proceed ==> changed && post.initialized && post.cell(r, c).revealed)
        &&& forall|i: int, j: int|
            post.in_bounds(i, j) ==> {
                let g = #[trigger] post.cell(i, j);
                &&& g.marked == pre.cell(i, j).marked
                &&& (pre.cell(i, j).revealed ==> g.revealed)
            }
        &&& (pre.initialized ==> {
            &&& post.number_of_mines == pre.number_of_mines
            &&& forall|i: int, j: int|
                post.in_bounds(i, j) ==> {
                    let g = #[trigger] post.cell(i, j);
                    &&& g.is_mine == pre.cell(i, j).is_mine
                    &&& g.adjacent_mines == pre.cell(i, j).adjacent_mines
                }
        })
        &&& (!pre.initialized && proceed ==> {
            &&& post.number_of_mines as int == if pre.number_of_mines as int <= cap {
                pre.number_of_mines as int
            } else {
                cap
            }
            &&& !post.cell(r, c).is_mine
            &&& forall|nr: int, nc: int| #[trigger]
                post.is_neighbor(r, c, nr, nc) ==> !post.cell(nr, nc).is_mine
        })
        &&& (pre.initialized && proceed && f.is_mine ==> post.game_state == GameState::GameOver
            && post.all_revealed() && post.fields_left_to_reveal == pre.fields_left_to_reveal)
        &&& (proceed && (pre.initialized ==> !f.is_mine) ==> {
            &&& (post.game_state == GameState::Won <==> post.fields_left_to_reveal == 0)
            &&& (post.game_state == GameState::Won ==> post.all_revealed())
            &&& (post.game_state != GameState::Won ==> post.game_state == GameState::Playing)
        })
        &&& (pre.initialized && proceed && !f.is_mine && f.adjacent_mines > 0
            && pre.fields_left_to_reveal > 1 ==> {
            &&& post.game_state == GameState::Playing
            &&& post.fields_left_to_reveal == pre.fields_left_to_reveal - 1
            &&& post.grid() == pre.grid().update(
                r,
                pre.grid()[r].update(c, (Field { revealed: true, ..f })),
            )
        })
        &&& (proceed && post.game_state == GameState::Playing && post.cell(r, c).adjacent_mines
            == 0 ==> forall|i: int, j: int|
            post.in_bounds(i, j) && (#[trigger] post.cell(i, j)).revealed && !pre.cell(
                i,
                j,
            ).revealed ==> post.flood_reach(r, c, i, j))
        &&& (proceed && post.game_state == GameState::Playing && post.cell(r, c).adjacent_mines
            != 0 ==> forall|i: int, j: int|
            post.in_bounds(i, j) && (#[trigger] post.cell(i, j)).revealed && !pre.cell(
                i,
                j,
            ).revealed ==> i == r && j == c)
    }

    /// `(a, b)` is a valid safe cell with no adjacent mines: the kind the
    /// flood fill expands through.
    pub open spec fn zero_cell_at(self, a: int, b: int) -> bool {
        self.in_bounds(a, b) && !self.cell(a, b).is_mine && self.cell(a, b).adjacent_mines == 0
    }

    /// `p` is a chain of zero-adjacency safe cells starting at `(sr, sc)`,
    /// each one a neighbour of the one before it.
    pub open spec fn zero_chain(self, p: Seq<(int, int)>, sr: int, sc: int) -> bool {
        &&& p.len() >= 1
        &&& p[0] == ((sr, sc))
        &&& forall|k: int| 0 <= k < p.len() ==> self.zero_cell_at((#[trigger] p[k]).0, p[k].1)
        &&& forall|k: int|
            0 <= k < p.len() - 1 ==> self.is_neighbor(
                (#[trigger] p[k]).0,
                p[k].1,
                p[k + 1].0,
                p[k + 1].1,
            )
    }

    /// `(i, j)` belongs to the flood result of `(sr, sc)`: it lies on, or is a
    /// neighbour of the end of, a chain of zero-adjacency safe cells from the
    /// origin. Revealing shows no other new cell while the match goes on, so
    /// the final revealed set depends only on the board and the cursor, not on
    /// the traversal order of the work list. Opaque: only the lemmas below
    /// unfold the chain.
    #[verifier::opaque]
    pub open spec fn flood_reach(self, sr: int, sc: int, i: int, j: int) -> bool {
        exists|p: Seq<(int, int)>|
            {
                &&& #[trigger] self.zero_chain(p, sr, sc)
                &&& (p.last() == ((i, j)) || self.is_neighbor(p.last().0, p.last().1, i, j))
            }
    }

    /// The origin of a flood, and each of its neighbours, are in its reach.
    proof fn lemma_flood_reach_base(self, sr: int, sc: int, i: int, j: int)
        requires
            self.zero_cell_at(sr, sc),
            (i == sr && j == sc) || self.is_neighbor(sr, sc, i, j),
        ensures
            self.flood_reach(sr, sc, i, j),
    {
        reveal(Termsweeper::flood_reach);
        let p = seq![((sr, sc))];
        assert(p.last() == ((sr, sc)));
        assert(self.zero_chain(p, sr, sc));
    }

    /// A flood's reach extends across a zero-adjacency cell it reaches to
    /// that cell's neighbours.
    proof fn lemma_flood_reach_extend(self, sr: int, sc: int, a: int, b: int, i: int, j: int)
        requires
            self.flood_reach(sr, sc, a, b),
            self.zero_cell_at(a, b),
            (i == a && j == b) || self.is_neighbor(a, b, i, j),
        ensures
            self.flood_reach(sr, sc, i, j),
    {
        reveal(Termsweeper::flood_reach);
        let p = choose|p: Seq<(int, int)>| #[trigger]
            self.zero_chain(p, sr, sc) && (p.last() == ((a, b)) || self.is_neighbor(
                p.last().0,
                p.last().1,
                a,
                b,
            ));
        if p.last() == ((a, b)) {
            assert(self.zero_chain(p, sr, sc));
        } else {
            let q = p.push(((a, b)));
            assert(q.last() == ((a, b)));
            assert(q[0] == p[0]);
            assert forall|k: int| 0 <= k < q.len() implies self.zero_cell_at(
                (#[trigger] q[k]).0,
                q[k].1,
            ) by {
                if k < p.len() {
                    assert(q[k] == p[k]);
                }
            }
            assert forall|k: int| 0 <= k < q.len() - 1 implies self.is_neighbor(
                (#[trigger] q[k]).0,
                q[k].1,
                q[k + 1].0,
                q[k + 1].1,
            ) by {
                if k < p.len() - 1 {
                    assert(q[k] == p[k]);
                    assert(q[k + 1] == p[k + 1]);
                } else {
                    assert(q[k] == p.last());
                }
            }
            assert(self.zero_chain(q, sr, sc));
        }
    }

    /// Reach carries over between boards of the same dimensions that agree on
    /// the mine layout and the adjacency counts.
    proof fn lemma_flood_reach_same(x: Termsweeper, y: Termsweeper, sr: int, sc: int, i: int, j: int)
        requires
            y.rows == x.rows,
            y.columns == x.columns,
            forall|a: int, b: int|
                x.in_bounds(a, b) ==> {
                    let g = #[trigger] y.cell(a, b);
                    &&& g.is_mine == x.cell(a, b).is_mine
                    &&& g.adjacent_mines == x.cell(a, b).adjacent_mines
                },
            x.flood_reach(sr, sc, i, j),
        ensures
            y.flood_reach(sr, sc, i, j),
    {
        reveal(Termsweeper::flood_reach);
        let p = choose|p: Seq<(int, int)>| #[trigger]
            x.zero_chain(p, sr, sc) && (p.last() == ((i, j)) || x.is_neighbor(
                p.last().0,
                p.last().1,
                i,
                j,
            ));
        assert forall|k: int| 0 <= k < p.len() implies y.zero_cell_at(
            (#[trigger] p[k]).0,
            p[k].1,
        ) by {
            assert(x.zero_cell_at(p[k].0, p[k].1));
        }
        assert forall|k: int| 0 <= k < p.len() - 1 implies y.is_neighbor(
            (#[trigger] p[k]).0,
            p[k].1,
            p[k + 1].0,
            p[k + 1].1,
        ) by {
            assert(x.is_neighbor(p[k].0, p[k].1, p[k + 1].0, p[k + 1].1));
        }
        assert(y.zero_chain(p, sr, sc));
        if !(p.last() == ((i, j))) {
            assert(x.is_neighbor(p.last().0, p.last().1, i, j));
            assert(y.is_neighbor(p.last().0, p.last().1, i, j));
        }
    }

    /// The flood-fill work-list contract: every neighbour of a revealed
    /// zero-adjacency safe cell is revealed or still queued in `w`. Opaque so
    /// that only the lemmas below unfold it.
    #[verifier::opaque]
    pub open spec fn zero_obligations(self, w: Seq<(u8, u8)>) -> bool {
        forall|i: int, j: int, ni: int, nj: int|
            self.in_bounds(i, j) && self.cell(i, j).revealed && !self.cell(i, j).is_mine
                && self.cell(i, j).adjacent_mines == 0 && #[trigger] self.is_neighbor(i, j, ni, nj)
                ==> self.cell(ni, nj).revealed || w.contains(((ni as u8), (nj as u8)))
    }

    /// `zero_closed`, except possibly at the one cell `(r, c)`.
    #[verifier::opaque]
    pub open spec fn zero_closed_except(self, r: int, c: int) -> bool {
        forall|i: int, j: int, ni: int, nj: int|
            self.in_bounds(i, j) && self.cell(i, j).revealed && !self.cell(i, j).is_mine
                && self.cell(i, j).adjacent_mines == 0 && !(i == r && j == c)
                && #[trigger] self.is_neighbor(i, j, ni, nj) ==> self.cell(ni, nj).revealed
    }

    /// Queueing every neighbour of the one open cell meets the work-list
    /// contract.
    proof fn lemma_zero_obligations_init(self, w: Seq<(u8, u8)>, r: int, c: int)
        requires
            self.zero_closed_except(r, c),
            forall|ni: int, nj: int| #[trigger]
                self.is_neighbor(r, c, ni, nj) ==> w.contains(((ni as u8), (nj as u8))),
        ensures
            self.zero_obligations(w),
    {
        reveal(Termsweeper::zero_obligations);
        reveal(Termsweeper::zero_closed_except);
    }

    /// An empty work list that meets the contract means the board is closed.
    proof fn lemma_zero_obligations_closed(self, w: Seq<(u8, u8)>)
        requires
            self.zero_obligations(w),
            w.len() == 0,
        ensures
            self.zero_closed(),
    {
        reveal(Termsweeper::zero_obligations);
        reveal(Termsweeper::zero_closed_except);
        assert forall|i: int, j: int, ni: int, nj: int|
            self.in_bounds(i, j) && self.cell(i, j).revealed && !self.cell(i, j).is_mine
                && self.cell(i, j).adjacent_mines == 0 && #[trigger] self.is_neighbor(i, j, ni, nj)
            implies self.cell(ni, nj).revealed by {
            assert(!w.contains(((ni as u8), (nj as u8))));
        }
    }

    /// One flood-fill step keeps the work-list contract: `prev` and `cur` are
    /// the states around the step that popped `loc` (the last entry of
    /// `w_old`), possibly revealed it, and left `w_new`.
    proof fn lemma_zero_obligations_step(
        prev: Termsweeper,
        cur: Termsweeper,
        w_old: Seq<(u8, u8)>,
        w_new: Seq<(u8, u8)>,
        loc: (u8, u8),
    )
        requires
            cur.rows == prev.rows,
            cur.columns == prev.columns,
            w_old.len() >= 1,
            w_old.last() == loc,
            forall|k: int| 0 <= k < w_old.len() - 1 ==> w_new.contains(#[trigger] w_old[k]),
            forall|i: int, j: int|
                cur.in_bounds(i, j) ==> {
                    let g = #[trigger] cur.cell(i, j);
                    &&& g.is_mine == prev.cell(i, j).is_mine
                    &&& g.adjacent_mines == prev.cell(i, j).adjacent_mines
                    &&& (prev.cell(i, j).revealed ==> g.revealed)
                },
            forall|i: int, j: int|
                cur.in_bounds(i, j) && !(i == loc.0 as int && j == loc.1 as int) ==> (
                #[trigger] cur.cell(i, j)).revealed == prev.cell(i, j).revealed,
            cur.in_bounds(loc.0 as int, loc.1 as int),
            cur.cell(loc.0 as int, loc.1 as int).revealed,
            prev.zero_obligations(w_old),
            (cur.cell(loc.0 as int, loc.1 as int).adjacent_mines == 0 && !cur.cell(
                loc.0 as int,
                loc.1 as int,
            ).is_mine && !prev.cell(loc.0 as int, loc.1 as int).revealed) ==> forall|
                ni: int,
                nj: int,
            | #[trigger]
                cur.is_neighbor(loc.0 as int, loc.1 as int, ni, nj) ==> w_new.contains(
                    ((ni as u8), (nj as u8)),
                ),
        ensures
            cur.zero_obligations(w_new),
    {
        reveal(Termsweeper::zero_obligations);
        let li = loc.0 as int;
        let lj = loc.1 as int;
        assert forall|i: int, j: int, ni: int, nj: int|
            cur.in_bounds(i, j) && cur.cell(i, j).revealed && !cur.cell(i, j).is_mine && cur.cell(
                i,
                j,
            ).adjacent_mines == 0 && #[trigger] cur.is_neighbor(i, j, ni, nj) implies cur.cell(
            ni,
            nj,
        ).revealed || w_new.contains(((ni as u8), (nj as u8))) by {
            let p = ((ni as u8), (nj as u8));
            if i == li && j == lj && !prev.cell(li, lj).revealed {
                assert(w_new.contains(p));
            } else {
                assert(prev.cell(i, j).revealed);
                assert(prev.is_neighbor(i, j, ni, nj));
                if !prev.cell(ni, nj).revealed && !cur.cell(ni, nj).revealed {
                    assert(prev.cell(ni, nj).revealed || w_old.contains(p));
                    let kk = choose|kk: int| 0 <= kk < w_old.len() && w_old[kk] == p;
                    if kk < w_old.len() - 1 {
                        assert(w_new.contains(w_old[kk]));
                    } else {
                        assert(p == loc);
                        assert((ni as u8) as int == ni && (nj as u8) as int == nj);
                        assert(ni == li && nj == lj);
                        assert(false);
                    }
                }
            }
        }
    }

    /// End the match: record the outcome and show the whole board.
    fn finish_match(&mut self, won: bool)
        requires
            old(self).board_wf(),
            old(self).cursor_wf(),
            old(self).initialized,
            old(self).number_of_mines as int == grid_count(old(self).grid(), p_mine()),
            forall|i: int, j: int|
                old(self).in_bounds(i, j) ==> (#[trigger] old(self).cell(
                    i,
                    j,
                )).adjacent_mines as int == old(self).adj_mines(i, j),
            won ==> old(self).fields_left_to_reveal == 0,
        ensures
            final(self).wf(),
            final(self).rows == old(self).rows,
            final(self).columns == old(self).columns,
            final(self).cursor == old(self).cursor,
            final(self).number_of_mines == old(self).number_of_mines,
            final(self).fields_left_to_reveal == old(self).fields_left_to_reveal,
            final(self).initialized,
            final(self).game_state == (if won {
                GameState::Won
            } else {
                GameState::GameOver
            }),
            final(self).all_revealed(),
            forall|i: int, j: int|
                final(self).in_bounds(i, j) ==> #[trigger] final(self).cell(i, j) == (Field {
                    revealed: true,
                    ..old(self).cell(i, j)
                }),
    {
        let ghost pre = *self;
        self.game_state = if won {
            GameState::Won
        } else {
            GameState::GameOver
        };
        let ghost prev = *self;
        self.reveal_all();
        proof {
            assert forall|i: int, j: int| self.in_bounds(i, j) implies #[trigger] self.cell(i, j)
                == (Field { revealed: true, ..pre.cell(i, j) }) by {
                assert(self.cell(i, j) == (Field { revealed: true, ..prev.cell(i, j) }));
            }
            Self::lemma_adj_mines_same(pre, *self);
            assert(self.grid().len() == pre.grid().len());
            assert forall|x: int| 0 <= x < pre.grid().len() implies (#[trigger] pre.grid()[x]).len()
                == (self.grid()[x]).len() by {}
            assert forall|x: int, y: int|
                0 <= x < pre.grid().len() && 0 <= y < (#[trigger] pre.grid()[x]).len() implies
                p_mine()(#[trigger] pre.grid()[x][y]) == p_mine()(self.grid()[x][y]) by {
                assert(pre.in_bounds(x, y));
                assert(self.cell(x, y).is_mine == pre.cell(x, y).is_mine);
            }
            lemma_grid_count_congruent(pre.grid(), self.grid(), p_mine());
            assert(self.wf());
        }
    }

    /// The neighbour list of a zero-adjacency cell holds only valid
    /// mine-free cells.
    proof fn lemma_flood_entries(s0: Termsweeper, w: Seq<(u8, u8)>, r: int, c: int)
        requires
            s0.board_wf(),
            s0.in_bounds(r, c),
            w == s0.adjacent_seq(r, c),
            s0.adj_mines(r, c) == 0,
        ensures
            forall|k: int|
                0 <= k < w.len() ==> {
                    let e = #[trigger] w[k];
                    &&& s0.in_bounds(e.0 as int, e.1 as int)
                    &&& !s0.cell(e.0 as int, e.1 as int).is_mine
                },
    {
        s0.lemma_adjacent_seq_props(r, c);
        assert forall|k: int| 0 <= k < w.len() implies {
            let e = #[trigger] w[k];
            &&& s0.in_bounds(e.0 as int, e.1 as int)
            &&& !s0.cell(e.0 as int, e.1 as int).is_mine
        } by {
            let e = w[k];
            assert(w.contains(e));
            assert(s0.is_neighbor(r, c, e.0 as int, e.1 as int));
            reveal(Termsweeper::adj_mines);
            assert(s0.adj_mines(r, c) == 0);
            assert(s0.mine_at(e.0 as int, e.1 as int) == 0);
        }
    }

    /// Every entry of a zero-adjacency cell's neighbour list is within the
    /// flood's reach, and every neighbour stands on the list.
    proof fn lemma_flood_reach_init(s0: Termsweeper, w: Seq<(u8, u8)>, r: int, c: int)
        requires
            s0.board_wf(),
            s0.in_bounds(r, c),
            w == s0.adjacent_seq(r, c),
            s0.zero_cell_at(r, c),
        ensures
            forall|k: int|
                0 <= k < w.len() ==> s0.flood_reach(r, c, (#[trigger] w[k]).0 as int, w[k].1 as int),
            forall|ni: int, nj: int| #[trigger]
                s0.is_neighbor(r, c, ni, nj) ==> w.contains(((ni as u8), (nj as u8))),
    {
        s0.lemma_adjacent_seq_props(r, c);
        assert forall|k: int| 0 <= k < w.len() implies s0.flood_reach(
            r,
            c,
            (#[trigger] w[k]).0 as int,
            w[k].1 as int,
        ) by {
            let e = w[k];
            assert(w.contains(e));
            assert(s0.is_neighbor(r, c, e.0 as int, e.1 as int));
            s0.lemma_flood_reach_base(r, c, e.0 as int, e.1 as int);
        }
    }

    /// Expand a zero-adjacency reveal: keep a work list of candidate
    /// neighbour coordinates; take one, and if it is not yet revealed, reveal
    /// it, decrement the counter, and when that cell's own count is zero
    /// enqueue its neighbours too. A cell once revealed is never re-examined,
    /// so the expansion terminates.
    #[verifier::rlimit(100)]
    fn flood(&mut self)
        requires
            old(self).board_wf(),
            old(self).cursor_wf(),
            old(self).initialized,
            old(self).game_state == GameState::Playing,
            forall|i: int, j: int|
                old(self).in_bounds(i, j) ==> (#[trigger] old(self).cell(
                    i,
                    j,
                )).adjacent_mines as int == old(self).adj_mines(i, j),
            old(self).fields_left_to_reveal as int == grid_count(
                old(self).grid(),
                p_hidden_safe(),
            ),
            forall|i: int, j: int|
                old(self).in_bounds(i, j) && (#[trigger] old(self).cell(i, j)).is_mine ==> !old(
                    self,
                ).cell(i, j).revealed,
            old(self).cell(old(self).cursor.0 as int, old(self).cursor.1 as int).revealed,
            !old(self).cell(old(self).cursor.0 as int, old(self).cursor.1 as int).is_mine,
            old(self).cell(old(self).cursor.0 as int, old(self).cursor.1 as int).adjacent_mines
                == 0,
            old(self).zero_closed_except(old(self).cursor.0 as int, old(self).cursor.1 as int),
        ensures
            final(self).board_wf(),
            final(self).rows == old(self).rows,
            final(self).columns == old(self).columns,
            final(self).cursor == old(self).cursor,
            final(self).number_of_mines == old(self).number_of_mines,
            final(self).initialized,
            final(self).game_state == GameState::Playing,
            final(self).fields_left_to_reveal as int == grid_count(
                final(self).grid(),
                p_hidden_safe(),
            ),
            forall|i: int, j: int|
                final(self).in_bounds(i, j) ==> {
                    let g = #[trigger] final(self).cell(i, j);
                    &&& g.is_mine == old(self).cell(i, j).is_mine
                    &&& g.adjacent_mines == old(self).cell(i, j).adjacent_mines
                    &&& g.marked == old(self).cell(i, j).marked
                    &&& (old(self).cell(i, j).revealed ==> g.revealed)
                },
            forall|i: int, j: int|
                final(self).in_bounds(i, j) ==> (#[trigger] final(self).cell(
                    i,
                    j,
                )).adjacent_mines as int == final(self).adj_mines(i, j),
            forall|i: int, j: int|
                final(self).in_bounds(i, j) && (#[trigger] final(self).cell(i, j)).is_mine
                    ==> !final(self).cell(i, j).revealed,
            final(self).zero_closed(),
            forall|i: int, j: int|
                final(self).in_bounds(i, j) && (#[trigger] final(self).cell(i, j)).revealed
                    && !old(self).cell(i, j).revealed ==> old(self).flood_reach(
                    old(self).cursor.0 as int,
                    old(self).cursor.1 as int,
                    i,
                    j,
                ),
    {
        let ghost s0 = *self;
        let cur = self.cursor;
        let ghost r = cur.0 as int;
        let ghost c = cur.1 as int;
        let mut worklist = self.get_valid_adjacent_fields(cur);
        proof {
            assert(s0.zero_cell_at(r, c));
            assert(s0.adj_mines(r, c) == 0);
            Self::lemma_flood_entries(s0, worklist@, r, c);
            Self::lemma_flood_reach_init(s0, worklist@, r, c);
            s0.lemma_zero_obligations_init(worklist@, r, c);
        }
        while worklist.len() > 0
            invariant
                s0.board_wf(),
                self.rows == s0.rows,
                self.columns == s0.columns,
                self.cursor == s0.cursor,
                self.number_of_mines == s0.number_of_mines,
                self.initialized,
                self.game_state == GameState::Playing,
                self.board_wf(),
                forall|k: int|
                    0 <= k < worklist@.len() ==> {
                        let e = #[trigger] worklist@[k];
                        &&& self.in_bounds(e.0 as int, e.1 as int)
                        &&& !self.cell(e.0 as int, e.1 as int).is_mine
                    },
                forall|i: int, j: int|
                    self.in_bounds(i, j) ==> {
                        let g = #[trigger] self.cell(i, j);
                        &&& g.is_mine == s0.cell(i, j).is_mine
                        &&& g.adjacent_mines == s0.cell(i, j).adjacent_mines
                        &&& g.marked == s0.cell(i, j).marked
                        &&& (s0.cell(i, j).revealed ==> g.revealed)
                    },
                forall|i: int, j: int|
                    self.in_bounds(i, j) ==> (#[trigger] self.cell(i, j)).adjacent_mines as int
                        == self.adj_mines(i, j),
                self.fields_left_to_reveal as int == grid_count(self.grid(), p_hidden_safe()),
                forall|i: int, j: int|
                    self.in_bounds(i, j) && (#[trigger] self.cell(i, j)).is_mine ==> !self.cell(
                        i,
                        j,
                    ).revealed,
                self.zero_obligations(worklist@),
                forall|k: int|
                    0 <= k < worklist@.len() ==> s0.flood_reach(
                        r,
                        c,
                        (#[trigger] worklist@[k]).0 as int,
                        worklist@[k].1 as int,
                    ),
                forall|i: int, j: int|
                    self.in_bounds(i, j) && (#[trigger] self.cell(i, j)).revealed && !s0.cell(
                        i,
                        j,
                    ).revealed ==> s0.flood_reach(r, c, i, j),
            decreases self.fields_left_to_reveal as int, worklist@.len(),
        {
            let ghost w_old = worklist@;
            let ghost prev = *self;
            let location = worklist.pop().unwrap();
            let ghost li = location.0 as int;
            let ghost lj = location.1 as int;
            proof {
                assert(w_old[w_old.len() - 1] == location);
                assert(w_old.contains(location));
                assert(worklist@ =~= w_old.drop_last());
                assert forall|k: int| 0 <= k < w_old.len() - 1 implies worklist@.contains(
                    #[trigger] w_old[k],
                ) by {
                    assert(worklist@[k] == w_old[k]);
                }
                assert(s0.flood_reach(r, c, li, lj));
                assert forall|k: int| 0 <= k < worklist@.len() implies s0.flood_reach(
                    r,
                    c,
                    (#[trigger] worklist@[k]).0 as int,
                    worklist@[k].1 as int,
                ) by {
                    assert(worklist@[k] == w_old[k]);
                }
            }
            let lf = *self.get_field(location);
            if !lf.revealed {
                self.set_field(location, Field { revealed: true, ..lf });
                proof {
                    assert forall|i: int, j: int|
                        self.in_bounds(i, j) && !(i == li && j == lj) implies #[trigger] self.cell(
                        i,
                        j,
                    ) == prev.cell(i, j) by {}
                    assert(self.cell(li, lj) == (Field { revealed: true, ..lf }));
                    assert(p_hidden_safe()(prev.cell(li, lj)));
                    lemma_grid_count_at(prev.grid(), p_hidden_safe(), li, lj, prev.columns as int);
                    lemma_grid_count_update(
                        prev.grid(),
                        p_hidden_safe(),
                        li,
                        lj,
                        Field { revealed: true, ..lf },
                    );
                    Self::lemma_adj_mines_same(prev, *self);
                }
                self.fields_left_to_reveal = self.fields_left_to_reveal - 1;
                if self.get_field(location).adjacent_mines == 0 {
                    let mut more = self.get_valid_adjacent_fields(location);
                    let ghost more_seq = more@;
                    proof {
                        self.lemma_adjacent_seq_props(li, lj);
                        assert forall|k: int| 0 <= k < more_seq.len() implies {
                            let e = #[trigger] more_seq[k];
                            &&& self.in_bounds(e.0 as int, e.1 as int)
                            &&& !self.cell(e.0 as int, e.1 as int).is_mine
                        } by {
                            let e = more_seq[k];
                            assert(more_seq.contains(e));
                            assert(self.is_neighbor(li, lj, e.0 as int, e.1 as int));
                            reveal(Termsweeper::adj_mines);
                            assert(self.adj_mines(li, lj) == 0);
                            assert(self.mine_at(e.0 as int, e.1 as int) == 0);
                        }
                    }
                    worklist.append(&mut more);
                    proof {
                        broadcast use vstd::seq_lib::lemma_seq_concat_contains_all_elements;

                        assert(worklist@ =~= w_old.drop_last() + more_seq);
                        assert forall|k: int| 0 <= k < w_old.len() - 1 implies worklist@.contains(
                            #[trigger] w_old[k],
                        ) by {
                            assert(w_old.drop_last()[k] == w_old[k]);
                            assert(w_old.drop_last().contains(w_old[k]));
                        }
                        assert forall|ni: int, nj: int| #[trigger]
                            self.is_neighbor(li, lj, ni, nj) implies worklist@.contains(
                            ((ni as u8), (nj as u8)),
                        ) by {
                            assert(more_seq.contains(((ni as u8), (nj as u8))));
                        }
                        Self::lemma_zero_obligations_step(
                            prev,
                            *self,
                            w_old,
                            worklist@,
                            location,
                        );
                        assert forall|k: int| 0 <= k < worklist@.len() implies {
                            let e = #[trigger] worklist@[k];
                            &&& self.in_bounds(e.0 as int, e.1 as int)
                            &&& !self.cell(e.0 as int, e.1 as int).is_mine
                        } by {
                            let e = worklist@[k];
                            if k < w_old.len() - 1 {
                                assert(e == w_old[k]);
                                assert(!prev.cell(e.0 as int, e.1 as int).is_mine);
                            } else {
                                assert(e == more_seq[k - (w_old.len() - 1)]);
                            }
                        }
                        assert(s0.zero_cell_at(li, lj)) by {
                            assert(s0.cell(li, lj).is_mine == prev.cell(li, lj).is_mine);
                            assert(s0.cell(li, lj).adjacent_mines == self.cell(
                                li,
                                lj,
                            ).adjacent_mines);
                        }
                        assert forall|k: int| 0 <= k < worklist@.len() implies s0.flood_reach(
                            r,
                            c,
                            (#[trigger] worklist@[k]).0 as int,
                            worklist@[k].1 as int,
                        ) by {
                            let e = worklist@[k];
                            if k < w_old.len() - 1 {
                                assert(e == w_old[k]);
                            } else {
                                assert(e == more_seq[k - (w_old.len() - 1)]);
                                assert(more_seq.contains(e));
                                assert(self.is_neighbor(li, lj, e.0 as int, e.1 as int));
                                assert(s0.is_neighbor(li, lj, e.0 as int, e.1 as int));
                                s0.lemma_flood_reach_extend(r, c, li, lj, e.0 as int, e.1 as int);
                            }
                        }
                    }
                } else {
                    proof {
                        Self::lemma_zero_obligations_step(
                            prev,
                            *self,
                            w_old,
                            worklist@,
                            location,
                        );
                        assert forall|k: int| 0 <= k < worklist@.len() implies {
                            let e = #[trigger] worklist@[k];
                            &&& self.in_bounds(e.0 as int, e.1 as int)
                            &&& !self.cell(e.0 as int, e.1 as int).is_mine
                        } by {
                            let e = worklist@[k];
                            assert(e == w_old[k]);
                            assert(!prev.cell(e.0 as int, e.1 as int).is_mine);
                        }
                    }
                }
                proof {
                    Self::lemma_adj_mines_same(prev, *self);
                    assert forall|i: int, j: int| self.in_bounds(i, j) implies {
                        let g = #[trigger] self.cell(i, j);
                        &&& g.is_mine == s0.cell(i, j).is_mine
                        &&& g.adjacent_mines == s0.cell(i, j).adjacent_mines
                        &&& g.marked == s0.cell(i, j).marked
                        &&& (s0.cell(i, j).revealed ==> g.revealed)
                        &&& (g.is_mine ==> !g.revealed)
                    } by {
                        if i == li && j == lj {
                            assert(self.cell(li, lj) == (Field { revealed: true, ..lf }));
                            assert(prev.cell(li, lj) == lf);
                            assert(!prev.cell(li, lj).is_mine);
                        } else {
                            assert(self.cell(i, j) == prev.cell(i, j));
                        }
                    }
                    assert forall|i: int, j: int| self.in_bounds(i, j) implies (#[trigger] self.cell(
                        i,
                        j,
                    )).adjacent_mines as int == self.adj_mines(i, j) by {
                        assert(self.adj_mines(i, j) == prev.adj_mines(i, j));
                        if i == li && j == lj {
                            assert(self.cell(li, lj) == (Field { revealed: true, ..lf }));
                            assert(prev.cell(li, lj) == lf);
                        } else {
                            assert(self.cell(i, j) == prev.cell(i, j));
                        }
                    }
                    assert forall|i: int, j: int|
                        self.in_bounds(i, j) && (#[trigger] self.cell(i, j)).revealed && !s0.cell(
                            i,
                            j,
                        ).revealed implies s0.flood_reach(r, c, i, j) by {
                        if !(i == li && j == lj) {
                            assert(self.cell(i, j) == prev.cell(i, j));
                        }
                    }
                }
            } else {
                proof {
                    Self::lemma_zero_obligations_step(prev, *self, w_old, worklist@, location);
                }
            }
        }
        proof {
            self.lemma_zero_obligations_closed(worklist@);
        }
    }

    /// Reveal the cursor's cell: a marked or already revealed cell is left
    /// exactly as it is (no mines are placed on that path); otherwise the
    /// mines are placed first if this is the first effective reveal, a mine
    /// ends the match, and a safe cell is shown, expanded by flood fill when
    /// it has no adjacent mines.
    #[verifier::rlimit(100)]
    pub fn reveal_cell(&mut self) -> (changed: bool)
        requires
            old(self).wf(),
        ensures
            final(self).wf(),
            Self::reveal_post(*old(self), *final(self), changed),
    {
        let ghost pre = *self;
        let cur = self.cursor;
        let ghost r = cur.0 as int;
        let ghost c = cur.1 as int;
        let probe = *self.get_field(cur);
        if !probe.marked && !probe.revealed {
            if !self.initialized {
                self.initialize();
            }
            let ghost ini = *self;
            let f0 = *self.get_field(cur);
            proof {
                assert(f0.marked == probe.marked && f0.revealed == probe.revealed);
                if ini.game_state != GameState::Playing {
                    assert(ini.all_revealed());
                    assert(ini.cell(r, c).revealed);
                }
                assert(ini.game_state == GameState::Playing);
            }
            let ghost prev0 = *self;
            self.set_field(cur, Field { revealed: true, ..f0 });
            proof {
                assert forall|i: int, j: int|
                    self.in_bounds(i, j) && !(i == r && j == c) implies #[trigger] self.cell(i, j)
                    == ini.cell(i, j) by {}
            }
            if f0.is_mine {
                proof {
                    assert(pre.initialized);
                    Self::lemma_adj_mines_same(ini, *self);
                    assert(self.grid().len() == ini.grid().len());
                    assert forall|x: int|
                        0 <= x < ini.grid().len() implies (#[trigger] ini.grid()[x]).len() == (
                    self.grid()[x]).len() by {}
                    assert forall|x: int, y: int|
                        0 <= x < ini.grid().len() && 0 <= y < (#[trigger] ini.grid()[x]).len()
                        implies p_mine()(#[trigger] ini.grid()[x][y]) == p_mine()(
                        self.grid()[x][y],
                    ) by {
                        assert(ini.in_bounds(x, y));
                        assert(self.cell(x, y).is_mine == ini.cell(x, y).is_mine);
                    }
                    lemma_grid_count_congruent(ini.grid(), self.grid(), p_mine());
                    assert forall|i: int, j: int| self.in_bounds(i, j) implies (
                    #[trigger] self.cell(i, j)).adjacent_mines as int == self.adj_mines(i, j) by {
                        assert(self.adj_mines(i, j) == ini.adj_mines(i, j));
                        if !(i == r && j == c) {
                            assert(self.cell(i, j) == ini.cell(i, j));
                        } else {
                            assert(self.cell(r, c) == (Field { revealed: true, ..f0 }));
                            assert(ini.cell(r, c) == f0);
                        }
                    }
                }
                self.finish_match(false);
                true
            } else {
                proof {
                    assert(p_hidden_safe()(prev0.cell(r, c)));
                    lemma_grid_count_at(prev0.grid(), p_hidden_safe(), r, c, prev0.columns as int);
                    lemma_grid_count_update(
                        prev0.grid(),
                        p_hidden_safe(),
                        r,
                        c,
                        Field { revealed: true, ..f0 },
                    );
                    Self::lemma_adj_mines_same(ini, *self);
                }
                self.fields_left_to_reveal = self.fields_left_to_reveal - 1;
                let ghost s1 = *self;
                proof {
                    Self::lemma_adj_mines_same(ini, *self);
                    assert forall|i: int, j: int| self.in_bounds(i, j) implies {
                        let g = #[trigger] self.cell(i, j);
                        &&& g.adjacent_mines as int == self.adj_mines(i, j)
                        &&& (g.is_mine ==> !g.revealed)
                    } by {
                        assert(self.adj_mines(i, j) == ini.adj_mines(i, j));
                        if !(i == r && j == c) {
                            assert(self.cell(i, j) == ini.cell(i, j));
                        } else {
                            assert(self.cell(r, c) == (Field { revealed: true, ..f0 }));
                            assert(ini.cell(r, c) == f0);
                        }
                    }
                }
                if f0.adjacent_mines == 0 {
                    proof {
                        assert(self.zero_closed_except(r, c)) by {
                            reveal(Termsweeper::zero_closed_except);
                            assert forall|i: int, j: int, ni: int, nj: int|
                                self.in_bounds(i, j) && self.cell(i, j).revealed && !self.cell(
                                    i,
                                    j,
                                ).is_mine && self.cell(i, j).adjacent_mines == 0 && !(i == r && j
                                == c) && #[trigger] self.is_neighbor(i, j, ni, nj) implies
                            self.cell(ni, nj).revealed by {
                                assert(ini.cell(i, j).revealed);
                                assert(ini.is_neighbor(i, j, ni, nj));
                                assert(ini.cell(ni, nj).revealed);
                            }
                        }
                    }
                    self.flood();
                }
                proof {
                    assert forall|i: int, j: int| self.in_bounds(i, j) implies {
                        let g = #[trigger] self.cell(i, j);
                        &&& g.is_mine == ini.cell(i, j).is_mine
                        &&& g.adjacent_mines == ini.cell(i, j).adjacent_mines
                        &&& g.marked == ini.cell(i, j).marked
                        &&& (ini.cell(i, j).revealed ==> g.revealed)
                    } by {
                        assert(s1.cell(i, j).is_mine == ini.cell(i, j).is_mine);
                    }
                    if f0.adjacent_mines != 0 {
                        assert forall|i: int, j: int, ni: int, nj: int|
                            self.in_bounds(i, j) && self.cell(i, j).revealed && !self.cell(
                                i,
                                j,
                            ).is_mine && self.cell(i, j).adjacent_mines == 0
                                && #[trigger] self.is_neighbor(i, j, ni, nj) implies self.cell(
                            ni,
                            nj,
                        ).revealed by {
                            assert(!(i == r && j == c));
                            assert(ini.cell(i, j).revealed);
                            assert(ini.is_neighbor(i, j, ni, nj));
                            assert(ini.cell(ni, nj).revealed);
                        }
                    }
                    assert(self.grid().len() == ini.grid().len());
                    assert forall|x: int|
                        0 <= x < ini.grid().len() implies (#[trigger] ini.grid()[x]).len() == (
                    self.grid()[x]).len() by {}
                    assert forall|x: int, y: int|
                        0 <= x < ini.grid().len() && 0 <= y < (#[trigger] ini.grid()[x]).len()
                        implies p_mine()(#[trigger] ini.grid()[x][y]) == p_mine()(
                        self.grid()[x][y],
                    ) by {
                        assert(ini.in_bounds(x, y));
                        assert(self.cell(x, y).is_mine == ini.cell(x, y).is_mine);
                    }
                    lemma_grid_count_congruent(ini.grid(), self.grid(), p_mine());
                }
                if self.fields_left_to_reveal == 0 {
                    self.finish_match(true);
                } else {
                    proof {
                        assert(self.wf());
                    }
                }
                proof {
                    if !pre.initialized {
                        assert forall|nr: int, nc: int| #[trigger]
                            self.is_neighbor(r, c, nr, nc) implies !self.cell(nr, nc).is_mine by {
                            assert(ini.is_neighbor(r, c, nr, nc));
                            assert(!ini.cell(nr, nc).is_mine);
                            assert(self.cell(nr, nc).is_mine == ini.cell(nr, nc).is_mine);
                        }
                    }
                    if self.game_state == GameState::Playing {
                        assert forall|a: int, b: int| s1.in_bounds(a, b) implies {
                            let g = #[trigger] self.cell(a, b);
                            &&& g.is_mine == s1.cell(a, b).is_mine
                            &&& g.adjacent_mines == s1.cell(a, b).adjacent_mines
                        } by {
                            assert(s1.cell(a, b).is_mine == ini.cell(a, b).is_mine);
                            assert(s1.cell(a, b).adjacent_mines == ini.cell(a, b).adjacent_mines);
                        }
                        if f0.adjacent_mines == 0 {
                            assert forall|i: int, j: int|
                                self.in_bounds(i, j) && (#[trigger] self.cell(i, j)).revealed
                                    && !pre.cell(i, j).revealed implies self.flood_reach(
                                r,
                                c,
                                i,
                                j,
                            ) by {
                                assert(ini.cell(i, j).revealed == pre.cell(i, j).revealed);
                                if i == r && j == c {
                                    assert(self.zero_cell_at(r, c));
                                    self.lemma_flood_reach_base(r, c, i, j);
                                } else {
                                    assert(s1.cell(i, j) == ini.cell(i, j));
                                    assert(!s1.cell(i, j).revealed);
                                    assert(s1.flood_reach(r, c, i, j));
                                    Self::lemma_flood_reach_same(s1, *self, r, c, i, j);
                                }
                            }
                        } else {
                            assert forall|i: int, j: int|
                                self.in_bounds(i, j) && (#[trigger] self.cell(i, j)).revealed
                                    && !pre.cell(i, j).revealed implies i == r && j == c by {
                                assert(ini.cell(i, j).revealed == pre.cell(i, j).revealed);
                                if !(i == r && j == c) {
                                    assert(self.cell(i, j) == ini.cell(i, j));
                                }
                            }
                        }
                    }
                }
                true
            }
        } else {
            false
        }
    }
}

/// Relies on rand::Rng::gen_range over rand::thread_rng(): a value drawn
/// uniformly from `0..bound`. gen_range panics only on an empty range, which
/// the precondition rules out; nothing else is assumed of the draw.
#[verifier::external_body]
fn random_below(bound: usize) -> (r: usize)
    requires
        bound >= 1,
    ensures
        r < bound,
{
    rand::Rng::gen_range(&mut rand::thread_rng(), 0..bound)
}

impl Termsweeper {
    /// First-reveal setup: draw one random pick per mine and hand them to the
    /// deterministic placement. A no-op once the game is initialized:
    /// placement never repeats within a match.
    fn initialize(&mut self)
        requires
            old(self).wf(),
        ensures
            final(self).wf(),
            old(self).initialized ==> *final(self) == *old(self),
            !old(self).initialized ==> Self::init_post(*old(self), *final(self)),
    {
        if self.initialized {
            return ;
        }
        let ghost pre = *self;
        let cur = self.cursor;
        let ghost or = cur.0 as int;
        let ghost oc = cur.1 as int;
        let adjacent = self.get_valid_adjacent_fields(cur);
        proof {
            pre.lemma_adjacent_seq_props(or, oc);
            pre.lemma_neighbor_count_bound(or, oc);
            assert(self.columns as int * self.rows as int <= 65025) by (nonlinear_arith)
                requires
                    self.columns <= 255,
                    self.rows <= 255,
            ;
        }
        let total_cells: u16 = (self.columns as u16) * (self.rows as u16);
        let pool: u16 = total_cells - 1 - (adjacent.len() as u16);
        let count: u16 = if self.number_of_mines > pool {
            pool
        } else {
            self.number_of_mines
        };
        let mut picks: Vec<usize> = Vec::new();
        let mut drawn: u16 = 0;
        let mut remaining: usize = pool as usize;
        while drawn < count
            invariant
                drawn <= count,
                count <= pool,
                remaining == pool as int - drawn as int,
            decreases count as int - drawn as int,
        {
            picks.push(random_below(remaining));
            remaining = remaining - 1;
            drawn = drawn + 1;
        }
        self.initialize_with_picks(&picks);
    }

    /// Dispatch one player command. Commands act only while the match is in
    /// `Playing`; in a terminal state nothing changes and `false` comes back.
    pub fn handle_event(&mut self, command: Command) -> (changed: bool)
        requires
            old(self).wf(),
        ensures
            final(self).wf(),
            old(self).game_state != GameState::Playing ==> !changed && *final(self) == *old(
                self,
            ),
            old(self).game_state == GameState::Playing ==> match command {
                Command::MoveLeft => Self::move_post(*old(self), *final(self), 0, -1, changed),
                Command::MoveDown => Self::move_post(*old(self), *final(self), 1, 0, changed),
                Command::MoveUp => Self::move_post(*old(self), *final(self), -1, 0, changed),
                Command::MoveRight => Self::move_post(*old(self), *final(self), 0, 1, changed),
                Command::ToggleMark => Self::toggle_post(*old(self), *final(self), changed),
                Command::Reveal => Self::reveal_post(*old(self), *final(self), changed),
            },
    {
        match self.game_state {
            GameState::Playing => match command {
                Command::MoveLeft => self.move_cursor_left(),
                Command::MoveDown => self.move_cursor_down(),
                Command::MoveUp => self.move_cursor_up(),
                Command::MoveRight => self.move_cursor_right(),
                Command::ToggleMark => self.toggle_mark(),
                Command::Reveal => self.reveal_cell(),
            },
            _ => false,
        }
    }
}

impl Termsweeper {
    /// An initialized board holds exactly `number_of_mines` mines, and during
    /// play the counter equals the number of hidden safe cells.
    pub proof fn lemma_counters_exact(g: Termsweeper)
        requires
            g.wf(),
            g.initialized,
        ensures
            grid_count(g.grid(), p_mine()) == g.number_of_mines as int,
            g.game_state == GameState::Playing ==> g.fields_left_to_reveal as int == grid_count(
                g.grid(),
                p_hidden_safe(),
            ),
    {
    }

    /// Every cell's stored `adjacent_mines` is the exact count of mine cells
    /// among its valid neighbours.
    pub proof fn lemma_adjacency_exact(g: Termsweeper, r: int, c: int)
        requires
            g.wf(),
            g.initialized,
            g.in_bounds(r, c),
        ensures
            g.cell(r, c).adjacent_mines as int == g.adj_mines(r, c),
    {
    }

    /// Along a chain of zero-adjacency safe cells whose head is revealed,
    /// every cell is revealed: `zero_closed` propagates step by step.
    proof fn lemma_chain_revealed(g: Termsweeper, p: Seq<(int, int)>, sr: int, sc: int, k: int)
        requires
            g.zero_closed(),
            g.zero_chain(p, sr, sc),
            g.cell(sr, sc).revealed,
            0 <= k < p.len(),
        ensures
            g.cell(p[k].0, p[k].1).revealed,
        decreases k,
    {
        if k > 0 {
            Self::lemma_chain_revealed(g, p, sr, sc, k - 1);
            assert(g.is_neighbor(p[k - 1].0, p[k - 1].1, p[k].0, p[k].1));
        }
    }

    /// Flood completeness: once the origin cell of a flood is revealed, every
    /// cell within its reach is revealed. Together with the upper bound in
    /// `reveal_post`, the revealed set after a zero-adjacency reveal during
    /// play is exactly the old set plus the reach of the cursor — determined
    /// by the board and the cursor alone, whatever order the work list was
    /// processed in.
    pub proof fn lemma_flood_complete(g: Termsweeper, sr: int, sc: int, i: int, j: int)
        requires
            g.wf(),
            g.in_bounds(sr, sc),
            g.cell(sr, sc).revealed,
            g.flood_reach(sr, sc, i, j),
        ensures
            g.in_bounds(i, j),
            g.cell(i, j).revealed,
    {
        reveal(Termsweeper::flood_reach);
        let p = choose|p: Seq<(int, int)>| #[trigger]
            g.zero_chain(p, sr, sc) && (p.last() == ((i, j)) || g.is_neighbor(
                p.last().0,
                p.last().1,
                i,
                j,
            ));
        Self::lemma_chain_revealed(g, p, sr, sc, p.len() - 1);
        if !(p.last() == ((i, j))) {
            assert(g.is_neighbor(p.last().0, p.last().1, i, j));
            assert(g.zero_cell_at(p.last().0, p.last().1));
        }
    }

    /// The boundary of a revealed region: a revealed cell bordering a hidden
    /// cell is a mine or has a positive adjacency count, because a revealed
    /// zero-adjacency safe cell always has every neighbour revealed.
    pub proof fn lemma_flood_boundary(g: Termsweeper, r: int, c: int, nr: int, nc: int)
        requires
            g.wf(),
            g.in_bounds(r, c),
            g.cell(r, c).revealed,
            g.is_neighbor(r, c, nr, nc),
            !g.cell(nr, nc).revealed,
        ensures
            g.cell(r, c).is_mine || g.cell(r, c).adjacent_mines > 0,
    {
    }
}

/// Membership test on a list of coordinates.
fn vec_contains(v: &Vec<(u8, u8)>, x: (u8, u8)) -> (present: bool)
    ensures
        present == v@.contains(x),
{
    let mut k: usize = 0;
    while k < v.len()
        invariant
            k <= v@.len(),
            forall|i: int| 0 <= i < k as int ==> #[trigger] v@[i] != x,
        decreases v@.len() - k as int,
    {
        let p = v[k];
        if p.0 == x.0 && p.1 == x.1 {
            proof {
                assert(v@[k as int] == x);
            }
            return true;
        }
        k = k + 1;
    }
    false
}

} // verus!
