use vstd::prelude::*;

use crate::dict::{sorted_word_list, word_list_extends, word_list_has, word_list_has_extension,
    word_list_contains};
use crate::{is_tile, spec_score_letter, EMPTY};

verus! {

/// Why a staging or commit operation was refused.
#[derive(Clone, Copy, Debug, PartialEq, Eq, Structural)]
pub enum PlayError {
    /// The named space already holds a tile.
    OccupiedCell,
    /// A coordinate lies outside the 15x15 grid.
    OutOfBounds,
    /// A requested tile is not held by the rack.
    TileNotInRack,
    /// The staged tiles fit neither a single row nor a single column.
    InconsistentAxis,
    /// The staged tiles leave a gap in the word they claim to form.
    NonContiguous,
    /// No staged tile touches the frontier.
    NoAbutment,
    /// A word formed by the play is not in the dictionary.
    WordNotInDictionary,
}

/// One space of the grid. `val` is the frozen base value of a committed
/// tile: multipliers apply only in the turn a tile is placed, never again.
#[derive(Clone, Copy, Debug)]
pub struct Space {
    pub tile: u8,
    pub letter_mult: i64,
    pub word_mult: i64,
    pub val: i64,
}

impl Space {
    /// Overwrite the tile byte of this space.
    pub fn set_char(&mut self, tile: u8)
        ensures
            final(self).tile == tile,
            final(self).letter_mult == old(self).letter_mult,
            final(self).word_mult == old(self).word_mult,
            final(self).val == old(self).val,
    {
        self.tile = tile;
    }
}

/// Both coordinates on the 15x15 grid.
pub open spec fn in_bounds(r: int, c: int) -> bool {
    0 <= r < 15 && 0 <= c < 15
}

/// The fixed premium layout: letter multiplier of the space at (r, c).
pub open spec fn spec_letter_mult(r: int, c: int) -> int {
    if (r == 1 || r == 5 || r == 9 || r == 13) && (c == 1 || c == 5 || c == 9 || c == 13) && !((r
        == 1 || r == 13) && (c == 1 || c == 13)) {
        3
    } else if ((r == 0 || r == 14) && (c == 3 || c == 11)) || ((r == 3 || r == 11) && (c == 0 || c
        == 7 || c == 14)) || ((r == 2 || r == 12) && (c == 6 || c == 8)) || ((r == 6 || r == 8) && (
    c == 2 || c == 6 || c == 8 || c == 12)) || (r == 7 && (c == 3 || c == 11)) {
        2
    } else {
        1
    }
}

/// The fixed premium layout: word multiplier of the space at (r, c).
pub open spec fn spec_word_mult(r: int, c: int) -> int {
    if (r == 0 || r == 7 || r == 14) && (c == 0 || c == 7 || c == 14) && !(r == 7 && c == 7) {
        3
    } else if ((r == c || r + c == 14) && (1 <= r <= 4 || 10 <= r <= 13)) || (r == 7 && c == 7) {
        2
    } else {
        1
    }
}

/// Strict order on positions: by row, then by column.
pub open spec fn pos_lt(p: (usize, usize), q: (usize, usize)) -> bool {
    p.0 < q.0 || (p.0 == q.0 && p.1 < q.1)
}

/// Lowercase ASCII letters are accepted as input and normalized to uppercase.
pub open spec fn is_input_letter(t: u8) -> bool {
    is_tile(t) || (97 <= t && t <= 122)
}

/// A cell left of an occupied stretch cannot start the run later than the
/// stretch begins.
pub proof fn lemma_row_start_le(g: Seq<Seq<u8>>, r: int, c: int, a: int)
    requires
        0 <= a <= c <= 14,
        forall|j: int| a <= j < c ==> g[r][j] != EMPTY,
    ensures
        row_start(g, r, c) <= a,
    decreases c - a,
{
    lemma_row_start_props(g, r, c);
    if a < c {
        assert(g[r][c - 1] != EMPTY);
        lemma_row_start_le(g, r, c - 1, a);
    }
}

pub proof fn lemma_row_end_ge(g: Seq<Seq<u8>>, r: int, c: int, a: int)
    requires
        0 <= c <= a <= 14,
        forall|j: int| c < j <= a ==> g[r][j] != EMPTY,
    ensures
        row_end(g, r, c) >= a,
    decreases a - c,
{
    lemma_row_end_props(g, r, c);
    if c < a {
        assert(g[r][c + 1] != EMPTY);
        lemma_row_end_ge(g, r, c + 1, a);
    }
}

pub proof fn lemma_col_start_le(g: Seq<Seq<u8>>, r: int, c: int, a: int)
    requires
        0 <= a <= r <= 14,
        forall|j: int| a <= j < r ==> g[j][c] != EMPTY,
    ensures
        col_start(g, r, c) <= a,
    decreases r - a,
{
    lemma_col_start_props(g, r, c);
    if a < r {
        assert(g[r - 1][c] != EMPTY);
        lemma_col_start_le(g, r - 1, c, a);
    }
}

pub proof fn lemma_col_end_ge(g: Seq<Seq<u8>>, r: int, c: int, a: int)
    requires
        0 <= r <= a <= 14,
        forall|j: int| r < j <= a ==> g[j][c] != EMPTY,
    ensures
        col_end(g, r, c) >= a,
    decreases a - r,
{
    lemma_col_end_props(g, r, c);
    if r < a {
        assert(g[r + 1][c] != EMPTY);
        lemma_col_end_ge(g, r + 1, c, a);
    }
}

/// Runs are local: two grids that agree on a column's cells up to row r give
/// the same run start there.
pub proof fn lemma_col_start_agree(g1: Seq<Seq<u8>>, g2: Seq<Seq<u8>>, r: int, c: int)
    requires
        0 <= r <= 14,
        forall|j: int| 0 <= j <= r ==> #[trigger] g1[j][c] == g2[j][c],
    ensures
        col_start(g1, r, c) == col_start(g2, r, c),
    decreases r,
{
    if 0 < r {
        assert(g1[r - 1][c] == g2[r - 1][c]);
        if g1[r - 1][c] != EMPTY {
            lemma_col_start_agree(g1, g2, r - 1, c);
        }
    }
}

pub proof fn lemma_col_end_agree(g1: Seq<Seq<u8>>, g2: Seq<Seq<u8>>, r: int, c: int)
    requires
        0 <= r <= 14,
        forall|j: int| r <= j <= 14 ==> #[trigger] g1[j][c] == g2[j][c],
    ensures
        col_end(g1, r, c) == col_end(g2, r, c),
    decreases 14 - r,
{
    if r < 14 {
        assert(g1[r + 1][c] == g2[r + 1][c]);
        if g1[r + 1][c] != EMPTY {
            lemma_col_end_agree(g1, g2, r + 1, c);
        }
    }
}

pub proof fn lemma_row_start_agree(g1: Seq<Seq<u8>>, g2: Seq<Seq<u8>>, r: int, c: int)
    requires
        0 <= c <= 14,
        forall|j: int| 0 <= j <= c ==> #[trigger] g1[r][j] == g2[r][j],
    ensures
        row_start(g1, r, c) == row_start(g2, r, c),
    decreases c,
{
    if 0 < c {
        assert(g1[r][c - 1] == g2[r][c - 1]);
        if g1[r][c - 1] != EMPTY {
            lemma_row_start_agree(g1, g2, r, c - 1);
        }
    }
}

pub proof fn lemma_row_end_agree(g1: Seq<Seq<u8>>, g2: Seq<Seq<u8>>, r: int, c: int)
    requires
        0 <= c <= 14,
        forall|j: int| c <= j <= 14 ==> #[trigger] g1[r][j] == g2[r][j],
    ensures
        row_end(g1, r, c) == row_end(g2, r, c),
    decreases 14 - c,
{
    if c < 14 {
        assert(g1[r][c + 1] == g2[r][c + 1]);
        if g1[r][c + 1] != EMPTY {
            lemma_row_end_agree(g1, g2, r, c + 1);
        }
    }
}

/// A down word stands in one column: boards that agree on that column and on
/// the dictionary agree on its legality.
pub proof fn lemma_word_down_agrees(a: Board, b: Board, r: int, c: int)
    requires
        in_bounds(r, c),
        forall|j: int| 0 <= j < 15 ==> a.tiles()[j][c] == b.tiles()[j][c],
        a.word_list == b.word_list,
    ensures
        a.spec_is_word_down(r, c) == b.spec_is_word_down(r, c),
{
    lemma_col_start_agree(a.tiles(), b.tiles(), r, c);
    lemma_col_end_agree(a.tiles(), b.tiles(), r, c);
    lemma_col_start_props(a.tiles(), r, c);
    lemma_col_end_props(a.tiles(), r, c);
    assert(a.tiles()[r][c] == a.tile_at(r, c));
    assert(b.tiles()[r][c] == b.tile_at(r, c));
    let s = col_start(a.tiles(), r, c);
    let e = col_end(a.tiles(), r, c);
    assert(col_word(a.tiles(), c, s, e) =~= col_word(b.tiles(), c, s, e)) by {
        assert forall|k: int| 0 <= k < e + 1 - s implies col_word(a.tiles(), c, s, e)[k]
            == col_word(b.tiles(), c, s, e)[k] by {
            assert(a.tiles()[s + k][c] == b.tiles()[s + k][c]);
        }
    }
}

/// An across word stands in one row: boards that agree on that row and on the
/// dictionary agree on its legality.
pub proof fn lemma_word_across_agrees(a: Board, b: Board, r: int, c: int)
    requires
        in_bounds(r, c),
        forall|j: int| 0 <= j < 15 ==> a.tiles()[r][j] == b.tiles()[r][j],
        a.word_list == b.word_list,
    ensures
        a.spec_is_word_across(r, c) == b.spec_is_word_across(r, c),
{
    lemma_row_start_agree(a.tiles(), b.tiles(), r, c);
    lemma_row_end_agree(a.tiles(), b.tiles(), r, c);
    lemma_row_start_props(a.tiles(), r, c);
    lemma_row_end_props(a.tiles(), r, c);
    assert(a.tiles()[r][c] == a.tile_at(r, c));
    assert(b.tiles()[r][c] == b.tile_at(r, c));
    let s = row_start(a.tiles(), r, c);
    let e = row_end(a.tiles(), r, c);
    assert(row_word(a.tiles(), r, s, e) =~= row_word(b.tiles(), r, s, e)) by {
        assert forall|k: int| 0 <= k < e + 1 - s implies row_word(a.tiles(), r, s, e)[k]
            == row_word(b.tiles(), r, s, e)[k] by {
            assert(a.tiles()[r][s + k] == b.tiles()[r][s + k]);
        }
    }
}

/// Uppercase a lowercase ASCII letter; all other bytes pass unchanged.
pub open spec fn spec_norm_tile(t: u8) -> u8 {
    if 97 <= t && t <= 122 {
        (t - 32) as u8
    } else {
        t
    }
}

/// Column where the maximal occupied run through (r, c) along row r begins.
pub open spec fn row_start(g: Seq<Seq<u8>>, r: int, c: int) -> int
    decreases c,
{
    if 0 < c <= 14 && g[r][c - 1] != EMPTY {
        row_start(g, r, c - 1)
    } else {
        c
    }
}

/// Column where the maximal occupied run through (r, c) along row r ends.
pub open spec fn row_end(g: Seq<Seq<u8>>, r: int, c: int) -> int
    decreases 14 - c,
{
    if 0 <= c < 14 && g[r][c + 1] != EMPTY {
        row_end(g, r, c + 1)
    } else {
        c
    }
}

/// Row where the maximal occupied run through (r, c) along column c begins.
pub open spec fn col_start(g: Seq<Seq<u8>>, r: int, c: int) -> int
    decreases r,
{
    if 0 < r <= 14 && g[r - 1][c] != EMPTY {
        col_start(g, r - 1, c)
    } else {
        r
    }
}

/// Row where the maximal occupied run through (r, c) along column c ends.
pub open spec fn col_end(g: Seq<Seq<u8>>, r: int, c: int) -> int
    decreases 14 - r,
{
    if 0 <= r < 14 && g[r + 1][c] != EMPTY {
        col_end(g, r + 1, c)
    } else {
        r
    }
}

/// The tiles of row r from column s to column e, inclusive.
pub open spec fn row_word(g: Seq<Seq<u8>>, r: int, s: int, e: int) -> Seq<u8> {
    Seq::new((e + 1 - s) as nat, |i: int| g[r][s + i])
}

/// The tiles of column c from row s to row e, inclusive.
pub open spec fn col_word(g: Seq<Seq<u8>>, c: int, s: int, e: int) -> Seq<u8> {
    Seq::new((e + 1 - s) as nat, |i: int| g[s + i][c])
}

/// Every maximal run of length at least 2, in any row or column of the grid
/// `g`, is a word of `dict`.
#[verifier::opaque]
pub open spec fn grid_words_legal(g: Seq<Seq<u8>>, dict: Seq<Vec<u8>>) -> bool {
    forall|r: int, c: int|
        #![trigger g[r][c]]
        in_bounds(r, c) && g[r][c] != EMPTY ==> {
            &&& (row_start(g, r, c) < row_end(g, r, c) ==> word_list_has(
                dict,
                row_word(g, r, row_start(g, r, c), row_end(g, r, c)),
            ))
            &&& (col_start(g, r, c) < col_end(g, r, c) ==> word_list_has(
                dict,
                col_word(g, c, col_start(g, r, c), col_end(g, r, c)),
            ))
        }
}

/// The board: the scored grid, the positions staged in the current turn, the
/// frontier of playable empty positions (kept sorted by row then column), and
/// the two sorted word lists.
pub struct Board {
    pub board: Vec<Vec<Space>>,
    pub staged_spaces: Vec<(usize, usize)>,
    pub neighbors: Vec<(usize, usize)>,
    pub word_list: Vec<Vec<u8>>,
    pub partials_list: Vec<Vec<u8>>,
}

impl Board {
    /// The space at (r, c).
    pub open spec fn sp(self, r: int, c: int) -> Space {
        self.board@[r]@[c]
    }

    /// The tile byte at (r, c).
    pub open spec fn tile_at(self, r: int, c: int) -> u8 {
        self.sp(r, c).tile
    }

    /// The space at (r, c) holds a tile (staged or committed).
    pub open spec fn occ(self, r: int, c: int) -> bool {
        self.tile_at(r, c) != EMPTY
    }

    /// (r, c) is staged in the current turn.
    pub open spec fn staged_has(self, r: int, c: int) -> bool {
        exists|k: int|
            0 <= k < self.staged_spaces@.len() && self.staged_spaces@[k].0 == r
                && self.staged_spaces@[k].1 == c
    }

    /// (r, c) is in the frontier.
    pub open spec fn frontier_has(self, r: int, c: int) -> bool {
        exists|k: int|
            0 <= k < self.neighbors@.len() && self.neighbors@[k].0 == r && self.neighbors@[k].1
                == c
    }

    /// The full grid of tile bytes, staged tiles included.
    pub open spec fn tiles(self) -> Seq<Seq<u8>> {
        Seq::new(15, |r: int| Seq::new(15, |c: int| self.tile_at(r, c)))
    }

    /// The grid of tile bytes with every staged tile removed: only what has
    /// been committed.
    pub open spec fn committed_tiles(self) -> Seq<Seq<u8>> {
        Seq::new(
            15,
            |r: int|
                Seq::new(
                    15,
                    |c: int|
                        if self.staged_has(r, c) {
                            EMPTY
                        } else {
                            self.tile_at(r, c)
                        },
                ),
        )
    }

    pub open spec fn grid_wf(self) -> bool {
        &&& self.board@.len() == 15
        &&& forall|r: int| 0 <= r < 15 ==> #[trigger] self.board@[r]@.len() == 15
        &&& forall|r: int, c: int|
            in_bounds(r, c) ==> {
                let s = #[trigger] self.sp(r, c);
                &&& (s.tile == EMPTY || is_tile(s.tile))
                &&& s.letter_mult == spec_letter_mult(r, c)
                &&& s.word_mult == spec_word_mult(r, c)
            }
    }

    /// Staged positions are in bounds, occupied, and pairwise distinct.
    pub open spec fn staged_wf(self) -> bool {
        &&& forall|k: int|
            0 <= k < self.staged_spaces@.len() ==> in_bounds(
                #[trigger] self.staged_spaces@[k].0 as int,
                self.staged_spaces@[k].1 as int,
            ) && self.occ(self.staged_spaces@[k].0 as int, self.staged_spaces@[k].1 as int)
        &&& forall|k1: int, k2: int|
            0 <= k1 < k2 < self.staged_spaces@.len() ==> !(#[trigger] self.staged_spaces@[k1].0
                == #[trigger] self.staged_spaces@[k2].0 && self.staged_spaces@[k1].1
                == self.staged_spaces@[k2].1)
    }

    /// A committed tile keeps its frozen base value; all other spaces carry 0.
    pub open spec fn vals_wf(self) -> bool {
        forall|r: int, c: int|
            in_bounds(r, c) ==> (#[trigger] self.sp(r, c).val == (
            if self.occ(r, c) && !self.staged_has(r, c) {
                spec_score_letter(self.tile_at(r, c))
            } else {
                0
            }))
    }

    /// Frontier entries are in-bounds positions not holding a committed tile,
    /// kept strictly sorted by row then column.
    pub open spec fn frontier_wf(self) -> bool {
        &&& forall|k: int|
            0 <= k < self.neighbors@.len() ==> in_bounds(
                #[trigger] self.neighbors@[k].0 as int,
                self.neighbors@[k].1 as int,
            ) && (!self.occ(self.neighbors@[k].0 as int, self.neighbors@[k].1 as int)
                || self.staged_has(self.neighbors@[k].0 as int, self.neighbors@[k].1 as int))
        &&& forall|k1: int, k2: int|
            0 <= k1 < k2 < self.neighbors@.len() ==> pos_lt(
                #[trigger] self.neighbors@[k1],
                #[trigger] self.neighbors@[k2],
            )
    }

    pub open spec fn dicts_wf(self) -> bool {
        sorted_word_list(self.word_list@) && sorted_word_list(self.partials_list@)
    }

    /// Every maximal committed run of length at least 2 is a dictionary word:
    /// the soundness invariant that commits preserve.
    pub open spec fn plays_legal(self) -> bool {
        grid_words_legal(self.committed_tiles(), self.word_list@)
    }

    /// Well-formedness of the whole board state.
    pub open spec fn wf(self) -> bool {
        &&& self.grid_wf()
        &&& self.staged_wf()
        &&& self.vals_wf()
        &&& self.frontier_wf()
        &&& self.dicts_wf()
        &&& self.plays_legal()
    }
}

/// The multipliers of the space at (row, col) in the fixed premium layout.
fn multipliers_at(row: usize, col: usize) -> (m: (i64, i64))
    requires
        row < 15,
        col < 15,
    ensures
        m.0 == spec_letter_mult(row as int, col as int),
        m.1 == spec_word_mult(row as int, col as int),
{
    let r = row;
    let c = col;
    let lm: i64 = if (r == 1 || r == 5 || r == 9 || r == 13) && (c == 1 || c == 5 || c == 9 || c
        == 13) && !((r == 1 || r == 13) && (c == 1 || c == 13)) {
        3
    } else if ((r == 0 || r == 14) && (c == 3 || c == 11)) || ((r == 3 || r == 11) && (c == 0 || c
        == 7 || c == 14)) || ((r == 2 || r == 12) && (c == 6 || c == 8)) || ((r == 6 || r == 8) && (
    c == 2 || c == 6 || c == 8 || c == 12)) || (r == 7 && (c == 3 || c == 11)) {
        2
    } else {
        1
    };
    let wm: i64 = if (r == 0 || r == 7 || r == 14) && (c == 0 || c == 7 || c == 14) && !(r == 7 && c
        == 7) {
        3
    } else if ((r == c || r + c == 14) && (1 <= r && r <= 4 || 10 <= r && r <= 13)) || (r == 7 && c
        == 7) {
        2
    } else {
        1
    };
    (lm, wm)
}

impl Board {
    /// A fresh board: empty grid with the standard premium layout, no staged
    /// tiles, the frontier seeded with the centre square, and the two sorted
    /// word lists (full words, and all prefixes of words).
    pub fn new(word_list: Vec<Vec<u8>>, partials_list: Vec<Vec<u8>>) -> (b: Board)
        requires
            sorted_word_list(word_list@),
            sorted_word_list(partials_list@),
        ensures
            b.wf(),
            b.word_list == word_list,
            b.partials_list == partials_list,
            b.staged_spaces@.len() == 0,
            b.neighbors@ =~= seq![(7usize, 7usize)],
            forall|r: int, c: int| in_bounds(r, c) ==> !b.occ(r, c),
    {
        let mut grid: Vec<Vec<Space>> = Vec::new();
        let mut r: usize = 0;
        while r < 15
            invariant
                r <= 15,
                grid@.len() == r,
                forall|i: int| 0 <= i < r ==> #[trigger] grid@[i]@.len() == 15,
                forall|i: int, j: int|
                    0 <= i < r && 0 <= j < 15 ==> {
                        let s = #[trigger] grid@[i]@[j];
                        &&& s.tile == EMPTY
                        &&& s.val == 0
                        &&& s.letter_mult == spec_letter_mult(i, j)
                        &&& s.word_mult == spec_word_mult(i, j)
                    },
            decreases 15 - r,
        {
            let mut row_vec: Vec<Space> = Vec::new();
            let mut c: usize = 0;
            while c < 15
                invariant
                    r < 15,
                    c <= 15,
                    row_vec@.len() == c,
                    forall|j: int|
                        0 <= j < c ==> {
                            let s = #[trigger] row_vec@[j];
                            &&& s.tile == EMPTY
                            &&& s.val == 0
                            &&& s.letter_mult == spec_letter_mult(r as int, j)
                            &&& s.word_mult == spec_word_mult(r as int, j)
                        },
                decreases 15 - c,
            {
                let m = multipliers_at(r, c);
                row_vec.push(Space { tile: EMPTY, letter_mult: m.0, word_mult: m.1, val: 0 });
                c = c + 1;
            }
            grid.push(row_vec);
            r = r + 1;
        }
        let mut neighbors: Vec<(usize, usize)> = Vec::new();
        neighbors.push((7, 7));
        let b = Board { board: grid, staged_spaces: Vec::new(), neighbors, word_list, partials_list };
        proof {
            assert forall|rr: int, cc: int| in_bounds(rr, cc) implies !b.occ(rr, cc) by {
                assert(b.sp(rr, cc).tile == EMPTY);
            }
            assert(!b.staged_has(7, 7));
            assert(b.plays_legal()) by {
                reveal(crate::game::board::grid_words_legal);
                assert(forall|r: int, c: int|
                    in_bounds(r, c) ==> #[trigger] b.committed_tiles()[r][c] == EMPTY);
            }
        }
        b
    }

    /// The letter and word multipliers of the space at (row, col).
    pub fn get_multipliers(&self, row: usize, col: usize) -> (m: (i64, i64))
        requires
            self.grid_wf(),
            row < 15,
            col < 15,
        ensures
            m.0 == self.sp(row as int, col as int).letter_mult,
            m.1 == self.sp(row as int, col as int).word_mult,
    {
        (self.board[row][col].letter_mult, self.board[row][col].word_mult)
    }

    /// The tile byte at (row, col); the empty marker if nothing is there.
    pub fn get_tile(&self, row: usize, col: usize) -> (t: u8)
        requires
            self.grid_wf(),
            row < 15,
            col < 15,
        ensures
            t == self.tile_at(row as int, col as int),
    {
        self.board[row][col].tile
    }
}

/// The positions (pr, pc) and (qr, qc) share an edge of the grid.
pub open spec fn orth_adjacent(pr: int, pc: int, qr: int, qc: int) -> bool {
    (pr == qr && (pc == qc + 1 || pc + 1 == qc)) || (pc == qc && (pr == qr + 1 || pr + 1 == qr))
}

/// Some entry among the first `n` of `s` is the position (r, c).
pub open spec fn staged_prefix_has(s: Seq<(usize, usize)>, n: int, r: int, c: int) -> bool {
    exists|k: int| 0 <= k < n && s[k].0 == r && s[k].1 == c
}

/// Some entry among the first `n` of `s` is orthogonally adjacent to (r, c).
pub open spec fn staged_prefix_adjacent(s: Seq<(usize, usize)>, n: int, r: int, c: int) -> bool {
    exists|k: int| 0 <= k < n && orth_adjacent(#[trigger] s[k].0 as int, s[k].1 as int, r, c)
}

impl Board {
    /// (r, c) is orthogonally adjacent to some staged position.
    pub open spec fn staged_adjacent(self, r: int, c: int) -> bool {
        staged_prefix_adjacent(self.staged_spaces@, self.staged_spaces@.len() as int, r, c)
    }
}

/// After pushing one position onto the staged list, membership grows by
/// exactly that position.
pub proof fn lemma_staged_push(a: Board, b: Board, row: usize, col: usize)
    requires
        b.staged_spaces@ == a.staged_spaces@.push((row, col)),
    ensures
        b.staged_has(row as int, col as int),
        forall|r2: int, c2: int|
            !(r2 == row && c2 == col) ==> #[trigger] b.staged_has(r2, c2) == a.staged_has(r2, c2),
{
    assert(b.staged_spaces@[a.staged_spaces@.len() as int].0 == row);
    assert(b.staged_has(row as int, col as int));
    assert forall|r2: int, c2: int| !(r2 == row && c2 == col) implies #[trigger] b.staged_has(
        r2,
        c2,
    ) == a.staged_has(r2, c2) by {
        if a.staged_has(r2, c2) {
            let k = choose|k: int|
                0 <= k < a.staged_spaces@.len() && a.staged_spaces@[k].0 == r2
                    && a.staged_spaces@[k].1 == c2;
            assert(b.staged_spaces@[k].0 == r2 && b.staged_spaces@[k].1 == c2);
        }
        if b.staged_has(r2, c2) {
            let k = choose|k: int|
                0 <= k < b.staged_spaces@.len() && b.staged_spaces@[k].0 == r2
                    && b.staged_spaces@[k].1 == c2;
            assert(k < a.staged_spaces@.len());
            assert(a.staged_spaces@[k].0 == r2 && a.staged_spaces@[k].1 == c2);
        }
    }
}

/// Boards equal in every observable part of their state.
pub open spec fn same_state(a: Board, b: Board) -> bool {
    &&& a.board@.len() == 15 && b.board@.len() == 15
    &&& forall|r: int| 0 <= r < 15 ==> #[trigger] a.board@[r]@.len() == 15 && b.board@[r]@.len()
        == 15
    &&& forall|r: int, c: int| in_bounds(r, c) ==> #[trigger] a.sp(r, c) == b.sp(r, c)
    &&& a.staged_spaces@ == b.staged_spaces@
    &&& a.neighbors@ == b.neighbors@
    &&& a.word_list == b.word_list
    &&& a.partials_list == b.partials_list
}

/// The bounds of a run start, and occupancy of everything it walked over.
pub proof fn lemma_row_start_props(g: Seq<Seq<u8>>, r: int, c: int)
    requires
        0 <= c <= 14,
    ensures
        0 <= row_start(g, r, c) <= c,
        forall|j: int| row_start(g, r, c) <= j < c ==> g[r][j] != EMPTY,
        row_start(g, r, c) == 0 || g[r][row_start(g, r, c) - 1] == EMPTY,
    decreases c,
{
    if 0 < c && g[r][c - 1] != EMPTY {
        lemma_row_start_props(g, r, c - 1);
    }
}

pub proof fn lemma_row_end_props(g: Seq<Seq<u8>>, r: int, c: int)
    requires
        0 <= c <= 14,
    ensures
        c <= row_end(g, r, c) <= 14,
        forall|j: int| c < j <= row_end(g, r, c) ==> g[r][j] != EMPTY,
        row_end(g, r, c) == 14 || g[r][row_end(g, r, c) + 1] == EMPTY,
    decreases 14 - c,
{
    if c < 14 && g[r][c + 1] != EMPTY {
        lemma_row_end_props(g, r, c + 1);
    }
}

pub proof fn lemma_col_start_props(g: Seq<Seq<u8>>, r: int, c: int)
    requires
        0 <= r <= 14,
    ensures
        0 <= col_start(g, r, c) <= r,
        forall|j: int| col_start(g, r, c) <= j < r ==> g[j][c] != EMPTY,
        col_start(g, r, c) == 0 || g[col_start(g, r, c) - 1][c] == EMPTY,
    decreases r,
{
    if 0 < r && g[r - 1][c] != EMPTY {
        lemma_col_start_props(g, r - 1, c);
    }
}

pub proof fn lemma_col_end_props(g: Seq<Seq<u8>>, r: int, c: int)
    requires
        0 <= r <= 14,
    ensures
        r <= col_end(g, r, c) <= 14,
        forall|j: int| r < j <= col_end(g, r, c) ==> g[j][c] != EMPTY,
        col_end(g, r, c) == 14 || g[col_end(g, r, c) + 1][c] == EMPTY,
    decreases 14 - r,
{
    if r < 14 && g[r + 1][c] != EMPTY {
        lemma_col_end_props(g, r + 1, c);
    }
}

/// Every cell of a run sees the same run: the maximal run through any of its
/// cells has the same start and end.
pub proof fn lemma_row_run_same(g: Seq<Seq<u8>>, r: int, c: int, j: int)
    requires
        0 <= c <= 14,
        row_start(g, r, c) <= j <= row_end(g, r, c),
        g[r][c] != EMPTY,
    ensures
        row_start(g, r, j) == row_start(g, r, c),
        row_end(g, r, j) == row_end(g, r, c),
    decreases (if j < c { c - j } else { j - c }),
{
    lemma_row_start_props(g, r, c);
    lemma_row_end_props(g, r, c);
    if j < c {
        lemma_row_run_same(g, r, c, j + 1);
    } else if j > c {
        lemma_row_run_same(g, r, c, j - 1);
    }
}

pub proof fn lemma_col_run_same(g: Seq<Seq<u8>>, r: int, c: int, j: int)
    requires
        0 <= r <= 14,
        col_start(g, r, c) <= j <= col_end(g, r, c),
        g[r][c] != EMPTY,
    ensures
        col_start(g, j, c) == col_start(g, r, c),
        col_end(g, j, c) == col_end(g, r, c),
    decreases (if j < r { r - j } else { j - r }),
{
    lemma_col_start_props(g, r, c);
    lemma_col_end_props(g, r, c);
    if j < r {
        lemma_col_run_same(g, r, c, j + 1);
    } else if j > r {
        lemma_col_run_same(g, r, c, j - 1);
    }
}

/// Uppercase a lowercase ASCII letter; all other bytes pass unchanged.
pub(crate) fn norm_tile(t: u8) -> (r: u8)
    ensures
        r == spec_norm_tile(t),
{
    if 97 <= t && t <= 122 {
        t - 32
    } else {
        t
    }
}

impl Board {
    /// Overwrite the tile byte of the space at (row, col), leaving every other
    /// part of the board untouched.
    fn set_tile(&mut self, row: usize, col: usize, t: u8)
        requires
            old(self).board@.len() == 15,
            forall|r: int| 0 <= r < 15 ==> #[trigger] old(self).board@[r]@.len() == 15,
            row < 15,
            col < 15,
        ensures
            final(self).board@.len() == 15,
            forall|r: int| 0 <= r < 15 ==> #[trigger] final(self).board@[r]@.len() == 15,
            forall|r2: int, c2: int|
                in_bounds(r2, c2) && !(r2 == row && c2 == col) ==> #[trigger] final(self).sp(
                    r2,
                    c2,
                ) == old(self).sp(r2, c2),
            final(self).sp(row as int, col as int).tile == t,
            final(self).sp(row as int, col as int).letter_mult == old(self).sp(
                row as int,
                col as int,
            ).letter_mult,
            final(self).sp(row as int, col as int).word_mult == old(self).sp(
                row as int,
                col as int,
            ).word_mult,
            final(self).sp(row as int, col as int).val == old(self).sp(row as int, col as int).val,
            final(self).staged_spaces == old(self).staged_spaces,
            final(self).neighbors == old(self).neighbors,
            final(self).word_list == old(self).word_list,
            final(self).partials_list == old(self).partials_list,
    {
        self.board[row][col].tile = t;
    }

    /// Overwrite the frozen value of the space at (row, col), leaving every
    /// other part of the board untouched.
    pub(crate) fn set_val(&mut self, row: usize, col: usize, v: i64)
        requires
            old(self).board@.len() == 15,
            forall|r: int| 0 <= r < 15 ==> #[trigger] old(self).board@[r]@.len() == 15,
            row < 15,
            col < 15,
        ensures
            final(self).board@.len() == 15,
            forall|r: int| 0 <= r < 15 ==> #[trigger] final(self).board@[r]@.len() == 15,
            forall|r2: int, c2: int|
                in_bounds(r2, c2) && !(r2 == row && c2 == col) ==> #[trigger] final(self).sp(
                    r2,
                    c2,
                ) == old(self).sp(r2, c2),
            final(self).sp(row as int, col as int).tile == old(self).sp(
                row as int,
                col as int,
            ).tile,
            final(self).sp(row as int, col as int).letter_mult == old(self).sp(
                row as int,
                col as int,
            ).letter_mult,
            final(self).sp(row as int, col as int).word_mult == old(self).sp(
                row as int,
                col as int,
            ).word_mult,
            final(self).sp(row as int, col as int).val == v,
            final(self).staged_spaces == old(self).staged_spaces,
            final(self).neighbors == old(self).neighbors,
            final(self).word_list == old(self).word_list,
            final(self).partials_list == old(self).partials_list,
    {
        self.board[row][col].val = v;
    }

    /// Stage a tile at (row, col): refused if the coordinates leave the grid
    /// or the space is occupied; otherwise the letter is normalized to
    /// uppercase, the space is filled, and the position is appended to the
    /// staged list.
    pub fn put_tile(&mut self, tile: u8, row: usize, col: usize) -> (r: Result<(), PlayError>)
        requires
            old(self).wf(),
            is_input_letter(tile),
        ensures
            final(self).wf(),
            (r == Result::<(), PlayError>::Err(PlayError::OutOfBounds)) == (row >= 15 || col
                >= 15),
            (r == Result::<(), PlayError>::Err(PlayError::OccupiedCell)) == (row < 15 && col < 15
                && old(self).occ(row as int, col as int)),
            (r is Ok) == (row < 15 && col < 15 && !old(self).occ(row as int, col as int)),
            r is Err ==> *final(self) == *old(self),
            r is Ok ==> {
                &&& final(self).staged_spaces@ == old(self).staged_spaces@.push((row, col))
                &&& final(self).neighbors@ == old(self).neighbors@
                &&& final(self).word_list == old(self).word_list
                &&& final(self).partials_list == old(self).partials_list
                &&& forall|r2: int, c2: int|
                    in_bounds(r2, c2) && !(r2 == row && c2 == col) ==> #[trigger] final(self).sp(
                        r2,
                        c2,
                    ) == old(self).sp(r2, c2)
                &&& final(self).tile_at(row as int, col as int) == spec_norm_tile(tile)
                &&& final(self).sp(row as int, col as int).letter_mult == old(self).sp(
                    row as int,
                    col as int,
                ).letter_mult
                &&& final(self).sp(row as int, col as int).word_mult == old(self).sp(
                    row as int,
                    col as int,
                ).word_mult
                &&& final(self).sp(row as int, col as int).val == 0
                &&& final(self).committed_tiles() == old(self).committed_tiles()
            },
    {
        if row > 14 || col > 14 {
            return Err(PlayError::OutOfBounds);
        }
        if self.board[row][col].tile != EMPTY {
            return Err(PlayError::OccupiedCell);
        }
        let t = norm_tile(tile);
        self.staged_spaces.push((row, col));
        self.set_tile(row, col, t);
        proof {
            let ob = *old(self);
            assert forall|r2: int, c2: int| !(r2 == row && c2 == col) implies self.staged_has(
                r2,
                c2,
            ) == ob.staged_has(r2, c2) by {
                if ob.staged_has(r2, c2) {
                    let k = choose|k: int|
                        0 <= k < ob.staged_spaces@.len() && ob.staged_spaces@[k].0 == r2
                            && ob.staged_spaces@[k].1 == c2;
                    assert(self.staged_spaces@[k].0 == r2 && self.staged_spaces@[k].1 == c2);
                }
                if self.staged_has(r2, c2) {
                    let k = choose|k: int|
                        0 <= k < self.staged_spaces@.len() && self.staged_spaces@[k].0 == r2
                            && self.staged_spaces@[k].1 == c2;
                    assert(k < ob.staged_spaces@.len());
                    assert(ob.staged_spaces@[k].0 == r2 && ob.staged_spaces@[k].1 == c2);
                }
            }
            assert(self.staged_spaces@[ob.staged_spaces@.len() as int].0 == row);
            assert(self.staged_has(row as int, col as int));
            assert forall|k: int| 0 <= k < self.staged_spaces@.len() implies in_bounds(
                #[trigger] self.staged_spaces@[k].0 as int,
                self.staged_spaces@[k].1 as int,
            ) && self.occ(self.staged_spaces@[k].0 as int, self.staged_spaces@[k].1 as int) by {
                if k < ob.staged_spaces@.len() {
                    assert(ob.occ(ob.staged_spaces@[k].0 as int, ob.staged_spaces@[k].1 as int));
                    assert(!(ob.staged_spaces@[k].0 == row && ob.staged_spaces@[k].1 == col));
                }
            }
            assert(self.committed_tiles() =~~= ob.committed_tiles());
            assert(self.board@.len() == 15);
            assert(forall|r: int| 0 <= r < 15 ==> #[trigger] self.board@[r]@.len() == 15);
            assert forall|r2: int, c2: int| in_bounds(r2, c2) implies {
                let s = #[trigger] self.sp(r2, c2);
                &&& (s.tile == EMPTY || is_tile(s.tile))
                &&& s.letter_mult == spec_letter_mult(r2, c2)
                &&& s.word_mult == spec_word_mult(r2, c2)
            } by {
                assert(ob.sp(r2, c2).letter_mult == spec_letter_mult(r2, c2));
                if !(r2 == row && c2 == col) {
                    assert(self.sp(r2, c2) == ob.sp(r2, c2));
                } else {
                    assert(self.sp(r2, c2).tile == spec_norm_tile(tile));
                    assert(is_tile(spec_norm_tile(tile)));
                    assert(self.sp(r2, c2).letter_mult == ob.sp(r2, c2).letter_mult);
                    assert(self.sp(r2, c2).word_mult == ob.sp(r2, c2).word_mult);
                }
            }
            assert(self.grid_wf());
            assert(self.staged_wf());
            assert forall|r2: int, c2: int| in_bounds(r2, c2) implies (#[trigger] self.sp(
                r2,
                c2,
            ).val == (if self.occ(r2, c2) && !self.staged_has(r2, c2) {
                spec_score_letter(self.tile_at(r2, c2))
            } else {
                0
            })) by {
                if !(r2 == row && c2 == col) {
                    assert(self.staged_has(r2, c2) == ob.staged_has(r2, c2));
                    assert(self.sp(r2, c2) == ob.sp(r2, c2));
                }
            }
            assert forall|k: int| 0 <= k < self.neighbors@.len() implies in_bounds(
                #[trigger] self.neighbors@[k].0 as int,
                self.neighbors@[k].1 as int,
            ) && (!self.occ(self.neighbors@[k].0 as int, self.neighbors@[k].1 as int)
                || self.staged_has(self.neighbors@[k].0 as int, self.neighbors@[k].1 as int)) by {
                let nr = self.neighbors@[k].0 as int;
                let nc = self.neighbors@[k].1 as int;
                assert(!ob.occ(nr, nc) || ob.staged_has(nr, nc));
                if !(nr == row && nc == col) {
                    assert(self.staged_has(nr, nc) == ob.staged_has(nr, nc));
                    assert(self.sp(nr, nc) == ob.sp(nr, nc));
                }
            }
            assert(self.wf());
        }
        Ok(())
    }

    /// Remove the staged tile at (row, col), if that position is staged;
    /// otherwise nothing changes.
    pub fn remove_tile(&mut self, row: usize, col: usize)
        requires
            old(self).wf(),
        ensures
            final(self).wf(),
            !old(self).staged_has(row as int, col as int) ==> *final(self) == *old(self),
            old(self).staged_has(row as int, col as int) ==> {
                &&& final(self).neighbors@ == old(self).neighbors@
                &&& final(self).word_list == old(self).word_list
                &&& final(self).partials_list == old(self).partials_list
                &&& forall|r2: int, c2: int|
                    in_bounds(r2, c2) && !(r2 == row && c2 == col) ==> #[trigger] final(self).sp(
                        r2,
                        c2,
                    ) == old(self).sp(r2, c2)
                &&& final(self).tile_at(row as int, col as int) == EMPTY
                &&& final(self).sp(row as int, col as int).letter_mult == old(self).sp(
                    row as int,
                    col as int,
                ).letter_mult
                &&& final(self).sp(row as int, col as int).word_mult == old(self).sp(
                    row as int,
                    col as int,
                ).word_mult
                &&& final(self).sp(row as int, col as int).val == 0
                &&& !final(self).staged_has(row as int, col as int)
                &&& forall|r2: int, c2: int|
                    !(r2 == row && c2 == col) ==> #[trigger] final(self).staged_has(r2, c2) == old(
                        self,
                    ).staged_has(r2, c2)
                &&& final(self).staged_spaces@.len() == old(self).staged_spaces@.len() - 1
                &&& exists|k: int|
                    0 <= k < old(self).staged_spaces@.len() && old(self).staged_spaces@[k] == ((
                    row,
                    col,
                )) && final(self).staged_spaces@ == old(self).staged_spaces@.remove(k)
                &&& (old(self).staged_spaces@.last() == ((row, col)) ==> final(self).staged_spaces@
                    == old(self).staged_spaces@.drop_last())
                &&& final(self).committed_tiles() == old(self).committed_tiles()
            },
    {
        let ghost ob = *old(self);
        let mut i: usize = 0;
        while i < self.staged_spaces.len()
            invariant
                *self == ob,
                ob == *old(self),
                ob.wf(),
                i <= ob.staged_spaces@.len(),
                forall|k: int|
                    0 <= k < i ==> !(#[trigger] ob.staged_spaces@[k].0 == row
                        && ob.staged_spaces@[k].1 == col),
            decreases ob.staged_spaces@.len() - i,
        {
            let p = self.staged_spaces[i];
            if p.0 == row && p.1 == col {
                self.staged_spaces.remove(i);
                self.set_tile(row, col, EMPTY);
                proof {
                    assert(ob.staged_spaces@[i as int].0 == row && ob.staged_spaces@[i as int].1
                        == col);
                    assert(ob.staged_has(row as int, col as int));
                    assert(old(self).staged_has(row as int, col as int));
                    lemma_remove_staged(ob, *self, i as int, row, col);
                    assert(ob.staged_spaces@[i as int] == ((row, col)) && self.staged_spaces@
                        == ob.staged_spaces@.remove(i as int));
                    assert(self.wf());
                    assert(self.neighbors@ == ob.neighbors@);
                    assert(self.word_list == ob.word_list);
                    assert(self.staged_spaces@.len() == ob.staged_spaces@.len() - 1);
                    assert(ob.staged_spaces@.last() == ((row, col)) ==> self.staged_spaces@
                        == ob.staged_spaces@.drop_last());
                    assert(self.committed_tiles() == ob.committed_tiles());
                    assert(self.tile_at(row as int, col as int) == EMPTY);
                    assert(!self.staged_has(row as int, col as int));
                }
                return ;
            }
            i = i + 1;
        }
        proof {
            assert(!ob.staged_has(row as int, col as int));
        }
    }

    /// Revert every staged tile to an empty space and clear the staged list.
    /// The grid returns to exactly its committed contents.
    pub fn unstage(&mut self)
        requires
            old(self).wf(),
        ensures
            final(self).wf(),
            final(self).staged_spaces@.len() == 0,
            final(self).neighbors@ == old(self).neighbors@,
            final(self).word_list == old(self).word_list,
            final(self).partials_list == old(self).partials_list,
            forall|r2: int, c2: int|
                in_bounds(r2, c2) ==> #[trigger] final(self).tile_at(r2, c2) == old(
                    self,
                ).committed_tiles()[r2][c2],
            forall|r2: int, c2: int|
                in_bounds(r2, c2) ==> #[trigger] final(self).sp(r2, c2).letter_mult == old(self).sp(
                    r2,
                    c2,
                ).letter_mult && final(self).sp(r2, c2).word_mult == old(self).sp(r2, c2).word_mult
                    && final(self).sp(r2, c2).val == old(self).sp(r2, c2).val,
            final(self).committed_tiles() == old(self).committed_tiles(),
    {
        let ghost ob = *old(self);
        while self.staged_spaces.len() > 0
            invariant
                self.wf(),
                self.committed_tiles() == ob.committed_tiles(),
                self.neighbors@ == ob.neighbors@,
                self.word_list == ob.word_list,
                self.partials_list == ob.partials_list,
                forall|r2: int, c2: int|
                    in_bounds(r2, c2) ==> #[trigger] self.sp(r2, c2).letter_mult == ob.sp(
                        r2,
                        c2,
                    ).letter_mult && self.sp(r2, c2).word_mult == ob.sp(r2, c2).word_mult
                        && self.sp(r2, c2).val == ob.sp(r2, c2).val,
            decreases self.staged_spaces@.len(),
        {
            let n = self.staged_spaces.len();
            let p = self.staged_spaces[n - 1];
            proof {
                assert(self.staged_spaces@[n - 1].0 == p.0 && self.staged_spaces@[n - 1].1 == p.1);
                assert(self.staged_has(p.0 as int, p.1 as int));
                assert(self.staged_spaces@.last() == p);
            }
            self.remove_tile(p.0, p.1);
        }
        proof {
            assert forall|r2: int, c2: int| in_bounds(r2, c2) implies #[trigger] self.tile_at(
                r2,
                c2,
            ) == self.committed_tiles()[r2][c2] by {
                assert(!self.staged_has(r2, c2));
            }
        }
    }

    /// The word formed along an axis through (r, c), if the cell is occupied
    /// and the run has length at least 2.
    pub open spec fn spec_word_across(self, r: int, c: int) -> Option<Seq<u8>> {
        if !self.occ(r, c) || row_start(self.tiles(), r, c) == row_end(self.tiles(), r, c) {
            None
        } else {
            Some(
                row_word(
                    self.tiles(),
                    r,
                    row_start(self.tiles(), r, c),
                    row_end(self.tiles(), r, c),
                ),
            )
        }
    }

    pub open spec fn spec_word_down(self, r: int, c: int) -> Option<Seq<u8>> {
        if !self.occ(r, c) || col_start(self.tiles(), r, c) == col_end(self.tiles(), r, c) {
            None
        } else {
            Some(
                col_word(
                    self.tiles(),
                    c,
                    col_start(self.tiles(), r, c),
                    col_end(self.tiles(), r, c),
                ),
            )
        }
    }

    /// The axis through (r, c) is legal: either no word stands there, or the
    /// word is in the dictionary.
    pub open spec fn spec_is_word_across(self, r: int, c: int) -> bool {
        match self.spec_word_across(r, c) {
            None => true,
            Some(w) => word_list_has(self.word_list@, w),
        }
    }

    pub open spec fn spec_is_word_down(self, r: int, c: int) -> bool {
        match self.spec_word_down(r, c) {
            None => true,
            Some(w) => word_list_has(self.word_list@, w),
        }
    }

    /// Leftmost column of the occupied run through (row, col), if occupied.
    pub fn get_leftmost_col(&self, row: usize, col: usize) -> (r: Option<usize>)
        requires
            self.grid_wf(),
            row < 15,
            col < 15,
        ensures
            (r is Some) == self.occ(row as int, col as int),
            r matches Some(s) ==> s == row_start(self.tiles(), row as int, col as int),
    {
        if self.board[row][col].tile == EMPTY {
            return None;
        }
        let mut start: usize = col;
        while start > 0 && self.board[row][start - 1].tile != EMPTY
            invariant
                self.grid_wf(),
                row < 15,
                start <= col < 15,
                row_start(self.tiles(), row as int, col as int) == row_start(
                    self.tiles(),
                    row as int,
                    start as int,
                ),
            decreases start,
        {
            proof {
                assert(self.tiles()[row as int][start - 1] == self.tile_at(row as int, start - 1));
            }
            start = start - 1;
        }
        proof {
            assert(start > 0 ==> self.tiles()[row as int][start - 1] == self.tile_at(
                row as int,
                start - 1,
            ));
            assert(row_start(self.tiles(), row as int, start as int) == start);
        }
        Some(start)
    }

    /// Rightmost column of the occupied run through (row, col), if occupied.
    pub fn get_rightmost_col(&self, row: usize, col: usize) -> (r: Option<usize>)
        requires
            self.grid_wf(),
            row < 15,
            col < 15,
        ensures
            (r is Some) == self.occ(row as int, col as int),
            r matches Some(s) ==> s == row_end(self.tiles(), row as int, col as int),
    {
        if self.board[row][col].tile == EMPTY {
            return None;
        }
        let mut end: usize = col;
        while end < 14 && self.board[row][end + 1].tile != EMPTY
            invariant
                self.grid_wf(),
                row < 15,
                col <= end < 15,
                row_end(self.tiles(), row as int, col as int) == row_end(
                    self.tiles(),
                    row as int,
                    end as int,
                ),
            decreases 14 - end,
        {
            proof {
                assert(self.tiles()[row as int][end + 1] == self.tile_at(row as int, end + 1));
            }
            end = end + 1;
        }
        proof {
            assert(end < 14 ==> self.tiles()[row as int][end + 1] == self.tile_at(
                row as int,
                end + 1,
            ));
            assert(row_end(self.tiles(), row as int, end as int) == end);
        }
        Some(end)
    }

    /// Topmost row of the occupied run through (row, col), if occupied.
    pub fn get_upmost_row(&self, row: usize, col: usize) -> (r: Option<usize>)
        requires
            self.grid_wf(),
            row < 15,
            col < 15,
        ensures
            (r is Some) == self.occ(row as int, col as int),
            r matches Some(s) ==> s == col_start(self.tiles(), row as int, col as int),
    {
        if self.board[row][col].tile == EMPTY {
            return None;
        }
        let mut start: usize = row;
        while start > 0 && self.board[start - 1][col].tile != EMPTY
            invariant
                self.grid_wf(),
                col < 15,
                start <= row < 15,
                col_start(self.tiles(), row as int, col as int) == col_start(
                    self.tiles(),
                    start as int,
                    col as int,
                ),
            decreases start,
        {
            proof {
                assert(self.tiles()[start - 1][col as int] == self.tile_at(start - 1, col as int));
            }
            start = start - 1;
        }
        proof {
            assert(start > 0 ==> self.tiles()[start - 1][col as int] == self.tile_at(
                start - 1,
                col as int,
            ));
            assert(col_start(self.tiles(), start as int, col as int) == start);
        }
        Some(start)
    }

    /// Bottom row of the occupied run through (row, col), if occupied.
    pub fn get_downmost_row(&self, row: usize, col: usize) -> (r: Option<usize>)
        requires
            self.grid_wf(),
            row < 15,
            col < 15,
        ensures
            (r is Some) == self.occ(row as int, col as int),
            r matches Some(s) ==> s == col_end(self.tiles(), row as int, col as int),
    {
        if self.board[row][col].tile == EMPTY {
            return None;
        }
        let mut end: usize = row;
        while end < 14 && self.board[end + 1][col].tile != EMPTY
            invariant
                self.grid_wf(),
                col < 15,
                row <= end < 15,
                col_end(self.tiles(), row as int, col as int) == col_end(
                    self.tiles(),
                    end as int,
                    col as int,
                ),
            decreases 14 - end,
        {
            proof {
                assert(self.tiles()[end + 1][col as int] == self.tile_at(end + 1, col as int));
            }
            end = end + 1;
        }
        proof {
            assert(end < 14 ==> self.tiles()[end + 1][col as int] == self.tile_at(
                end + 1,
                col as int,
            ));
            assert(col_end(self.tiles(), end as int, col as int) == end);
        }
        Some(end)
    }

    /// The across word through (row, col): the tiles of the maximal occupied
    /// run of row `row` containing column `col`, or nothing if the cell is
    /// empty or the run has length 1.
    pub fn get_word_across(&self, row: usize, col: usize) -> (r: Option<Vec<u8>>)
        requires
            self.grid_wf(),
            row < 15,
            col < 15,
        ensures
            r is None ==> self.spec_word_across(row as int, col as int) is None,
            r matches Some(w) ==> self.spec_word_across(row as int, col as int) == Some(w@),
    {
        if self.board[row][col].tile == EMPTY {
            return None;
        }
        let start = match self.get_leftmost_col(row, col) {
            Some(s) => s,
            None => {
                return None;
            },
        };
        let end = match self.get_rightmost_col(row, col) {
            Some(e) => e,
            None => {
                return None;
            },
        };
        proof {
            lemma_row_start_props(self.tiles(), row as int, col as int);
            lemma_row_end_props(self.tiles(), row as int, col as int);
        }
        if start == end {
            return None;
        }
        let mut w: Vec<u8> = Vec::new();
        let mut cc: usize = start;
        while cc <= end
            invariant
                self.grid_wf(),
                row < 15,
                start <= cc <= end + 1,
                end < 15,
                w@.len() == cc - start,
                forall|i: int| 0 <= i < w@.len() ==> w@[i] == self.tiles()[row as int][start + i],
            decreases end + 1 - cc,
        {
            w.push(self.board[row][cc].tile);
            proof {
                assert(self.tiles()[row as int][cc as int] == self.tile_at(row as int, cc as int));
            }
            cc = cc + 1;
        }
        proof {
            assert(w@ =~= row_word(self.tiles(), row as int, start as int, end as int));
        }
        Some(w)
    }

    /// The down word through (row, col), as `get_word_across` but along the
    /// column.
    pub fn get_word_down(&self, row: usize, col: usize) -> (r: Option<Vec<u8>>)
        requires
            self.grid_wf(),
            row < 15,
            col < 15,
        ensures
            r is None ==> self.spec_word_down(row as int, col as int) is None,
            r matches Some(w) ==> self.spec_word_down(row as int, col as int) == Some(w@),
    {
        if self.board[row][col].tile == EMPTY {
            return None;
        }
        let start = match self.get_upmost_row(row, col) {
            Some(s) => s,
            None => {
                return None;
            },
        };
        let end = match self.get_downmost_row(row, col) {
            Some(e) => e,
            None => {
                return None;
            },
        };
        proof {
            lemma_col_start_props(self.tiles(), row as int, col as int);
            lemma_col_end_props(self.tiles(), row as int, col as int);
        }
        if start == end {
            return None;
        }
        let mut w: Vec<u8> = Vec::new();
        let mut rr: usize = start;
        while rr <= end
            invariant
                self.grid_wf(),
                col < 15,
                start <= rr <= end + 1,
                end < 15,
                w@.len() == rr - start,
                forall|i: int| 0 <= i < w@.len() ==> w@[i] == self.tiles()[start + i][col as int],
            decreases end + 1 - rr,
        {
            w.push(self.board[rr][col].tile);
            proof {
                assert(self.tiles()[rr as int][col as int] == self.tile_at(rr as int, col as int));
            }
            rr = rr + 1;
        }
        proof {
            assert(w@ =~= col_word(self.tiles(), col as int, start as int, end as int));
        }
        Some(w)
    }

    /// Exact dictionary membership of a word.
    pub fn word_in_dict(&self, word: &Vec<u8>) -> (r: bool)
        requires
            self.dicts_wf(),
        ensures
            r == word_list_has(self.word_list@, word@),
    {
        word_list_contains(&self.word_list, word)
    }

    /// The across word through (row, col), if any, is a dictionary word.
    pub fn is_word_across(&self, row: usize, col: usize) -> (r: bool)
        requires
            self.grid_wf(),
            self.dicts_wf(),
            row < 15,
            col < 15,
        ensures
            r == self.spec_is_word_across(row as int, col as int),
    {
        match self.get_word_across(row, col) {
            Some(w) => self.word_in_dict(&w),
            None => true,
        }
    }

    /// The down word through (row, col), if any, is a dictionary word.
    pub fn is_word_down(&self, row: usize, col: usize) -> (r: bool)
        requires
            self.grid_wf(),
            self.dicts_wf(),
            row < 15,
            col < 15,
        ensures
            r == self.spec_is_word_down(row as int, col as int),
    {
        match self.get_word_down(row, col) {
            Some(w) => self.word_in_dict(&w),
            None => true,
        }
    }

    /// True iff the substring is a prefix of some entry of the prefix list:
    /// the pruning predicate of the search.
    pub fn substr_promising(&self, substring: &Vec<u8>) -> (r: bool)
        requires
            self.dicts_wf(),
        ensures
            r == word_list_extends(self.partials_list@, substring@),
    {
        word_list_has_extension(&self.partials_list, substring)
    }

    /// A copy of the frontier, sorted by row then column.
    pub fn get_neighbors(&self) -> (r: Vec<(usize, usize)>)
        ensures
            r@ == self.neighbors@,
    {
        let mut result: Vec<(usize, usize)> = Vec::new();
        let mut i: usize = 0;
        while i < self.neighbors.len()
            invariant
                i <= self.neighbors@.len(),
                result@ =~= self.neighbors@.take(i as int),
            decreases self.neighbors@.len() - i,
        {
            let p = self.neighbors[i];
            result.push(p);
            i = i + 1;
        }
        proof {
            assert(result@ =~= self.neighbors@);
        }
        result
    }

    /// Add (row, col) to the frontier, keeping it sorted; no effect if the
    /// position is already present.
    pub(crate) fn frontier_insert(&mut self, row: usize, col: usize)
        requires
            row < 15,
            col < 15,
            forall|k1: int, k2: int|
                0 <= k1 < k2 < old(self).neighbors@.len() ==> pos_lt(
                    #[trigger] old(self).neighbors@[k1],
                    #[trigger] old(self).neighbors@[k2],
                ),
        ensures
            forall|k1: int, k2: int|
                0 <= k1 < k2 < final(self).neighbors@.len() ==> pos_lt(
                    #[trigger] final(self).neighbors@[k1],
                    #[trigger] final(self).neighbors@[k2],
                ),
            final(self).frontier_has(row as int, col as int),
            forall|r2: int, c2: int|
                !(r2 == row && c2 == col) ==> #[trigger] final(self).frontier_has(r2, c2) == old(
                    self,
                ).frontier_has(r2, c2),
            final(self).board == old(self).board,
            final(self).staged_spaces == old(self).staged_spaces,
            final(self).word_list == old(self).word_list,
            final(self).partials_list == old(self).partials_list,
    {
        let key = (row, col);
        let mut i: usize = 0;
        while i < self.neighbors.len()
            invariant
                *self == *old(self),
                i <= self.neighbors@.len(),
                forall|k: int| 0 <= k < i ==> pos_lt(#[trigger] self.neighbors@[k], (row, col)),
            ensures
                *self == *old(self),
                i <= self.neighbors@.len(),
                forall|k: int| 0 <= k < i ==> pos_lt(#[trigger] self.neighbors@[k], (row, col)),
                i < self.neighbors@.len() ==> !pos_lt(self.neighbors@[i as int], (row, col)),
            decreases self.neighbors@.len() - i,
        {
            let p = self.neighbors[i];
            if !(p.0 < row || (p.0 == row && p.1 < col)) {
                proof {
                    assert(!pos_lt(self.neighbors@[i as int], (row, col)));
                }
                break ;
            }
            proof {
                assert(pos_lt(self.neighbors@[i as int], (row, col)));
            }
            i = i + 1;
        }
        if i < self.neighbors.len() {
            let p = self.neighbors[i];
            if p.0 == row && p.1 == col {
                proof {
                    assert(self.neighbors@[i as int].0 == row && self.neighbors@[i as int].1
                        == col);
                }
                return ;
            }
        }
        let ghost na = self.neighbors@;
        self.neighbors.insert(i, key);
        proof {
            let nb = self.neighbors@;
            assert(nb.len() == na.len() + 1);
            assert(forall|k: int| 0 <= k < i ==> nb[k] == na[k]);
            assert(nb[i as int] == key);
            assert(forall|k: int| i < k < nb.len() ==> nb[k] == na[k - 1]);
            assert(i < na.len() ==> pos_lt((row, col), na[i as int]));
            assert forall|k1: int, k2: int| 0 <= k1 < k2 < nb.len() implies pos_lt(
                #[trigger] nb[k1],
                #[trigger] nb[k2],
            ) by {
                if k2 == i {
                    assert(pos_lt(na[k1], (row, col)));
                } else if k1 == i {
                    assert(pos_lt((row, col), na[i as int]));
                    if k2 - 1 > i {
                        assert(pos_lt(na[i as int], na[k2 - 1]));
                    }
                } else if k1 < i && k2 > i {
                    assert(pos_lt(na[k1], na[k2 - 1]));
                }
            }
            assert(self.frontier_has(row as int, col as int)) by {
                assert(nb[i as int].0 == row && nb[i as int].1 == col);
            }
            assert forall|r2: int, c2: int| !(r2 == row && c2 == col) implies #[trigger] self
                .frontier_has(r2, c2) == old(self).frontier_has(r2, c2) by {
                if old(self).frontier_has(r2, c2) {
                    let k = choose|k: int| 0 <= k < na.len() && na[k].0 == r2 && na[k].1 == c2;
                    if k < i {
                        assert(nb[k].0 == r2 && nb[k].1 == c2);
                    } else {
                        assert(nb[k + 1].0 == r2 && nb[k + 1].1 == c2);
                    }
                }
                if self.frontier_has(r2, c2) {
                    let k = choose|k: int| 0 <= k < nb.len() && nb[k].0 == r2 && nb[k].1 == c2;
                    assert(k != i);
                    if k < i {
                        assert(na[k].0 == r2 && na[k].1 == c2);
                    } else {
                        assert(na[k - 1].0 == r2 && na[k - 1].1 == c2);
                    }
                }
            }
        }
    }

    /// Remove (row, col) from the frontier, if present.
    pub(crate) fn frontier_remove(&mut self, row: usize, col: usize)
        requires
            forall|k1: int, k2: int|
                0 <= k1 < k2 < old(self).neighbors@.len() ==> pos_lt(
                    #[trigger] old(self).neighbors@[k1],
                    #[trigger] old(self).neighbors@[k2],
                ),
        ensures
            forall|k1: int, k2: int|
                0 <= k1 < k2 < final(self).neighbors@.len() ==> pos_lt(
                    #[trigger] final(self).neighbors@[k1],
                    #[trigger] final(self).neighbors@[k2],
                ),
            !final(self).frontier_has(row as int, col as int),
            forall|r2: int, c2: int|
                !(r2 == row && c2 == col) ==> #[trigger] final(self).frontier_has(r2, c2) == old(
                    self,
                ).frontier_has(r2, c2),
            final(self).board == old(self).board,
            final(self).staged_spaces == old(self).staged_spaces,
            final(self).word_list == old(self).word_list,
            final(self).partials_list == old(self).partials_list,
    {
        let mut i: usize = 0;
        while i < self.neighbors.len()
            invariant
                *self == *old(self),
                i <= self.neighbors@.len(),
                forall|k1: int, k2: int|
                    0 <= k1 < k2 < self.neighbors@.len() ==> pos_lt(
                        #[trigger] self.neighbors@[k1],
                        #[trigger] self.neighbors@[k2],
                    ),
                forall|k: int|
                    0 <= k < i ==> !(#[trigger] self.neighbors@[k].0 == row && self.neighbors@[k].1
                        == col),
            decreases self.neighbors@.len() - i,
        {
            let p = self.neighbors[i];
            if p.0 == row && p.1 == col {
                let ghost na = self.neighbors@;
                self.neighbors.remove(i);
                proof {
                    let nb = self.neighbors@;
                    assert(nb.len() == na.len() - 1);
                    assert(forall|k: int| 0 <= k < i ==> nb[k] == na[k]);
                    assert(forall|k: int| i <= k < nb.len() ==> nb[k] == na[k + 1]);
                    assert forall|k1: int, k2: int| 0 <= k1 < k2 < nb.len() implies pos_lt(
                        #[trigger] nb[k1],
                        #[trigger] nb[k2],
                    ) by {
                        let j1: int = if k1 < i {
                            k1
                        } else {
                            k1 + 1
                        };
                        let j2: int = if k2 < i {
                            k2
                        } else {
                            k2 + 1
                        };
                        assert(pos_lt(na[j1], na[j2]));
                    }
                    assert(!self.frontier_has(row as int, col as int)) by {
                        if self.frontier_has(row as int, col as int) {
                            let k = choose|k: int|
                                0 <= k < nb.len() && nb[k].0 == row && nb[k].1 == col;
                            if k < i {
                                assert(na[k].0 == row && na[k].1 == col);
                            } else {
                                assert(na[k + 1].0 == row && na[k + 1].1 == col);
                                assert(pos_lt(na[i as int], na[k + 1]));
                            }
                        }
                    }
                    assert forall|r2: int, c2: int| !(r2 == row && c2 == col) implies #[trigger] self
                        .frontier_has(r2, c2) == old(self).frontier_has(r2, c2) by {
                        if old(self).frontier_has(r2, c2) {
                            let k = choose|k: int|
                                0 <= k < na.len() && na[k].0 == r2 && na[k].1 == c2;
                            assert(k != i);
                            if k < i {
                                assert(nb[k].0 == r2 && nb[k].1 == c2);
                            } else {
                                assert(nb[k - 1] == na[k]);
                            }
                        }
                        if self.frontier_has(r2, c2) {
                            let k = choose|k: int|
                                0 <= k < nb.len() && nb[k].0 == r2 && nb[k].1 == c2;
                            if k < i {
                                assert(na[k].0 == r2 && na[k].1 == c2);
                            } else {
                                assert(na[k + 1].0 == r2 && na[k + 1].1 == c2);
                            }
                        }
                    }
                }
                return ;
            }
            i = i + 1;
        }
    }

    /// A copy of the staged positions, in the order they were placed.
    pub fn get_staged_positions(&self) -> (r: Vec<(usize, usize)>)
        ensures
            r@ == self.staged_spaces@,
    {
        let mut result: Vec<(usize, usize)> = Vec::new();
        let mut i: usize = 0;
        while i < self.staged_spaces.len()
            invariant
                i <= self.staged_spaces@.len(),
                result@ =~= self.staged_spaces@.take(i as int),
            decreases self.staged_spaces@.len() - i,
        {
            let p = self.staged_spaces[i];
            result.push(p);
            i = i + 1;
        }
        proof {
            assert(result@ =~= self.staged_spaces@);
        }
        result
    }

    /// True iff (row, col) is in the frontier.
    pub fn frontier_contains(&self, row: usize, col: usize) -> (r: bool)
        ensures
            r == self.frontier_has(row as int, col as int),
    {
        let mut i: usize = 0;
        while i < self.neighbors.len()
            invariant
                i <= self.neighbors@.len(),
                forall|k: int|
                    0 <= k < i ==> !(#[trigger] self.neighbors@[k].0 == row && self.neighbors@[k].1
                        == col),
            decreases self.neighbors@.len() - i,
        {
            let p = self.neighbors[i];
            if p.0 == row && p.1 == col {
                proof {
                    assert(self.neighbors@[i as int].0 == row && self.neighbors@[i as int].1
                        == col);
                }
                return true;
            }
            i = i + 1;
        }
        false
    }
}

/// After removing index `i` (the position (row, col)) from the staged list of
/// `a` and emptying that space, the board `b` is well formed and relates to
/// `a` as `remove_tile` promises.
proof fn lemma_remove_staged(a: Board, b: Board, i: int, row: usize, col: usize)
    requires
        a.wf(),
        0 <= i < a.staged_spaces@.len(),
        a.staged_spaces@[i].0 == row && a.staged_spaces@[i].1 == col,
        b.staged_spaces@ == a.staged_spaces@.remove(i),
        b.neighbors@ == a.neighbors@,
        b.word_list == a.word_list,
        b.partials_list == a.partials_list,
        b.board@.len() == 15,
        forall|r: int| 0 <= r < 15 ==> #[trigger] b.board@[r]@.len() == 15,
        forall|r2: int, c2: int|
            in_bounds(r2, c2) && !(r2 == row && c2 == col) ==> #[trigger] b.sp(r2, c2) == a.sp(
                r2,
                c2,
            ),
        b.sp(row as int, col as int).tile == EMPTY,
        b.sp(row as int, col as int).letter_mult == a.sp(row as int, col as int).letter_mult,
        b.sp(row as int, col as int).word_mult == a.sp(row as int, col as int).word_mult,
        b.sp(row as int, col as int).val == a.sp(row as int, col as int).val,
    ensures
        b.wf(),
        !b.staged_has(row as int, col as int),
        forall|r2: int, c2: int|
            !(r2 == row && c2 == col) ==> #[trigger] b.staged_has(r2, c2) == a.staged_has(r2, c2),
        b.staged_spaces@.len() == a.staged_spaces@.len() - 1,
        (a.staged_spaces@.last() == ((row, col)) ==> b.staged_spaces@
            == a.staged_spaces@.drop_last()),
        b.committed_tiles() == a.committed_tiles(),
{
    let sa = a.staged_spaces@;
    let sb = b.staged_spaces@;
    assert(sb.len() == sa.len() - 1);
    assert(forall|k: int| 0 <= k < i ==> sb[k] == sa[k]);
    assert(forall|k: int| i <= k < sb.len() ==> sb[k] == sa[k + 1]);
    assert(!b.staged_has(row as int, col as int)) by {
        if b.staged_has(row as int, col as int) {
            let k = choose|k: int|
                0 <= k < sb.len() && sb[k].0 == row as int && sb[k].1 == col as int;
            if k < i {
                assert(sa[k].0 == row && sa[k].1 == col);
            } else {
                assert(sa[k + 1].0 == row && sa[k + 1].1 == col);
            }
        }
    }
    assert forall|r2: int, c2: int| !(r2 == row && c2 == col) implies #[trigger] b.staged_has(
        r2,
        c2,
    ) == a.staged_has(r2, c2) by {
        if a.staged_has(r2, c2) {
            let k = choose|k: int| 0 <= k < sa.len() && sa[k].0 == r2 && sa[k].1 == c2;
            assert(k != i);
            if k < i {
                assert(sb[k].0 == r2 && sb[k].1 == c2);
            } else {
                assert(sb[k - 1] == sa[k]);
            }
        }
        if b.staged_has(r2, c2) {
            let k = choose|k: int| 0 <= k < sb.len() && sb[k].0 == r2 && sb[k].1 == c2;
            if k < i {
                assert(sa[k].0 == r2 && sa[k].1 == c2);
            } else {
                assert(sa[k + 1].0 == r2 && sa[k + 1].1 == c2);
            }
        }
    }
    if sa.last() == ((row, col)) {
        assert(i == sa.len() - 1) by {
            if i < sa.len() - 1 {
                assert(!(sa[i].0 == sa[sa.len() - 1].0 && sa[i].1 == sa[sa.len() - 1].1));
            }
        }
        assert(sb =~= sa.drop_last());
    }
    assert(b.committed_tiles() =~~= a.committed_tiles()) by {
        assert forall|r2: int, c2: int| in_bounds(r2, c2) implies b.committed_tiles()[r2][c2]
            == a.committed_tiles()[r2][c2] by {
            if r2 == row && c2 == col {
                assert(a.staged_has(r2, c2));
                assert(!b.occ(r2, c2));
            }
        }
    }
    assert(b.wf()) by {
        assert forall|k1: int, k2: int|
            0 <= k1 < k2 < sb.len() implies !(#[trigger] sb[k1].0 == #[trigger] sb[k2].0
            && sb[k1].1 == sb[k2].1) by {
            let j1: int = if k1 < i {
                k1
            } else {
                k1 + 1
            };
            let j2: int = if k2 < i {
                k2
            } else {
                k2 + 1
            };
            assert(sb[k1] == sa[j1] && sb[k2] == sa[j2]);
            assert(!(sa[j1].0 == sa[j2].0 && sa[j1].1 == sa[j2].1));
        }
        assert forall|k: int| 0 <= k < sb.len() implies in_bounds(
            #[trigger] sb[k].0 as int,
            sb[k].1 as int,
        ) && b.occ(sb[k].0 as int, sb[k].1 as int) by {
            let j: int = if k < i {
                k
            } else {
                k + 1
            };
            assert(sb[k] == sa[j]);
            assert(a.occ(sa[j].0 as int, sa[j].1 as int));
            assert(!(sa[j].0 == row && sa[j].1 == col));
        }
        assert forall|r2: int, c2: int| in_bounds(r2, c2) implies (#[trigger] b.sp(r2, c2).val == (
        if b.occ(r2, c2) && !b.staged_has(r2, c2) {
            crate::spec_score_letter(b.tile_at(r2, c2))
        } else {
            0
        })) by {
            if r2 == row && c2 == col {
                assert(a.staged_has(r2, c2));
                assert(a.sp(r2, c2).val == 0);
                assert(!b.occ(r2, c2));
            } else {
                assert(b.staged_has(r2, c2) == a.staged_has(r2, c2));
                assert(b.sp(r2, c2) == a.sp(r2, c2));
            }
        }
        assert forall|k: int| 0 <= k < b.neighbors@.len() implies in_bounds(
            #[trigger] b.neighbors@[k].0 as int,
            b.neighbors@[k].1 as int,
        ) && (!b.occ(b.neighbors@[k].0 as int, b.neighbors@[k].1 as int) || b.staged_has(
            b.neighbors@[k].0 as int,
            b.neighbors@[k].1 as int,
        )) by {
            let nr = b.neighbors@[k].0 as int;
            let nc = b.neighbors@[k].1 as int;
            assert(!a.occ(nr, nc) || a.staged_has(nr, nc));
            if nr == row && nc == col {
                assert(!b.occ(nr, nc));
            } else {
                assert(b.staged_has(nr, nc) == a.staged_has(nr, nc));
                assert(b.sp(nr, nc) == a.sp(nr, nc));
            }
        }
    }
}


} // verus!
