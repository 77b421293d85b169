use vstd::prelude::*;

use crate::game::board::{col_end, col_start, in_bounds, row_end, row_start, Board, Space};
use crate::{is_tile, spec_score_letter, EMPTY};

verus! {

/// The tile bytes of a grid of spaces.
pub open spec fn tiles_of(g: Seq<Vec<Space>>) -> Seq<Seq<u8>> {
    Seq::new(15, |r: int| Seq::new(15, |c: int| g[r]@[c].tile))
}

/// Sum of the base letter values of `n` cells of row `r` starting at column `s`.
pub open spec fn sum_row_letters(g: Seq<Vec<Space>>, r: int, s: int, n: int) -> int
    decreases n,
{
    if n <= 0 {
        0
    } else {
        sum_row_letters(g, r, s, n - 1) + spec_score_letter(g[r]@[s + n - 1].tile)
    }
}

/// Sum of the base letter values of `n` cells of column `c` starting at row `s`.
pub open spec fn sum_col_letters(g: Seq<Vec<Space>>, c: int, s: int, n: int) -> int
    decreases n,
{
    if n <= 0 {
        0
    } else {
        sum_col_letters(g, c, s, n - 1) + spec_score_letter(g[s + n - 1]@[c].tile)
    }
}

/// Sum of the frozen values of `n` cells of row `r` starting at column `s`.
pub open spec fn sum_row_vals(g: Seq<Vec<Space>>, r: int, s: int, n: int) -> int
    decreases n,
{
    if n <= 0 {
        0
    } else {
        sum_row_vals(g, r, s, n - 1) + g[r]@[s + n - 1].val
    }
}

/// Sum of the frozen values of `n` cells of column `c` starting at row `s`.
pub open spec fn sum_col_vals(g: Seq<Vec<Space>>, c: int, s: int, n: int) -> int
    decreases n,
{
    if n <= 0 {
        0
    } else {
        sum_col_vals(g, c, s, n - 1) + g[s + n - 1]@[c].val
    }
}

/// Score of the across word through (r, c), charged to the cell (r, c): the
/// base letter values of the whole run, with (r, c)'s own contribution
/// replaced by its letter-multiplied value, all times (r, c)'s word
/// multiplier; 0 if no across word stands there.
pub open spec fn spec_score_across_of(g: Seq<Vec<Space>>, r: int, c: int) -> int {
    let s = row_start(tiles_of(g), r, c);
    let e = row_end(tiles_of(g), r, c);
    if s == e {
        0
    } else {
        let total = sum_row_letters(g, r, s, e + 1 - s);
        let cs = spec_score_letter(g[r]@[c].tile);
        (total - cs + cs * g[r]@[c].letter_mult) * g[r]@[c].word_mult
    }
}

/// Score of the down word through (r, c), as `spec_score_across_of`.
pub open spec fn spec_score_down_of(g: Seq<Vec<Space>>, r: int, c: int) -> int {
    let s = col_start(tiles_of(g), r, c);
    let e = col_end(tiles_of(g), r, c);
    if s == e {
        0
    } else {
        let total = sum_col_letters(g, c, s, e + 1 - s);
        let cs = spec_score_letter(g[r]@[c].tile);
        (total - cs + cs * g[r]@[c].letter_mult) * g[r]@[c].word_mult
    }
}

/// Product of the word multipliers of the first `k` staged spaces.
pub open spec fn prod_word_mults(g: Seq<Vec<Space>>, st: Seq<(usize, usize)>, k: int) -> int
    decreases k,
{
    if k <= 0 {
        1
    } else {
        prod_word_mults(g, st, k - 1) * g[st[k - 1].0 as int]@[st[k - 1].1 as int].word_mult
    }
}

/// Sum over the first `k` staged spaces of letter multiplier times base
/// letter value.
pub open spec fn sum_staged_letters(g: Seq<Vec<Space>>, st: Seq<(usize, usize)>, k: int) -> int
    decreases k,
{
    if k <= 0 {
        0
    } else {
        sum_staged_letters(g, st, k - 1) + g[st[k - 1].0 as int]@[st[k - 1].1 as int].letter_mult
            * spec_score_letter(g[st[k - 1].0 as int]@[st[k - 1].1 as int].tile)
    }
}

/// Sum over the first `k` staged spaces of the crossing-word score: the down
/// word for an across play, the across word for a down play.
pub open spec fn sum_cross_scores(
    g: Seq<Vec<Space>>,
    st: Seq<(usize, usize)>,
    across: bool,
    k: int,
) -> int
    decreases k,
{
    if k <= 0 {
        0
    } else {
        sum_cross_scores(g, st, across, k - 1) + (if across {
            spec_score_down_of(g, st[k - 1].0 as int, st[k - 1].1 as int)
        } else {
            spec_score_across_of(g, st[k - 1].0 as int, st[k - 1].1 as int)
        })
    }
}

/// The score of the staged configuration: a pure function of the grid
/// contents and the staged list.
/// - no staged tile: 0;
/// - one staged tile: its down-word score plus its across-word score;
/// - several: the sum over staged spaces of multiplied letter values, plus
///   the frozen values over the main word's span, times the product of the
///   staged spaces' word multipliers, plus every staged space's crossing
///   score, plus a 50-point bonus when seven or more tiles were staged.
pub open spec fn spec_score_of(g: Seq<Vec<Space>>, st: Seq<(usize, usize)>) -> int {
    if st.len() == 0 {
        0
    } else if st.len() == 1 {
        spec_score_down_of(g, st[0].0 as int, st[0].1 as int) + spec_score_across_of(
            g,
            st[0].0 as int,
            st[0].1 as int,
        )
    } else {
        let r0 = st[0].0 as int;
        let c0 = st[0].1 as int;
        let across = st[0].0 == st[1].0;
        let main_vals = if across {
            sum_row_vals(
                g,
                r0,
                row_start(tiles_of(g), r0, c0),
                row_end(tiles_of(g), r0, c0) + 1 - row_start(tiles_of(g), r0, c0),
            )
        } else {
            sum_col_vals(
                g,
                c0,
                col_start(tiles_of(g), r0, c0),
                col_end(tiles_of(g), r0, c0) + 1 - col_start(tiles_of(g), r0, c0),
            )
        };
        (sum_staged_letters(g, st, st.len() as int) + main_vals) * prod_word_mults(
            g,
            st,
            st.len() as int,
        ) + sum_cross_scores(g, st, across, st.len() as int) + (if st.len() >= 7 {
            50int
        } else {
            0int
        })
    }
}

/// Powers of three, for bounding products of word multipliers.
pub open spec fn pow3(n: nat) -> int
    decreases n,
{
    if n == 0 {
        1
    } else {
        3 * pow3((n - 1) as nat)
    }
}

pub proof fn lemma_pow3_le(a: nat, b: nat)
    requires
        a <= b,
    ensures
        1 <= pow3(a) <= pow3(b),
    decreases b,
{
    if b > 0 {
        if a == b {
            lemma_pow3_le((a - 1) as nat, (b - 1) as nat);
        } else {
            lemma_pow3_le(a, (b - 1) as nat);
        }
    }
}

impl Board {
    /// The score of the current staged configuration, as a spec value.
    pub open spec fn spec_score(self) -> int {
        spec_score_of(self.board@, self.staged_spaces@)
    }

    pub open spec fn spec_score_across(self, r: int, c: int) -> int {
        spec_score_across_of(self.board@, r, c)
    }

    pub open spec fn spec_score_down(self, r: int, c: int) -> int {
        spec_score_down_of(self.board@, r, c)
    }

    /// `tiles_of(self.board@)` is the same grid of bytes as `self.tiles()`.
    pub proof fn lemma_tiles_of(self)
        requires
            self.grid_wf(),
        ensures
            tiles_of(self.board@) == self.tiles(),
    {
        assert(tiles_of(self.board@) =~~= self.tiles());
    }

    /// Score the across word through (row, col), charging multipliers to that
    /// cell alone.
    pub fn score_across(&self, row: usize, col: usize) -> (r: i64)
        requires
            self.wf(),
            row < 15,
            col < 15,
            self.occ(row as int, col as int),
        ensures
            r == self.spec_score_across(row as int, col as int),
            0 <= r <= 600,
    {
        proof {
            self.lemma_tiles_of();
        }
        let start = match self.get_leftmost_col(row, col) {
            Some(s) => s,
            None => {
                proof {
                    assert(false);
                }
                0
            },
        };
        let end = match self.get_rightmost_col(row, col) {
            Some(e) => e,
            None => {
                proof {
                    assert(false);
                }
                0
            },
        };
        proof {
            crate::game::board::lemma_row_start_props(self.tiles(), row as int, col as int);
            crate::game::board::lemma_row_end_props(self.tiles(), row as int, col as int);
        }
        if start == end {
            return 0;
        }
        proof {
            assert(forall|j2: int|
                start <= j2 <= end ==> self.tiles()[row as int][j2] != EMPTY);
        }
        let mut sc: i64 = 0;
        let mut j: usize = start;
        while j <= end
            invariant
                self.wf(),
                row < 15,
                start <= j <= end + 1,
                end < 15,
                forall|j2: int| start <= j2 <= end ==> self.tiles()[row as int][j2] != EMPTY,
                sc == sum_row_letters(self.board@, row as int, start as int, j - start),
                0 <= sc <= 10 * (j - start),
            decreases end + 1 - j,
        {
            proof {
                assert(self.tiles()[row as int][j as int] == self.tile_at(row as int, j as int));
            }
            let t = self.board[row][j].tile;
            let v: i64 = crate::score_letter(t);
            sc = sc + v;
            j = j + 1;
        }
        let lm = self.board[row][col].letter_mult;
        let wm = self.board[row][col].word_mult;
        let cs = crate::score_letter(self.board[row][col].tile);
        proof {
            assert(1 <= lm <= 3 && 1 <= wm <= 3);
        }
        sc = sc - cs + cs * lm;
        sc = sc * wm;
        sc
    }

    /// Score the down word through (row, col), as `score_across`.
    pub fn score_down(&self, row: usize, col: usize) -> (r: i64)
        requires
            self.wf(),
            row < 15,
            col < 15,
            self.occ(row as int, col as int),
        ensures
            r == self.spec_score_down(row as int, col as int),
            0 <= r <= 600,
    {
        proof {
            self.lemma_tiles_of();
        }
        let start = match self.get_upmost_row(row, col) {
            Some(s) => s,
            None => {
                proof {
                    assert(false);
                }
                0
            },
        };
        let end = match self.get_downmost_row(row, col) {
            Some(e) => e,
            None => {
                proof {
                    assert(false);
                }
                0
            },
        };
        proof {
            crate::game::board::lemma_col_start_props(self.tiles(), row as int, col as int);
            crate::game::board::lemma_col_end_props(self.tiles(), row as int, col as int);
        }
        if start == end {
            return 0;
        }
        proof {
            assert(forall|j2: int|
                start <= j2 <= end ==> self.tiles()[j2][col as int] != EMPTY);
        }
        let mut sc: i64 = 0;
        let mut j: usize = start;
        while j <= end
            invariant
                self.wf(),
                col < 15,
                start <= j <= end + 1,
                end < 15,
                forall|j2: int| start <= j2 <= end ==> self.tiles()[j2][col as int] != EMPTY,
                sc == sum_col_letters(self.board@, col as int, start as int, j - start),
                0 <= sc <= 10 * (j - start),
            decreases end + 1 - j,
        {
            proof {
                assert(self.tiles()[j as int][col as int] == self.tile_at(j as int, col as int));
            }
            let t = self.board[j][col].tile;
            let v: i64 = crate::score_letter(t);
            sc = sc + v;
            j = j + 1;
        }
        let lm = self.board[row][col].letter_mult;
        let wm = self.board[row][col].word_mult;
        let cs = crate::score_letter(self.board[row][col].tile);
        sc = sc - cs + cs * lm;
        sc = sc * wm;
        sc
    }

    /// The score of the whole staged configuration, by the formula of
    /// `spec_score_of`.
    #[verifier::rlimit(100)]
    pub fn score(&self) -> (r: i64)
        requires
            self.wf(),
            self.staged_spaces@.len() <= 15,
        ensures
            r == self.spec_score(),
            0 <= r,
    {
        let n = self.staged_spaces.len();
        if n == 0 {
            return 0;
        }
        if n == 1 {
            let p = self.staged_spaces[0];
            proof {
                assert(self.occ(p.0 as int, p.1 as int));
            }
            let d = self.score_down(p.0, p.1);
            let a = self.score_across(p.0, p.1);
            return d + a;
        }
        let across = self.staged_spaces[0].0 == self.staged_spaces[1].0;
        let mut word_mult: i64 = 1;
        let mut sc: i64 = 0;
        let mut cross_sum: i64 = 0;
        let mut count: usize = 0;
        while count < n
            invariant
                self.wf(),
                n == self.staged_spaces@.len(),
                2 <= n <= 15,
                count <= n,
                across == (self.staged_spaces@[0].0 == self.staged_spaces@[1].0),
                word_mult == prod_word_mults(self.board@, self.staged_spaces@, count as int),
                1 <= word_mult,
                word_mult <= pow3(count as nat),
                sc == sum_staged_letters(self.board@, self.staged_spaces@, count as int),
                0 <= sc <= 30 * count,
                cross_sum == sum_cross_scores(
                    self.board@,
                    self.staged_spaces@,
                    across,
                    count as int,
                ),
                0 <= cross_sum <= 600 * count,
            decreases n - count,
        {
            let p = self.staged_spaces[count];
            proof {
                assert(self.occ(p.0 as int, p.1 as int) && in_bounds(p.0 as int, p.1 as int));
                lemma_pow3_le(count as nat, 15);
                assert(pow3(15) == 14348907) by {
                    reveal_with_fuel(pow3, 17);
                }
            }
            word_mult = word_mult * self.board[p.0][p.1].word_mult;
            proof {
                lemma_pow3_le((count + 1) as nat, 15);
            }
            let tile_val = crate::score_letter(self.board[p.0][p.1].tile);
            sc = sc + self.board[p.0][p.1].letter_mult * tile_val;
            let cross: i64 = if across {
                self.score_down(p.0, p.1)
            } else {
                self.score_across(p.0, p.1)
            };
            cross_sum = cross_sum + cross;
            count = count + 1;
        }
        let origin = self.staged_spaces[0];
        proof {
            assert(self.occ(origin.0 as int, origin.1 as int) && in_bounds(
                origin.0 as int,
                origin.1 as int,
            ));
            self.lemma_tiles_of();
        }
        if across {
            let leftmost = match self.get_leftmost_col(origin.0, origin.1) {
                Some(s) => s,
                None => {
                    proof {
                        assert(false);
                    }
                    0
                },
            };
            let rightmost = match self.get_rightmost_col(origin.0, origin.1) {
                Some(e) => e,
                None => {
                    proof {
                        assert(false);
                    }
                    0
                },
            };
            proof {
                crate::game::board::lemma_row_start_props(
                    self.tiles(),
                    origin.0 as int,
                    origin.1 as int,
                );
                crate::game::board::lemma_row_end_props(
                    self.tiles(),
                    origin.0 as int,
                    origin.1 as int,
                );
            }
            let mut j: usize = leftmost;
            while j <= rightmost
                invariant
                    self.wf(),
                    origin.0 < 15,
                    leftmost <= j <= rightmost + 1,
                    rightmost < 15,
                    0 <= sc - sum_staged_letters(
                        self.board@,
                        self.staged_spaces@,
                        self.staged_spaces@.len() as int,
                    ) <= 10 * (j - leftmost),
                    sc == sum_staged_letters(
                        self.board@,
                        self.staged_spaces@,
                        self.staged_spaces@.len() as int,
                    ) + sum_row_vals(self.board@, origin.0 as int, leftmost as int, j - leftmost),
                    sum_staged_letters(
                        self.board@,
                        self.staged_spaces@,
                        self.staged_spaces@.len() as int,
                    ) <= 450,
                decreases rightmost + 1 - j,
            {
                proof {
                    assert(0 <= self.sp(origin.0 as int, j as int).val <= 10);
                }
                sc = sc + self.board[origin.0][j].val;
                j = j + 1;
            }
        } else {
            let upmost = match self.get_upmost_row(origin.0, origin.1) {
                Some(s) => s,
                None => {
                    proof {
                        assert(false);
                    }
                    0
                },
            };
            let downmost = match self.get_downmost_row(origin.0, origin.1) {
                Some(e) => e,
                None => {
                    proof {
                        assert(false);
                    }
                    0
                },
            };
            proof {
                crate::game::board::lemma_col_start_props(
                    self.tiles(),
                    origin.0 as int,
                    origin.1 as int,
                );
                crate::game::board::lemma_col_end_props(
                    self.tiles(),
                    origin.0 as int,
                    origin.1 as int,
                );
            }
            let mut j: usize = upmost;
            while j <= downmost
                invariant
                    self.wf(),
                    origin.1 < 15,
                    upmost <= j <= downmost + 1,
                    downmost < 15,
                    0 <= sc - sum_staged_letters(
                        self.board@,
                        self.staged_spaces@,
                        self.staged_spaces@.len() as int,
                    ) <= 10 * (j - upmost),
                    sc == sum_staged_letters(
                        self.board@,
                        self.staged_spaces@,
                        self.staged_spaces@.len() as int,
                    ) + sum_col_vals(self.board@, origin.1 as int, upmost as int, j - upmost),
                    sum_staged_letters(
                        self.board@,
                        self.staged_spaces@,
                        self.staged_spaces@.len() as int,
                    ) <= 450,
                decreases downmost + 1 - j,
            {
                proof {
                    assert(0 <= self.sp(j as int, origin.1 as int).val <= 10);
                }
                sc = sc + self.board[j][origin.1].val;
                j = j + 1;
            }
        }
        proof {
            lemma_pow3_le(n as nat, 15);
            assert(pow3(15) == 14348907) by {
                reveal_with_fuel(pow3, 17);
            }
            assert(0 <= sc <= 600);
            assert(1 <= word_mult <= 14348907);
            assert(0 <= cross_sum <= 9000);
            assert(0 <= sc * word_mult <= 600 * 14348907) by (nonlinear_arith)
                requires
                    0 <= sc <= 600,
                    1 <= word_mult <= 14348907,
            ;
        }
        sc = sc * word_mult;
        sc = sc + cross_sum;
        if count >= 7 {
            sc = sc + 50;
        }
        sc
    }

    /// The smallest and largest free coordinate among the staged positions:
    /// columns for an across play, rows for a down play. With nothing staged
    /// the result is (15, 0).
    pub fn get_staged_bounds(&self, across: bool) -> (r: (usize, usize))
        requires
            self.wf(),
        ensures
            self.staged_spaces@.len() == 0 ==> r == ((15usize, 0usize)),
            self.staged_spaces@.len() > 0 ==> {
                &&& exists|k: int|
                    0 <= k < self.staged_spaces@.len() && (if across {
                        self.staged_spaces@[k].1
                    } else {
                        self.staged_spaces@[k].0
                    }) == r.0
                &&& exists|k: int|
                    0 <= k < self.staged_spaces@.len() && (if across {
                        self.staged_spaces@[k].1
                    } else {
                        self.staged_spaces@[k].0
                    }) == r.1
                &&& forall|k: int|
                    0 <= k < self.staged_spaces@.len() ==> r.0 <= (if across {
                        #[trigger] self.staged_spaces@[k].1
                    } else {
                        self.staged_spaces@[k].0
                    }) <= r.1
            },
    {
        let mut min: usize = 15;
        let mut max: usize = 0;
        let mut i: usize = 0;
        while i < self.staged_spaces.len()
            invariant
                self.wf(),
                i <= self.staged_spaces@.len(),
                i == 0 ==> min == 15 && max == 0,
                i > 0 ==> {
                    &&& exists|k: int|
                        0 <= k < i && (if across {
                            self.staged_spaces@[k].1
                        } else {
                            self.staged_spaces@[k].0
                        }) == min
                    &&& exists|k: int|
                        0 <= k < i && (if across {
                            self.staged_spaces@[k].1
                        } else {
                            self.staged_spaces@[k].0
                        }) == max
                    &&& forall|k: int|
                        0 <= k < i ==> min <= (if across {
                            #[trigger] self.staged_spaces@[k].1
                        } else {
                            self.staged_spaces@[k].0
                        }) <= max
                },
            decreases self.staged_spaces@.len() - i,
        {
            let p = self.staged_spaces[i];
            let c = if across {
                p.1
            } else {
                p.0
            };
            proof {
                assert(self.staged_spaces@[i as int].0 == p.0 && self.staged_spaces@[i as int].1
                    == p.1);
            }
            if i == 0 {
                min = c;
                max = c;
            } else {
                if c < min {
                    min = c;
                }
                if c > max {
                    max = c;
                }
            }
            i = i + 1;
        }
        (min, max)
    }
}

/// The score is a pure function of the grid and the staged list: two boards
/// with the same spaces and the same staged positions score the same, whatever
/// their frontiers or word lists hold.
pub proof fn lemma_score_pure(b1: Board, b2: Board)
    requires
        b1.board@ == b2.board@,
        b1.staged_spaces@ == b2.staged_spaces@,
    ensures
        b1.spec_score() == b2.spec_score(),
{
}

} // verus!
