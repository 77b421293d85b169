use vstd::prelude::*;

use crate::game::board::{col_end, col_start, in_bounds, lemma_col_run_same, lemma_col_start_props,
    lemma_col_end_props, lemma_row_run_same, lemma_row_start_props, lemma_row_end_props, row_end,
    row_start, row_word, col_word, grid_words_legal, orth_adjacent, pos_lt, staged_prefix_adjacent,
    staged_prefix_has, Board, PlayError};
use crate::dict::word_list_has;
use crate::{is_tile, spec_score_letter, EMPTY};

verus! {

impl Board {
    /// Some staged position lies in the frontier.
    pub open spec fn staged_abuts(self) -> bool {
        exists|k: int|
            0 <= k < self.staged_spaces@.len() && self.frontier_has(
                self.staged_spaces@[k].0 as int,
                self.staged_spaces@[k].1 as int,
            )
    }

    /// Every staged position shares the first one's row.
    pub open spec fn staged_same_row(self) -> bool {
        forall|k: int|
            0 <= k < self.staged_spaces@.len() ==> #[trigger] self.staged_spaces@[k].0
                == self.staged_spaces@[0].0
    }

    /// Every staged position shares the first one's column.
    pub open spec fn staged_same_col(self) -> bool {
        forall|k: int|
            0 <= k < self.staged_spaces@.len() ==> #[trigger] self.staged_spaces@[k].1
                == self.staged_spaces@[0].1
    }

    /// For an across play: every staged column lies within the occupied run
    /// through the first staged position, so the play forms one unbroken word.
    pub open spec fn staged_contiguous_across(self) -> bool {
        let r0 = self.staged_spaces@[0].0 as int;
        let c0 = self.staged_spaces@[0].1 as int;
        forall|k: int|
            0 <= k < self.staged_spaces@.len() ==> row_start(self.tiles(), r0, c0)
                <= #[trigger] self.staged_spaces@[k].1 && self.staged_spaces@[k].1 <= row_end(
                self.tiles(),
                r0,
                c0,
            )
    }

    /// For a down play: every staged row lies within the occupied run through
    /// the first staged position.
    pub open spec fn staged_contiguous_down(self) -> bool {
        let r0 = self.staged_spaces@[0].0 as int;
        let c0 = self.staged_spaces@[0].1 as int;
        forall|k: int|
            0 <= k < self.staged_spaces@.len() ==> col_start(self.tiles(), r0, c0)
                <= #[trigger] self.staged_spaces@[k].0 && self.staged_spaces@[k].0 <= col_end(
                self.tiles(),
                r0,
                c0,
            )
    }

    /// Every staged position's down word, if one stands there, is legal.
    pub open spec fn staged_cross_down_legal(self) -> bool {
        forall|k: int|
            0 <= k < self.staged_spaces@.len() ==> #[trigger] self.spec_is_word_down(
                self.staged_spaces@[k].0 as int,
                self.staged_spaces@[k].1 as int,
            )
    }

    /// Every staged position's across word, if one stands there, is legal.
    pub open spec fn staged_cross_across_legal(self) -> bool {
        forall|k: int|
            0 <= k < self.staged_spaces@.len() ==> #[trigger] self.spec_is_word_across(
                self.staged_spaces@[k].0 as int,
                self.staged_spaces@[k].1 as int,
            )
    }

    /// What validation returns, in the order the checks are made: abutment of
    /// the frontier, a single shared axis, contiguity of the claimed word,
    /// the main word, and every crossing word. An empty staging fails the
    /// abutment check.
    pub open spec fn spec_validate(self) -> Result<(), PlayError> {
        let st = self.staged_spaces@;
        if st.len() == 1 {
            if !self.frontier_has(st[0].0 as int, st[0].1 as int) {
                Err(PlayError::NoAbutment)
            } else if !self.spec_is_word_across(st[0].0 as int, st[0].1 as int) {
                Err(PlayError::WordNotInDictionary)
            } else if !self.spec_is_word_down(st[0].0 as int, st[0].1 as int) {
                Err(PlayError::WordNotInDictionary)
            } else {
                Ok(())
            }
        } else if !self.staged_abuts() {
            Err(PlayError::NoAbutment)
        } else if st[0].0 == st[1].0 {
            if !self.staged_same_row() {
                Err(PlayError::InconsistentAxis)
            } else if !self.staged_contiguous_across() {
                Err(PlayError::NonContiguous)
            } else if !self.spec_is_word_across(st[0].0 as int, st[0].1 as int) {
                Err(PlayError::WordNotInDictionary)
            } else if !self.staged_cross_down_legal() {
                Err(PlayError::WordNotInDictionary)
            } else {
                Ok(())
            }
        } else if st[0].1 == st[1].1 {
            if !self.staged_same_col() {
                Err(PlayError::InconsistentAxis)
            } else if !self.staged_contiguous_down() {
                Err(PlayError::NonContiguous)
            } else if !self.spec_is_word_down(st[0].0 as int, st[0].1 as int) {
                Err(PlayError::WordNotInDictionary)
            } else if !self.staged_cross_across_legal() {
                Err(PlayError::WordNotInDictionary)
            } else {
                Ok(())
            }
        } else {
            Err(PlayError::InconsistentAxis)
        }
    }

    /// The staged configuration passes validation.
    pub open spec fn spec_valid(self) -> bool {
        self.spec_validate() is Ok
    }

    /// Check the staged play: Ok when it may be committed, otherwise the
    /// first reason it is refused, in the order of `spec_validate`. Nothing
    /// on the board changes.
    pub fn is_valid(&self) -> (r: Result<(), PlayError>)
        requires
            self.wf(),
        ensures
            r == self.spec_validate(),
    {
        let n = self.staged_spaces.len();
        if n == 1 {
            let p = self.staged_spaces[0];
            proof {
                assert(self.staged_spaces@[0].0 == p.0 && self.staged_spaces@[0].1 == p.1);
                assert(in_bounds(p.0 as int, p.1 as int));
            }
            if !self.frontier_contains(p.0, p.1) {
                return Err(PlayError::NoAbutment);
            }
            if !self.is_word_across(p.0, p.1) {
                return Err(PlayError::WordNotInDictionary);
            }
            if !self.is_word_down(p.0, p.1) {
                return Err(PlayError::WordNotInDictionary);
            }
            return Ok(());
        }
        // abutment: some staged position is in the frontier
        let mut abuts = false;
        let mut i: usize = 0;
        while i < self.staged_spaces.len()
            invariant_except_break
                !abuts,
                forall|k: int|
                    0 <= k < i ==> !self.frontier_has(
                        #[trigger] self.staged_spaces@[k].0 as int,
                        self.staged_spaces@[k].1 as int,
                    ),
            invariant
                self.wf(),
                i <= self.staged_spaces@.len(),
            ensures
                abuts ==> self.staged_abuts(),
                !abuts ==> forall|k: int|
                    0 <= k < i ==> !self.frontier_has(
                        #[trigger] self.staged_spaces@[k].0 as int,
                        self.staged_spaces@[k].1 as int,
                    ),
                abuts || i == self.staged_spaces@.len(),
            decreases self.staged_spaces@.len() - i,
        {
            let p = self.staged_spaces[i];
            if self.frontier_contains(p.0, p.1) {
                proof {
                    assert(self.staged_spaces@[i as int].0 == p.0 && self.staged_spaces@[i as int].1
                        == p.1);
                    assert(self.frontier_has(
                        self.staged_spaces@[i as int].0 as int,
                        self.staged_spaces@[i as int].1 as int,
                    ));
                }
                abuts = true;
                break ;
            }
            i = i + 1;
        }
        if !abuts {
            return Err(PlayError::NoAbutment);
        }
        if n == 0 {
            // unreachable: with nothing staged no abutment is found
            return Err(PlayError::NoAbutment);
        }
        let t0 = self.staged_spaces[0];
        let t1 = self.staged_spaces[1];
        proof {
            assert(self.staged_spaces@[0].0 == t0.0 && self.staged_spaces@[0].1 == t0.1);
            assert(self.staged_spaces@[1].0 == t1.0 && self.staged_spaces@[1].1 == t1.1);
            assert(in_bounds(t0.0 as int, t0.1 as int));
        }
        if t0.0 == t1.0 {
            // across play: constant row
            let mut i: usize = 0;
            while i < self.staged_spaces.len()
                invariant
                    self.wf(),
                    i <= self.staged_spaces@.len(),
                    self.staged_spaces@[0].0 == t0.0,
                    forall|k: int|
                        0 <= k < i ==> #[trigger] self.staged_spaces@[k].0
                            == self.staged_spaces@[0].0,
                ensures
                    i == self.staged_spaces@.len() || self.staged_spaces@[i as int].0
                        != self.staged_spaces@[0].0,
                    forall|k: int|
                        0 <= k < i ==> #[trigger] self.staged_spaces@[k].0
                            == self.staged_spaces@[0].0,
                decreases self.staged_spaces@.len() - i,
            {
                let p = self.staged_spaces[i];
                if p.0 != t0.0 {
                    break ;
                }
                i = i + 1;
            }
            if i < self.staged_spaces.len() {
                proof {
                    assert(!self.staged_same_row());
                }
                return Err(PlayError::InconsistentAxis);
            }
            proof {
                assert(self.staged_same_row());
            }
            // contiguity within the run through the first staged position
            let leftmost = match self.get_leftmost_col(t0.0, t0.1) {
                Some(s) => s,
                None => {
                    proof {
                        assert(false);
                    }
                    0
                },
            };
            let rightmost = match self.get_rightmost_col(t0.0, t0.1) {
                Some(e) => e,
                None => {
                    proof {
                        assert(false);
                    }
                    0
                },
            };
            let mut i: usize = 0;
            while i < self.staged_spaces.len()
                invariant
                    self.wf(),
                    i <= self.staged_spaces@.len(),
                    leftmost == row_start(self.tiles(), t0.0 as int, t0.1 as int),
                    rightmost == row_end(self.tiles(), t0.0 as int, t0.1 as int),
                    self.staged_spaces@[0].0 == t0.0 && self.staged_spaces@[0].1 == t0.1,
                    forall|k: int|
                        0 <= k < i ==> leftmost <= #[trigger] self.staged_spaces@[k].1
                            && self.staged_spaces@[k].1 <= rightmost,
                ensures
                    leftmost == row_start(self.tiles(), t0.0 as int, t0.1 as int),
                    rightmost == row_end(self.tiles(), t0.0 as int, t0.1 as int),
                    i == self.staged_spaces@.len() || !(leftmost <= self.staged_spaces@[i as int].1
                        && self.staged_spaces@[i as int].1 <= rightmost),
                    forall|k: int|
                        0 <= k < i ==> leftmost <= #[trigger] self.staged_spaces@[k].1
                            && self.staged_spaces@[k].1 <= rightmost,
                decreases self.staged_spaces@.len() - i,
            {
                let p = self.staged_spaces[i];
                if p.1 > rightmost || p.1 < leftmost {
                    proof {
                        assert(self.staged_spaces@[i as int].1 == p.1);
                    }
                    break ;
                }
                i = i + 1;
            }
            if i < self.staged_spaces.len() {
                proof {
                    assert(!self.staged_contiguous_across());
                }
                return Err(PlayError::NonContiguous);
            }
            proof {
                assert(self.staged_contiguous_across());
            }
            // the main word
            if !self.is_word_across(t0.0, t0.1) {
                return Err(PlayError::WordNotInDictionary);
            }
            // every crossing word
            let mut i: usize = 0;
            while i < self.staged_spaces.len()
                invariant
                    self.wf(),
                    i <= self.staged_spaces@.len(),
                    forall|k: int|
                        0 <= k < i ==> #[trigger] self.spec_is_word_down(
                            self.staged_spaces@[k].0 as int,
                            self.staged_spaces@[k].1 as int,
                        ),
                ensures
                    i == self.staged_spaces@.len() || !self.spec_is_word_down(
                        self.staged_spaces@[i as int].0 as int,
                        self.staged_spaces@[i as int].1 as int,
                    ),
                    forall|k: int|
                        0 <= k < i ==> #[trigger] self.spec_is_word_down(
                            self.staged_spaces@[k].0 as int,
                            self.staged_spaces@[k].1 as int,
                        ),
                decreases self.staged_spaces@.len() - i,
            {
                let p = self.staged_spaces[i];
                proof {
                    assert(self.staged_spaces@[i as int].0 == p.0 && self.staged_spaces@[i as int].1
                        == p.1);
                    assert(in_bounds(p.0 as int, p.1 as int));
                }
                if !self.is_word_down(p.0, p.1) {
                    break ;
                }
                i = i + 1;
            }
            if i < self.staged_spaces.len() {
                proof {
                    assert(!self.staged_cross_down_legal());
                }
                return Err(PlayError::WordNotInDictionary);
            }
            proof {
                assert(self.staged_cross_down_legal());
            }
            Ok(())
        } else if t0.1 == t1.1 {
            // down play: constant column
            let mut i: usize = 0;
            while i < self.staged_spaces.len()
                invariant
                    self.wf(),
                    i <= self.staged_spaces@.len(),
                    self.staged_spaces@[0].1 == t0.1,
                    forall|k: int|
                        0 <= k < i ==> #[trigger] self.staged_spaces@[k].1
                            == self.staged_spaces@[0].1,
                ensures
                    i == self.staged_spaces@.len() || self.staged_spaces@[i as int].1
                        != self.staged_spaces@[0].1,
                    forall|k: int|
                        0 <= k < i ==> #[trigger] self.staged_spaces@[k].1
                            == self.staged_spaces@[0].1,
                decreases self.staged_spaces@.len() - i,
            {
                let p = self.staged_spaces[i];
                if p.1 != t0.1 {
                    break ;
                }
                i = i + 1;
            }
            if i < self.staged_spaces.len() {
                proof {
                    assert(!self.staged_same_col());
                }
                return Err(PlayError::InconsistentAxis);
            }
            proof {
                assert(self.staged_same_col());
            }
            let upmost = match self.get_upmost_row(t0.0, t0.1) {
                Some(s) => s,
                None => {
                    proof {
                        assert(false);
                    }
                    0
                },
            };
            let downmost = match self.get_downmost_row(t0.0, t0.1) {
                Some(e) => e,
                None => {
                    proof {
                        assert(false);
                    }
                    0
                },
            };
            let mut i: usize = 0;
            while i < self.staged_spaces.len()
                invariant
                    self.wf(),
                    i <= self.staged_spaces@.len(),
                    upmost == col_start(self.tiles(), t0.0 as int, t0.1 as int),
                    downmost == col_end(self.tiles(), t0.0 as int, t0.1 as int),
                    self.staged_spaces@[0].0 == t0.0 && self.staged_spaces@[0].1 == t0.1,
                    forall|k: int|
                        0 <= k < i ==> upmost <= #[trigger] self.staged_spaces@[k].0
                            && self.staged_spaces@[k].0 <= downmost,
                ensures
                    upmost == col_start(self.tiles(), t0.0 as int, t0.1 as int),
                    downmost == col_end(self.tiles(), t0.0 as int, t0.1 as int),
                    i == self.staged_spaces@.len() || !(upmost <= self.staged_spaces@[i as int].0
                        && self.staged_spaces@[i as int].0 <= downmost),
                    forall|k: int|
                        0 <= k < i ==> upmost <= #[trigger] self.staged_spaces@[k].0
                            && self.staged_spaces@[k].0 <= downmost,
                decreases self.staged_spaces@.len() - i,
            {
                let p = self.staged_spaces[i];
                if p.0 > downmost || p.0 < upmost {
                    proof {
                        assert(self.staged_spaces@[i as int].0 == p.0);
                    }
                    break ;
                }
                i = i + 1;
            }
            if i < self.staged_spaces.len() {
                proof {
                    assert(!self.staged_contiguous_down());
                }
                return Err(PlayError::NonContiguous);
            }
            proof {
                assert(self.staged_contiguous_down());
            }
            if !self.is_word_down(t0.0, t0.1) {
                return Err(PlayError::WordNotInDictionary);
            }
            let mut i: usize = 0;
            while i < self.staged_spaces.len()
                invariant
                    self.wf(),
                    i <= self.staged_spaces@.len(),
                    forall|k: int|
                        0 <= k < i ==> #[trigger] self.spec_is_word_across(
                            self.staged_spaces@[k].0 as int,
                            self.staged_spaces@[k].1 as int,
                        ),
                ensures
                    i == self.staged_spaces@.len() || !self.spec_is_word_across(
                        self.staged_spaces@[i as int].0 as int,
                        self.staged_spaces@[i as int].1 as int,
                    ),
                    forall|k: int|
                        0 <= k < i ==> #[trigger] self.spec_is_word_across(
                            self.staged_spaces@[k].0 as int,
                            self.staged_spaces@[k].1 as int,
                        ),
                decreases self.staged_spaces@.len() - i,
            {
                let p = self.staged_spaces[i];
                proof {
                    assert(self.staged_spaces@[i as int].0 == p.0 && self.staged_spaces@[i as int].1
                        == p.1);
                    assert(in_bounds(p.0 as int, p.1 as int));
                }
                if !self.is_word_across(p.0, p.1) {
                    break ;
                }
                i = i + 1;
            }
            if i < self.staged_spaces.len() {
                proof {
                    assert(!self.staged_cross_across_legal());
                }
                return Err(PlayError::WordNotInDictionary);
            }
            proof {
                assert(self.staged_cross_across_legal());
            }
            Ok(())
        } else {
            Err(PlayError::InconsistentAxis)
        }
    }
}

/// With nothing staged, validation refuses the play for want of abutment.
pub proof fn lemma_empty_play_rejected(b: Board)
    requires
        b.staged_spaces@.len() == 0,
    ensures
        b.spec_validate() == Result::<(), PlayError>::Err(PlayError::NoAbutment),
{
}

/// Where no staged tile sits left of (r, c) in its run, the committed grid's
/// run starts where the full grid's run starts.
proof fn lemma_row_start_unstaged(b: Board, r: int, c: int)
    requires
        b.wf(),
        in_bounds(r, c),
        forall|j: int| row_start(b.tiles(), r, c) <= j < c ==> !b.staged_has(r, j),
    ensures
        row_start(b.committed_tiles(), r, c) == row_start(b.tiles(), r, c),
    decreases c,
{
    let g = b.tiles();
    let cg = b.committed_tiles();
    if 0 < c && g[r][c - 1] != EMPTY {
        assert(row_start(g, r, c - 1) == row_start(g, r, c));
        assert(!b.staged_has(r, c - 1)) by {
            lemma_row_start_props(g, r, c);
        }
        assert(cg[r][c - 1] == g[r][c - 1]);
        lemma_row_start_unstaged(b, r, c - 1);
    } else {
        if 0 < c {
            assert(cg[r][c - 1] == EMPTY) by {
                if b.staged_has(r, c - 1) {
                    assert(b.occ(r, c - 1));
                }
            }
        }
        assert(row_start(cg, r, c) == c);
    }
}

proof fn lemma_row_end_unstaged(b: Board, r: int, c: int)
    requires
        b.wf(),
        in_bounds(r, c),
        forall|j: int| c < j <= row_end(b.tiles(), r, c) ==> !b.staged_has(r, j),
    ensures
        row_end(b.committed_tiles(), r, c) == row_end(b.tiles(), r, c),
    decreases 14 - c,
{
    let g = b.tiles();
    let cg = b.committed_tiles();
    if c < 14 && g[r][c + 1] != EMPTY {
        assert(row_end(g, r, c + 1) == row_end(g, r, c));
        assert(!b.staged_has(r, c + 1)) by {
            lemma_row_end_props(g, r, c);
        }
        assert(cg[r][c + 1] == g[r][c + 1]);
        lemma_row_end_unstaged(b, r, c + 1);
    } else {
        if c < 14 {
            assert(cg[r][c + 1] == EMPTY) by {
                if b.staged_has(r, c + 1) {
                    assert(b.occ(r, c + 1));
                }
            }
        }
        assert(row_end(cg, r, c) == c);
    }
}

proof fn lemma_col_start_unstaged(b: Board, r: int, c: int)
    requires
        b.wf(),
        in_bounds(r, c),
        forall|j: int| col_start(b.tiles(), r, c) <= j < r ==> !b.staged_has(j, c),
    ensures
        col_start(b.committed_tiles(), r, c) == col_start(b.tiles(), r, c),
    decreases r,
{
    let g = b.tiles();
    let cg = b.committed_tiles();
    if 0 < r && g[r - 1][c] != EMPTY {
        assert(col_start(g, r - 1, c) == col_start(g, r, c));
        assert(!b.staged_has(r - 1, c)) by {
            lemma_col_start_props(g, r, c);
        }
        assert(cg[r - 1][c] == g[r - 1][c]);
        lemma_col_start_unstaged(b, r - 1, c);
    } else {
        if 0 < r {
            assert(cg[r - 1][c] == EMPTY) by {
                if b.staged_has(r - 1, c) {
                    assert(b.occ(r - 1, c));
                }
            }
        }
        assert(col_start(cg, r, c) == r);
    }
}

proof fn lemma_col_end_unstaged(b: Board, r: int, c: int)
    requires
        b.wf(),
        in_bounds(r, c),
        forall|j: int| r < j <= col_end(b.tiles(), r, c) ==> !b.staged_has(j, c),
    ensures
        col_end(b.committed_tiles(), r, c) == col_end(b.tiles(), r, c),
    decreases 14 - r,
{
    let g = b.tiles();
    let cg = b.committed_tiles();
    if r < 14 && g[r + 1][c] != EMPTY {
        assert(col_end(g, r + 1, c) == col_end(g, r, c));
        assert(!b.staged_has(r + 1, c)) by {
            lemma_col_end_props(g, r, c);
        }
        assert(cg[r + 1][c] == g[r + 1][c]);
        lemma_col_end_unstaged(b, r + 1, c);
    } else {
        if r < 14 {
            assert(cg[r + 1][c] == EMPTY) by {
                if b.staged_has(r + 1, c) {
                    assert(b.occ(r + 1, c));
                }
            }
        }
        assert(col_end(cg, r, c) == r);
    }
}

/// A play that passes validation stages at most 15 tiles: they are distinct
/// and lie on one row or one column.
pub proof fn lemma_staged_len_le_15(b: Board)
    requires
        b.wf(),
        b.spec_valid(),
    ensures
        b.staged_spaces@.len() <= 15,
{
    broadcast use vstd::seq_lib::seq_to_set_is_finite;
    broadcast use vstd::set::group_set_axioms;

    let st = b.staged_spaces@;
    if st.len() >= 2 {
        if st[0].0 == st[1].0 {
            assert(b.staged_same_row());
            let cols = Seq::new(st.len(), |k: int| st[k].1 as int);
            assert(cols.no_duplicates()) by {
                assert forall|k1: int, k2: int|
                    0 <= k1 < cols.len() && 0 <= k2 < cols.len() && k1 != k2 implies cols[k1]
                    != cols[k2] by {
                    if cols[k1] == cols[k2] {
                        assert(st[k1].0 == st[k2].0 && st[k1].1 == st[k2].1);
                    }
                }
            }
            cols.unique_seq_to_set();
            assert(cols.to_set().subset_of(vstd::set_lib::set_int_range(0, 15))) by {
                assert forall|x: int| cols.to_set().contains(x) implies vstd::set_lib::set_int_range(
                    0,
                    15,
                ).contains(x) by {
                    let k = choose|k: int| 0 <= k < cols.len() && cols[k] == x;
                    assert(in_bounds(st[k].0 as int, st[k].1 as int));
                }
            }
            vstd::set_lib::lemma_int_range(0, 15);
            vstd::set_lib::lemma_len_subset(
                cols.to_set(),
                vstd::set_lib::set_int_range(0, 15),
            );
        } else {
            assert(b.staged_same_col());
            let rows = Seq::new(st.len(), |k: int| st[k].0 as int);
            assert(rows.no_duplicates()) by {
                assert forall|k1: int, k2: int|
                    0 <= k1 < rows.len() && 0 <= k2 < rows.len() && k1 != k2 implies rows[k1]
                    != rows[k2] by {
                    if rows[k1] == rows[k2] {
                        assert(st[k1].0 == st[k2].0 && st[k1].1 == st[k2].1);
                    }
                }
            }
            rows.unique_seq_to_set();
            assert(rows.to_set().subset_of(vstd::set_lib::set_int_range(0, 15))) by {
                assert forall|x: int| rows.to_set().contains(x) implies vstd::set_lib::set_int_range(
                    0,
                    15,
                ).contains(x) by {
                    let k = choose|k: int| 0 <= k < rows.len() && rows[k] == x;
                    assert(in_bounds(st[k].0 as int, st[k].1 as int));
                }
            }
            vstd::set_lib::lemma_int_range(0, 15);
            vstd::set_lib::lemma_len_subset(
                rows.to_set(),
                vstd::set_lib::set_int_range(0, 15),
            );
        }
    }
}

impl Board {
    /// Put (r, c) into the frontier if that space is empty; otherwise leave
    /// the frontier alone.
    fn frontier_insert_if_empty(&mut self, row: usize, col: usize)
        requires
            old(self).board@.len() == 15,
            forall|r: int| 0 <= r < 15 ==> #[trigger] old(self).board@[r]@.len() == 15,
            row < 15,
            col < 15,
            forall|k1: int, k2: int|
                0 <= k1 < k2 < old(self).neighbors@.len() ==> pos_lt(
                    #[trigger] old(self).neighbors@[k1],
                    #[trigger] old(self).neighbors@[k2],
                ),
        ensures
            forall|k1: int, k2: int|
                0 <= k1 < k2 < final(self).neighbors@.len() ==> pos_lt(
                    #[trigger] final(self).neighbors@[k1],
                    #[trigger] final(self).neighbors@[k2],
                ),
            final(self).board == old(self).board,
            final(self).staged_spaces == old(self).staged_spaces,
            final(self).word_list == old(self).word_list,
            final(self).partials_list == old(self).partials_list,
            forall|qr: int, qc: int|
                in_bounds(qr, qc) ==> (#[trigger] final(self).frontier_has(qr, qc) == (old(
                    self,
                ).frontier_has(qr, qc) || (qr == row && qc == col && !old(self).occ(qr, qc)))),
            forall|qr: int, qc: int|
                !in_bounds(qr, qc) ==> (#[trigger] final(self).frontier_has(qr, qc) == old(
                    self,
                ).frontier_has(qr, qc)),
    {
        if self.board[row][col].tile == EMPTY {
            self.frontier_insert(row, col);
            proof {
                assert forall|qr: int, qc: int| in_bounds(qr, qc) implies (#[trigger] self
                    .frontier_has(qr, qc) == (old(self).frontier_has(qr, qc) || (qr == row && qc
                    == col && !old(self).occ(qr, qc)))) by {
                    if !(qr == row && qc == col) {
                        assert(self.frontier_has(qr, qc) == old(self).frontier_has(qr, qc));
                    }
                }
            }
        } else {
            proof {
                assert(self.occ(row as int, col as int));
            }
        }
    }

    /// Freeze the value of the newly committed tile at (row, col), take the
    /// position out of the frontier, and offer its empty orthogonal
    /// neighbours to the frontier.
    fn commit_one(&mut self, row: usize, col: usize)
        requires
            old(self).board@.len() == 15,
            forall|r: int| 0 <= r < 15 ==> #[trigger] old(self).board@[r]@.len() == 15,
            row < 15,
            col < 15,
            old(self).occ(row as int, col as int),
            is_tile(old(self).tile_at(row as int, col as int)),
            forall|k1: int, k2: int|
                0 <= k1 < k2 < old(self).neighbors@.len() ==> pos_lt(
                    #[trigger] old(self).neighbors@[k1],
                    #[trigger] old(self).neighbors@[k2],
                ),
        ensures
            final(self).board@.len() == 15,
            forall|r: int| 0 <= r < 15 ==> #[trigger] final(self).board@[r]@.len() == 15,
            forall|k1: int, k2: int|
                0 <= k1 < k2 < final(self).neighbors@.len() ==> pos_lt(
                    #[trigger] final(self).neighbors@[k1],
                    #[trigger] final(self).neighbors@[k2],
                ),
            final(self).staged_spaces == old(self).staged_spaces,
            final(self).word_list == old(self).word_list,
            final(self).partials_list == old(self).partials_list,
            forall|r2: int, c2: int|
                in_bounds(r2, c2) && !(r2 == row && c2 == col) ==> #[trigger] final(self).sp(
                    r2,
                    c2,
                ) == old(self).sp(r2, c2),
            final(self).sp(row as int, col as int).tile == old(self).sp(
                row as int,
                col as int,
            ).tile,
            final(self).sp(row as int, col as int).letter_mult == old(self).sp(
                row as int,
                col as int,
            ).letter_mult,
            final(self).sp(row as int, col as int).word_mult == old(self).sp(
                row as int,
                col as int,
            ).word_mult,
            final(self).sp(row as int, col as int).val == spec_score_letter(
                old(self).tile_at(row as int, col as int),
            ),
            forall|qr: int, qc: int|
                in_bounds(qr, qc) ==> (#[trigger] final(self).frontier_has(qr, qc) == ((old(
                    self,
                ).frontier_has(qr, qc) && !(qr == row && qc == col)) || (!old(self).occ(qr, qc)
                    && orth_adjacent(row as int, col as int, qr, qc)))),
            forall|qr: int, qc: int|
                !in_bounds(qr, qc) ==> (#[trigger] final(self).frontier_has(qr, qc) == old(
                    self,
                ).frontier_has(qr, qc)),
    {
        let t = self.board[row][col].tile;
        let v = crate::score_letter(t);
        self.set_val(row, col, v);
        let ghost sv = *self;
        self.frontier_remove(row, col);
        let ghost s0 = *self;
        proof {
            assert forall|qr: int, qc: int| in_bounds(qr, qc) implies (#[trigger] s0.frontier_has(
                qr,
                qc,
            ) == (old(self).frontier_has(qr, qc) && !(qr == row && qc == col))) by {
                if !(qr == row && qc == col) {
                    assert(s0.frontier_has(qr, qc) == old(self).frontier_has(qr, qc));
                }
            }
        }
        if row > 0 {
            self.frontier_insert_if_empty(row - 1, col);
        }
        let ghost s1 = *self;
        proof {
            assert forall|qr: int, qc: int| in_bounds(qr, qc) implies (#[trigger] s1.frontier_has(
                qr,
                qc,
            ) == (s0.frontier_has(qr, qc) || (row > 0 && qr == row - 1 && qc == col && !s0.occ(
                qr,
                qc,
            )))) by {
                if row > 0 {
                    assert(s1.frontier_has(qr, qc) == (s0.frontier_has(qr, qc) || (qr == row - 1
                        && qc == col && !s0.occ(qr, qc))));
                }
            }
        }
        if row < 14 {
            self.frontier_insert_if_empty(row + 1, col);
        }
        let ghost s2 = *self;
        proof {
            assert forall|qr: int, qc: int| in_bounds(qr, qc) implies (#[trigger] s2.frontier_has(
                qr,
                qc,
            ) == (s1.frontier_has(qr, qc) || (row < 14 && qr == row + 1 && qc == col && !s1.occ(
                qr,
                qc,
            )))) by {
                if row < 14 {
                    assert(s2.frontier_has(qr, qc) == (s1.frontier_has(qr, qc) || (qr == row + 1
                        && qc == col && !s1.occ(qr, qc))));
                }
            }
        }
        if col > 0 {
            self.frontier_insert_if_empty(row, col - 1);
        }
        let ghost s3 = *self;
        proof {
            assert forall|qr: int, qc: int| in_bounds(qr, qc) implies (#[trigger] s3.frontier_has(
                qr,
                qc,
            ) == (s2.frontier_has(qr, qc) || (col > 0 && qr == row && qc == col - 1 && !s2.occ(
                qr,
                qc,
            )))) by {
                if col > 0 {
                    assert(s3.frontier_has(qr, qc) == (s2.frontier_has(qr, qc) || (qr == row && qc
                        == col - 1 && !s2.occ(qr, qc))));
                }
            }
        }
        if col < 14 {
            self.frontier_insert_if_empty(row, col + 1);
        }
        proof {
            assert forall|qr: int, qc: int| in_bounds(qr, qc) implies (#[trigger] self.frontier_has(
                qr,
                qc,
            ) == (s3.frontier_has(qr, qc) || (col < 14 && qr == row && qc == col + 1 && !s3.occ(
                qr,
                qc,
            )))) by {
                if col < 14 {
                    assert(self.frontier_has(qr, qc) == (s3.frontier_has(qr, qc) || (qr == row && qc
                        == col + 1 && !s3.occ(qr, qc))));
                }
            }
            assert(s0.board == sv.board && s1.board == sv.board && s2.board == sv.board && s3.board
                == sv.board && self.board == sv.board);
            assert forall|r2: int, c2: int|
                in_bounds(r2, c2) && !(r2 == row && c2 == col) implies #[trigger] self.sp(r2, c2)
                == old(self).sp(r2, c2) by {
                assert(self.sp(r2, c2) == sv.sp(r2, c2));
                assert(sv.sp(r2, c2) == old(self).sp(r2, c2));
            }
            assert(self.sp(row as int, col as int) == sv.sp(row as int, col as int));
            assert forall|qr: int, qc: int| in_bounds(qr, qc) implies (#[trigger] self.frontier_has(
                qr,
                qc,
            ) == ((old(self).frontier_has(qr, qc) && !(qr == row && qc == col)) || (!old(self).occ(
                qr,
                qc,
            ) && orth_adjacent(row as int, col as int, qr, qc)))) by {
                assert(s0.sp(qr, qc) == sv.sp(qr, qc) && s1.sp(qr, qc) == sv.sp(qr, qc) && s2.sp(
                    qr,
                    qc,
                ) == sv.sp(qr, qc) && s3.sp(qr, qc) == sv.sp(qr, qc) && self.sp(qr, qc) == sv.sp(
                    qr,
                    qc,
                ));
                if !(qr == row && qc == col) {
                    assert(sv.sp(qr, qc) == old(self).sp(qr, qc));
                } else {
                    assert(sv.sp(qr, qc).tile == old(self).sp(qr, qc).tile);
                }
                assert(s0.occ(qr, qc) == old(self).occ(qr, qc) && s1.occ(qr, qc) == old(self).occ(
                    qr,
                    qc,
                ) && s2.occ(qr, qc) == old(self).occ(qr, qc) && s3.occ(qr, qc) == old(self).occ(
                    qr,
                    qc,
                ));
            }
        }
    }

    /// Commit the staged play. If validation refuses it, the reason comes
    /// back and nothing changes. Otherwise the play's score comes back, every
    /// staged tile freezes its base value, the play leaves the staging list,
    /// the committed positions leave the frontier, and each of their empty
    /// orthogonal neighbours joins it.
    #[verifier::rlimit(100)]
    pub fn submit(&mut self) -> (r: Result<i64, PlayError>)
        requires
            old(self).wf(),
        ensures
            final(self).wf(),
            old(self).spec_validate() matches Err(e) ==> r == Result::<i64, PlayError>::Err(e)
                && *final(self) == *old(self),
            old(self).spec_valid() ==> {
                &&& r == Result::<i64, PlayError>::Ok(old(self).spec_score() as i64)
                &&& final(self).staged_spaces@.len() == 0
                &&& final(self).word_list == old(self).word_list
                &&& final(self).partials_list == old(self).partials_list
                &&& forall|r2: int, c2: int|
                    in_bounds(r2, c2) ==> #[trigger] final(self).tile_at(r2, c2) == old(
                        self,
                    ).tile_at(r2, c2) && final(self).sp(r2, c2).letter_mult == old(self).sp(
                        r2,
                        c2,
                    ).letter_mult && final(self).sp(r2, c2).word_mult == old(self).sp(
                        r2,
                        c2,
                    ).word_mult
                &&& forall|r2: int, c2: int|
                    in_bounds(r2, c2) ==> #[trigger] final(self).sp(r2, c2).val == (if old(
                        self,
                    ).occ(r2, c2) {
                        spec_score_letter(old(self).tile_at(r2, c2))
                    } else {
                        0
                    })
                &&& forall|r2: int, c2: int|
                    in_bounds(r2, c2) ==> (#[trigger] final(self).frontier_has(r2, c2) == ((old(
                        self,
                    ).frontier_has(r2, c2) && !old(self).staged_has(r2, c2)) || (!old(self).occ(
                        r2,
                        c2,
                    ) && old(self).staged_adjacent(r2, c2))))
            },
    {
        match self.is_valid() {
            Err(e) => {
                return Err(e);
            },
            Ok(_) => {},
        }
        proof {
            lemma_staged_len_le_15(*self);
        }
        let sc = self.score();
        let ghost ob = *old(self);
        self.commit_all();
        let ghost committed = *self;
        self.staged_spaces.clear();
        proof {
            let ghost st = ob.staged_spaces@;
            assert forall|r2: int, c2: int| in_bounds(r2, c2) implies #[trigger] self.tile_at(
                r2,
                c2,
            ) == ob.tile_at(r2, c2) && self.sp(r2, c2).letter_mult == ob.sp(r2, c2).letter_mult
                && self.sp(r2, c2).word_mult == ob.sp(r2, c2).word_mult && self.sp(r2, c2).val
                == committed.sp(r2, c2).val by {
                assert(self.sp(r2, c2) == committed.sp(r2, c2));
                assert(committed.tile_at(r2, c2) == ob.tile_at(r2, c2));
                assert(committed.sp(r2, c2).val == (if staged_prefix_has(
                    st,
                    st.len() as int,
                    r2,
                    c2,
                ) {
                    spec_score_letter(ob.tile_at(r2, c2))
                } else {
                    ob.sp(r2, c2).val as int
                }));
            }
            assert forall|r2: int, c2: int| in_bounds(r2, c2) implies #[trigger] self.sp(
                r2,
                c2,
            ).val == (if staged_prefix_has(st, st.len() as int, r2, c2) {
                spec_score_letter(ob.tile_at(r2, c2))
            } else {
                ob.sp(r2, c2).val as int
            }) by {
                assert(self.sp(r2, c2) == committed.sp(r2, c2));
                assert(committed.sp(r2, c2).val == (if staged_prefix_has(
                    st,
                    st.len() as int,
                    r2,
                    c2,
                ) {
                    spec_score_letter(ob.tile_at(r2, c2))
                } else {
                    ob.sp(r2, c2).val as int
                }));
            }
            assert forall|r2: int, c2: int| in_bounds(r2, c2) implies (#[trigger] self.frontier_has(
                r2,
                c2,
            ) == committed.frontier_has(r2, c2)) by {
                assert(self.neighbors@ == committed.neighbors@);
            }
            assert forall|r2: int, c2: int| !in_bounds(r2, c2) implies (
            #[trigger] self.frontier_has(r2, c2) == committed.frontier_has(r2, c2)) by {
                assert(self.neighbors@ == committed.neighbors@);
            }
            lemma_valid_play_sound(ob);
            lemma_commit_finish(ob, *self, ob.staged_spaces@);
            assert(self.wf());
            assert(sc == ob.spec_score());
            assert(self.staged_spaces@.len() == 0);
            assert(self.word_list == ob.word_list);
            assert(self.partials_list == ob.partials_list);
        }
        Ok(sc)
    }

    /// Walk the staged list, freezing each tile's value and reshaping the
    /// frontier around it.
    fn commit_all(&mut self)
        requires
            old(self).wf(),
        ensures
            final(self).staged_spaces@ == old(self).staged_spaces@,
            final(self).word_list == old(self).word_list,
            final(self).partials_list == old(self).partials_list,
            final(self).board@.len() == 15,
            forall|r: int| 0 <= r < 15 ==> #[trigger] final(self).board@[r]@.len() == 15,
            forall|r2: int, c2: int|
                in_bounds(r2, c2) ==> #[trigger] final(self).tile_at(r2, c2) == old(self).tile_at(
                    r2,
                    c2,
                ) && final(self).sp(r2, c2).letter_mult == old(self).sp(r2, c2).letter_mult
                    && final(self).sp(r2, c2).word_mult == old(self).sp(r2, c2).word_mult,
            forall|r2: int, c2: int|
                in_bounds(r2, c2) ==> #[trigger] final(self).sp(r2, c2).val == (
                if staged_prefix_has(
                    old(self).staged_spaces@,
                    old(self).staged_spaces@.len() as int,
                    r2,
                    c2,
                ) {
                    spec_score_letter(old(self).tile_at(r2, c2))
                } else {
                    old(self).sp(r2, c2).val as int
                }),
            forall|k1: int, k2: int|
                0 <= k1 < k2 < final(self).neighbors@.len() ==> pos_lt(
                    #[trigger] final(self).neighbors@[k1],
                    #[trigger] final(self).neighbors@[k2],
                ),
            forall|r2: int, c2: int|
                in_bounds(r2, c2) ==> (#[trigger] final(self).frontier_has(r2, c2) == ((old(
                    self,
                ).frontier_has(r2, c2) && !staged_prefix_has(
                    old(self).staged_spaces@,
                    old(self).staged_spaces@.len() as int,
                    r2,
                    c2,
                )) || (!old(self).occ(r2, c2) && staged_prefix_adjacent(
                    old(self).staged_spaces@,
                    old(self).staged_spaces@.len() as int,
                    r2,
                    c2,
                )))),
            forall|r2: int, c2: int|
                !in_bounds(r2, c2) ==> (#[trigger] final(self).frontier_has(r2, c2) == old(
                    self,
                ).frontier_has(r2, c2)),
    {
        let ghost ob = *old(self);
        let ghost st = ob.staged_spaces@;
        let mut i: usize = 0;
        while i < self.staged_spaces.len()
            invariant
                ob == *old(self),
                ob.wf(),
                st == ob.staged_spaces@,
                self.staged_spaces@ == st,
                self.word_list == ob.word_list,
                self.partials_list == ob.partials_list,
                self.board@.len() == 15,
                forall|r: int| 0 <= r < 15 ==> #[trigger] self.board@[r]@.len() == 15,
                i <= st.len(),
                forall|r2: int, c2: int|
                    in_bounds(r2, c2) ==> #[trigger] self.tile_at(r2, c2) == ob.tile_at(r2, c2)
                        && self.sp(r2, c2).letter_mult == ob.sp(r2, c2).letter_mult && self.sp(
                        r2,
                        c2,
                    ).word_mult == ob.sp(r2, c2).word_mult,
                forall|r2: int, c2: int|
                    in_bounds(r2, c2) ==> #[trigger] self.sp(r2, c2).val == (if staged_prefix_has(
                        st,
                        i as int,
                        r2,
                        c2,
                    ) {
                        spec_score_letter(ob.tile_at(r2, c2))
                    } else {
                        ob.sp(r2, c2).val as int
                    }),
                forall|k1: int, k2: int|
                    0 <= k1 < k2 < self.neighbors@.len() ==> pos_lt(
                        #[trigger] self.neighbors@[k1],
                        #[trigger] self.neighbors@[k2],
                    ),
                forall|r2: int, c2: int|
                    in_bounds(r2, c2) ==> (#[trigger] self.frontier_has(r2, c2) == ((
                    ob.frontier_has(r2, c2) && !staged_prefix_has(st, i as int, r2, c2)) || (!ob.occ(
                        r2,
                        c2,
                    ) && staged_prefix_adjacent(st, i as int, r2, c2)))),
                forall|r2: int, c2: int|
                    !in_bounds(r2, c2) ==> (#[trigger] self.frontier_has(r2, c2) == ob.frontier_has(
                        r2,
                        c2,
                    )),
            decreases st.len() - i,
        {
            let p = self.staged_spaces[i];
            proof {
                assert(st[i as int].0 == p.0 && st[i as int].1 == p.1);
                assert(in_bounds(p.0 as int, p.1 as int) && ob.occ(p.0 as int, p.1 as int));
                assert(is_tile(ob.tile_at(p.0 as int, p.1 as int)));
                assert(self.occ(p.0 as int, p.1 as int));
            }
            let ghost prev = *self;
            self.commit_one(p.0, p.1);
            proof {
                lemma_commit_step(ob, prev, *self, st, i as int, p);
            }
            i = i + 1;
        }
    }
}

/// After the commit loop has frozen every staged tile's value and reshaped
/// the frontier, and the staged list has been cleared, the board is well
/// formed again and matches the committed-play formulas.
#[verifier::rlimit(100)]
proof fn lemma_commit_finish(ob: Board, cur: Board, st: Seq<(usize, usize)>)
    requires
        ob.grid_wf(),
        ob.staged_wf(),
        ob.vals_wf(),
        ob.frontier_wf(),
        ob.dicts_wf(),
        grid_words_legal(ob.tiles(), ob.word_list@),
        st == ob.staged_spaces@,
        cur.staged_spaces@.len() == 0,
        cur.word_list == ob.word_list,
        cur.partials_list == ob.partials_list,
        cur.board@.len() == 15,
        forall|r: int| 0 <= r < 15 ==> #[trigger] cur.board@[r]@.len() == 15,
        forall|r2: int, c2: int|
            in_bounds(r2, c2) ==> #[trigger] cur.tile_at(r2, c2) == ob.tile_at(r2, c2) && cur.sp(
                r2,
                c2,
            ).letter_mult == ob.sp(r2, c2).letter_mult && cur.sp(r2, c2).word_mult == ob.sp(
                r2,
                c2,
            ).word_mult,
        forall|r2: int, c2: int|
            in_bounds(r2, c2) ==> #[trigger] cur.sp(r2, c2).val == (if staged_prefix_has(
                st,
                st.len() as int,
                r2,
                c2,
            ) {
                spec_score_letter(ob.tile_at(r2, c2))
            } else {
                ob.sp(r2, c2).val as int
            }),
        forall|k1: int, k2: int|
            0 <= k1 < k2 < cur.neighbors@.len() ==> pos_lt(
                #[trigger] cur.neighbors@[k1],
                #[trigger] cur.neighbors@[k2],
            ),
        forall|r2: int, c2: int|
            in_bounds(r2, c2) ==> (#[trigger] cur.frontier_has(r2, c2) == ((ob.frontier_has(r2, c2)
                && !staged_prefix_has(st, st.len() as int, r2, c2)) || (!ob.occ(r2, c2)
                && staged_prefix_adjacent(st, st.len() as int, r2, c2)))),
        forall|r2: int, c2: int|
            !in_bounds(r2, c2) ==> (#[trigger] cur.frontier_has(r2, c2) == ob.frontier_has(r2, c2)),
    ensures
        cur.wf(),
        forall|r2: int, c2: int|
            in_bounds(r2, c2) ==> #[trigger] cur.sp(r2, c2).val == (if ob.occ(r2, c2) {
                spec_score_letter(ob.tile_at(r2, c2))
            } else {
                0
            }),
        forall|r2: int, c2: int|
            in_bounds(r2, c2) ==> (#[trigger] cur.frontier_has(r2, c2) == ((ob.frontier_has(r2, c2)
                && !ob.staged_has(r2, c2)) || (!ob.occ(r2, c2) && ob.staged_adjacent(r2, c2)))),
{
    assert forall|r2: int, c2: int| in_bounds(r2, c2) implies #[trigger] cur.sp(r2, c2).val == (
    if ob.occ(r2, c2) {
        spec_score_letter(ob.tile_at(r2, c2))
    } else {
        0
    }) by {
        assert(staged_prefix_has(st, st.len() as int, r2, c2) == ob.staged_has(r2, c2));
        if !ob.staged_has(r2, c2) {
            assert(ob.sp(r2, c2).val == (if ob.occ(r2, c2) && !ob.staged_has(r2, c2) {
                spec_score_letter(ob.tile_at(r2, c2))
            } else {
                0
            }));
        } else {
            assert(ob.occ(r2, c2));
        }
    }
    assert forall|r2: int, c2: int| in_bounds(r2, c2) implies (#[trigger] cur.frontier_has(r2, c2)
        == ((ob.frontier_has(r2, c2) && !ob.staged_has(r2, c2)) || (!ob.occ(r2, c2)
        && ob.staged_adjacent(r2, c2)))) by {
        assert(staged_prefix_has(st, st.len() as int, r2, c2) == ob.staged_has(r2, c2));
    }
    assert forall|k: int| 0 <= k < cur.neighbors@.len() implies in_bounds(
        #[trigger] cur.neighbors@[k].0 as int,
        cur.neighbors@[k].1 as int,
    ) && (!cur.occ(cur.neighbors@[k].0 as int, cur.neighbors@[k].1 as int) || cur.staged_has(
        cur.neighbors@[k].0 as int,
        cur.neighbors@[k].1 as int,
    )) by {
        let nr = cur.neighbors@[k].0 as int;
        let nc = cur.neighbors@[k].1 as int;
        assert(cur.frontier_has(nr, nc));
        assert(in_bounds(nr, nc)) by {
            if !in_bounds(nr, nc) {
                assert(ob.frontier_has(nr, nc));
                let j = choose|j: int|
                    0 <= j < ob.neighbors@.len() && ob.neighbors@[j].0 == nr && ob.neighbors@[j].1
                        == nc;
                assert(in_bounds(ob.neighbors@[j].0 as int, ob.neighbors@[j].1 as int));
            }
        }
        assert(cur.tile_at(nr, nc) == ob.tile_at(nr, nc));
        if ob.frontier_has(nr, nc) && !ob.staged_has(nr, nc) {
            assert(!ob.occ(nr, nc));
        }
    }
    assert(cur.grid_wf()) by {
        assert forall|r2: int, c2: int| in_bounds(r2, c2) implies {
            let s = #[trigger] cur.sp(r2, c2);
            &&& (s.tile == EMPTY || is_tile(s.tile))
            &&& s.letter_mult == crate::game::board::spec_letter_mult(r2, c2)
            &&& s.word_mult == crate::game::board::spec_word_mult(r2, c2)
        } by {
            assert(cur.tile_at(r2, c2) == ob.tile_at(r2, c2));
            assert(ob.sp(r2, c2).tile == EMPTY || is_tile(ob.sp(r2, c2).tile));
        }
    }
    assert(cur.vals_wf()) by {
        assert forall|r2: int, c2: int| in_bounds(r2, c2) implies (#[trigger] cur.sp(r2, c2).val
            == (if cur.occ(r2, c2) && !cur.staged_has(r2, c2) {
            spec_score_letter(cur.tile_at(r2, c2))
        } else {
            0
        })) by {
            assert(!cur.staged_has(r2, c2));
            assert(cur.tile_at(r2, c2) == ob.tile_at(r2, c2));
        }
    }
    assert(cur.staged_wf());
    assert(cur.dicts_wf());
    assert(cur.committed_tiles() =~~= ob.tiles());
    assert(grid_words_legal(cur.committed_tiles(), cur.word_list@));
    assert(cur.plays_legal());
    assert(cur.frontier_wf());
    assert(cur.wf());
}

/// Membership among the first `i + 1` staged entries is membership among the
/// first `i`, or equality with the entry at `i`.
proof fn lemma_prefix_extend(st: Seq<(usize, usize)>, i: int, r: int, c: int)
    requires
        0 <= i < st.len(),
    ensures
        staged_prefix_has(st, i + 1, r, c) == (staged_prefix_has(st, i, r, c) || (st[i].0 == r
            && st[i].1 == c)),
{
    if staged_prefix_has(st, i + 1, r, c) {
        let k = choose|k: int| 0 <= k < i + 1 && st[k].0 == r && st[k].1 == c;
        if k < i {
            assert(staged_prefix_has(st, i, r, c));
        }
    }
    if staged_prefix_has(st, i, r, c) {
        let k = choose|k: int| 0 <= k < i && st[k].0 == r && st[k].1 == c;
        assert(0 <= k < i + 1 && st[k].0 == r && st[k].1 == c);
        assert(staged_prefix_has(st, i + 1, r, c));
    }
    if st[i].0 == r && st[i].1 == c {
        assert(staged_prefix_has(st, i + 1, r, c));
    }
}

/// Adjacency to the first `i + 1` staged entries decomposes the same way.
proof fn lemma_prefix_adj_extend(st: Seq<(usize, usize)>, i: int, r: int, c: int)
    requires
        0 <= i < st.len(),
    ensures
        staged_prefix_adjacent(st, i + 1, r, c) == (staged_prefix_adjacent(st, i, r, c)
            || orth_adjacent(st[i].0 as int, st[i].1 as int, r, c)),
{
    if staged_prefix_adjacent(st, i + 1, r, c) {
        let k = choose|k: int|
            0 <= k < i + 1 && orth_adjacent(#[trigger] st[k].0 as int, st[k].1 as int, r, c);
        if k < i {
            assert(staged_prefix_adjacent(st, i, r, c));
        }
    }
    if staged_prefix_adjacent(st, i, r, c) {
        let k = choose|k: int|
            0 <= k < i && orth_adjacent(#[trigger] st[k].0 as int, st[k].1 as int, r, c);
        assert(0 <= k < i + 1 && orth_adjacent(st[k].0 as int, st[k].1 as int, r, c));
        assert(staged_prefix_adjacent(st, i + 1, r, c));
    }
    if orth_adjacent(st[i].0 as int, st[i].1 as int, r, c) {
        assert(staged_prefix_adjacent(st, i + 1, r, c));
    }
}

/// One step of the commit loop: after `commit_one` on the `i`-th staged
/// position, the frozen values and the frontier match the formulas for the
/// staged prefix of length `i + 1`.
proof fn lemma_commit_step(ob: Board, prev: Board, cur: Board, st: Seq<(usize, usize)>, i: int, p: (
    usize,
    usize,
))
    requires
        ob.wf(),
        st == ob.staged_spaces@,
        0 <= i < st.len(),
        st[i].0 == p.0 && st[i].1 == p.1,
        forall|r2: int, c2: int|
            in_bounds(r2, c2) ==> #[trigger] prev.tile_at(r2, c2) == ob.tile_at(r2, c2) && prev.sp(
                r2,
                c2,
            ).letter_mult == ob.sp(r2, c2).letter_mult && prev.sp(r2, c2).word_mult == ob.sp(
                r2,
                c2,
            ).word_mult,
        forall|r2: int, c2: int|
            in_bounds(r2, c2) ==> #[trigger] prev.sp(r2, c2).val == (if staged_prefix_has(
                st,
                i,
                r2,
                c2,
            ) {
                spec_score_letter(ob.tile_at(r2, c2))
            } else {
                ob.sp(r2, c2).val as int
            }),
        forall|r2: int, c2: int|
            in_bounds(r2, c2) ==> (#[trigger] prev.frontier_has(r2, c2) == ((ob.frontier_has(
                r2,
                c2,
            ) && !staged_prefix_has(st, i, r2, c2)) || (!ob.occ(r2, c2) && staged_prefix_adjacent(
                st,
                i,
                r2,
                c2,
            )))),
        forall|r2: int, c2: int|
            !in_bounds(r2, c2) ==> (#[trigger] prev.frontier_has(r2, c2) == ob.frontier_has(
                r2,
                c2,
            )),
        forall|r2: int, c2: int|
            in_bounds(r2, c2) && !(r2 == p.0 && c2 == p.1) ==> #[trigger] cur.sp(r2, c2) == prev.sp(
                r2,
                c2,
            ),
        cur.sp(p.0 as int, p.1 as int).tile == prev.sp(p.0 as int, p.1 as int).tile,
        cur.sp(p.0 as int, p.1 as int).letter_mult == prev.sp(p.0 as int, p.1 as int).letter_mult,
        cur.sp(p.0 as int, p.1 as int).word_mult == prev.sp(p.0 as int, p.1 as int).word_mult,
        cur.sp(p.0 as int, p.1 as int).val == spec_score_letter(
            prev.tile_at(p.0 as int, p.1 as int),
        ),
        forall|qr: int, qc: int|
            in_bounds(qr, qc) ==> (#[trigger] cur.frontier_has(qr, qc) == ((prev.frontier_has(
                qr,
                qc,
            ) && !(qr == p.0 && qc == p.1)) || (!prev.occ(qr, qc) && orth_adjacent(
                p.0 as int,
                p.1 as int,
                qr,
                qc,
            )))),
        forall|qr: int, qc: int|
            !in_bounds(qr, qc) ==> (#[trigger] cur.frontier_has(qr, qc) == prev.frontier_has(
                qr,
                qc,
            )),
    ensures
        forall|r2: int, c2: int|
            in_bounds(r2, c2) ==> #[trigger] cur.tile_at(r2, c2) == ob.tile_at(r2, c2) && cur.sp(
                r2,
                c2,
            ).letter_mult == ob.sp(r2, c2).letter_mult && cur.sp(r2, c2).word_mult == ob.sp(
                r2,
                c2,
            ).word_mult,
        forall|r2: int, c2: int|
            in_bounds(r2, c2) ==> #[trigger] cur.sp(r2, c2).val == (if staged_prefix_has(
                st,
                i + 1,
                r2,
                c2,
            ) {
                spec_score_letter(ob.tile_at(r2, c2))
            } else {
                ob.sp(r2, c2).val as int
            }),
        forall|r2: int, c2: int|
            in_bounds(r2, c2) ==> (#[trigger] cur.frontier_has(r2, c2) == ((ob.frontier_has(r2, c2)
                && !staged_prefix_has(st, i + 1, r2, c2)) || (!ob.occ(r2, c2)
                && staged_prefix_adjacent(st, i + 1, r2, c2)))),
        forall|r2: int, c2: int|
            !in_bounds(r2, c2) ==> (#[trigger] cur.frontier_has(r2, c2) == ob.frontier_has(r2, c2)),
{
    assert(ob.staged_spaces@[i] == st[i]);
    assert(in_bounds(ob.staged_spaces@[i].0 as int, ob.staged_spaces@[i].1 as int) && ob.occ(
        ob.staged_spaces@[i].0 as int,
        ob.staged_spaces@[i].1 as int,
    ));
    assert(in_bounds(p.0 as int, p.1 as int) && ob.occ(p.0 as int, p.1 as int));
    assert forall|r2: int, c2: int| in_bounds(r2, c2) implies #[trigger] cur.tile_at(r2, c2)
        == ob.tile_at(r2, c2) && cur.sp(r2, c2).letter_mult == ob.sp(r2, c2).letter_mult && cur.sp(
        r2,
        c2,
    ).word_mult == ob.sp(r2, c2).word_mult by {
        assert(prev.tile_at(r2, c2) == ob.tile_at(r2, c2));
        if !(r2 == p.0 && c2 == p.1) {
            assert(cur.sp(r2, c2) == prev.sp(r2, c2));
        }
    }
    assert forall|r2: int, c2: int| in_bounds(r2, c2) implies #[trigger] cur.sp(r2, c2).val == (
    if staged_prefix_has(st, i + 1, r2, c2) {
        spec_score_letter(ob.tile_at(r2, c2))
    } else {
        ob.sp(r2, c2).val as int
    }) by {
        lemma_prefix_extend(st, i, r2, c2);
        assert(prev.tile_at(r2, c2) == ob.tile_at(r2, c2));
        assert(prev.sp(r2, c2).val == (if staged_prefix_has(st, i, r2, c2) {
            spec_score_letter(ob.tile_at(r2, c2))
        } else {
            ob.sp(r2, c2).val as int
        }));
        if !(r2 == p.0 && c2 == p.1) {
            assert(cur.sp(r2, c2) == prev.sp(r2, c2));
        } else {
            assert(staged_prefix_has(st, i + 1, r2, c2));
        }
    }
    assert forall|r2: int, c2: int| in_bounds(r2, c2) implies (#[trigger] cur.frontier_has(r2, c2)
        == ((ob.frontier_has(r2, c2) && !staged_prefix_has(st, i + 1, r2, c2)) || (!ob.occ(r2, c2)
        && staged_prefix_adjacent(st, i + 1, r2, c2)))) by {
        lemma_prefix_extend(st, i, r2, c2);
        lemma_prefix_adj_extend(st, i, r2, c2);
        assert(prev.tile_at(r2, c2) == ob.tile_at(r2, c2));
        assert(prev.occ(r2, c2) == ob.occ(r2, c2));
        assert(prev.frontier_has(r2, c2) == ((ob.frontier_has(r2, c2) && !staged_prefix_has(
            st,
            i,
            r2,
            c2,
        )) || (!ob.occ(r2, c2) && staged_prefix_adjacent(st, i, r2, c2))));
        assert(cur.frontier_has(r2, c2) == ((prev.frontier_has(r2, c2) && !(r2 == p.0 && c2 == p.1))
            || (!prev.occ(r2, c2) && orth_adjacent(p.0 as int, p.1 as int, r2, c2))));
    }
}

/// Soundness of validation: on a well-formed board whose staged play passes
/// validation, every maximal run of the full grid, staged tiles included, is
/// a dictionary word. Committing the play therefore preserves the board's
/// legality invariant.
pub proof fn lemma_valid_play_sound(b: Board)
    requires
        b.wf(),
        b.spec_valid(),
    ensures
        grid_words_legal(b.tiles(), b.word_list@),
{
    reveal(crate::game::board::grid_words_legal);
    let g = b.tiles();
    let cg = b.committed_tiles();
    let st = b.staged_spaces@;
    let dict = b.word_list@;
    assert(st.len() >= 1);
    assert forall|r: int, c: int|
        #![trigger g[r][c]]
        in_bounds(r, c) && g[r][c] != EMPTY implies {
        &&& (row_start(g, r, c) < row_end(g, r, c) ==> word_list_has(
            dict,
            row_word(g, r, row_start(g, r, c), row_end(g, r, c)),
        ))
        &&& (col_start(g, r, c) < col_end(g, r, c) ==> word_list_has(
            dict,
            col_word(g, c, col_start(g, r, c), col_end(g, r, c)),
        ))
    } by {
        lemma_row_start_props(g, r, c);
        lemma_row_end_props(g, r, c);
        lemma_col_start_props(g, r, c);
        lemma_col_end_props(g, r, c);
        let rs = row_start(g, r, c);
        let re = row_end(g, r, c);
        let cs = col_start(g, r, c);
        let ce = col_end(g, r, c);
        let r0 = st[0].0 as int;
        let c0 = st[0].1 as int;
        assert(g[r0][c0] != EMPTY);
        if rs < re {
            if exists|k: int| 0 <= k < st.len() && st[k].0 == r && rs <= st[k].1 <= re {
                let k = choose|k: int| 0 <= k < st.len() && st[k].0 == r && rs <= st[k].1 <= re;
                let j = st[k].1 as int;
                assert(b.occ(r, j));
                assert(g[r][j] != EMPTY);
                lemma_row_run_same(g, r, c, j);
                if st.len() == 1 {
                    assert(k == 0);
                    assert(b.spec_is_word_across(r, j));
                } else if st[0].0 == st[1].0 {
                    assert(st[k].0 == st[0].0);
                    assert(r == r0);
                    assert(row_start(g, r0, c0) <= j <= row_end(g, r0, c0));
                    lemma_row_run_same(g, r0, c0, j);
                    assert(row_start(g, r0, c0) == rs && row_end(g, r0, c0) == re);
                    assert(b.spec_is_word_across(r0, c0));
                } else {
                    assert(st[k].1 == st[0].1);
                    assert(b.spec_is_word_across(st[k].0 as int, st[k].1 as int));
                    assert(row_start(g, st[k].0 as int, j) == rs && row_end(g, st[k].0 as int, j)
                        == re);
                }
            } else {
                assert(forall|j: int| rs <= j <= re ==> !b.staged_has(r, j));
                lemma_row_start_unstaged(b, r, c);
                lemma_row_end_unstaged(b, r, c);
                assert(!b.staged_has(r, c));
                assert(cg[r][c] == g[r][c]);
                assert(word_list_has(dict, row_word(cg, r, rs, re)));
                assert(row_word(cg, r, rs, re) =~= row_word(g, r, rs, re)) by {
                    assert forall|x: int| 0 <= x < re + 1 - rs implies row_word(cg, r, rs, re)[x]
                        == row_word(g, r, rs, re)[x] by {
                        assert(!b.staged_has(r, rs + x));
                        assert(cg[r][rs + x] == g[r][rs + x]);
                    }
                }
            }
        }
        if cs < ce {
            if exists|k: int| 0 <= k < st.len() && st[k].1 == c && cs <= st[k].0 <= ce {
                let k = choose|k: int| 0 <= k < st.len() && st[k].1 == c && cs <= st[k].0 <= ce;
                let j = st[k].0 as int;
                assert(b.occ(j, c));
                assert(g[j][c] != EMPTY);
                lemma_col_run_same(g, r, c, j);
                if st.len() == 1 {
                    assert(k == 0);
                    assert(b.spec_is_word_down(j, c));
                } else if st[0].0 == st[1].0 {
                    assert(st[k].0 == st[0].0);
                    assert(b.spec_is_word_down(st[k].0 as int, st[k].1 as int));
                    assert(col_start(g, j, st[k].1 as int) == cs && col_end(g, j, st[k].1 as int)
                        == ce);
                } else {
                    assert(st[k].1 == st[0].1);
                    assert(c == c0);
                    assert(col_start(g, r0, c0) <= j <= col_end(g, r0, c0));
                    lemma_col_run_same(g, r0, c0, j);
                    assert(col_start(g, r0, c0) == cs && col_end(g, r0, c0) == ce);
                    assert(b.spec_is_word_down(r0, c0));
                }
            } else {
                assert(forall|j: int| cs <= j <= ce ==> !b.staged_has(j, c));
                lemma_col_start_unstaged(b, r, c);
                lemma_col_end_unstaged(b, r, c);
                assert(!b.staged_has(r, c));
                assert(cg[r][c] == g[r][c]);
                assert(word_list_has(dict, col_word(cg, c, cs, ce)));
                assert(col_word(cg, c, cs, ce) =~= col_word(g, c, cs, ce)) by {
                    assert forall|x: int| 0 <= x < ce + 1 - cs implies col_word(cg, c, cs, ce)[x]
                        == col_word(g, c, cs, ce)[x] by {
                        assert(!b.staged_has(cs + x, c));
                        assert(cg[cs + x][c] == g[cs + x][c]);
                    }
                }
            }
        }
    }
}

/// The legality invariant, stated on its own: on any well-formed board, every
/// maximal committed run of length at least 2, along any row or column, is a
/// dictionary word. Commits preserve this because `lemma_valid_play_sound`
/// shows a validated play only ever commits checked words.
pub proof fn lemma_committed_words_legal(b: Board)
    requires
        b.wf(),
    ensures
        grid_words_legal(b.committed_tiles(), b.word_list@),
{
}

/// The staging round trip: staging never moves the committed picture
/// (`put_tile` keeps `committed_tiles` unchanged), and `unstage` returns the
/// grid to exactly that picture. Starting from a board with nothing staged,
/// any sequence of stagings followed by `unstage` therefore restores the
/// grid to exactly the tiles it held before.
pub proof fn lemma_unstage_round_trip(b0: Board, b: Board)
    requires
        b0.staged_spaces@.len() == 0,
        b.committed_tiles() == b0.committed_tiles(),
    ensures
        forall|r: int, c: int|
            in_bounds(r, c) ==> #[trigger] b.committed_tiles()[r][c] == b0.tile_at(r, c),
{
    assert forall|r: int, c: int| in_bounds(r, c) implies #[trigger] b.committed_tiles()[r][c]
        == b0.tile_at(r, c) by {
        assert(!b0.staged_has(r, c));
        assert(b0.committed_tiles()[r][c] == b0.tile_at(r, c));
    }
}

} // verus!
