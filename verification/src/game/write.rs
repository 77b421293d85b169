use vstd::prelude::*;

use crate::game::board::{in_bounds, is_input_letter, norm_tile, spec_norm_tile, Board, PlayError};
use crate::game::pool::Rack;
use crate::is_tile;

verus! {

impl Board {
    /// The word fits at (row, col) along the given axis: it stays on the
    /// grid, and every cell it covers is empty or already holds the same
    /// letter.
    pub open spec fn spec_word_fits(self, w: Seq<u8>, row: int, col: int, across: bool) -> bool {
        &&& 0 <= row < 15
        &&& 0 <= col < 15
        &&& (if across {
            col + w.len() <= 15
        } else {
            row + w.len() <= 15
        })
        &&& forall|i: int|
            0 <= i < w.len() ==> {
                let (r, c) = if across {
                    (row, col + i)
                } else {
                    (row + i, col)
                };
                !self.occ(r, c) || self.tile_at(r, c) == spec_norm_tile(#[trigger] w[i])
            }
    }

    /// Stage a whole word leftwards-to-rightwards from (row, col), skipping
    /// cells that already hold the right letter. Nothing changes if the word
    /// runs off the grid or collides with a different letter.
    pub fn write_across(&mut self, word: &Vec<u8>, row: usize, col: usize) -> (r: Result<
        (),
        PlayError,
    >)
        requires
            old(self).wf(),
            forall|i: int| 0 <= i < word@.len() ==> is_input_letter(#[trigger] word@[i]),
        ensures
            final(self).wf(),
            (r is Ok) == old(self).spec_word_fits(word@, row as int, col as int, true),
            r is Err ==> *final(self) == *old(self),
            r == Result::<(), PlayError>::Err(PlayError::OutOfBounds) <==> (row >= 15 || col >= 15
                || col + word@.len() > 15),
            r is Ok ==> {
                &&& forall|i: int|
                    0 <= i < word@.len() ==> #[trigger] final(self).tile_at(row as int, col + i)
                        == spec_norm_tile(word@[i])
                &&& forall|r2: int, c2: int|
                    in_bounds(r2, c2) && !(r2 == row && col <= c2 < col + word@.len())
                        ==> #[trigger] final(self).sp(r2, c2) == old(self).sp(r2, c2)
                &&& final(self).neighbors@ == old(self).neighbors@
                &&& final(self).word_list == old(self).word_list
                &&& final(self).partials_list == old(self).partials_list
                &&& final(self).committed_tiles() == old(self).committed_tiles()
                &&& forall|r2: int, c2: int|
                    #[trigger] final(self).staged_has(r2, c2) == (old(self).staged_has(r2, c2) || (
                    r2 == row && col <= c2 < col + word@.len() && !old(self).occ(r2, c2)))
            },
    {
        if row > 14 || col > 14 || word.len() > 15 - col {
            return Err(PlayError::OutOfBounds);
        }
        let mut i: usize = 0;
        while i < word.len()
            invariant
                *self == *old(self),
                self.wf(),
                row < 15,
                col < 15,
                col + word@.len() <= 15,
                i <= word@.len(),
                forall|j: int|
                    0 <= j < i ==> !self.occ(row as int, col + j) || self.tile_at(row as int, col
                        + j) == spec_norm_tile(#[trigger] word@[j]),
            decreases word@.len() - i,
        {
            let t = self.get_tile(row, col + i);
            if t != crate::EMPTY {
                let w = norm_tile(word[i]);
                if t != w {
                    proof {
                        assert(self.occ(row as int, col + i as int) && self.tile_at(
                            row as int,
                            col + i as int,
                        ) != spec_norm_tile(word@[i as int]));
                    }
                    return Err(PlayError::OccupiedCell);
                }
            }
            i = i + 1;
        }
        let ghost ob = *old(self);
        let mut i: usize = 0;
        while i < word.len()
            invariant
                ob.wf(),
                self.wf(),
                row < 15,
                col < 15,
                col + word@.len() <= 15,
                i <= word@.len(),
                forall|k: int| 0 <= k < word@.len() ==> is_input_letter(#[trigger] word@[k]),
                ob.spec_word_fits(word@, row as int, col as int, true),
                self.neighbors@ == ob.neighbors@,
                self.word_list == ob.word_list,
                self.partials_list == ob.partials_list,
                self.committed_tiles() == ob.committed_tiles(),
                forall|j: int|
                    0 <= j < i ==> #[trigger] self.tile_at(row as int, col + j) == spec_norm_tile(
                        word@[j],
                    ),
                forall|r2: int, c2: int|
                    in_bounds(r2, c2) && !(r2 == row && col <= c2 < col + i) ==> #[trigger] self.sp(
                        r2,
                        c2,
                    ) == ob.sp(r2, c2),
                forall|r2: int, c2: int|
                    #[trigger] self.staged_has(r2, c2) == (ob.staged_has(r2, c2) || (r2 == row && col
                        <= c2 < col + i && !ob.occ(r2, c2))),
            decreases word@.len() - i,
        {
            let ghost prev = *self;
            let t = self.get_tile(row, col + i);
            if t == crate::EMPTY {
                let res = self.put_tile(word[i], row, col + i);
                proof {
                    assert(res is Ok);
                    crate::game::board::lemma_staged_push(prev, *self, row, (col + i) as usize);
                    assert forall|j: int|
                        0 <= j < i + 1 implies #[trigger] self.tile_at(row as int, col + j)
                        == spec_norm_tile(word@[j]) by {
                        if j < i {
                            assert(prev.tile_at(row as int, col + j) == spec_norm_tile(word@[j]));
                            assert(self.sp(row as int, col + j) == prev.sp(row as int, col + j));
                        }
                    }
                    assert forall|r2: int, c2: int|
                        #[trigger] self.staged_has(r2, c2) == (ob.staged_has(r2, c2) || (r2 == row
                            && col <= c2 < col + i + 1 && !ob.occ(r2, c2))) by {
                        if !(r2 == row && c2 == col + i) {
                            assert(self.staged_has(r2, c2) == prev.staged_has(r2, c2));
                        } else {
                            assert(self.staged_has(r2, c2));
                            assert(!ob.occ(r2, c2)) by {
                                assert(prev.sp(r2, c2) == ob.sp(r2, c2));
                            }
                        }
                    }
                }
            } else {
                proof {
                    assert(self.tile_at(row as int, col + i as int) == spec_norm_tile(
                        word@[i as int],
                    ));
                    assert forall|r2: int, c2: int|
                        #[trigger] self.staged_has(r2, c2) == (ob.staged_has(r2, c2) || (r2 == row
                            && col <= c2 < col + i + 1 && !ob.occ(r2, c2))) by {
                        if r2 == row && c2 == col + i {
                            assert(prev.sp(r2, c2) == ob.sp(r2, c2));
                            assert(ob.occ(r2, c2));
                        }
                    }
                }
            }
            i = i + 1;
        }
        Ok(())
    }

    /// Stage a whole word top-to-bottom from (row, col), as `write_across`.
    pub fn write_down(&mut self, word: &Vec<u8>, row: usize, col: usize) -> (r: Result<
        (),
        PlayError,
    >)
        requires
            old(self).wf(),
            forall|i: int| 0 <= i < word@.len() ==> is_input_letter(#[trigger] word@[i]),
        ensures
            final(self).wf(),
            (r is Ok) == old(self).spec_word_fits(word@, row as int, col as int, false),
            r is Err ==> *final(self) == *old(self),
            r == Result::<(), PlayError>::Err(PlayError::OutOfBounds) <==> (row >= 15 || col >= 15
                || row + word@.len() > 15),
            r is Ok ==> {
                &&& forall|i: int|
                    0 <= i < word@.len() ==> #[trigger] final(self).tile_at(row + i, col as int)
                        == spec_norm_tile(word@[i])
                &&& forall|r2: int, c2: int|
                    in_bounds(r2, c2) && !(c2 == col && row <= r2 < row + word@.len())
                        ==> #[trigger] final(self).sp(r2, c2) == old(self).sp(r2, c2)
                &&& final(self).neighbors@ == old(self).neighbors@
                &&& final(self).word_list == old(self).word_list
                &&& final(self).partials_list == old(self).partials_list
                &&& final(self).committed_tiles() == old(self).committed_tiles()
                &&& forall|r2: int, c2: int|
                    #[trigger] final(self).staged_has(r2, c2) == (old(self).staged_has(r2, c2) || (
                    c2 == col && row <= r2 < row + word@.len() && !old(self).occ(r2, c2)))
            },
    {
        if row > 14 || col > 14 || word.len() > 15 - row {
            return Err(PlayError::OutOfBounds);
        }
        let mut i: usize = 0;
        while i < word.len()
            invariant
                *self == *old(self),
                self.wf(),
                row < 15,
                col < 15,
                row + word@.len() <= 15,
                i <= word@.len(),
                forall|j: int|
                    0 <= j < i ==> !self.occ(row + j, col as int) || self.tile_at(row + j, col as int)
                        == spec_norm_tile(#[trigger] word@[j]),
            decreases word@.len() - i,
        {
            let t = self.get_tile(row + i, col);
            if t != crate::EMPTY {
                let w = norm_tile(word[i]);
                if t != w {
                    proof {
                        assert(self.occ(row + i as int, col as int) && self.tile_at(
                            row + i as int,
                            col as int,
                        ) != spec_norm_tile(word@[i as int]));
                    }
                    return Err(PlayError::OccupiedCell);
                }
            }
            i = i + 1;
        }
        let ghost ob = *old(self);
        let mut i: usize = 0;
        while i < word.len()
            invariant
                ob.wf(),
                self.wf(),
                row < 15,
                col < 15,
                row + word@.len() <= 15,
                i <= word@.len(),
                forall|k: int| 0 <= k < word@.len() ==> is_input_letter(#[trigger] word@[k]),
                ob.spec_word_fits(word@, row as int, col as int, false),
                self.neighbors@ == ob.neighbors@,
                self.word_list == ob.word_list,
                self.partials_list == ob.partials_list,
                self.committed_tiles() == ob.committed_tiles(),
                forall|j: int|
                    0 <= j < i ==> #[trigger] self.tile_at(row + j, col as int) == spec_norm_tile(
                        word@[j],
                    ),
                forall|r2: int, c2: int|
                    in_bounds(r2, c2) && !(c2 == col && row <= r2 < row + i) ==> #[trigger] self.sp(
                        r2,
                        c2,
                    ) == ob.sp(r2, c2),
                forall|r2: int, c2: int|
                    #[trigger] self.staged_has(r2, c2) == (ob.staged_has(r2, c2) || (c2 == col && row
                        <= r2 < row + i && !ob.occ(r2, c2))),
            decreases word@.len() - i,
        {
            let ghost prev = *self;
            let t = self.get_tile(row + i, col);
            if t == crate::EMPTY {
                let res = self.put_tile(word[i], row + i, col);
                proof {
                    assert(res is Ok);
                    crate::game::board::lemma_staged_push(prev, *self, (row + i) as usize, col);
                    assert forall|j: int|
                        0 <= j < i + 1 implies #[trigger] self.tile_at(row + j, col as int)
                        == spec_norm_tile(word@[j]) by {
                        if j < i {
                            assert(prev.tile_at(row + j, col as int) == spec_norm_tile(word@[j]));
                            assert(self.sp(row + j, col as int) == prev.sp(row + j, col as int));
                        }
                    }
                    assert forall|r2: int, c2: int|
                        #[trigger] self.staged_has(r2, c2) == (ob.staged_has(r2, c2) || (c2 == col
                            && row <= r2 < row + i + 1 && !ob.occ(r2, c2))) by {
                        if !(r2 == row + i && c2 == col) {
                            assert(self.staged_has(r2, c2) == prev.staged_has(r2, c2));
                        } else {
                            assert(self.staged_has(r2, c2));
                            assert(!ob.occ(r2, c2)) by {
                                assert(prev.sp(r2, c2) == ob.sp(r2, c2));
                            }
                        }
                    }
                }
            } else {
                proof {
                    assert(self.tile_at(row + i as int, col as int) == spec_norm_tile(
                        word@[i as int],
                    ));
                    assert forall|r2: int, c2: int|
                        #[trigger] self.staged_has(r2, c2) == (ob.staged_has(r2, c2) || (c2 == col
                            && row <= r2 < row + i + 1 && !ob.occ(r2, c2))) by {
                        if r2 == row + i && c2 == col {
                            assert(prev.sp(r2, c2) == ob.sp(r2, c2));
                            assert(ob.occ(r2, c2));
                        }
                    }
                }
            }
            i = i + 1;
        }
        Ok(())
    }

    /// Stage one tile taken from the rack: refused, with nothing changed,
    /// when the rack does not hold it or the space cannot take it.
    pub fn put_tile_from_rack(&mut self, rack: &mut Rack, tile: u8, row: usize, col: usize) -> (r:
        Result<(), PlayError>)
        requires
            old(self).wf(),
            old(rack).wf(),
            is_input_letter(tile),
        ensures
            final(self).wf(),
            final(rack).wf(),
            (r == Result::<(), PlayError>::Err(PlayError::TileNotInRack)) == (old(rack).count_of(
                spec_norm_tile(tile),
            ) == 0),
            r is Err ==> *final(self) == *old(self) && *final(rack) == *old(rack),
            r is Ok ==> {
                &&& final(rack).size == old(rack).size - 1
                &&& final(rack).count_of(spec_norm_tile(tile)) == old(rack).count_of(
                    spec_norm_tile(tile),
                ) - 1
                &&& row < 15 && col < 15 && !old(self).occ(row as int, col as int)
                &&& final(self).staged_spaces@ == old(self).staged_spaces@.push((row, col))
                &&& final(self).tile_at(row as int, col as int) == spec_norm_tile(tile)
                &&& forall|r2: int, c2: int|
                    in_bounds(r2, c2) && !(r2 == row && c2 == col) ==> #[trigger] final(self).sp(
                        r2,
                        c2,
                    ) == old(self).sp(r2, c2)
            },
    {
        let t = norm_tile(tile);
        if !rack.has_tile(t) {
            return Err(PlayError::TileNotInRack);
        }
        let res = self.put_tile(t, row, col);
        match res {
            Ok(_) => {
                rack.use_tile(t);
                proof {
                    assert(spec_norm_tile(t) == t);
                }
                Ok(())
            },
            Err(e) => Err(e),
        }
    }
}

/// The cell the `i`-th letter of a word covers, along the given axis.
pub open spec fn word_cell(row: int, col: int, across: bool, i: int) -> (int, int) {
    if across {
        (row, col + i)
    } else {
        (row + i, col)
    }
}

/// The rack counts left after handing out the letters the first `k` cells of
/// the word need; cells the board already fills take nothing.
pub open spec fn counts_after_write(
    b: Board,
    c: Seq<usize>,
    w: Seq<u8>,
    row: int,
    col: int,
    across: bool,
    k: int,
) -> Seq<usize>
    decreases k,
{
    if k <= 0 {
        c
    } else {
        let prev = counts_after_write(b, c, w, row, col, across, k - 1);
        let (r2, c2) = word_cell(row, col, across, k - 1);
        if b.occ(r2, c2) {
            prev
        } else {
            let idx = crate::game::pool::letter_index(spec_norm_tile(w[k - 1]));
            prev.update(idx, (prev[idx] - 1) as usize)
        }
    }
}

/// The rack can hand out every letter the first `k` cells of the word need.
pub open spec fn rack_covers_write(
    b: Board,
    c: Seq<usize>,
    w: Seq<u8>,
    row: int,
    col: int,
    across: bool,
    k: int,
) -> bool
    decreases k,
{
    if k <= 0 {
        true
    } else {
        let (r2, c2) = word_cell(row, col, across, k - 1);
        rack_covers_write(b, c, w, row, col, across, k - 1) && (b.occ(r2, c2)
            || counts_after_write(b, c, w, row, col, across, k - 1)[crate::game::pool::letter_index(
            spec_norm_tile(w[k - 1]),
        )] > 0)
    }
}

/// Coverage of a longer prefix covers every shorter one.
proof fn lemma_covers_prefix(
    b: Board,
    c: Seq<usize>,
    w: Seq<u8>,
    row: int,
    col: int,
    across: bool,
    k1: int,
    k2: int,
)
    requires
        0 <= k1 <= k2,
        rack_covers_write(b, c, w, row, col, across, k2),
    ensures
        rack_covers_write(b, c, w, row, col, across, k1),
    decreases k2,
{
    if k1 < k2 {
        lemma_covers_prefix(b, c, w, row, col, across, k1, k2 - 1);
    }
}

impl Board {
    /// True iff the word fits at (row, col) along the axis: on the grid, and
    /// colliding with no differing letter.
    fn check_word_fits(&self, word: &Vec<u8>, row: usize, col: usize, across: bool) -> (b: bool)
        requires
            self.wf(),
        ensures
            b == self.spec_word_fits(word@, row as int, col as int, across),
    {
        if row > 14 || col > 14 {
            return false;
        }
        if across {
            if word.len() > 15 - col {
                return false;
            }
        } else {
            if word.len() > 15 - row {
                return false;
            }
        }
        let mut i: usize = 0;
        while i < word.len()
            invariant
                self.wf(),
                row < 15,
                col < 15,
                across ==> col + word@.len() <= 15,
                !across ==> row + word@.len() <= 15,
                i <= word@.len(),
                forall|j: int|
                    0 <= j < i ==> {
                        let (r2, c2) = word_cell(row as int, col as int, across, j);
                        !self.occ(r2, c2) || self.tile_at(r2, c2) == spec_norm_tile(
                            #[trigger] word@[j],
                        )
                    },
            decreases word@.len() - i,
        {
            let (r2, c2) = if across {
                (row, col + i)
            } else {
                (row + i, col)
            };
            let t = self.get_tile(r2, c2);
            if t != crate::EMPTY {
                let wletter = norm_tile(word[i]);
                if t != wletter {
                    proof {
                        let (gr, gc) = word_cell(row as int, col as int, across, i as int);
                        assert(self.occ(gr, gc) && self.tile_at(gr, gc) != spec_norm_tile(
                            word@[i as int],
                        ));
                    }
                    return false;
                }
            }
            i = i + 1;
        }
        true
    }

    /// Stage a whole word from the rack, leftwards-to-rightwards from
    /// (row, col): cells already holding the right letter are skipped, every
    /// other covered cell takes a tile drawn from the rack. Refused outright
    /// — nothing staged, no tile consumed — when the word leaves the grid,
    /// collides with a different letter, or needs a tile the rack cannot
    /// supply.
    pub fn write_across_from_rack(&mut self, rack: &mut Rack, word: &Vec<u8>, row: usize, col:
        usize) -> (r: Result<(), PlayError>)
        requires
            old(self).wf(),
            old(rack).wf(),
            forall|i: int| 0 <= i < word@.len() ==> is_input_letter(#[trigger] word@[i]),
        ensures
            final(self).wf(),
            final(rack).wf(),
            (r is Ok) == (old(self).spec_word_fits(word@, row as int, col as int, true)
                && rack_covers_write(
                *old(self),
                old(rack).tiles@,
                word@,
                row as int,
                col as int,
                true,
                word@.len() as int,
            )),
            r is Err ==> *final(self) == *old(self) && *final(rack) == *old(rack),
            r == Result::<(), PlayError>::Err(PlayError::OutOfBounds) <==> (row >= 15 || col >= 15
                || col + word@.len() > 15),
            r is Ok ==> {
                &&& forall|i: int|
                    0 <= i < word@.len() ==> #[trigger] final(self).tile_at(row as int, col + i)
                        == spec_norm_tile(word@[i])
                &&& forall|r2: int, c2: int|
                    in_bounds(r2, c2) && !(r2 == row && col <= c2 < col + word@.len())
                        ==> #[trigger] final(self).sp(r2, c2) == old(self).sp(r2, c2)
                &&& final(self).neighbors@ == old(self).neighbors@
                &&& final(self).word_list == old(self).word_list
                &&& final(self).partials_list == old(self).partials_list
                &&& final(self).committed_tiles() == old(self).committed_tiles()
                &&& forall|r2: int, c2: int|
                    #[trigger] final(self).staged_has(r2, c2) == (old(self).staged_has(r2, c2) || (
                    r2 == row && col <= c2 < col + word@.len() && !old(self).occ(r2, c2)))
                &&& final(rack).tiles@ == counts_after_write(
                    *old(self),
                    old(rack).tiles@,
                    word@,
                    row as int,
                    col as int,
                    true,
                    word@.len() as int,
                )
            },
    {
        self.write_word_from_rack(rack, word, row, col, true)
    }

    /// Stage a whole word from the rack, top-to-bottom from (row, col), as
    /// `write_across_from_rack`.
    pub fn write_down_from_rack(&mut self, rack: &mut Rack, word: &Vec<u8>, row: usize, col: usize)
        -> (r: Result<(), PlayError>)
        requires
            old(self).wf(),
            old(rack).wf(),
            forall|i: int| 0 <= i < word@.len() ==> is_input_letter(#[trigger] word@[i]),
        ensures
            final(self).wf(),
            final(rack).wf(),
            (r is Ok) == (old(self).spec_word_fits(word@, row as int, col as int, false)
                && rack_covers_write(
                *old(self),
                old(rack).tiles@,
                word@,
                row as int,
                col as int,
                false,
                word@.len() as int,
            )),
            r is Err ==> *final(self) == *old(self) && *final(rack) == *old(rack),
            r == Result::<(), PlayError>::Err(PlayError::OutOfBounds) <==> (row >= 15 || col >= 15
                || row + word@.len() > 15),
            r is Ok ==> {
                &&& forall|i: int|
                    0 <= i < word@.len() ==> #[trigger] final(self).tile_at(row + i, col as int)
                        == spec_norm_tile(word@[i])
                &&& forall|r2: int, c2: int|
                    in_bounds(r2, c2) && !(c2 == col && row <= r2 < row + word@.len())
                        ==> #[trigger] final(self).sp(r2, c2) == old(self).sp(r2, c2)
                &&& final(self).neighbors@ == old(self).neighbors@
                &&& final(self).word_list == old(self).word_list
                &&& final(self).partials_list == old(self).partials_list
                &&& final(self).committed_tiles() == old(self).committed_tiles()
                &&& forall|r2: int, c2: int|
                    #[trigger] final(self).staged_has(r2, c2) == (old(self).staged_has(r2, c2) || (
                    c2 == col && row <= r2 < row + word@.len() && !old(self).occ(r2, c2)))
                &&& final(rack).tiles@ == counts_after_write(
                    *old(self),
                    old(rack).tiles@,
                    word@,
                    row as int,
                    col as int,
                    false,
                    word@.len() as int,
                )
            },
    {
        self.write_word_from_rack(rack, word, row, col, false)
    }
}

impl Board {
    /// Shared worker for the two rack-backed writes: check the fit, check
    /// that the rack covers the needed letters, consume them, then stage.
    fn write_word_from_rack(&mut self, rack: &mut Rack, word: &Vec<u8>, row: usize, col: usize,
        across: bool) -> (r: Result<(), PlayError>)
        requires
            old(self).wf(),
            old(rack).wf(),
            forall|i: int| 0 <= i < word@.len() ==> is_input_letter(#[trigger] word@[i]),
        ensures
            final(self).wf(),
            final(rack).wf(),
            (r is Ok) == (old(self).spec_word_fits(word@, row as int, col as int, across)
                && rack_covers_write(
                *old(self),
                old(rack).tiles@,
                word@,
                row as int,
                col as int,
                across,
                word@.len() as int,
            )),
            r is Err ==> *final(self) == *old(self) && *final(rack) == *old(rack),
            r == Result::<(), PlayError>::Err(PlayError::OutOfBounds) <==> (row >= 15 || col >= 15
                || (if across {
                col + word@.len() > 15
            } else {
                row + word@.len() > 15
            })),
            r is Ok && across ==> {
                &&& forall|i: int|
                    0 <= i < word@.len() ==> #[trigger] final(self).tile_at(row as int, col + i)
                        == spec_norm_tile(word@[i])
                &&& forall|r2: int, c2: int|
                    in_bounds(r2, c2) && !(r2 == row && col <= c2 < col + word@.len())
                        ==> #[trigger] final(self).sp(r2, c2) == old(self).sp(r2, c2)
                &&& forall|r2: int, c2: int|
                    #[trigger] final(self).staged_has(r2, c2) == (old(self).staged_has(r2, c2) || (
                    r2 == row && col <= c2 < col + word@.len() && !old(self).occ(r2, c2)))
            },
            r is Ok && !across ==> {
                &&& forall|i: int|
                    0 <= i < word@.len() ==> #[trigger] final(self).tile_at(row + i, col as int)
                        == spec_norm_tile(word@[i])
                &&& forall|r2: int, c2: int|
                    in_bounds(r2, c2) && !(c2 == col && row <= r2 < row + word@.len())
                        ==> #[trigger] final(self).sp(r2, c2) == old(self).sp(r2, c2)
                &&& forall|r2: int, c2: int|
                    #[trigger] final(self).staged_has(r2, c2) == (old(self).staged_has(r2, c2) || (
                    c2 == col && row <= r2 < row + word@.len() && !old(self).occ(r2, c2)))
            },
            r is Ok ==> {
                &&& final(self).neighbors@ == old(self).neighbors@
                &&& final(self).word_list == old(self).word_list
                &&& final(self).partials_list == old(self).partials_list
                &&& final(self).committed_tiles() == old(self).committed_tiles()
                &&& final(rack).tiles@ == counts_after_write(
                    *old(self),
                    old(rack).tiles@,
                    word@,
                    row as int,
                    col as int,
                    across,
                    word@.len() as int,
                )
            },
    {
        if !self.check_word_fits(word, row, col, across) {
            if row > 14 || col > 14 {
                return Err(PlayError::OutOfBounds);
            }
            if across {
                if word.len() > 15 - col {
                    return Err(PlayError::OutOfBounds);
                }
            } else {
                if word.len() > 15 - row {
                    return Err(PlayError::OutOfBounds);
                }
            }
            return Err(PlayError::OccupiedCell);
        }
        let mut scratch: Vec<usize> = Vec::new();
        let mut j: usize = 0;
        while j < 27
            invariant
                rack.wf(),
                j <= 27,
                scratch@ =~= rack.tiles@.take(j as int),
            decreases 27 - j,
        {
            scratch.push(rack.tiles[j]);
            j = j + 1;
        }
        proof {
            assert(scratch@ =~= rack.tiles@);
        }
        let ghost ob = *self;
        let ghost oc = rack.tiles@;
        let mut i: usize = 0;
        while i < word.len()
            invariant
                self.wf(),
                rack.wf(),
                *self == *old(self),
                *rack == *old(rack),
                ob == *old(self),
                oc == old(rack).tiles@,
                forall|k: int| 0 <= k < word@.len() ==> is_input_letter(#[trigger] word@[k]),
                ob.spec_word_fits(word@, row as int, col as int, across),
                row < 15,
                col < 15,
                across ==> col + word@.len() <= 15,
                !across ==> row + word@.len() <= 15,
                i <= word@.len(),
                scratch@.len() == 27,
                scratch@ == counts_after_write(ob, oc, word@, row as int, col as int, across,
                    i as int),
                rack_covers_write(ob, oc, word@, row as int, col as int, across, i as int),
            decreases word@.len() - i,
        {
            let (r2, c2) = if across {
                (row, col + i)
            } else {
                (row + i, col)
            };
            if self.get_tile(r2, c2) == crate::EMPTY {
                let wletter = norm_tile(word[i]);
                proof {
                    assert(is_tile(spec_norm_tile(word@[i as int])));
                }
                let idx = crate::game::pool::tile_index(wletter);
                if scratch[idx] == 0 {
                    proof {
                        assert(!rack_covers_write(ob, oc, word@, row as int, col as int, across, i
                            + 1));
                        if rack_covers_write(
                            ob,
                            oc,
                            word@,
                            row as int,
                            col as int,
                            across,
                            word@.len() as int,
                        ) {
                            lemma_covers_prefix(
                                ob,
                                oc,
                                word@,
                                row as int,
                                col as int,
                                across,
                                i + 1,
                                word@.len() as int,
                            );
                        }
                    }
                    return Err(PlayError::TileNotInRack);
                }
                let cnt = scratch[idx];
                scratch[idx] = cnt - 1;
                proof {
                    assert(scratch@ =~= counts_after_write(ob, oc, word@, row as int, col as int,
                        across, i + 1));
                }
            } else {
                proof {
                    assert(counts_after_write(ob, oc, word@, row as int, col as int, across, i + 1)
                        == counts_after_write(ob, oc, word@, row as int, col as int, across,
                        i as int));
                }
            }
            i = i + 1;
        }
        let ghost full = word@.len() as int;
        let mut i: usize = 0;
        while i < word.len()
            invariant
                self.wf(),
                rack.wf(),
                *self == *old(self),
                ob == *old(self),
                oc == old(rack).tiles@,
                forall|k: int| 0 <= k < word@.len() ==> is_input_letter(#[trigger] word@[k]),
                ob.spec_word_fits(word@, row as int, col as int, across),
                rack_covers_write(ob, oc, word@, row as int, col as int, across, full),
                full == word@.len() as int,
                row < 15,
                col < 15,
                across ==> col + word@.len() <= 15,
                !across ==> row + word@.len() <= 15,
                i <= word@.len(),
                rack.tiles@ == counts_after_write(ob, oc, word@, row as int, col as int, across,
                    i as int),
            decreases word@.len() - i,
        {
            let (r2, c2) = if across {
                (row, col + i)
            } else {
                (row + i, col)
            };
            if self.get_tile(r2, c2) == crate::EMPTY {
                let wletter = norm_tile(word[i]);
                proof {
                    assert(is_tile(spec_norm_tile(word@[i as int])));
                    lemma_covers_prefix(ob, oc, word@, row as int, col as int, across, i + 1, full);
                    assert(rack.count_of(wletter) > 0);
                }
                rack.remove_tile(wletter);
                proof {
                    assert(rack.tiles@ =~= counts_after_write(ob, oc, word@, row as int,
                        col as int, across, i + 1));
                }
            } else {
                proof {
                    assert(counts_after_write(ob, oc, word@, row as int, col as int, across, i + 1)
                        == counts_after_write(ob, oc, word@, row as int, col as int, across,
                        i as int));
                }
            }
            i = i + 1;
        }
        let res = if across {
            self.write_across(word, row, col)
        } else {
            self.write_down(word, row, col)
        };
        proof {
            assert(res is Ok);
        }
        Ok(())
    }
}

} // verus!
