use vstd::prelude::*;

use crate::game::board::{col_end, col_start, in_bounds, lemma_col_end_agree,
    lemma_col_end_props, lemma_col_start_agree, lemma_col_start_props, lemma_row_end_agree,
    lemma_row_end_ge, lemma_row_end_props, lemma_row_start_agree, lemma_row_start_le,
    lemma_row_start_props, lemma_word_across_agrees, lemma_word_down_agrees, row_end, row_start,
    same_state, spec_norm_tile, Board};
use crate::game::pool::Rack;
use crate::{is_tile, EMPTY};

verus! {

/// The search's result: either no legal play was found, or the best-scoring
/// word with its score, the position of its first letter, and its axis.
pub enum WordChoice {
    NoMove,
    Found { word: Vec<u8>, score: i64, row: usize, col: usize, across: bool },
}

/// The running best candidate while the search explores: seeded with the
/// caller's best score, so branches that cannot beat it are not recorded.
struct Candidate {
    word: Vec<u8>,
    score: i64,
    row: usize,
    col: usize,
    across: bool,
}

/// The down word that stands through (r, c) when that cell holds the tile
/// `t`: the letters above, `t`, the letters below. Legal when the tile stands
/// alone there or the word is in the dictionary. It reads only the cells of
/// column c other than (r, c) itself, so staging or unstaging along row r
/// neither makes nor breaks it.
pub open spec fn down_cross_legal(b: Board, r: int, c: int, t: u8) -> bool {
    let g = b.tiles();
    let s = if 0 < r && g[r - 1][c] != EMPTY {
        col_start(g, r - 1, c)
    } else {
        r
    };
    let e = if r < 14 && g[r + 1][c] != EMPTY {
        col_end(g, r + 1, c)
    } else {
        r
    };
    s == e || crate::dict::word_list_has(
        b.word_list@,
        crate::game::board::col_word(g, c, s, r - 1).push(t) + crate::game::board::col_word(
            g,
            c,
            r + 1,
            e,
        ),
    )
}

/// The across word that stands through (r, c) when that cell holds `t`, as
/// `down_cross_legal` with the axes exchanged.
pub open spec fn across_cross_legal(b: Board, r: int, c: int, t: u8) -> bool {
    let g = b.tiles();
    let s = if 0 < c && g[r][c - 1] != EMPTY {
        row_start(g, r, c - 1)
    } else {
        c
    };
    let e = if c < 14 && g[r][c + 1] != EMPTY {
        row_end(g, r, c + 1)
    } else {
        c
    };
    s == e || crate::dict::word_list_has(
        b.word_list@,
        crate::game::board::row_word(g, r, s, c - 1).push(t) + crate::game::board::row_word(
            g,
            r,
            c + 1,
            e,
        ),
    )
}

/// At an occupied cell, the crossing-word reading with the cell's own tile is
/// the board's down-word legality at that cell.
proof fn lemma_down_cross_at_tile(b: Board, r: int, c: int)
    requires
        in_bounds(r, c),
        b.occ(r, c),
    ensures
        down_cross_legal(b, r, c, b.tile_at(r, c)) == b.spec_is_word_down(r, c),
{
    let g = b.tiles();
    assert(g[r][c] == b.tile_at(r, c));
    lemma_col_start_props(g, r, c);
    lemma_col_end_props(g, r, c);
    let s = col_start(g, r, c);
    let e = col_end(g, r, c);
    if s != e {
        let w1 = crate::game::board::col_word(g, c, s, e);
        let w2 = crate::game::board::col_word(g, c, s, r - 1).push(b.tile_at(r, c))
            + crate::game::board::col_word(g, c, r + 1, e);
        assert(w1 =~= w2) by {
            assert forall|k: int| 0 <= k < e + 1 - s implies w1[k] == w2[k] by {
                if s + k < r {
                    assert(w2[k] == crate::game::board::col_word(g, c, s, r - 1)[k]);
                } else if s + k == r {
                    assert(w2[k] == b.tile_at(r, c));
                } else {
                    assert(w2[k] == crate::game::board::col_word(g, c, r + 1, e)[k - (r - s) - 1]);
                }
            }
        }
    }
}

/// The across mirror of `lemma_down_cross_at_tile`.
proof fn lemma_across_cross_at_tile(b: Board, r: int, c: int)
    requires
        in_bounds(r, c),
        b.occ(r, c),
    ensures
        across_cross_legal(b, r, c, b.tile_at(r, c)) == b.spec_is_word_across(r, c),
{
    let g = b.tiles();
    assert(g[r][c] == b.tile_at(r, c));
    lemma_row_start_props(g, r, c);
    lemma_row_end_props(g, r, c);
    let s = row_start(g, r, c);
    let e = row_end(g, r, c);
    if s != e {
        let w1 = crate::game::board::row_word(g, r, s, e);
        let w2 = crate::game::board::row_word(g, r, s, c - 1).push(b.tile_at(r, c))
            + crate::game::board::row_word(g, r, c + 1, e);
        assert(w1 =~= w2) by {
            assert forall|k: int| 0 <= k < e + 1 - s implies w1[k] == w2[k] by {
                if s + k < c {
                    assert(w2[k] == crate::game::board::row_word(g, r, s, c - 1)[k]);
                } else if s + k == c {
                    assert(w2[k] == b.tile_at(r, c));
                } else {
                    assert(w2[k] == crate::game::board::row_word(g, r, c + 1, e)[k - (c - s) - 1]);
                }
            }
        }
    }
}

/// A down crossing-word reading depends only on the cells of its column off
/// the given row, and on the dictionary.
proof fn lemma_down_cross_agree(a: Board, b: Board, r: int, c: int, t: u8)
    requires
        in_bounds(r, c),
        b.word_list == a.word_list,
        forall|j: int| 0 <= j < 15 && j != r ==> #[trigger] b.tiles()[j][c] == a.tiles()[j][c],
    ensures
        down_cross_legal(b, r, c, t) == down_cross_legal(a, r, c, t),
{
    let g1 = b.tiles();
    let g2 = a.tiles();
    if 0 < r {
        lemma_col_start_agree(g1, g2, r - 1, c);
    }
    if r < 14 {
        lemma_col_end_agree(g1, g2, r + 1, c);
    }
    let s = if 0 < r && g1[r - 1][c] != EMPTY {
        col_start(g1, r - 1, c)
    } else {
        r
    };
    let e = if r < 14 && g1[r + 1][c] != EMPTY {
        col_end(g1, r + 1, c)
    } else {
        r
    };
    if 0 < r {
        lemma_col_start_props(g1, r - 1, c);
    }
    if r < 14 {
        lemma_col_end_props(g1, r + 1, c);
    }
    assert(crate::game::board::col_word(g1, c, s, r - 1) =~= crate::game::board::col_word(
        g2,
        c,
        s,
        r - 1,
    ));
    assert(crate::game::board::col_word(g1, c, r + 1, e) =~= crate::game::board::col_word(
        g2,
        c,
        r + 1,
        e,
    ));
}

/// The across mirror of `lemma_down_cross_agree`.
proof fn lemma_across_cross_agree(a: Board, b: Board, r: int, c: int, t: u8)
    requires
        in_bounds(r, c),
        b.word_list == a.word_list,
        forall|j: int| 0 <= j < 15 && j != c ==> #[trigger] b.tiles()[r][j] == a.tiles()[r][j],
    ensures
        across_cross_legal(b, r, c, t) == across_cross_legal(a, r, c, t),
{
    let g1 = b.tiles();
    let g2 = a.tiles();
    if 0 < c {
        lemma_row_start_agree(g1, g2, r, c - 1);
    }
    if c < 14 {
        lemma_row_end_agree(g1, g2, r, c + 1);
    }
    let s = if 0 < c && g1[r][c - 1] != EMPTY {
        row_start(g1, r, c - 1)
    } else {
        c
    };
    let e = if c < 14 && g1[r][c + 1] != EMPTY {
        row_end(g1, r, c + 1)
    } else {
        c
    };
    if 0 < c {
        lemma_row_start_props(g1, r, c - 1);
    }
    if c < 14 {
        lemma_row_end_props(g1, r, c + 1);
    }
    assert(crate::game::board::row_word(g1, r, s, c - 1) =~= crate::game::board::row_word(
        g2,
        r,
        s,
        c - 1,
    ));
    assert(crate::game::board::row_word(g1, r, c + 1, e) =~= crate::game::board::row_word(
        g2,
        r,
        c + 1,
        e,
    ));
}

/// The candidate names a real play: a dictionary word of length at least 2
/// whose letters are all tiles, which fits the board at (row, col) along the
/// axis — every cell it covers is empty or already holds that letter — is
/// maximal (the cells just beyond its two ends are free), its crossing word
/// at every covered cell is legal, and it touches the frontier.
pub open spec fn found_on(b: Board, w: Seq<u8>, row: int, col: int, across: bool) -> bool {
    &&& w.len() >= 2
    &&& crate::dict::word_list_has(b.word_list@, w)
    &&& forall|i: int| 0 <= i < w.len() ==> is_tile(#[trigger] w[i])
    &&& b.spec_word_fits(w, row, col, across)
    &&& (if across {
        (col == 0 || !b.occ(row, col - 1)) && (col + w.len() == 15 || !b.occ(row, col + w.len()))
    } else {
        (row == 0 || !b.occ(row - 1, col)) && (row + w.len() == 15 || !b.occ(row + w.len(), col))
    })
    &&& forall|i: int|
        0 <= i < w.len() ==> (if across {
            down_cross_legal(b, row, col + i, spec_norm_tile(#[trigger] w[i]))
        } else {
            across_cross_legal(b, row + i, col, spec_norm_tile(w[i]))
        })
    &&& (across ==> exists|i: int|
        0 <= i < w.len() && #[trigger] b.frontier_has(row, col + i))
    &&& (!across ==> exists|i: int|
        0 <= i < w.len() && #[trigger] b.frontier_has(row + i, col))
}

/// A found candidate transfers unchanged between boards with the same tiles
/// and dictionary.
proof fn lemma_found_on_same(a: Board, b: Board, w: Seq<u8>, row: int, col: int, across: bool)
    requires
        found_on(a, w, row, col, across),
        b.word_list == a.word_list,
        b.neighbors@ == a.neighbors@,
        forall|r2: int, c2: int|
            in_bounds(r2, c2) ==> #[trigger] b.tile_at(r2, c2) == a.tile_at(r2, c2),
    ensures
        found_on(b, w, row, col, across),
{
    assert(b.tiles() =~~= a.tiles());
    {
        if across {
            let i = choose|i: int| 0 <= i < w.len() && #[trigger] a.frontier_has(row, col + i);
            let k = choose|k: int|
                0 <= k < a.neighbors@.len() && a.neighbors@[k].0 == row && a.neighbors@[k].1 == col
                    + i;
            assert(b.neighbors@[k].0 == row && b.neighbors@[k].1 == col + i);
            assert(b.frontier_has(row, col + i));
        } else {
            let i = choose|i: int| 0 <= i < w.len() && #[trigger] a.frontier_has(row + i, col);
            let k = choose|k: int|
                0 <= k < a.neighbors@.len() && a.neighbors@[k].0 == row + i && a.neighbors@[k].1
                    == col;
            assert(b.neighbors@[k].0 == row + i && b.neighbors@[k].1 == col);
            assert(b.frontier_has(row + i, col));
        }
    }
    if across {
        if col != 0 {
            assert(b.tile_at(row, col - 1) == a.tile_at(row, col - 1));
        }
        if col + w.len() != 15 {
            assert(b.tile_at(row, col + w.len()) == a.tile_at(row, col + w.len()));
        }
    } else {
        if row != 0 {
            assert(b.tile_at(row - 1, col) == a.tile_at(row - 1, col));
        }
        if row + w.len() != 15 {
            assert(b.tile_at(row + w.len(), col) == a.tile_at(row + w.len(), col));
        }
    }
    assert forall|i: int| 0 <= i < w.len() implies (if across {
        down_cross_legal(b, row, col + i, spec_norm_tile(#[trigger] w[i]))
    } else {
        across_cross_legal(b, row + i, col, spec_norm_tile(w[i]))
    }) by {
        if across {
            assert(down_cross_legal(a, row, col + i, spec_norm_tile(w[i])));
        } else {
            assert(across_cross_legal(a, row + i, col, spec_norm_tile(w[i])));
        }
    }
    assert forall|i: int| 0 <= i < w.len() implies {
        let (r, c) = if across {
            (row, col + i)
        } else {
            (row + i, col)
        };
        !b.occ(r, c) || b.tile_at(r, c) == spec_norm_tile(#[trigger] w[i])
    } by {
        let r = if across {
            row
        } else {
            row + i
        };
        let c = if across {
            col + i
        } else {
            col
        };
        assert(b.tile_at(r, c) == a.tile_at(r, c));
    }
}

/// A found candidate survives emptying one cell on its own line: the word
/// still fits (the cell is simply free again), and every crossing word reads
/// only cells off that line.
proof fn lemma_found_on_unwind(
    a: Board,
    b: Board,
    w: Seq<u8>,
    row: int,
    col: int,
    across: bool,
    pr: int,
    pc: int,
)
    requires
        found_on(a, w, row, col, across),
        b.word_list == a.word_list,
        b.neighbors@ == a.neighbors@,
        across ==> pr == row,
        !across ==> pc == col,
        !b.occ(pr, pc),
        forall|r2: int, c2: int|
            in_bounds(r2, c2) && !(r2 == pr && c2 == pc) ==> #[trigger] b.tile_at(r2, c2)
                == a.tile_at(r2, c2),
    ensures
        found_on(b, w, row, col, across),
{
    {
        if across {
            let i = choose|i: int| 0 <= i < w.len() && #[trigger] a.frontier_has(row, col + i);
            let k = choose|k: int|
                0 <= k < a.neighbors@.len() && a.neighbors@[k].0 == row && a.neighbors@[k].1 == col
                    + i;
            assert(b.neighbors@[k].0 == row && b.neighbors@[k].1 == col + i);
            assert(b.frontier_has(row, col + i));
        } else {
            let i = choose|i: int| 0 <= i < w.len() && #[trigger] a.frontier_has(row + i, col);
            let k = choose|k: int|
                0 <= k < a.neighbors@.len() && a.neighbors@[k].0 == row + i && a.neighbors@[k].1
                    == col;
            assert(b.neighbors@[k].0 == row + i && b.neighbors@[k].1 == col);
            assert(b.frontier_has(row + i, col));
        }
    }
    if across {
        if col != 0 && !(row == pr && col - 1 == pc) {
            assert(b.tile_at(row, col - 1) == a.tile_at(row, col - 1));
        }
        if col + w.len() != 15 && !(row == pr && col + w.len() == pc) {
            assert(b.tile_at(row, col + w.len()) == a.tile_at(row, col + w.len()));
        }
    } else {
        if row != 0 && !(row - 1 == pr && col == pc) {
            assert(b.tile_at(row - 1, col) == a.tile_at(row - 1, col));
        }
        if row + w.len() != 15 && !(row + w.len() == pr && col == pc) {
            assert(b.tile_at(row + w.len(), col) == a.tile_at(row + w.len(), col));
        }
    }
    assert forall|i: int| 0 <= i < w.len() implies {
        let (r, c) = if across {
            (row, col + i)
        } else {
            (row + i, col)
        };
        !b.occ(r, c) || b.tile_at(r, c) == spec_norm_tile(#[trigger] w[i])
    } by {
        let r = if across {
            row
        } else {
            row + i
        };
        let c = if across {
            col + i
        } else {
            col
        };
        if !(r == pr && c == pc) {
            assert(b.tile_at(r, c) == a.tile_at(r, c));
        }
    }
    assert forall|i: int| 0 <= i < w.len() implies (if across {
        down_cross_legal(b, row, col + i, spec_norm_tile(#[trigger] w[i]))
    } else {
        across_cross_legal(b, row + i, col, spec_norm_tile(w[i]))
    }) by {
        if across {
            let cc = col + i;
            assert(0 <= cc < 15);
            assert forall|j: int| 0 <= j <= row - 1 implies b.tiles()[j][cc] == a.tiles()[j][cc] by {
                assert(b.tile_at(j, cc) == a.tile_at(j, cc));
            }
            assert forall|j: int| row + 1 <= j <= 14 implies b.tiles()[j][cc] == a.tiles()[j][cc] by {
                assert(b.tile_at(j, cc) == a.tile_at(j, cc));
            }
            assert(down_cross_legal(a, row, cc, spec_norm_tile(w[i])));
            if 0 < row {
                lemma_col_start_agree(b.tiles(), a.tiles(), row - 1, cc);
            }
            if row < 14 {
                lemma_col_end_agree(b.tiles(), a.tiles(), row + 1, cc);
            }
            let g1 = b.tiles();
            let g2 = a.tiles();
            let s = if 0 < row && g1[row - 1][cc] != EMPTY {
                col_start(g1, row - 1, cc)
            } else {
                row
            };
            let e = if row < 14 && g1[row + 1][cc] != EMPTY {
                col_end(g1, row + 1, cc)
            } else {
                row
            };
            if 0 < row {
                lemma_col_start_props(g1, row - 1, cc);
            }
            if row < 14 {
                lemma_col_end_props(g1, row + 1, cc);
            }
            assert(crate::game::board::col_word(g1, cc, s, row - 1) =~= crate::game::board::col_word(
                g2,
                cc,
                s,
                row - 1,
            ));
            assert(crate::game::board::col_word(g1, cc, row + 1, e) =~= crate::game::board::col_word(
                g2,
                cc,
                row + 1,
                e,
            ));
        } else {
            let rr = row + i;
            assert(0 <= rr < 15);
            assert forall|j: int| 0 <= j <= col - 1 implies b.tiles()[rr][j] == a.tiles()[rr][j] by {
                assert(b.tile_at(rr, j) == a.tile_at(rr, j));
            }
            assert forall|j: int| col + 1 <= j <= 14 implies b.tiles()[rr][j] == a.tiles()[rr][j] by {
                assert(b.tile_at(rr, j) == a.tile_at(rr, j));
            }
            assert(across_cross_legal(a, rr, col, spec_norm_tile(w[i])));
            if 0 < col {
                lemma_row_start_agree(b.tiles(), a.tiles(), rr, col - 1);
            }
            if col < 14 {
                lemma_row_end_agree(b.tiles(), a.tiles(), rr, col + 1);
            }
            let g1 = b.tiles();
            let g2 = a.tiles();
            let s = if 0 < col && g1[rr][col - 1] != EMPTY {
                row_start(g1, rr, col - 1)
            } else {
                col
            };
            let e = if col < 14 && g1[rr][col + 1] != EMPTY {
                row_end(g1, rr, col + 1)
            } else {
                col
            };
            if 0 < col {
                lemma_row_start_props(g1, rr, col - 1);
            }
            if col < 14 {
                lemma_row_end_props(g1, rr, col + 1);
            }
            assert(crate::game::board::row_word(g1, rr, s, col - 1) =~= crate::game::board::row_word(
                g2,
                rr,
                s,
                col - 1,
            ));
            assert(crate::game::board::row_word(g1, rr, col + 1, e) =~= crate::game::board::row_word(
                g2,
                rr,
                col + 1,
                e,
            ));
        }
    }
}

/// How a board `b2` relates to `b` after a successful bulk write of the word
/// at (row, col) along the axis: exactly the effect `write_across` and
/// `write_down` promise of a well-formed result.
pub open spec fn stages_found(
    b: Board,
    b2: Board,
    w: Seq<u8>,
    row: int,
    col: int,
    across: bool,
) -> bool {
    &&& b2.board@.len() == 15
    &&& (forall|r: int| 0 <= r < 15 ==> #[trigger] b2.board@[r]@.len() == 15)
    &&& b2.neighbors@ == b.neighbors@
    &&& b2.word_list == b.word_list
    &&& (forall|k1: int, k2: int|
        0 <= k1 < k2 < b2.staged_spaces@.len() ==> !(#[trigger] b2.staged_spaces@[k1].0
            == #[trigger] b2.staged_spaces@[k2].0 && b2.staged_spaces@[k1].1
            == b2.staged_spaces@[k2].1))
    &&& (if across {
        &&& (forall|i: int|
            0 <= i < w.len() ==> #[trigger] b2.tile_at(row, col + i) == spec_norm_tile(w[i]))
        &&& (forall|r2: int, c2: int|
            in_bounds(r2, c2) && !(r2 == row && col <= c2 < col + w.len()) ==> #[trigger] b2.sp(
                r2,
                c2,
            ) == b.sp(r2, c2))
        &&& (forall|r2: int, c2: int|
            #[trigger] b2.staged_has(r2, c2) == (b.staged_has(r2, c2) || (r2 == row && col <= c2
                < col + w.len() && !b.occ(r2, c2))))
    } else {
        &&& (forall|i: int|
            0 <= i < w.len() ==> #[trigger] b2.tile_at(row + i, col) == spec_norm_tile(w[i]))
        &&& (forall|r2: int, c2: int|
            in_bounds(r2, c2) && !(c2 == col && row <= r2 < row + w.len()) ==> #[trigger] b2.sp(
                r2,
                c2,
            ) == b.sp(r2, c2))
        &&& (forall|r2: int, c2: int|
            #[trigger] b2.staged_has(r2, c2) == (b.staged_has(r2, c2) || (c2 == col && row <= r2
                < row + w.len() && !b.occ(r2, c2))))
    })
}

/// Staging a found candidate on a board with nothing staged yields a
/// configuration that passes validation: the search never names a placement
/// that would be refused at commit time.
pub proof fn lemma_found_play_valid(
    b: Board,
    b2: Board,
    w: Seq<u8>,
    row: int,
    col: int,
    across: bool,
)
    requires
        b.wf(),
        b.staged_spaces@.len() == 0,
        found_on(b, w, row, col, across),
        stages_found(b, b2, w, row, col, across),
    ensures
        b2.spec_valid(),
{
    if across {
        lemma_found_play_valid_across(b, b2, w, row, col);
    } else {
        lemma_found_play_valid_down(b, b2, w, row, col);
    }
}

proof fn lemma_found_play_valid_across(b: Board, b2: Board, w: Seq<u8>, row: int, col: int)
    requires
        b.wf(),
        b.staged_spaces@.len() == 0,
        found_on(b, w, row, col, true),
        stages_found(b, b2, w, row, col, true),
    ensures
        b2.spec_valid(),
{
    let g = b.tiles();
    let g2 = b2.tiles();
    let st = b2.staged_spaces@;
    let n = w.len() as int;
    assert(0 <= row < 15 && 0 <= col && col + n <= 15 && n >= 2);
    // every covered cell holds the word's letter
    assert forall|i: int| 0 <= i < n implies b2.tile_at(row, col + i) == w[i] && b2.occ(
        row,
        col + i,
    ) && g2[row][col + i] == w[i] by {
        assert(is_tile(w[i]));
        assert(spec_norm_tile(w[i]) == w[i]);
        assert(g2[row][col + i] == b2.tile_at(row, col + i));
    }
    // cells off the covered stretch agree with the clean board
    assert forall|r2: int, c2: int|
        in_bounds(r2, c2) && !(r2 == row && col <= c2 < col + n) implies g2[r2][c2]
        == g[r2][c2] by {
        assert(b2.sp(r2, c2) == b.sp(r2, c2));
        assert(g2[r2][c2] == b2.tile_at(r2, c2));
        assert(g[r2][c2] == b.tile_at(r2, c2));
    }
    // the stretch is the whole run: its flanks are empty
    assert(col == 0 || g2[row][col - 1] == EMPTY);
    assert(col + n == 15 || g2[row][col + n] == EMPTY);
    assert forall|c0: int| col <= c0 < col + n implies row_start(g2, row, c0) == col && row_end(
        g2,
        row,
        c0,
    ) == col + n - 1 by {
        assert forall|j: int| col <= j < col + n implies #[trigger] g2[row][j] != EMPTY by {
            assert(g2[row][col + (j - col)] == w[j - col]);
            assert(is_tile(w[j - col]));
        }
        lemma_row_start_le(g2, row, c0, col);
        lemma_row_start_props(g2, row, c0);
        if row_start(g2, row, c0) < col {
            assert(g2[row][col - 1] != EMPTY);
        }
        lemma_row_end_ge(g2, row, c0, col + n - 1);
        lemma_row_end_props(g2, row, c0);
        if row_end(g2, row, c0) > col + n - 1 {
            assert(g2[row][col + n] != EMPTY);
        }
    }
    // staged positions are exactly covered cells the clean board left empty
    assert forall|k: int| 0 <= k < st.len() implies st[k].0 == row && col <= st[k].1 < col + n
        && !b.occ(st[k].0 as int, st[k].1 as int) by {
        assert(b2.staged_has(st[k].0 as int, st[k].1 as int));
        assert(!b.staged_has(st[k].0 as int, st[k].1 as int));
    }
    // the frontier witness is a staged cell
    let iw = choose|i: int| 0 <= i < n && #[trigger] b.frontier_has(row, col + i);
    let kw = choose|k: int|
        0 <= k < b.neighbors@.len() && b.neighbors@[k].0 == row && b.neighbors@[k].1 == col + iw;
    assert(!b.occ(row, col + iw)) by {
        assert(in_bounds(b.neighbors@[kw].0 as int, b.neighbors@[kw].1 as int));
        assert(!b.staged_has(row, col + iw));
    }
    assert(b2.staged_has(row, col + iw));
    assert(b2.frontier_has(row, col + iw)) by {
        assert(b2.neighbors@[kw].0 == row && b2.neighbors@[kw].1 == col + iw);
    }
    assert(st.len() >= 1) by {
        if st.len() == 0 {
            assert(!b2.staged_has(row, col + iw));
        }
    }
    // the across word at any staged cell is the found word
    assert forall|k: int| 0 <= k < st.len() implies b2.spec_is_word_across(
        st[k].0 as int,
        st[k].1 as int,
    ) by {
        let c0 = st[k].1 as int;
        assert(row_start(g2, row, c0) == col && row_end(g2, row, c0) == col + n - 1);
        assert(crate::game::board::row_word(g2, row, col, col + n - 1) =~= w) by {
            assert forall|i2: int|
                0 <= i2 < n implies crate::game::board::row_word(g2, row, col, col + n - 1)[i2]
                == w[i2] by {
                assert(g2[row][col + i2] == w[i2]);
            }
        }
        assert(b2.occ(row, col + (c0 - col)));
        assert(b2.occ(row, c0));
    }
    // the down word at any staged cell is the legal crossing word
    assert forall|k: int| 0 <= k < st.len() implies b2.spec_is_word_down(
        st[k].0 as int,
        st[k].1 as int,
    ) by {
        let c0 = st[k].1 as int;
        let i = c0 - col;
        assert(down_cross_legal(b, row, col + i, spec_norm_tile(w[i])));
        assert(spec_norm_tile(w[i]) == w[i]);
        assert(b2.tile_at(row, c0) == w[i]);
        assert forall|j: int| 0 <= j < 15 && j != row implies #[trigger] b2.tiles()[j][c0]
            == b.tiles()[j][c0] by {
            assert(b2.sp(j, c0) == b.sp(j, c0));
            assert(b2.tiles()[j][c0] == b2.tile_at(j, c0));
            assert(b.tiles()[j][c0] == b.tile_at(j, c0));
        }
        lemma_down_cross_agree(b, b2, row, c0, w[i]);
        lemma_down_cross_at_tile(b2, row, c0);
    }
    // the configuration passes each validation check
    if st.len() == 1 {
        assert(st[0].0 == row && st[0].1 == col + iw) by {
            let kk = choose|k: int|
                0 <= k < st.len() && st[k].0 == row && st[k].1 == col + iw;
            assert(kk == 0);
        }
        assert(b2.frontier_has(st[0].0 as int, st[0].1 as int));
        assert(b2.spec_validate() is Ok);
    } else {
        assert(st[0].0 == st[1].0);
        assert(b2.staged_abuts()) by {
            let kk = choose|k: int|
                0 <= k < st.len() && st[k].0 == row && st[k].1 == col + iw;
            assert(b2.frontier_has(st[kk].0 as int, st[kk].1 as int));
        }
        assert(b2.staged_same_row());
        assert(b2.staged_contiguous_across()) by {
            assert(row_start(g2, st[0].0 as int, st[0].1 as int) == col && row_end(
                g2,
                st[0].0 as int,
                st[0].1 as int,
            ) == col + n - 1);
        }
        assert(b2.spec_is_word_across(st[0].0 as int, st[0].1 as int));
        assert(b2.staged_cross_down_legal());
        assert(b2.spec_validate() is Ok);
    }
}

proof fn lemma_found_play_valid_down(b: Board, b2: Board, w: Seq<u8>, row: int, col: int)
    requires
        b.wf(),
        b.staged_spaces@.len() == 0,
        found_on(b, w, row, col, false),
        stages_found(b, b2, w, row, col, false),
    ensures
        b2.spec_valid(),
{
    let g = b.tiles();
    let g2 = b2.tiles();
    let st = b2.staged_spaces@;
    let n = w.len() as int;
    assert(0 <= col < 15 && 0 <= row && row + n <= 15 && n >= 2);
    assert forall|i: int| 0 <= i < n implies b2.tile_at(row + i, col) == w[i] && b2.occ(
        row + i,
        col,
    ) && g2[row + i][col] == w[i] by {
        assert(is_tile(w[i]));
        assert(spec_norm_tile(w[i]) == w[i]);
        assert(g2[row + i][col] == b2.tile_at(row + i, col));
    }
    assert forall|r2: int, c2: int|
        in_bounds(r2, c2) && !(c2 == col && row <= r2 < row + n) implies g2[r2][c2]
        == g[r2][c2] by {
        assert(b2.sp(r2, c2) == b.sp(r2, c2));
        assert(g2[r2][c2] == b2.tile_at(r2, c2));
        assert(g[r2][c2] == b.tile_at(r2, c2));
    }
    assert(row == 0 || g2[row - 1][col] == EMPTY);
    assert(row + n == 15 || g2[row + n][col] == EMPTY);
    assert forall|r0: int| row <= r0 < row + n implies crate::game::board::col_start(g2, r0, col)
        == row && crate::game::board::col_end(g2, r0, col) == row + n - 1 by {
        assert forall|j: int| row <= j < row + n implies #[trigger] g2[j][col] != EMPTY by {
            assert(g2[row + (j - row)][col] == w[j - row]);
            assert(is_tile(w[j - row]));
        }
        crate::game::board::lemma_col_start_le(g2, r0, col, row);
        crate::game::board::lemma_col_start_props(g2, r0, col);
        if crate::game::board::col_start(g2, r0, col) < row {
            assert(g2[row - 1][col] != EMPTY);
        }
        crate::game::board::lemma_col_end_ge(g2, r0, col, row + n - 1);
        crate::game::board::lemma_col_end_props(g2, r0, col);
        if crate::game::board::col_end(g2, r0, col) > row + n - 1 {
            assert(g2[row + n][col] != EMPTY);
        }
    }
    assert forall|k: int| 0 <= k < st.len() implies st[k].1 == col && row <= st[k].0 < row + n
        && !b.occ(st[k].0 as int, st[k].1 as int) by {
        assert(b2.staged_has(st[k].0 as int, st[k].1 as int));
        assert(!b.staged_has(st[k].0 as int, st[k].1 as int));
    }
    let iw = choose|i: int| 0 <= i < n && #[trigger] b.frontier_has(row + i, col);
    let kw = choose|k: int|
        0 <= k < b.neighbors@.len() && b.neighbors@[k].0 == row + iw && b.neighbors@[k].1 == col;
    assert(!b.occ(row + iw, col)) by {
        assert(in_bounds(b.neighbors@[kw].0 as int, b.neighbors@[kw].1 as int));
        assert(!b.staged_has(row + iw, col));
    }
    assert(b2.staged_has(row + iw, col));
    assert(b2.frontier_has(row + iw, col)) by {
        assert(b2.neighbors@[kw].0 == row + iw && b2.neighbors@[kw].1 == col);
    }
    assert(st.len() >= 1) by {
        if st.len() == 0 {
            assert(!b2.staged_has(row + iw, col));
        }
    }
    assert forall|k: int| 0 <= k < st.len() implies b2.spec_is_word_down(
        st[k].0 as int,
        st[k].1 as int,
    ) by {
        let r0 = st[k].0 as int;
        assert(crate::game::board::col_start(g2, r0, col) == row && crate::game::board::col_end(
            g2,
            r0,
            col,
        ) == row + n - 1);
        assert(crate::game::board::col_word(g2, col, row, row + n - 1) =~= w) by {
            assert forall|i2: int|
                0 <= i2 < n implies crate::game::board::col_word(g2, col, row, row + n - 1)[i2]
                == w[i2] by {
                assert(g2[row + i2][col] == w[i2]);
            }
        }
        assert(b2.occ(row + (r0 - row), col));
        assert(b2.occ(r0, col));
    }
    assert forall|k: int| 0 <= k < st.len() implies b2.spec_is_word_across(
        st[k].0 as int,
        st[k].1 as int,
    ) by {
        let r0 = st[k].0 as int;
        let i = r0 - row;
        assert(across_cross_legal(b, row + i, col, spec_norm_tile(w[i])));
        assert(spec_norm_tile(w[i]) == w[i]);
        assert(b2.tile_at(r0, col) == w[i]);
        assert forall|j: int| 0 <= j < 15 && j != col implies #[trigger] b2.tiles()[r0][j]
            == b.tiles()[r0][j] by {
            assert(b2.sp(r0, j) == b.sp(r0, j));
            assert(b2.tiles()[r0][j] == b2.tile_at(r0, j));
            assert(b.tiles()[r0][j] == b.tile_at(r0, j));
        }
        lemma_across_cross_agree(b, b2, r0, col, w[i]);
        lemma_across_cross_at_tile(b2, r0, col);
    }
    if st.len() == 1 {
        assert(st[0].0 == row + iw && st[0].1 == col) by {
            let kk = choose|k: int|
                0 <= k < st.len() && st[k].0 == row + iw && st[k].1 == col;
            assert(kk == 0);
        }
        assert(b2.frontier_has(st[0].0 as int, st[0].1 as int));
        assert(b2.spec_validate() is Ok);
    } else {
        assert(st[0].1 == st[1].1);
        assert(b2.staged_abuts()) by {
            let kk = choose|k: int|
                0 <= k < st.len() && st[k].0 == row + iw && st[k].1 == col;
            assert(b2.frontier_has(st[kk].0 as int, st[kk].1 as int));
        }
        assert(b2.staged_same_col());
        assert(b2.staged_contiguous_down()) by {
            assert(crate::game::board::col_start(g2, st[0].0 as int, st[0].1 as int) == row
                && crate::game::board::col_end(g2, st[0].0 as int, st[0].1 as int) == row + n - 1);
        }
        assert(b2.spec_is_word_down(st[0].0 as int, st[0].1 as int));
        assert(b2.staged_cross_across_legal());
        assert(st[0].0 != st[1].0) by {
            if st[0].0 == st[1].0 {
                assert(!(st[0].0 == st[1].0 && st[0].1 == st[1].1));
            }
        }
        assert(b2.spec_validate() is Ok);
    }
}

/// A copy of `tiles` with the element at `skip` removed.
fn tiles_without(tiles: &Vec<u8>, skip: usize) -> (r: Vec<u8>)
    requires
        skip < tiles@.len(),
    ensures
        r@ == tiles@.remove(skip as int),
{
    let mut r: Vec<u8> = Vec::new();
    let mut i: usize = 0;
    while i < tiles.len()
        invariant
            skip < tiles@.len(),
            i <= tiles@.len(),
            r@ =~= (if i <= skip {
                tiles@.take(i as int)
            } else {
                tiles@.remove(skip as int).take(i as int - 1)
            }),
        decreases tiles@.len() - i,
    {
        if i != skip {
            r.push(tiles[i]);
        }
        proof {
            if i < skip {
                assert(r@ =~= tiles@.take(i as int + 1));
            } else {
                assert(r@ =~= tiles@.remove(skip as int).take(i as int));
            }
        }
        i = i + 1;
    }
    proof {
        assert(r@ =~= tiles@.remove(skip as int));
    }
    r
}


/// The empty cells immediately left and right of (row, col), left first:
/// exactly where an across run through that cell may grow.
pub open spec fn spec_across_neighbors(b: Board, row: int, col: int) -> Seq<(usize, usize)> {
    (if 0 < col && !b.occ(row, col - 1) {
        seq![((row as usize, (col - 1) as usize))]
    } else {
        Seq::<(usize, usize)>::empty()
    }) + (if col < 14 && !b.occ(row, col + 1) {
        seq![((row as usize, (col + 1) as usize))]
    } else {
        Seq::<(usize, usize)>::empty()
    })
}

/// The empty cells immediately above and below (row, col), top first.
pub open spec fn spec_down_neighbors(b: Board, row: int, col: int) -> Seq<(usize, usize)> {
    (if 0 < row && !b.occ(row - 1, col) {
        seq![(((row - 1) as usize, col as usize))]
    } else {
        Seq::<(usize, usize)>::empty()
    }) + (if row < 14 && !b.occ(row + 1, col) {
        seq![(((row + 1) as usize, col as usize))]
    } else {
        Seq::<(usize, usize)>::empty()
    })
}

/// The empty extension cells at the two ends of the occupied across run
/// through (row, col): the cells beside the run's leftmost and rightmost
/// columns, and nothing else.
pub open spec fn spec_across_candidates(b: Board, row: int, col: int) -> Seq<(usize, usize)> {
    let s = crate::game::board::row_start(b.tiles(), row, col);
    let e = crate::game::board::row_end(b.tiles(), row, col);
    if s == e {
        spec_across_neighbors(b, row, s)
    } else {
        spec_across_neighbors(b, row, s) + spec_across_neighbors(b, row, e)
    }
}

/// The empty extension cells at the two ends of the occupied down run
/// through (row, col).
pub open spec fn spec_down_candidates(b: Board, row: int, col: int) -> Seq<(usize, usize)> {
    let s = crate::game::board::col_start(b.tiles(), row, col);
    let e = crate::game::board::col_end(b.tiles(), row, col);
    if s == e {
        spec_down_neighbors(b, s, col)
    } else {
        spec_down_neighbors(b, s, col) + spec_down_neighbors(b, e, col)
    }
}

/// The empty spaces immediately left and right of (row, col), for growing an
/// across word outward.
fn get_across_neighbors(board: &Board, row: usize, col: usize) -> (r: Vec<(usize, usize)>)
    requires
        board.wf(),
        row < 15,
        col < 15,
    ensures
        r@ == spec_across_neighbors(*board, row as int, col as int),
        forall|j: int|
            0 <= j < r@.len() ==> in_bounds(#[trigger] r@[j].0 as int, r@[j].1 as int) && !board.occ(
                r@[j].0 as int,
                r@[j].1 as int,
            ) && r@[j].0 == row,
{
    let mut result: Vec<(usize, usize)> = Vec::new();
    if col > 0 {
        if board.get_tile(row, col - 1) == EMPTY {
            result.push((row, col - 1));
        }
    }
    if col < 14 {
        if board.get_tile(row, col + 1) == EMPTY {
            result.push((row, col + 1));
        }
    }
    proof {
        assert(result@ =~= spec_across_neighbors(*board, row as int, col as int));
    }
    result
}

/// The empty spaces immediately above and below (row, col), for growing a
/// down word outward.
fn get_down_neighbors(board: &Board, row: usize, col: usize) -> (r: Vec<(usize, usize)>)
    requires
        board.wf(),
        row < 15,
        col < 15,
    ensures
        r@ == spec_down_neighbors(*board, row as int, col as int),
        forall|j: int|
            0 <= j < r@.len() ==> in_bounds(#[trigger] r@[j].0 as int, r@[j].1 as int) && !board.occ(
                r@[j].0 as int,
                r@[j].1 as int,
            ) && r@[j].1 == col,
{
    let mut result: Vec<(usize, usize)> = Vec::new();
    if row > 0 {
        if board.get_tile(row - 1, col) == EMPTY {
            result.push((row - 1, col));
        }
    }
    if row < 14 {
        if board.get_tile(row + 1, col) == EMPTY {
            result.push((row + 1, col));
        }
    }
    proof {
        assert(result@ =~= spec_down_neighbors(*board, row as int, col as int));
    }
    result
}

/// The empty extension spaces at the two ends of the occupied across run
/// through (row, col).
fn get_across_candidates(board: &Board, row: usize, col: usize) -> (r: Vec<(usize, usize)>)
    requires
        board.wf(),
        row < 15,
        col < 15,
        board.occ(row as int, col as int),
    ensures
        r@ == spec_across_candidates(*board, row as int, col as int),
        forall|j: int|
            0 <= j < r@.len() ==> in_bounds(#[trigger] r@[j].0 as int, r@[j].1 as int) && !board.occ(
                r@[j].0 as int,
                r@[j].1 as int,
            ) && r@[j].0 == row,
{
    let leftmost = match board.get_leftmost_col(row, col) {
        Some(s) => s,
        None => {
            proof {
                assert(false);
            }
            0
        },
    };
    let rightmost = match board.get_rightmost_col(row, col) {
        Some(e) => e,
        None => {
            proof {
                assert(false);
            }
            0
        },
    };
    proof {
        crate::game::board::lemma_row_start_props(board.tiles(), row as int, col as int);
        crate::game::board::lemma_row_end_props(board.tiles(), row as int, col as int);
    }
    let mut result = get_across_neighbors(board, row, leftmost);
    if leftmost != rightmost {
        let mut more = get_across_neighbors(board, row, rightmost);
        result.append(&mut more);
    }
    proof {
        assert(result@ =~= spec_across_candidates(*board, row as int, col as int));
    }
    result
}

/// The empty extension spaces at the two ends of the occupied down run
/// through (row, col).
fn get_down_candidates(board: &Board, row: usize, col: usize) -> (r: Vec<(usize, usize)>)
    requires
        board.wf(),
        row < 15,
        col < 15,
        board.occ(row as int, col as int),
    ensures
        r@ == spec_down_candidates(*board, row as int, col as int),
        forall|j: int|
            0 <= j < r@.len() ==> in_bounds(#[trigger] r@[j].0 as int, r@[j].1 as int) && !board.occ(
                r@[j].0 as int,
                r@[j].1 as int,
            ) && r@[j].1 == col,
{
    let upmost = match board.get_upmost_row(row, col) {
        Some(s) => s,
        None => {
            proof {
                assert(false);
            }
            0
        },
    };
    let downmost = match board.get_downmost_row(row, col) {
        Some(e) => e,
        None => {
            proof {
                assert(false);
            }
            0
        },
    };
    proof {
        crate::game::board::lemma_col_start_props(board.tiles(), row as int, col as int);
        crate::game::board::lemma_col_end_props(board.tiles(), row as int, col as int);
    }
    let mut result = get_down_neighbors(board, upmost, col);
    if upmost != downmost {
        let mut more = get_down_neighbors(board, downmost, col);
        result.append(&mut more);
    }
    proof {
        assert(result@ =~= spec_down_candidates(*board, row as int, col as int));
    }
    result
}

/// Backtracking search along a row: prune on an illegal crossing word or a
/// dead-end prefix, record the configuration when it forms a legal word that
/// beats the best so far, then grow the run outward with each remaining rack
/// tile in turn. The board always comes back exactly as it went in.
#[verifier::rlimit(100)]
fn find_words_across(board: &mut Board, tiles: &Vec<u8>, row: usize, col: usize, best: &mut
    Candidate, anchor: Ghost<(usize, usize)>)
    requires
        old(board).wf(),
        row < 15,
        col < 15,
        forall|k: int| 0 <= k < tiles@.len() ==> is_tile(#[trigger] tiles@[k]),
        old(board).staged_spaces@.len() + tiles@.len() <= 15,
        forall|j: int|
            0 <= j < 15 && old(board).occ(row as int, j) && j != col ==> old(board).spec_is_word_down(
                row as int,
                j,
            ),
        old(board).frontier_has(anchor@.0 as int, anchor@.1 as int),
        anchor@.0 == row,
        old(board).occ(row as int, col as int) ==> row_start(
            old(board).tiles(),
            row as int,
            col as int,
        ) <= anchor@.1 <= row_end(old(board).tiles(), row as int, col as int),
        !old(board).occ(row as int, col as int) ==> anchor@.1 == col,
    ensures
        final(board).wf(),
        same_state(*final(board), *old(board)),
        final(best).score >= old(best).score,
        final(best).score == old(best).score ==> *final(best) == *old(best),
        final(best).score > old(best).score ==> final(best).row == row && final(best).col < 15
            && final(best).across == true && found_on(
            *final(board),
            final(best).word@,
            final(best).row as int,
            final(best).col as int,
            true,
        ),
    decreases tiles@.len(),
{
    let across_candidates: Vec<(usize, usize)> = if board.get_tile(row, col) == EMPTY {
        let mut v: Vec<(usize, usize)> = Vec::new();
        v.push((row, col));
        v
    } else {
        get_across_candidates(board, row, col)
    };
    proof {
        assert(forall|j: int|
            0 <= j < across_candidates@.len() ==> in_bounds(
                #[trigger] across_candidates@[j].0 as int,
                across_candidates@[j].1 as int,
            ) && !board.occ(across_candidates@[j].0 as int, across_candidates@[j].1 as int)
                && across_candidates@[j].0 == row);
        if board.occ(row as int, col as int) {
            let g = board.tiles();
            lemma_row_start_props(g, row as int, col as int);
            lemma_row_end_props(g, row as int, col as int);
            assert(g[row as int][col as int] == board.tile_at(row as int, col as int));
            assert forall|j: int| 0 <= j < across_candidates@.len() implies (
            #[trigger] across_candidates@[j].1 == row_start(
                board.tiles(),
                row as int,
                col as int,
            ) - 1 || across_candidates@[j].1 == row_end(board.tiles(), row as int, col as int)
                + 1) by {
                let s0 = row_start(g, row as int, col as int);
                let e0 = row_end(g, row as int, col as int);
                assert(forall|j2: int| s0 <= j2 <= e0 ==> #[trigger] g[row as int][j2] != EMPTY);
                if s0 < e0 {
                    assert(g[row as int][s0 + 1] == board.tile_at(row as int, s0 + 1));
                    assert(board.occ(row as int, s0 + 1));
                    assert(g[row as int][e0 - 1] == board.tile_at(row as int, e0 - 1));
                    assert(board.occ(row as int, e0 - 1));
                }
                assert(across_candidates@ == spec_across_candidates(
                    *board,
                    row as int,
                    col as int,
                ));
            }
        } else {
            assert(across_candidates@ =~= seq![(row, col)]);
        }
    }
    let substr: Vec<u8>;
    let has_word: bool;
    match board.get_word_across(row, col) {
        Some(w) => {
            substr = w;
            has_word = true;
        },
        None => {
            substr = Vec::new();
            has_word = false;
        },
    }
    if !board.is_word_down(row, col) {
        return ;
    }
    if !board.substr_promising(&substr) {
        return ;
    }
    if has_word && board.word_in_dict(&substr) {
        let score = board.score();
        if score > best.score {
            proof {
                crate::game::board::lemma_row_start_props(board.tiles(), row as int, col as int);
                crate::game::board::lemma_row_end_props(board.tiles(), row as int, col as int);
            }
            let start = match board.get_leftmost_col(row, col) {
                Some(s) => s,
                None => col,
            };
            proof {
                let g = board.tiles();
                let ws = crate::game::board::row_start(g, row as int, col as int);
                let we = crate::game::board::row_end(g, row as int, col as int);
                assert(substr@ == crate::game::board::row_word(g, row as int, ws, we));
                assert forall|i: int| 0 <= i < substr@.len() implies is_tile(#[trigger] substr@[i])
                    && board.tile_at(row as int, ws + i) == crate::game::board::spec_norm_tile(
                    substr@[i],
                ) by {
                    assert(substr@[i] == g[row as int][ws + i]);
                    assert(g[row as int][ws + i] == board.tile_at(row as int, ws + i));
                    assert(board.occ(row as int, ws + i));
                    assert(is_tile(board.tile_at(row as int, ws + i)));
                }
                assert(board.spec_word_fits(substr@, row as int, ws, true));
                assert(ws == 0 || !board.occ(row as int, ws - 1)) by {
                    if ws != 0 {
                        assert(board.tiles()[row as int][ws - 1] == board.tile_at(
                            row as int,
                            ws - 1,
                        ));
                    }
                }
                assert(ws + substr@.len() == 15 || !board.occ(row as int, ws + substr@.len()))
                    by {
                    if ws + substr@.len() != 15 {
                        assert(board.tiles()[row as int][we + 1] == board.tile_at(
                            row as int,
                            we + 1,
                        ));
                    }
                }
                assert(0 <= anchor@.1 - ws < substr@.len() && board.frontier_has(
                    row as int,
                    ws + (anchor@.1 - ws),
                ));
                assert forall|i: int| 0 <= i < substr@.len() implies down_cross_legal(
                    *board,
                    row as int,
                    ws + i,
                    spec_norm_tile(substr@[i]),
                ) by {
                    assert(board.tile_at(row as int, ws + i) == spec_norm_tile(substr@[i]));
                    assert(board.occ(row as int, ws + i));
                    if ws + i != col {
                        assert(board.spec_is_word_down(row as int, ws + i));
                    }
                    lemma_down_cross_at_tile(*board, row as int, ws + i);
                }
                assert(found_on(*board, substr@, row as int, ws, true));
            }
            best.word = substr;
            best.score = score;
            best.row = row;
            best.col = start;
            best.across = true;
        }
    }
    if tiles.len() == 0 {
        return ;
    }
    let ghost b0 = *board;
    let mut ci: usize = 0;
    while ci < across_candidates.len()
        invariant
            b0.wf(),
            board.wf(),
            same_state(*board, b0),
            ci <= across_candidates@.len(),
            tiles@.len() >= 1,
            forall|k: int| 0 <= k < tiles@.len() ==> is_tile(#[trigger] tiles@[k]),
            b0.staged_spaces@.len() + tiles@.len() <= 15,
            forall|j: int|
                0 <= j < across_candidates@.len() ==> in_bounds(
                    #[trigger] across_candidates@[j].0 as int,
                    across_candidates@[j].1 as int,
                ) && !b0.occ(across_candidates@[j].0 as int, across_candidates@[j].1 as int)
                    && across_candidates@[j].0 == row,
            row < 15,
            col < 15,
            forall|j: int|
                0 <= j < 15 && b0.occ(row as int, j) && j != col ==> b0.spec_is_word_down(
                    row as int,
                    j,
                ),
            b0.spec_is_word_down(row as int, col as int),
            b0.frontier_has(anchor@.0 as int, anchor@.1 as int),
            anchor@.0 == row,
            b0.occ(row as int, col as int) ==> row_start(b0.tiles(), row as int, col as int)
                <= anchor@.1 <= row_end(b0.tiles(), row as int, col as int),
            !b0.occ(row as int, col as int) ==> anchor@.1 == col,
            b0.occ(row as int, col as int) ==> forall|j: int|
                0 <= j < across_candidates@.len() ==> (#[trigger] across_candidates@[j].1
                    == row_start(b0.tiles(), row as int, col as int) - 1 || across_candidates@[j].1
                    == row_end(b0.tiles(), row as int, col as int) + 1),
            !b0.occ(row as int, col as int) ==> across_candidates@ == seq![(row, col)],
            best.score >= old(best).score,
            best.score == old(best).score ==> *best == *old(best),
            best.score > old(best).score ==> best.row == row && best.col < 15 && best.across
                == true && found_on(b0, best.word@, best.row as int, best.col as int, true),
        decreases across_candidates@.len() - ci,
    {
        let cand = across_candidates[ci];
        proof {
            assert(in_bounds(
                across_candidates@[ci as int].0 as int,
                across_candidates@[ci as int].1 as int,
            ));
        }
        let mut ti: usize = 0;
        while ti < tiles.len()
            invariant
                b0.wf(),
                board.wf(),
                same_state(*board, b0),
                ti <= tiles@.len(),
                tiles@.len() >= 1,
                forall|k: int| 0 <= k < tiles@.len() ==> is_tile(#[trigger] tiles@[k]),
                b0.staged_spaces@.len() + tiles@.len() <= 15,
                cand == across_candidates@[ci as int],
                ci < across_candidates@.len(),
                in_bounds(cand.0 as int, cand.1 as int),
                !b0.occ(cand.0 as int, cand.1 as int),
                cand.0 == row,
                row < 15,
                col < 15,
                forall|j: int|
                    0 <= j < 15 && b0.occ(row as int, j) && j != col ==> b0.spec_is_word_down(
                        row as int,
                        j,
                    ),
                b0.spec_is_word_down(row as int, col as int),
                b0.frontier_has(anchor@.0 as int, anchor@.1 as int),
                anchor@.0 == row,
                b0.occ(row as int, col as int) ==> row_start(b0.tiles(), row as int, col as int)
                    <= anchor@.1 <= row_end(b0.tiles(), row as int, col as int),
                !b0.occ(row as int, col as int) ==> anchor@.1 == col,
                b0.occ(row as int, col as int) ==> forall|j: int|
                    0 <= j < across_candidates@.len() ==> (#[trigger] across_candidates@[j].1
                        == row_start(b0.tiles(), row as int, col as int) - 1 || across_candidates@[j].1
                        == row_end(b0.tiles(), row as int, col as int) + 1),
                !b0.occ(row as int, col as int) ==> across_candidates@ == seq![(row, col)],
                best.score >= old(best).score,
                best.score == old(best).score ==> *best == *old(best),
                best.score > old(best).score ==> best.row == row && best.col < 15 && best.across
                    == true && found_on(b0, best.word@, best.row as int, best.col as int, true),
            decreases tiles@.len() - ti,
        {
            let letter = tiles[ti];
            let ghost cur0 = *board;
            let res = board.put_tile(letter, cand.0, cand.1);
            if res.is_ok() {
                let tiles_copy = tiles_without(tiles, ti);
                proof {
                    assert(board.staged_spaces@.len() + tiles_copy@.len() <= 15);
                    assert(forall|k: int|
                        0 <= k < tiles_copy@.len() ==> is_tile(#[trigger] tiles_copy@[k]));
                    assert forall|j: int|
                        0 <= j < 15 && board.occ(row as int, j) && j != cand.1 implies board
                        .spec_is_word_down(row as int, j) by {
                        assert(board.sp(row as int, j) == cur0.sp(row as int, j));
                        assert(cur0.sp(row as int, j) == b0.sp(row as int, j));
                        assert(b0.occ(row as int, j));
                        assert(b0.spec_is_word_down(row as int, j));
                        assert forall|j2: int| 0 <= j2 < 15 implies b0.tiles()[j2][j]
                            == board.tiles()[j2][j] by {
                            assert(b0.sp(j2, j) == cur0.sp(j2, j));
                            assert(board.sp(j2, j) == cur0.sp(j2, j));
                        }
                        lemma_word_down_agrees(b0, *board, row as int, j);
                    }
                    assert(board.neighbors@ == b0.neighbors@);
                    assert(board.frontier_has(anchor@.0 as int, anchor@.1 as int)) by {
                        let k = choose|k: int|
                            0 <= k < b0.neighbors@.len() && b0.neighbors@[k].0 == anchor@.0
                                && b0.neighbors@[k].1 == anchor@.1;
                        assert(board.neighbors@[k].0 == anchor@.0 && board.neighbors@[k].1
                            == anchor@.1);
                    }
                    let g1 = board.tiles();
                    assert forall|r2: int, c2: int|
                        in_bounds(r2, c2) && !(r2 == cand.0 && c2 == cand.1) implies g1[r2][c2]
                        == b0.tiles()[r2][c2] by {
                        assert(board.sp(r2, c2) == cur0.sp(r2, c2));
                        assert(cur0.sp(r2, c2) == b0.sp(r2, c2));
                    }
                    assert(g1[row as int][cand.1 as int] == board.tile_at(row as int, cand.1 as int));
                    assert(board.occ(row as int, cand.1 as int));
                    if b0.occ(row as int, col as int) {
                        let g0 = b0.tiles();
                        let s0 = row_start(g0, row as int, col as int);
                        let e0 = row_end(g0, row as int, col as int);
                        lemma_row_start_props(g0, row as int, col as int);
                        lemma_row_end_props(g0, row as int, col as int);
                        assert(g0[row as int][col as int] == b0.tile_at(row as int, col as int));
                        assert(forall|j2: int| s0 <= j2 <= e0 ==> #[trigger] g0[row as int][j2]
                            != EMPTY);
                        assert(across_candidates@[ci as int].1 == s0 - 1
                            || across_candidates@[ci as int].1 == e0 + 1);
                        assert(cand.1 == s0 - 1 || cand.1 == e0 + 1);
                        assert forall|j2: int| s0 <= j2 <= e0 implies #[trigger] g1[row as int][j2]
                            != EMPTY by {
                            assert(g1[row as int][j2] == b0.tiles()[row as int][j2]);
                        }
                        if cand.1 == s0 - 1 {
                            lemma_row_start_props(g1, row as int, cand.1 as int);
                            lemma_row_end_ge(g1, row as int, cand.1 as int, e0);
                        } else {
                            assert(cand.1 == e0 + 1);
                            lemma_row_end_props(g1, row as int, cand.1 as int);
                            lemma_row_start_le(g1, row as int, cand.1 as int, s0);
                        }
                        assert(row_start(g1, row as int, cand.1 as int) <= anchor@.1 <= row_end(
                            g1,
                            row as int,
                            cand.1 as int,
                        ));
                    } else {
                        assert(cand.1 == col && anchor@.1 == col);
                        lemma_row_start_props(g1, row as int, cand.1 as int);
                        lemma_row_end_props(g1, row as int, cand.1 as int);
                    }
                }
                let ghost before = *best;
                find_words_across(board, &tiles_copy, cand.0, cand.1, best, anchor);
                let ghost mid = *board;
                proof {
                    assert(board.staged_spaces@.last() == cand);
                    assert(board.staged_has(cand.0 as int, cand.1 as int));
                }
                board.remove_tile(cand.0, cand.1);
                proof {
                    assert(same_state(*board, cur0)) by {
                        assert(board.staged_spaces@ =~= cur0.staged_spaces@);
                        assert forall|r2: int, c2: int| in_bounds(r2, c2) implies #[trigger] board
                            .sp(r2, c2) == cur0.sp(r2, c2) by {
                            if r2 == cand.0 as int && c2 == cand.1 as int {
                                assert(cur0.sp(r2, c2).val == 0);
                                assert(cur0.sp(r2, c2).tile == EMPTY);
                            }
                        }
                    }
                    assert(same_state(*board, b0));
                    if !(*best == before) {
                        assert(found_on(mid, best.word@, best.row as int, best.col as int, true));
                        assert(best.row == row);
                        assert forall|r2: int, c2: int|
                            in_bounds(r2, c2) && !(r2 == cand.0 && c2 == cand.1) implies #[trigger] b0
                            .tile_at(r2, c2) == mid.tile_at(r2, c2) by {
                            assert(mid.sp(r2, c2) == cur0.sp(r2, c2));
                            assert(cur0.sp(r2, c2) == b0.sp(r2, c2));
                        }
                        assert(!b0.occ(cand.0 as int, cand.1 as int));
                        lemma_found_on_unwind(
                            mid,
                            b0,
                            best.word@,
                            best.row as int,
                            best.col as int,
                            true,
                            cand.0 as int,
                            cand.1 as int,
                        );
                    }
                }
            }
            ti = ti + 1;
        }
        ci = ci + 1;
    }
    proof {
        if best.score > old(best).score {
            assert forall|r2: int, c2: int| in_bounds(r2, c2) implies #[trigger] board.tile_at(
                r2,
                c2,
            ) == b0.tile_at(r2, c2) by {
                assert(board.sp(r2, c2) == b0.sp(r2, c2));
            }
            lemma_found_on_same(b0, *board, best.word@, best.row as int, best.col as int, true);
        }
    }
}

/// Backtracking search along a column, the mirror of `find_words_across`.
#[verifier::rlimit(100)]
fn find_words_down(board: &mut Board, tiles: &Vec<u8>, row: usize, col: usize, best: &mut
    Candidate, anchor: Ghost<(usize, usize)>)
    requires
        old(board).wf(),
        row < 15,
        col < 15,
        forall|k: int| 0 <= k < tiles@.len() ==> is_tile(#[trigger] tiles@[k]),
        old(board).staged_spaces@.len() + tiles@.len() <= 15,
        forall|j: int|
            0 <= j < 15 && old(board).occ(j, col as int) && j != row ==> old(
                board,
            ).spec_is_word_across(j, col as int),
        old(board).frontier_has(anchor@.0 as int, anchor@.1 as int),
        anchor@.1 == col,
        old(board).occ(row as int, col as int) ==> crate::game::board::col_start(
            old(board).tiles(),
            row as int,
            col as int,
        ) <= anchor@.0 <= crate::game::board::col_end(old(board).tiles(), row as int, col as int),
        !old(board).occ(row as int, col as int) ==> anchor@.0 == row,
    ensures
        final(board).wf(),
        same_state(*final(board), *old(board)),
        final(best).score >= old(best).score,
        final(best).score == old(best).score ==> *final(best) == *old(best),
        final(best).score > old(best).score ==> final(best).row < 15 && final(best).col == col
            && final(best).across == false && found_on(
            *final(board),
            final(best).word@,
            final(best).row as int,
            final(best).col as int,
            false,
        ),
    decreases tiles@.len(),
{
    let down_candidates: Vec<(usize, usize)> = if board.get_tile(row, col) == EMPTY {
        let mut v: Vec<(usize, usize)> = Vec::new();
        v.push((row, col));
        v
    } else {
        get_down_candidates(board, row, col)
    };
    proof {
        assert(forall|j: int|
            0 <= j < down_candidates@.len() ==> in_bounds(
                #[trigger] down_candidates@[j].0 as int,
                down_candidates@[j].1 as int,
            ) && !board.occ(down_candidates@[j].0 as int, down_candidates@[j].1 as int)
                && down_candidates@[j].1 == col);
        if board.occ(row as int, col as int) {
            let g = board.tiles();
            crate::game::board::lemma_col_start_props(g, row as int, col as int);
            crate::game::board::lemma_col_end_props(g, row as int, col as int);
            assert(g[row as int][col as int] == board.tile_at(row as int, col as int));
            assert forall|j: int| 0 <= j < down_candidates@.len() implies (
            #[trigger] down_candidates@[j].0 == crate::game::board::col_start(
                board.tiles(),
                row as int,
                col as int,
            ) - 1 || down_candidates@[j].0 == crate::game::board::col_end(
                board.tiles(),
                row as int,
                col as int,
            ) + 1) by {
                let s0 = crate::game::board::col_start(g, row as int, col as int);
                let e0 = crate::game::board::col_end(g, row as int, col as int);
                assert(forall|j2: int| s0 <= j2 <= e0 ==> #[trigger] g[j2][col as int] != EMPTY);
                if s0 < e0 {
                    assert(g[s0 + 1][col as int] == board.tile_at(s0 + 1, col as int));
                    assert(board.occ(s0 + 1, col as int));
                    assert(g[e0 - 1][col as int] == board.tile_at(e0 - 1, col as int));
                    assert(board.occ(e0 - 1, col as int));
                }
                assert(down_candidates@ == spec_down_candidates(*board, row as int, col as int));
            }
        } else {
            assert(down_candidates@ =~= seq![(row, col)]);
        }
    }
    let substr: Vec<u8>;
    let has_word: bool;
    match board.get_word_down(row, col) {
        Some(w) => {
            substr = w;
            has_word = true;
        },
        None => {
            substr = Vec::new();
            has_word = false;
        },
    }
    if !board.is_word_across(row, col) {
        return ;
    }
    if !board.substr_promising(&substr) {
        return ;
    }
    if has_word && board.word_in_dict(&substr) {
        let score = board.score();
        if score > best.score {
            proof {
                crate::game::board::lemma_col_start_props(board.tiles(), row as int, col as int);
                crate::game::board::lemma_col_end_props(board.tiles(), row as int, col as int);
            }
            let start = match board.get_upmost_row(row, col) {
                Some(s) => s,
                None => row,
            };
            proof {
                let g = board.tiles();
                let ws = crate::game::board::col_start(g, row as int, col as int);
                let we = crate::game::board::col_end(g, row as int, col as int);
                assert(substr@ == crate::game::board::col_word(g, col as int, ws, we));
                assert forall|i: int| 0 <= i < substr@.len() implies is_tile(#[trigger] substr@[i])
                    && board.tile_at(ws + i, col as int) == crate::game::board::spec_norm_tile(
                    substr@[i],
                ) by {
                    assert(substr@[i] == g[ws + i][col as int]);
                    assert(g[ws + i][col as int] == board.tile_at(ws + i, col as int));
                    assert(board.occ(ws + i, col as int));
                    assert(is_tile(board.tile_at(ws + i, col as int)));
                }
                assert(board.spec_word_fits(substr@, ws, col as int, false));
                assert(ws == 0 || !board.occ(ws - 1, col as int)) by {
                    if ws != 0 {
                        assert(board.tiles()[ws - 1][col as int] == board.tile_at(
                            ws - 1,
                            col as int,
                        ));
                    }
                }
                assert(ws + substr@.len() == 15 || !board.occ(ws + substr@.len(), col as int))
                    by {
                    if ws + substr@.len() != 15 {
                        assert(board.tiles()[we + 1][col as int] == board.tile_at(
                            we + 1,
                            col as int,
                        ));
                    }
                }
                assert(0 <= anchor@.0 - ws < substr@.len() && board.frontier_has(
                    ws + (anchor@.0 - ws),
                    col as int,
                ));
                assert forall|i: int| 0 <= i < substr@.len() implies across_cross_legal(
                    *board,
                    ws + i,
                    col as int,
                    spec_norm_tile(substr@[i]),
                ) by {
                    assert(board.tile_at(ws + i, col as int) == spec_norm_tile(substr@[i]));
                    assert(board.occ(ws + i, col as int));
                    if ws + i != row {
                        assert(board.spec_is_word_across(ws + i, col as int));
                    }
                    lemma_across_cross_at_tile(*board, ws + i, col as int);
                }
                assert(found_on(*board, substr@, ws, col as int, false));
            }
            best.word = substr;
            best.score = score;
            best.row = start;
            best.col = col;
            best.across = false;
        }
    }
    if tiles.len() == 0 {
        return ;
    }
    let ghost b0 = *board;
    let mut ci: usize = 0;
    while ci < down_candidates.len()
        invariant
            b0.wf(),
            board.wf(),
            same_state(*board, b0),
            ci <= down_candidates@.len(),
            tiles@.len() >= 1,
            forall|k: int| 0 <= k < tiles@.len() ==> is_tile(#[trigger] tiles@[k]),
            b0.staged_spaces@.len() + tiles@.len() <= 15,
            forall|j: int|
                0 <= j < down_candidates@.len() ==> in_bounds(
                    #[trigger] down_candidates@[j].0 as int,
                    down_candidates@[j].1 as int,
                ) && !b0.occ(down_candidates@[j].0 as int, down_candidates@[j].1 as int)
                    && down_candidates@[j].1 == col,
            row < 15,
            col < 15,
            forall|j: int|
                0 <= j < 15 && b0.occ(j, col as int) && j != row ==> b0.spec_is_word_across(
                    j,
                    col as int,
                ),
            b0.spec_is_word_across(row as int, col as int),
            b0.frontier_has(anchor@.0 as int, anchor@.1 as int),
            anchor@.1 == col,
            b0.occ(row as int, col as int) ==> crate::game::board::col_start(
                b0.tiles(),
                row as int,
                col as int,
            ) <= anchor@.0 <= crate::game::board::col_end(b0.tiles(), row as int, col as int),
            !b0.occ(row as int, col as int) ==> anchor@.0 == row,
            b0.occ(row as int, col as int) ==> forall|j: int|
                0 <= j < down_candidates@.len() ==> (#[trigger] down_candidates@[j].0
                    == crate::game::board::col_start(b0.tiles(), row as int, col as int) - 1
                    || down_candidates@[j].0 == crate::game::board::col_end(
                    b0.tiles(),
                    row as int,
                    col as int,
                ) + 1),
            !b0.occ(row as int, col as int) ==> down_candidates@ == seq![(row, col)],
            best.score >= old(best).score,
            best.score == old(best).score ==> *best == *old(best),
            best.score > old(best).score ==> best.row < 15 && best.col == col && best.across
                == false && found_on(b0, best.word@, best.row as int, best.col as int, false),
        decreases down_candidates@.len() - ci,
    {
        let cand = down_candidates[ci];
        proof {
            assert(in_bounds(
                down_candidates@[ci as int].0 as int,
                down_candidates@[ci as int].1 as int,
            ));
        }
        let mut ti: usize = 0;
        while ti < tiles.len()
            invariant
                b0.wf(),
                board.wf(),
                same_state(*board, b0),
                ti <= tiles@.len(),
                tiles@.len() >= 1,
                forall|k: int| 0 <= k < tiles@.len() ==> is_tile(#[trigger] tiles@[k]),
                b0.staged_spaces@.len() + tiles@.len() <= 15,
                cand == down_candidates@[ci as int],
                ci < down_candidates@.len(),
                in_bounds(cand.0 as int, cand.1 as int),
                !b0.occ(cand.0 as int, cand.1 as int),
                cand.1 == col,
                row < 15,
                col < 15,
                forall|j: int|
                    0 <= j < 15 && b0.occ(j, col as int) && j != row ==> b0.spec_is_word_across(
                        j,
                        col as int,
                    ),
                b0.spec_is_word_across(row as int, col as int),
                b0.frontier_has(anchor@.0 as int, anchor@.1 as int),
                anchor@.1 == col,
                b0.occ(row as int, col as int) ==> crate::game::board::col_start(
                    b0.tiles(),
                    row as int,
                    col as int,
                ) <= anchor@.0 <= crate::game::board::col_end(b0.tiles(), row as int, col as int),
                !b0.occ(row as int, col as int) ==> anchor@.0 == row,
                b0.occ(row as int, col as int) ==> forall|j: int|
                    0 <= j < down_candidates@.len() ==> (#[trigger] down_candidates@[j].0
                        == crate::game::board::col_start(b0.tiles(), row as int, col as int) - 1
                        || down_candidates@[j].0 == crate::game::board::col_end(
                        b0.tiles(),
                        row as int,
                        col as int,
                    ) + 1),
                !b0.occ(row as int, col as int) ==> down_candidates@ == seq![(row, col)],
                best.score >= old(best).score,
                best.score == old(best).score ==> *best == *old(best),
                best.score > old(best).score ==> best.row < 15 && best.col == col && best.across
                    == false && found_on(b0, best.word@, best.row as int, best.col as int, false),
            decreases tiles@.len() - ti,
        {
            let letter = tiles[ti];
            let ghost cur0 = *board;
            let res = board.put_tile(letter, cand.0, cand.1);
            if res.is_ok() {
                let tiles_copy = tiles_without(tiles, ti);
                proof {
                    assert(board.staged_spaces@.len() + tiles_copy@.len() <= 15);
                    assert(forall|k: int|
                        0 <= k < tiles_copy@.len() ==> is_tile(#[trigger] tiles_copy@[k]));
                    assert forall|j: int|
                        0 <= j < 15 && board.occ(j, col as int) && j != cand.0 implies board
                        .spec_is_word_across(j, col as int) by {
                        assert(board.sp(j, col as int) == cur0.sp(j, col as int));
                        assert(cur0.sp(j, col as int) == b0.sp(j, col as int));
                        assert(b0.occ(j, col as int));
                        assert(b0.spec_is_word_across(j, col as int));
                        assert forall|j2: int| 0 <= j2 < 15 implies b0.tiles()[j][j2]
                            == board.tiles()[j][j2] by {
                            assert(b0.sp(j, j2) == cur0.sp(j, j2));
                            assert(board.sp(j, j2) == cur0.sp(j, j2));
                        }
                        lemma_word_across_agrees(b0, *board, j, col as int);
                    }
                    assert(board.neighbors@ == b0.neighbors@);
                    assert(board.frontier_has(anchor@.0 as int, anchor@.1 as int)) by {
                        let k = choose|k: int|
                            0 <= k < b0.neighbors@.len() && b0.neighbors@[k].0 == anchor@.0
                                && b0.neighbors@[k].1 == anchor@.1;
                        assert(board.neighbors@[k].0 == anchor@.0 && board.neighbors@[k].1
                            == anchor@.1);
                    }
                    let g1 = board.tiles();
                    assert forall|r2: int, c2: int|
                        in_bounds(r2, c2) && !(r2 == cand.0 && c2 == cand.1) implies g1[r2][c2]
                        == b0.tiles()[r2][c2] by {
                        assert(board.sp(r2, c2) == cur0.sp(r2, c2));
                        assert(cur0.sp(r2, c2) == b0.sp(r2, c2));
                    }
                    assert(g1[cand.0 as int][col as int] == board.tile_at(cand.0 as int, col as int));
                    assert(board.occ(cand.0 as int, col as int));
                    if b0.occ(row as int, col as int) {
                        let g0 = b0.tiles();
                        let s0 = crate::game::board::col_start(g0, row as int, col as int);
                        let e0 = crate::game::board::col_end(g0, row as int, col as int);
                        crate::game::board::lemma_col_start_props(g0, row as int, col as int);
                        crate::game::board::lemma_col_end_props(g0, row as int, col as int);
                        assert(g0[row as int][col as int] == b0.tile_at(row as int, col as int));
                        assert(forall|j2: int| s0 <= j2 <= e0 ==> #[trigger] g0[j2][col as int]
                            != EMPTY);
                        assert(down_candidates@[ci as int].0 == s0 - 1 || down_candidates@[
                            ci as int].0 == e0 + 1);
                        assert(cand.0 == s0 - 1 || cand.0 == e0 + 1);
                        assert forall|j2: int| s0 <= j2 <= e0 implies #[trigger] g1[j2][col as int]
                            != EMPTY by {
                            assert(g1[j2][col as int] == b0.tiles()[j2][col as int]);
                        }
                        if cand.0 == s0 - 1 {
                            crate::game::board::lemma_col_start_props(g1, cand.0 as int, col as int);
                            crate::game::board::lemma_col_end_ge(g1, cand.0 as int, col as int, e0);
                        } else {
                            assert(cand.0 == e0 + 1);
                            crate::game::board::lemma_col_end_props(g1, cand.0 as int, col as int);
                            crate::game::board::lemma_col_start_le(g1, cand.0 as int, col as int, s0);
                        }
                        assert(crate::game::board::col_start(g1, cand.0 as int, col as int)
                            <= anchor@.0 <= crate::game::board::col_end(
                            g1,
                            cand.0 as int,
                            col as int,
                        ));
                    } else {
                        assert(cand.0 == row && anchor@.0 == row);
                        crate::game::board::lemma_col_start_props(g1, cand.0 as int, col as int);
                        crate::game::board::lemma_col_end_props(g1, cand.0 as int, col as int);
                    }
                }
                let ghost before = *best;
                find_words_down(board, &tiles_copy, cand.0, cand.1, best, anchor);
                let ghost mid = *board;
                proof {
                    assert(board.staged_spaces@.last() == cand);
                    assert(board.staged_has(cand.0 as int, cand.1 as int));
                }
                board.remove_tile(cand.0, cand.1);
                proof {
                    assert(same_state(*board, cur0)) by {
                        assert(board.staged_spaces@ =~= cur0.staged_spaces@);
                        assert forall|r2: int, c2: int| in_bounds(r2, c2) implies #[trigger] board
                            .sp(r2, c2) == cur0.sp(r2, c2) by {
                            if r2 == cand.0 as int && c2 == cand.1 as int {
                                assert(cur0.sp(r2, c2).val == 0);
                                assert(cur0.sp(r2, c2).tile == EMPTY);
                            }
                        }
                    }
                    assert(same_state(*board, b0));
                    if !(*best == before) {
                        assert(found_on(mid, best.word@, best.row as int, best.col as int, false));
                        assert(best.col == col);
                        assert forall|r2: int, c2: int|
                            in_bounds(r2, c2) && !(r2 == cand.0 && c2 == cand.1) implies #[trigger] b0
                            .tile_at(r2, c2) == mid.tile_at(r2, c2) by {
                            assert(mid.sp(r2, c2) == cur0.sp(r2, c2));
                            assert(cur0.sp(r2, c2) == b0.sp(r2, c2));
                        }
                        assert(!b0.occ(cand.0 as int, cand.1 as int));
                        lemma_found_on_unwind(
                            mid,
                            b0,
                            best.word@,
                            best.row as int,
                            best.col as int,
                            false,
                            cand.0 as int,
                            cand.1 as int,
                        );
                    }
                }
            }
            ti = ti + 1;
        }
        ci = ci + 1;
    }
    proof {
        if best.score > old(best).score {
            assert forall|r2: int, c2: int| in_bounds(r2, c2) implies #[trigger] board.tile_at(
                r2,
                c2,
            ) == b0.tile_at(r2, c2) by {
                assert(board.sp(r2, c2) == b0.sp(r2, c2));
            }
            lemma_found_on_same(
                b0,
                *board,
                best.word@,
                best.row as int,
                best.col as int,
                false,
            );
        }
    }
}

/// On a board with nothing staged every standing run is already a committed
/// word, so each occupied cell's across and down words are legal: the ground
/// the searches start from.
proof fn lemma_board_words_legal(b: Board, row: int, col: int)
    requires
        b.wf(),
        b.staged_spaces@.len() == 0,
        in_bounds(row, col),
    ensures
        forall|j: int| 0 <= j < 15 && b.occ(row, j) && j != col ==> b.spec_is_word_down(row, j),
        forall|j: int| 0 <= j < 15 && b.occ(j, col) && j != row ==> b.spec_is_word_across(j, col),
{
    reveal(crate::game::board::grid_words_legal);
    assert(b.committed_tiles() =~~= b.tiles()) by {
        assert forall|r2: int, c2: int| in_bounds(r2, c2) implies b.committed_tiles()[r2][c2]
            == b.tiles()[r2][c2] by {
            assert(!b.staged_has(r2, c2));
            assert(b.tiles()[r2][c2] == b.tile_at(r2, c2));
        }
    }
    assert forall|j: int| 0 <= j < 15 && b.occ(row, j) && j != col implies b.spec_is_word_down(
        row,
        j,
    ) by {
        assert(b.tiles()[row][j] == b.tile_at(row, j));
        assert(b.tiles()[row][j] != EMPTY);
        lemma_col_start_props(b.tiles(), row, j);
        lemma_col_end_props(b.tiles(), row, j);
    }
    assert forall|j: int| 0 <= j < 15 && b.occ(j, col) && j != row implies b.spec_is_word_across(
        j,
        col,
    ) by {
        assert(b.tiles()[j][col] == b.tile_at(j, col));
        assert(b.tiles()[j][col] != EMPTY);
        lemma_row_start_props(b.tiles(), j, col);
        lemma_row_end_props(b.tiles(), j, col);
    }
}

/// Search both axes from one anchor, starting from the caller's best score so
/// branches that cannot improve on it are not recorded.
fn find_words(board: &mut Board, rack: &Rack, row: usize, col: usize, best_score: i64) -> (r:
    Candidate)
    requires
        old(board).wf(),
        rack.wf(),
        row < 15,
        col < 15,
        old(board).staged_spaces@.len() == 0,
        rack.size <= 15,
        best_score >= 0,
        old(board).frontier_has(row as int, col as int),
        !old(board).occ(row as int, col as int),
    ensures
        final(board).wf(),
        same_state(*final(board), *old(board)),
        r.score >= best_score,
        r.score > best_score ==> r.row < 15 && r.col < 15 && found_on(
            *final(board),
            r.word@,
            r.row as int,
            r.col as int,
            r.across,
        ),
{
    let tiles = rack.get_tiles_vec();
    proof {
        crate::game::pool::lemma_rack_prefix_len(rack.tiles@, 27);
        assert(rack.tiles@.take(27) =~= rack.tiles@);
        assert(tiles@.len() == rack.size);
    }
    proof {
        lemma_board_words_legal(*board, row as int, col as int);
    }
    let mut best_across = Candidate {
        word: Vec::new(),
        score: best_score,
        row: 15,
        col: 15,
        across: true,
    };
    find_words_across(board, &tiles, row, col, &mut best_across, Ghost((row, col)));
    let ghost m1 = *board;
    proof {
        lemma_board_words_legal(*board, row as int, col as int);
        assert(board.frontier_has(row as int, col as int)) by {
            let k = choose|k: int|
                0 <= k < old(board).neighbors@.len() && old(board).neighbors@[k].0 == row && old(
                    board,
                ).neighbors@[k].1 == col;
            assert(board.neighbors@[k].0 == row && board.neighbors@[k].1 == col);
        }
        assert(board.sp(row as int, col as int) == old(board).sp(row as int, col as int));
    }
    let mut best_down = Candidate {
        word: Vec::new(),
        score: best_score,
        row: 15,
        col: 15,
        across: false,
    };
    find_words_down(board, &tiles, row, col, &mut best_down, Ghost((row, col)));
    proof {
        if best_across.score > best_score {
            assert forall|r2: int, c2: int| in_bounds(r2, c2) implies #[trigger] board.tile_at(
                r2,
                c2,
            ) == m1.tile_at(r2, c2) by {
                assert(board.sp(r2, c2) == m1.sp(r2, c2));
            }
            lemma_found_on_same(
                m1,
                *board,
                best_across.word@,
                best_across.row as int,
                best_across.col as int,
                true,
            );
        }
    }
    if best_across.score > best_down.score {
        best_across
    } else {
        best_down
    }
}

/// The highest-scoring legal single-turn placement the rack can make, tried
/// from every frontier anchor along both axes; `NoMove` if no placement
/// scores above zero. The board comes back exactly as it went in.
pub fn find_greediest_word(board: &mut Board, rack: &Rack) -> (r: WordChoice)
    requires
        old(board).wf(),
        rack.wf(),
        old(board).staged_spaces@.len() == 0,
        rack.size <= 15,
    ensures
        final(board).wf(),
        same_state(*final(board), *old(board)),
        r matches WordChoice::Found { word, score, row, col, across } ==> score > 0 && row < 15
            && col < 15 && found_on(*final(board), word@, row as int, col as int, across) && (
        forall|b2: Board|
            stages_found(*final(board), b2, word@, row as int, col as int, across)
                ==> #[trigger] b2.spec_valid()),
{
    let neighbors = board.get_neighbors();
    let mut best = Candidate { word: Vec::new(), score: 0, row: 15, col: 15, across: false };
    let ghost b0 = *board;
    let mut i: usize = 0;
    while i < neighbors.len()
        invariant
            b0.wf(),
            board.wf(),
            rack.wf(),
            same_state(*board, b0),
            neighbors@ == b0.neighbors@,
            b0.staged_spaces@.len() == 0,
            rack.size <= 15,
            i <= neighbors@.len(),
            best.score >= 0,
            best.score > 0 ==> best.row < 15 && best.col < 15 && found_on(
                b0,
                best.word@,
                best.row as int,
                best.col as int,
                best.across,
            ),
        decreases neighbors@.len() - i,
    {
        let anchor = neighbors[i];
        proof {
            assert(b0.neighbors@[i as int].0 == anchor.0 && b0.neighbors@[i as int].1 == anchor.1);
            assert(in_bounds(anchor.0 as int, anchor.1 as int));
            assert(b0.frontier_has(anchor.0 as int, anchor.1 as int));
            assert(!b0.staged_has(anchor.0 as int, anchor.1 as int));
            assert(!b0.occ(anchor.0 as int, anchor.1 as int));
            assert(board.frontier_has(anchor.0 as int, anchor.1 as int)) by {
                assert(board.neighbors@[i as int].0 == anchor.0 && board.neighbors@[i as int].1
                    == anchor.1);
            }
            assert(board.sp(anchor.0 as int, anchor.1 as int) == b0.sp(
                anchor.0 as int,
                anchor.1 as int,
            ));
        }
        let found = find_words(board, rack, anchor.0, anchor.1, best.score);
        if found.score > best.score {
            best = found;
            proof {
                assert forall|r2: int, c2: int| in_bounds(r2, c2) implies #[trigger] b0.tile_at(
                    r2,
                    c2,
                ) == board.tile_at(r2, c2) by {
                    assert(board.sp(r2, c2) == b0.sp(r2, c2));
                }
                lemma_found_on_same(
                    *board,
                    b0,
                    best.word@,
                    best.row as int,
                    best.col as int,
                    best.across,
                );
            }
        }
        i = i + 1;
    }
    proof {
        if best.score > 0 {
            assert forall|r2: int, c2: int| in_bounds(r2, c2) implies #[trigger] board.tile_at(
                r2,
                c2,
            ) == b0.tile_at(r2, c2) by {
                assert(board.sp(r2, c2) == b0.sp(r2, c2));
            }
            lemma_found_on_same(
                b0,
                *board,
                best.word@,
                best.row as int,
                best.col as int,
                best.across,
            );
            assert(board.staged_spaces@.len() == 0);
            assert forall|b2: Board|
                stages_found(
                    *board,
                    b2,
                    best.word@,
                    best.row as int,
                    best.col as int,
                    best.across,
                ) implies #[trigger] b2.spec_valid() by {
                lemma_found_play_valid(
                    *board,
                    b2,
                    best.word@,
                    best.row as int,
                    best.col as int,
                    best.across,
                );
            }
        }
    }
    if best.score > 0 {
        WordChoice::Found {
            word: best.word,
            score: best.score,
            row: best.row,
            col: best.col,
            across: best.across,
        }
    } else {
        WordChoice::NoMove
    }
}

} // verus!
