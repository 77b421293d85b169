use vstd::prelude::*;

use rand::seq::SliceRandom;

use crate::game::board::{in_bounds, Board, PlayError};
use crate::{is_tile, BLANK};

verus! {

/// Index of a tile in the rack's count table: letters map to 0..=25, the
/// blank to 26.
pub open spec fn letter_index(t: u8) -> int {
    if t == BLANK {
        26
    } else {
        t - 65
    }
}

/// The tile whose count table index is `i`.
pub open spec fn index_letter(i: int) -> u8 {
    if i == 26 {
        BLANK
    } else {
        (65 + i) as u8
    }
}

/// Sum of a table of counts.
pub open spec fn sum_counts(s: Seq<usize>) -> int
    decreases s.len(),
{
    if s.len() == 0 {
        0
    } else {
        sum_counts(s.drop_last()) + s.last()
    }
}

pub proof fn lemma_sum_push(s: Seq<usize>, v: usize)
    ensures
        sum_counts(s.push(v)) == sum_counts(s) + v,
{
    assert(s.push(v).drop_last() =~= s);
}

pub proof fn lemma_sum_update(s: Seq<usize>, i: int, v: usize)
    requires
        0 <= i < s.len(),
    ensures
        sum_counts(s.update(i, v)) == sum_counts(s) - s[i] + v,
    decreases s.len(),
{
    if i == s.len() - 1 {
        assert(s.update(i, v).drop_last() =~= s.drop_last());
        assert(s.update(i, v).last() == v);
    } else {
        assert(s.update(i, v).drop_last() =~= s.drop_last().update(i, v));
        assert(s.update(i, v).last() == s.last());
        lemma_sum_update(s.drop_last(), i, v);
    }
}

pub proof fn lemma_sum_element_bound(s: Seq<usize>, i: int)
    requires
        0 <= i < s.len(),
    ensures
        0 <= sum_counts(s),
        s[i] <= sum_counts(s),
    decreases s.len(),
{
    lemma_sum_nonneg(s);
    if i == s.len() - 1 {
        lemma_sum_nonneg(s.drop_last());
    } else {
        lemma_sum_element_bound(s.drop_last(), i);
        assert(s.drop_last()[i] == s[i]);
    }
}

pub proof fn lemma_sum_nonneg(s: Seq<usize>)
    ensures
        0 <= sum_counts(s),
    decreases s.len(),
{
    if s.len() > 0 {
        lemma_sum_nonneg(s.drop_last());
    }
}

/// A prefix of a sequence holds no more copies of any element than the whole.
pub proof fn lemma_take_count_le(s: Seq<u8>, n: int, t: u8)
    requires
        0 <= n <= s.len(),
    ensures
        s.take(n).to_multiset().count(t) <= s.to_multiset().count(t),
    decreases s.len() - n,
{
    broadcast use vstd::seq_lib::group_to_multiset_ensures;

    if n == s.len() {
        assert(s.take(n) =~= s);
    } else {
        lemma_take_count_le(s, n + 1, t);
        assert(s.take(n + 1) =~= s.take(n).push(s[n]));
    }
}

/// A rack of tiles: a count for each letter and the blank, and the running
/// total of all counts.
pub struct Rack {
    pub tiles: Vec<usize>,
    pub size: usize,
}

/// Count table index of a tile.
pub(crate) fn tile_index(t: u8) -> (i: usize)
    requires
        is_tile(t),
    ensures
        i == letter_index(t),
        i < 27,
{
    if t == BLANK {
        26
    } else {
        (t - 65) as usize
    }
}

impl Rack {
    /// How many copies of the tile `t` the rack holds.
    pub open spec fn count_of(self, t: u8) -> int {
        self.tiles@[letter_index(t)] as int
    }

    /// One count for each letter and the blank, with the running total equal
    /// to the sum of the counts.
    pub open spec fn wf(self) -> bool {
        self.tiles@.len() == 27 && self.size == sum_counts(self.tiles@)
    }

    /// An empty rack.
    pub fn new() -> (r: Rack)
        ensures
            r.wf(),
            r.size == 0,
            forall|t: u8| is_tile(t) ==> r.count_of(t) == 0,
    {
        let mut tiles: Vec<usize> = Vec::new();
        let mut i: usize = 0;
        while i < 27
            invariant
                i <= 27,
                tiles@.len() == i,
                sum_counts(tiles@) == 0,
                forall|k: int| 0 <= k < i ==> tiles@[k] == 0,
            decreases 27 - i,
        {
            proof {
                lemma_sum_push(tiles@, 0);
            }
            tiles.push(0);
            i = i + 1;
        }
        Rack { tiles, size: 0 }
    }

    /// Add one tile to the rack.
    pub fn add_tile(&mut self, tile: u8)
        requires
            old(self).wf(),
            is_tile(tile),
            old(self).size < usize::MAX,
        ensures
            final(self).wf(),
            final(self).size == old(self).size + 1,
            final(self).count_of(tile) == old(self).count_of(tile) + 1,
            forall|t: u8|
                is_tile(t) && letter_index(t) != letter_index(tile) ==> final(self).count_of(t)
                    == old(self).count_of(t),
            final(self).tiles@ == old(self).tiles@.update(
                letter_index(tile),
                (old(self).count_of(tile) + 1) as usize,
            ),
    {
        let idx = tile_index(tile);
        let cnt = self.tiles[idx];
        proof {
            lemma_sum_element_bound(self.tiles@, idx as int);
            lemma_sum_update(self.tiles@, idx as int, (cnt + 1) as usize);
        }
        self.tiles[idx] = cnt + 1;
        self.size = self.size + 1;
    }

    /// Remove one copy of a tile that the rack holds.
    pub fn remove_tile(&mut self, tile: u8)
        requires
            old(self).wf(),
            is_tile(tile),
            old(self).count_of(tile) > 0,
        ensures
            final(self).wf(),
            final(self).size == old(self).size - 1,
            final(self).count_of(tile) == old(self).count_of(tile) - 1,
            forall|t: u8|
                is_tile(t) && letter_index(t) != letter_index(tile) ==> final(self).count_of(t)
                    == old(self).count_of(t),
            final(self).tiles@ == old(self).tiles@.update(
                letter_index(tile),
                (old(self).count_of(tile) - 1) as usize,
            ),
    {
        let idx = tile_index(tile);
        let cnt = self.tiles[idx];
        proof {
            lemma_sum_element_bound(self.tiles@, idx as int);
            lemma_sum_update(self.tiles@, idx as int, (cnt - 1) as usize);
        }
        self.tiles[idx] = cnt - 1;
        self.size = self.size - 1;
    }

    /// The rack holds no tiles.
    pub fn is_empty(&self) -> (r: bool)
        ensures
            r == (self.size == 0),
    {
        self.size == 0
    }

    /// The rack holds at least one copy of the tile.
    pub fn has_tile(&self, tile: u8) -> (r: bool)
        requires
            self.wf(),
            is_tile(tile),
        ensures
            r == (self.count_of(tile) > 0),
    {
        let idx = tile_index(tile);
        self.tiles[idx] > 0
    }

    /// Consume one copy of the tile if held; otherwise do nothing.
    pub fn use_tile(&mut self, tile: u8)
        requires
            old(self).wf(),
            is_tile(tile),
        ensures
            final(self).wf(),
            old(self).count_of(tile) == 0 ==> *final(self) == *old(self),
            old(self).count_of(tile) > 0 ==> {
                &&& final(self).size == old(self).size - 1
                &&& final(self).count_of(tile) == old(self).count_of(tile) - 1
                &&& forall|t: u8|
                    is_tile(t) && letter_index(t) != letter_index(tile) ==> final(self).count_of(t)
                        == old(self).count_of(t)
            },
    {
        let idx = tile_index(tile);
        if self.tiles[idx] == 0 {
            return ;
        }
        self.remove_tile(tile);
    }
}

impl Rack {
    /// Draw tiles from the back of the bag until the rack holds seven or the
    /// bag is empty. No tile is lost: per letter, rack and bag together hold
    /// afterwards what they held before.
    pub fn draw(&mut self, bag: &mut Bag)
        requires
            old(self).wf(),
            old(bag).wf(),
            old(self).size + old(bag).tiles@.len() <= usize::MAX,
        ensures
            final(self).wf(),
            final(bag).wf(),
            final(self).size >= 7 || final(bag).tiles@.len() == 0,
            old(self).size >= 7 ==> *final(self) == *old(self) && *final(bag) == *old(bag),
            old(self).size <= 7 ==> final(self).size <= 7,
            final(self).size + final(bag).tiles@.len() == old(self).size + old(
                bag,
            ).tiles@.len(),
            forall|t: u8|
                is_tile(t) ==> final(self).count_of(t) + final(bag).tiles@.to_multiset().count(t)
                    == old(self).count_of(t) + old(bag).tiles@.to_multiset().count(t),
            ({
                let k = if old(self).size >= 7 {
                    0int
                } else if 7 - old(self).size <= old(bag).tiles@.len() {
                    7 - old(self).size
                } else {
                    old(bag).tiles@.len() as int
                };
                &&& final(bag).tiles@ == old(bag).tiles@.take(old(bag).tiles@.len() - k)
                &&& final(self).size == old(self).size + k
                &&& forall|t: u8|
                    is_tile(t) ==> final(self).count_of(t) == old(self).count_of(t) + old(
                        bag,
                    ).tiles@.skip(old(bag).tiles@.len() - k).to_multiset().count(t)
            }),
    {
        proof {
            broadcast use vstd::seq_lib::group_to_multiset_ensures;

            assert(old(bag).tiles@.take(old(bag).tiles@.len() as int) =~= old(bag).tiles@);
            assert forall|t: u8|
                old(bag).tiles@.skip(old(bag).tiles@.len() as int).to_multiset().count(t) == 0 by {
                assert(!old(bag).tiles@.skip(old(bag).tiles@.len() as int).contains(t));
            }
        }
        while self.size < 7
            invariant
                self.wf(),
                bag.wf(),
                old(self).size >= 7 ==> *self == *old(self) && *bag == *old(bag),
                old(self).size <= 7 ==> self.size <= 7,
                self.size + bag.tiles@.len() == old(self).size + old(bag).tiles@.len(),
                self.size >= old(self).size,
                self.size - old(self).size <= old(bag).tiles@.len(),
                bag.tiles@ == old(bag).tiles@.take(
                    old(bag).tiles@.len() - (self.size - old(self).size),
                ),
                forall|t: u8|
                    is_tile(t) ==> self.count_of(t) == old(self).count_of(t) + old(
                        bag,
                    ).tiles@.skip(
                        old(bag).tiles@.len() - (self.size - old(self).size),
                    ).to_multiset().count(t),
                forall|t: u8|
                    is_tile(t) ==> self.count_of(t) + bag.tiles@.to_multiset().count(t) == old(
                        self,
                    ).count_of(t) + old(bag).tiles@.to_multiset().count(t),
            ensures
                self.size >= 7 || bag.tiles@.len() == 0,
            decreases bag.tiles@.len(),
        {
            let ghost obag = old(bag).tiles@;
            let ghost m = obag.len() - (self.size - old(self).size);
            let ghost ob = bag.tiles@;
            let tile = bag.tiles.pop();
            match tile {
                Some(c) => {
                    proof {
                        broadcast use vstd::seq_lib::group_to_multiset_ensures;

                        assert(is_tile(ob[ob.len() - 1]));
                        assert(bag.tiles@ =~= ob.remove(ob.len() - 1));
                        assert(bag.tiles@.to_multiset() =~= ob.to_multiset().remove(
                            ob[ob.len() - 1],
                        ));
                        assert(ob.to_multiset().count(c) > 0) by {
                            assert(ob.contains(c));
                        }
                        assert(m >= 1) by {
                            assert(obag.take(m).len() > 0);
                        }
                        assert(c == obag[m - 1]) by {
                            assert(obag.take(m)[m - 1] == obag[m - 1]);
                        }
                        assert(bag.tiles@ =~= obag.take(m - 1));
                        assert(obag.skip(m - 1).reverse() =~= obag.skip(m).reverse().push(
                            obag[m - 1],
                        ));
                        obag.skip(m - 1).lemma_reverse_to_multiset();
                        obag.skip(m).lemma_reverse_to_multiset();
                        assert(obag.skip(m - 1).to_multiset() =~= obag.skip(m).to_multiset().insert(
                            obag[m - 1],
                        ));
                    }
                    self.add_tile(c);
                },
                None => {
                    return ;
                },
            }
        }
    }
}

/// `t` repeated `n` times.
pub open spec fn repeat_byte(t: u8, n: nat) -> Seq<u8> {
    Seq::new(n, |i: int| t)
}

/// The tiles of a rack laid out in order: the letters A to Z, each repeated
/// by its count, then the blanks.
pub open spec fn rack_prefix(s: Seq<usize>, n: int) -> Seq<u8>
    decreases n,
{
    if n <= 0 {
        Seq::empty()
    } else {
        rack_prefix(s, n - 1) + repeat_byte(index_letter(n - 1), s[n - 1] as nat)
    }
}

impl Rack {
    /// The rack's tiles as a sorted list: A to Z by count, blanks last.
    pub fn get_tiles_vec(&self) -> (r: Vec<u8>)
        requires
            self.wf(),
        ensures
            r@ == rack_prefix(self.tiles@, 27),
            forall|k: int| 0 <= k < r@.len() ==> is_tile(#[trigger] r@[k]),
    {
        let mut result: Vec<u8> = Vec::new();
        let mut i: usize = 0;
        while i < 27
            invariant
                self.wf(),
                i <= 27,
                result@ == rack_prefix(self.tiles@, i as int),
                forall|k: int| 0 <= k < result@.len() ==> is_tile(#[trigger] result@[k]),
            decreases 27 - i,
        {
            let letter: u8 = if i == 26 {
                BLANK
            } else {
                65 + (i as u8)
            };
            proof {
                assert(letter == index_letter(i as int));
                assert(is_tile(letter));
            }
            let n = self.tiles[i];
            let mut j: usize = 0;
            while j < n
                invariant
                    j <= n,
                    is_tile(letter),
                    result@ == rack_prefix(self.tiles@, i as int) + repeat_byte(letter, j as nat),
                    forall|k: int| 0 <= k < result@.len() ==> is_tile(#[trigger] result@[k]),
                decreases n - j,
            {
                result.push(letter);
                proof {
                    assert(result@ =~= rack_prefix(self.tiles@, i as int) + repeat_byte(
                        letter,
                        (j + 1) as nat,
                    ));
                }
                j = j + 1;
            }
            proof {
                assert(n == self.tiles@[i as int]);
                assert(result@ =~= rack_prefix(self.tiles@, i as int + 1));
            }
            i = i + 1;
        }
        result
    }

    /// Swap a chosen set of rack tiles for fresh ones from the bag: the
    /// chosen tiles leave the rack, the rack redraws to seven, and the chosen
    /// tiles go back into the bag, which is reshuffled. If any chosen tile is
    /// not held, nothing changes and the swap is refused.
    pub fn swap(&mut self, bag: &mut Bag, tiles: Vec<u8>) -> (r: Result<(), PlayError>)
        requires
            old(self).wf(),
            old(bag).wf(),
            forall|k: int| 0 <= k < tiles@.len() ==> is_tile(#[trigger] tiles@[k]),
            old(self).size + old(bag).tiles@.len() + tiles@.len() <= usize::MAX,
        ensures
            final(self).wf(),
            final(bag).wf(),
            (r is Ok) == (forall|t: u8|
                is_tile(t) ==> tiles@.to_multiset().count(t) <= old(self).count_of(t)),
            r is Err ==> {
                &&& r == Result::<(), PlayError>::Err(PlayError::TileNotInRack)
                &&& final(self).tiles@ == old(self).tiles@
                &&& final(self).size == old(self).size
                &&& final(bag).tiles@ == old(bag).tiles@
            },
            r is Ok ==> forall|t: u8|
                is_tile(t) ==> final(self).count_of(t) + final(bag).tiles@.to_multiset().count(t)
                    == old(self).count_of(t) + old(bag).tiles@.to_multiset().count(t),
            r is Ok ==> ({
                let k = if old(self).size - tiles@.len() >= 7 {
                    0int
                } else if 7 - (old(self).size - tiles@.len()) <= old(bag).tiles@.len() {
                    7 - (old(self).size - tiles@.len())
                } else {
                    old(bag).tiles@.len() as int
                };
                &&& final(self).size == old(self).size - tiles@.len() + k
                &&& forall|t: u8|
                    is_tile(t) ==> final(self).count_of(t) == old(self).count_of(t)
                        - tiles@.to_multiset().count(t) + old(bag).tiles@.skip(
                        old(bag).tiles@.len() - k,
                    ).to_multiset().count(t)
                &&& forall|t: u8|
                    is_tile(t) ==> final(bag).tiles@.to_multiset().count(t) == old(
                        bag,
                    ).tiles@.take(old(bag).tiles@.len() - k).to_multiset().count(t)
                        + tiles@.to_multiset().count(t)
            }),
            r is Ok && old(self).size <= 7 ==> final(self).size <= 7,
    {
        let ghost orig = *self;
        let mut removed: Vec<u8> = Vec::new();
        let mut i: usize = 0;
        proof {
            broadcast use vstd::seq_lib::group_to_multiset_ensures;

        }
        while i < tiles.len()
            invariant
                orig == *old(self),
                orig.wf(),
                self.wf(),
                self.tiles@.len() == 27,
                bag == old(bag),
                old(bag).wf(),
                forall|k: int| 0 <= k < tiles@.len() ==> is_tile(#[trigger] tiles@[k]),
                orig.size + old(bag).tiles@.len() + tiles@.len() <= usize::MAX,
                i <= tiles@.len(),
                removed@ == tiles@.take(i as int),
                self.size == orig.size - i,
                forall|t: u8|
                    is_tile(t) ==> #[trigger] self.count_of(t) == orig.count_of(t)
                        - tiles@.take(i as int).to_multiset().count(t),
                forall|t: u8|
                    is_tile(t) ==> tiles@.take(i as int).to_multiset().count(t) <= orig.count_of(
                        t,
                    ),
            decreases tiles@.len() - i,
        {
            let t = tiles[i];
            proof {
                broadcast use vstd::seq_lib::group_to_multiset_ensures;

                assert(tiles@.take(i as int).to_multiset().count(t) >= 0);
            }
            if !self.has_tile(t) {
                let ghost stopped = i as int;
                proof {
                    broadcast use vstd::seq_lib::group_to_multiset_ensures;

                    assert forall|t2: u8|
                        tiles@.take(stopped).take(0).to_multiset().count(t2) == 0 by {
                        assert(!tiles@.take(stopped).take(0).contains(t2));
                    }
                }
                let mut j: usize = 0;
                while j < removed.len()
                    invariant
                        orig == *old(self),
                        orig.wf(),
                        self.wf(),
                        bag == old(bag),
                        j <= removed@.len(),
                        removed@ == tiles@.take(stopped),
                        0 <= stopped <= tiles@.len(),
                        forall|k: int| 0 <= k < tiles@.len() ==> is_tile(#[trigger] tiles@[k]),
                        orig.size + tiles@.len() <= usize::MAX,
                        self.size == orig.size - stopped + j,
                        forall|t2: u8|
                            is_tile(t2) ==> tiles@.take(stopped).to_multiset().count(t2)
                                <= orig.count_of(t2),
                        forall|t2: u8|
                            is_tile(t2) ==> #[trigger] self.count_of(t2) == orig.count_of(t2)
                                - tiles@.take(stopped).to_multiset().count(t2) + tiles@.take(
                                stopped,
                            ).take(j as int).to_multiset().count(t2),
                    decreases removed@.len() - j,
                {
                    let c = removed[j];
                    proof {
                        broadcast use vstd::seq_lib::group_to_multiset_ensures;

                        assert(is_tile(removed@[j as int]));
                        assert(tiles@.take(stopped).to_multiset().count(c) <= orig.count_of(c));
                        assert(tiles@.take(stopped).take(j as int).to_multiset().count(c)
                            <= tiles@.take(stopped).to_multiset().count(c)) by {
                            lemma_take_count_le(tiles@.take(stopped), j as int, c);
                        }
                        assert(tiles@.take(stopped).take(j + 1) =~= tiles@.take(stopped).take(
                            j as int,
                        ).push(removed@[j as int]));
                    }
                    self.add_tile(c);
                    j = j + 1;
                }
                proof {
                    broadcast use vstd::seq_lib::group_to_multiset_ensures;

                    assert(tiles@.take(stopped).take(stopped) =~= tiles@.take(stopped));
                    assert(forall|t2: u8|
                        is_tile(t2) ==> #[trigger] self.count_of(t2) == orig.count_of(t2));
                    assert forall|ii: int| 0 <= ii < 27 implies self.tiles@[ii]
                        == orig.tiles@[ii] by {
                        let t2 = index_letter(ii);
                        assert(is_tile(t2));
                        assert(letter_index(t2) == ii);
                        assert(self.count_of(t2) == orig.count_of(t2));
                    }
                    assert(self.tiles@ =~= orig.tiles@);
                    assert(self.size == orig.size);
                    assert(tiles@.take(stopped).push(t) =~= tiles@.take(stopped + 1));
                    assert(tiles@.take(stopped + 1).to_multiset().count(t) > orig.count_of(t));
                    assert(tiles@.to_multiset().count(t) > orig.count_of(t)) by {
                        lemma_take_count_le(tiles@, stopped + 1, t);
                        assert(tiles@.take(tiles@.len() as int) =~= tiles@);
                    }
                }
                return Err(PlayError::TileNotInRack);
            }
            self.remove_tile(t);
            removed.push(t);
            proof {
                broadcast use vstd::seq_lib::group_to_multiset_ensures;

                assert(removed@ =~= tiles@.take(i + 1));
                assert(tiles@.take(i + 1) =~= tiles@.take(i as int).push(t));
            }
            i = i + 1;
        }
        proof {
            broadcast use vstd::seq_lib::group_to_multiset_ensures;

            assert(tiles@.take(tiles@.len() as int) =~= tiles@);
            assert forall|t: u8| is_tile(t) implies tiles@.to_multiset().count(t) <= old(
                self,
            ).count_of(t) by {}
        }
        let ghost rack_pre = *self;
        let ghost bag_pre = *bag;
        self.draw(bag);
        let ghost bag_mid = *bag;
        let ghost rack_mid = *self;
        proof {
            broadcast use vstd::seq_lib::group_to_multiset_ensures;

            assert forall|t: u8| tiles@.take(0).to_multiset().count(t) == 0 by {
                assert(!tiles@.take(0).contains(t));
            }
        }
        let mut j: usize = 0;
        while j < removed.len()
            invariant
                *self == rack_mid,
                bag.wf(),
                j <= removed@.len(),
                removed@ == tiles@,
                forall|k: int| 0 <= k < tiles@.len() ==> is_tile(#[trigger] tiles@[k]),
                forall|t: u8|
                    is_tile(t) ==> #[trigger] bag.tiles@.to_multiset().count(t)
                        == bag_mid.tiles@.to_multiset().count(t) + tiles@.take(
                        j as int,
                    ).to_multiset().count(t),
            decreases removed@.len() - j,
        {
            let c = removed[j];
            proof {
                broadcast use vstd::seq_lib::group_to_multiset_ensures;

                assert(is_tile(removed@[j as int]));
                assert(tiles@.take(j + 1) =~= tiles@.take(j as int).push(removed@[j as int]));
            }
            bag.add_tile(c);
            j = j + 1;
        }
        bag.shuffle();
        proof {
            broadcast use vstd::seq_lib::group_to_multiset_ensures;

            assert(tiles@.take(tiles@.len() as int) =~= tiles@);
            assert(rack_pre.size == orig.size - tiles@.len());
            assert(forall|t: u8|
                is_tile(t) ==> rack_pre.count_of(t) == orig.count_of(t)
                    - tiles@.to_multiset().count(t));
            assert(bag_pre == *old(bag));
        }
        Ok(())
    }

    /// The rack's tiles in the same order as `get_tiles_vec`, as a deque.
    pub fn get_tiles_vecdeque(&self) -> (r: std::collections::VecDeque<u8>)
        requires
            self.wf(),
        ensures
            r@ == rack_prefix(self.tiles@, 27),
    {
        let v = self.get_tiles_vec();
        let mut result: std::collections::VecDeque<u8> = std::collections::VecDeque::new();
        let mut i: usize = 0;
        while i < v.len()
            invariant
                i <= v@.len(),
                result@ =~= v@.take(i as int),
            decreases v@.len() - i,
        {
            result.push_back(v[i]);
            i = i + 1;
        }
        proof {
            assert(result@ =~= v@);
        }
        result
    }
}

/// The rack's counts after taking in, one by one, the first `k` tiles staged
/// on the board.
pub open spec fn counts_with_staged(c: Seq<usize>, b: Board, k: int) -> Seq<usize>
    decreases k,
{
    if k <= 0 {
        c
    } else {
        let c2 = counts_with_staged(c, b, k - 1);
        let t = b.tile_at(b.staged_spaces@[k - 1].0 as int, b.staged_spaces@[k - 1].1 as int);
        c2.update(letter_index(t), (c2[letter_index(t)] + 1) as usize)
    }
}

impl Board {
    /// Return every staged tile to the rack and clear the staging: the grid
    /// reverts to its committed contents, and the rack gains exactly the
    /// staged tiles.
    pub fn unstage_to_rack(&mut self, rack: &mut Rack)
        requires
            old(self).wf(),
            old(rack).wf(),
            old(rack).size + old(self).staged_spaces@.len() <= usize::MAX,
        ensures
            final(self).wf(),
            final(rack).wf(),
            final(self).staged_spaces@.len() == 0,
            final(self).neighbors@ == old(self).neighbors@,
            final(self).word_list == old(self).word_list,
            final(self).partials_list == old(self).partials_list,
            forall|r2: int, c2: int|
                in_bounds(r2, c2) ==> #[trigger] final(self).tile_at(r2, c2) == old(
                    self,
                ).committed_tiles()[r2][c2],
            final(self).committed_tiles() == old(self).committed_tiles(),
            final(rack).tiles@ == counts_with_staged(
                old(rack).tiles@,
                *old(self),
                old(self).staged_spaces@.len() as int,
            ),
            final(rack).size == old(rack).size + old(self).staged_spaces@.len(),
    {
        let mut i: usize = 0;
        while i < self.staged_spaces.len()
            invariant
                *self == *old(self),
                old(self).wf(),
                rack.wf(),
                i <= self.staged_spaces@.len(),
                old(rack).size + old(self).staged_spaces@.len() <= usize::MAX,
                rack.tiles@ == counts_with_staged(old(rack).tiles@, *old(self), i as int),
                rack.size == old(rack).size + i,
            decreases self.staged_spaces@.len() - i,
        {
            let p = self.staged_spaces[i];
            proof {
                assert(self.staged_spaces@[i as int].0 == p.0 && self.staged_spaces@[i as int].1
                    == p.1);
                assert(in_bounds(p.0 as int, p.1 as int) && self.occ(p.0 as int, p.1 as int));
            }
            let t = self.board[p.0][p.1].tile;
            rack.add_tile(t);
            i = i + 1;
        }
        self.unstage();
    }
}

/// The number of tiles a rack lays out is the sum of its first `n` counts.
pub proof fn lemma_rack_prefix_len(s: Seq<usize>, n: int)
    requires
        0 <= n <= s.len(),
    ensures
        rack_prefix(s, n).len() == sum_counts(s.take(n)),
    decreases n,
{
    if n == 0 {
        assert(s.take(0) =~= Seq::<usize>::empty());
    } else {
        lemma_rack_prefix_len(s, n - 1);
        assert(s.take(n).drop_last() =~= s.take(n - 1));
        assert(s.take(n).last() == s[n - 1]);
    }
}

/// The bag of tiles not yet drawn.
pub struct Bag {
    pub tiles: Vec<u8>,
}

/// How many copies of each letter the standard distribution puts in a fresh
/// bag. The blank is not in the distribution.
pub open spec fn standard_bag_count(t: u8) -> nat {
    if t == 65 || t == 73 {
        9  // A I
    } else if t == 69 {
        12  // E
    } else if t == 79 {
        8  // O
    } else if t == 78 || t == 82 || t == 84 {
        6  // N R T
    } else if t == 68 || t == 76 || t == 83 || t == 85 {
        4  // D L S U
    } else if t == 71 {
        3  // G
    } else if t == 66 || t == 67 || t == 70 || t == 72 || t == 77 || t == 80 || t == 86 || t == 87
        || t == 89 {
        2  // B C F H M P V W Y
    } else if t == 74 || t == 75 || t == 81 || t == 88 || t == 90 {
        1  // J K Q X Z
    } else {
        0
    }
}

/// Executable copy of the standard distribution table.
fn bag_count_at(t: u8) -> (n: usize)
    ensures
        n == standard_bag_count(t),
{
    if t == 65 || t == 73 {
        9
    } else if t == 69 {
        12
    } else if t == 79 {
        8
    } else if t == 78 || t == 82 || t == 84 {
        6
    } else if t == 68 || t == 76 || t == 83 || t == 85 {
        4
    } else if t == 71 {
        3
    } else if t == 66 || t == 67 || t == 70 || t == 72 || t == 77 || t == 80 || t == 86 || t == 87
        || t == 89 {
        2
    } else if t == 74 || t == 75 || t == 81 || t == 88 || t == 90 {
        1
    } else {
        0
    }
}

/// Relies on rand's `SliceRandom::shuffle`: an in-place permutation of the
/// slice, drawn from a thread-local generator. The multiset of elements is
/// unchanged; nothing is promised about their order.
#[verifier::external_body]
fn shuffle_bytes(v: &mut Vec<u8>)
    ensures
        final(v)@.to_multiset() == old(v)@.to_multiset(),
{
    v.as_mut_slice().shuffle(&mut rand::rng());
}

impl Bag {
    /// Every tile in the bag is a letter or blank.
    pub open spec fn wf(self) -> bool {
        forall|k: int| 0 <= k < self.tiles@.len() ==> is_tile(#[trigger] self.tiles@[k])
    }

    /// A fresh bag: the standard letter distribution, shuffled.
    pub fn new() -> (b: Bag)
        ensures
            b.wf(),
            forall|t: u8| b.tiles@.to_multiset().count(t) == standard_bag_count(t),
    {
        let mut tiles: Vec<u8> = Vec::new();
        proof {
            broadcast use vstd::seq_lib::group_to_multiset_ensures;

            assert forall|t: u8| tiles@.to_multiset().count(t) == 0 by {
                assert(!tiles@.contains(t));
            }
        }
        let mut letter: u8 = 65;
        while letter <= 90
            invariant
                65 <= letter <= 91,
                forall|k: int| 0 <= k < tiles@.len() ==> is_tile(#[trigger] tiles@[k]),
                forall|t: u8|
                    tiles@.to_multiset().count(t) == (if 65 <= t < letter {
                        standard_bag_count(t)
                    } else {
                        0
                    }),
            decreases 91 - letter,
        {
            let n = bag_count_at(letter);
            let mut j: usize = 0;
            while j < n
                invariant
                    65 <= letter <= 90,
                    j <= n,
                    n == standard_bag_count(letter),
                    forall|k: int| 0 <= k < tiles@.len() ==> is_tile(#[trigger] tiles@[k]),
                    forall|t: u8|
                        tiles@.to_multiset().count(t) == (if 65 <= t < letter {
                            standard_bag_count(t)
                        } else if t == letter {
                            j as nat
                        } else {
                            0
                        }),
                decreases n - j,
            {
                let ghost before = tiles@;
                tiles.push(letter);
                proof {
                    broadcast use vstd::seq_lib::to_multiset_build;

                    assert(tiles@.to_multiset() =~= before.to_multiset().insert(letter));
                }
                j = j + 1;
            }
            letter = letter + 1;
        }
        shuffle_bytes(&mut tiles);
        let b = Bag { tiles };
        proof {
            assert forall|k: int| 0 <= k < b.tiles@.len() implies is_tile(
                #[trigger] b.tiles@[k],
            ) by {
                broadcast use vstd::seq_lib::group_to_multiset_ensures;

                assert(b.tiles@.contains(b.tiles@[k]));
                assert(b.tiles@.to_multiset().count(b.tiles@[k]) > 0);
            }
        }
        b
    }

    /// Put one tile back into the bag; shuffle afterwards.
    pub fn add_tile(&mut self, tile: u8)
        requires
            old(self).wf(),
            is_tile(tile),
        ensures
            final(self).wf(),
            final(self).tiles@.to_multiset() == old(self).tiles@.to_multiset().insert(tile),
    {
        self.tiles.push(tile);
        proof {
            broadcast use vstd::seq_lib::to_multiset_build;

            assert(self.tiles@.to_multiset() =~= old(self).tiles@.to_multiset().insert(tile));
        }
    }

    /// Shuffle the bag in place: the same tiles, in an order chosen by the
    /// random generator.
    pub fn shuffle(&mut self)
        requires
            old(self).wf(),
        ensures
            final(self).wf(),
            final(self).tiles@.to_multiset() == old(self).tiles@.to_multiset(),
    {
        shuffle_bytes(&mut self.tiles);
        proof {
            assert forall|k: int| 0 <= k < self.tiles@.len() implies is_tile(
                #[trigger] self.tiles@[k],
            ) by {
                broadcast use vstd::seq_lib::group_to_multiset_ensures;

                assert(self.tiles@.contains(self.tiles@[k]));
                assert(self.tiles@.to_multiset().count(self.tiles@[k]) > 0);
                assert(old(self).tiles@.to_multiset().count(self.tiles@[k]) > 0);
                assert(old(self).tiles@.contains(self.tiles@[k]));
            }
        }
    }

    /// How many tiles remain.
    pub fn size(&self) -> (r: usize)
        ensures
            r == self.tiles@.len(),
    {
        self.tiles.len()
    }

    /// No tiles remain.
    pub fn is_empty(&self) -> (r: bool)
        ensures
            r == (self.tiles@.len() == 0),
    {
        self.tiles.is_empty()
    }

    /// Move up to `n` tiles from the back of the bag onto the given list.
    pub fn draw(&mut self, rack: &mut Vec<u8>, n: i32)
        requires
            old(self).wf(),
            old(rack)@.len() + old(self).tiles@.len() <= usize::MAX,
        ensures
            final(self).wf(),
            ({
                let k = if n <= 0 {
                    0int
                } else if n as int <= old(self).tiles@.len() {
                    n as int
                } else {
                    old(self).tiles@.len() as int
                };
                &&& final(self).tiles@ == old(self).tiles@.take(old(self).tiles@.len() - k)
                &&& final(rack)@ == old(rack)@ + old(self).tiles@.skip(
                    old(self).tiles@.len() - k,
                ).reverse()
            }),
    {
        let ghost k = if n <= 0 {
            0int
        } else if n as int <= old(self).tiles@.len() {
            n as int
        } else {
            old(self).tiles@.len() as int
        };
        proof {
            assert(old(self).tiles@.take(old(self).tiles@.len() as int) =~= old(self).tiles@);
            assert(old(self).tiles@.skip(old(self).tiles@.len() as int).reverse()
                =~= Seq::<u8>::empty());
            assert(old(rack)@ + old(self).tiles@.skip(old(self).tiles@.len() as int).reverse()
                =~= old(rack)@);
        }
        let mut drawn: i32 = 0;
        while drawn < n
            invariant
                old(self).wf(),
                old(rack)@.len() + old(self).tiles@.len() <= usize::MAX,
                k == (if n <= 0 {
                    0int
                } else if n as int <= old(self).tiles@.len() {
                    n as int
                } else {
                    old(self).tiles@.len() as int
                }),
                0 <= drawn,
                n <= 0 ==> drawn == 0,
                n > 0 ==> drawn <= n,
                drawn as int <= old(self).tiles@.len(),
                self.tiles@ == old(self).tiles@.take(old(self).tiles@.len() - drawn),
                rack@ == old(rack)@ + old(self).tiles@.skip(
                    old(self).tiles@.len() - drawn,
                ).reverse(),
            ensures
                drawn == n || n <= 0 || self.tiles@.len() == 0,
                0 <= drawn,
                n <= 0 ==> drawn == 0,
                n > 0 ==> drawn <= n,
                drawn as int <= old(self).tiles@.len(),
                self.tiles@ == old(self).tiles@.take(old(self).tiles@.len() - drawn),
                rack@ == old(rack)@ + old(self).tiles@.skip(
                    old(self).tiles@.len() - drawn,
                ).reverse(),
            decreases n - drawn,
        {
            let ghost ob = old(self).tiles@;
            let ghost m = ob.len() - drawn;
            let tile = self.tiles.pop();
            match tile {
                Some(c) => {
                    rack.push(c);
                    proof {
                        assert(m >= 1) by {
                            assert(ob.take(m).len() > 0);
                        }
                        assert(self.tiles@ =~= ob.take(m - 1));
                        assert(c == ob[m - 1]) by {
                            assert(ob.take(m)[m - 1] == ob[m - 1]);
                        }
                        assert(ob.skip(m - 1).reverse() =~= ob.skip(m).reverse().push(ob[m - 1]));
                        assert(rack@ =~= old(rack)@ + ob.skip(m - 1).reverse());
                    }
                },
                None => {
                    proof {
                        assert(ob.take(m).len() == 0);
                        assert(m == 0);
                        assert(drawn as int == ob.len());
                        assert(k == drawn as int);
                    }
                    return ;
                },
            }
            drawn = drawn + 1;
        }
        proof {
            let ob = old(self).tiles@;
            if n <= 0 {
                assert(k == drawn as int);
            } else if drawn == n {
                assert(k == drawn as int);
            } else {
                assert(self.tiles@.len() == 0);
                assert(ob.take(ob.len() - drawn).len() == 0);
                assert(k == drawn as int);
            }
        }
    }
}

} // verus!
