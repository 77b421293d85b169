use vstd::prelude::*;

verus! {

/// Strict lexicographic order on byte strings, the order in which the word
/// lists are kept.
pub open spec fn lex_lt(a: Seq<u8>, b: Seq<u8>) -> bool
    decreases a.len(),
{
    if b.len() == 0 {
        false
    } else if a.len() == 0 {
        true
    } else if a[0] < b[0] {
        true
    } else if a[0] > b[0] {
        false
    } else {
        lex_lt(a.skip(1), b.skip(1))
    }
}

/// `p` is an initial segment of `s`.
pub open spec fn is_prefix(p: Seq<u8>, s: Seq<u8>) -> bool {
    p.len() <= s.len() && p == s.subrange(0, p.len() as int)
}

/// A word list sorted ascending lexicographically.
pub open spec fn sorted_word_list(l: Seq<Vec<u8>>) -> bool {
    forall|i: int, j: int| 0 <= i < j < l.len() ==> !lex_lt(l[j]@, l[i]@)
}

/// `w` occurs in the word list.
pub open spec fn word_list_has(l: Seq<Vec<u8>>, w: Seq<u8>) -> bool {
    exists|i: int| 0 <= i < l.len() && l[i]@ == w
}

/// Some word in the list has `p` as a prefix.
pub open spec fn word_list_extends(l: Seq<Vec<u8>>, p: Seq<u8>) -> bool {
    exists|i: int| 0 <= i < l.len() && is_prefix(p, l[i]@)
}

pub proof fn lemma_lex_irrefl(a: Seq<u8>)
    ensures
        !lex_lt(a, a),
    decreases a.len(),
{
    if a.len() > 0 {
        lemma_lex_irrefl(a.skip(1));
    }
}

pub proof fn lemma_lex_trans(a: Seq<u8>, b: Seq<u8>, c: Seq<u8>)
    requires
        lex_lt(a, b),
        lex_lt(b, c),
    ensures
        lex_lt(a, c),
    decreases a.len(),
{
    if a.len() > 0 && b.len() > 0 && c.len() > 0 && a[0] == b[0] && b[0] == c[0] {
        lemma_lex_trans(a.skip(1), b.skip(1), c.skip(1));
    }
}

pub proof fn lemma_lex_connex(a: Seq<u8>, b: Seq<u8>)
    requires
        !lex_lt(a, b),
        !lex_lt(b, a),
    ensures
        a == b,
    decreases a.len(),
{
    if a.len() == 0 {
        assert(b.len() == 0);
        assert(a =~= b);
    } else {
        assert(b.len() > 0);
        assert(a[0] == b[0]);
        lemma_lex_connex(a.skip(1), b.skip(1));
        assert(a.len() == b.len());
        assert forall|i: int| 0 <= i < a.len() implies a[i] == b[i] by {
            if i >= 1 {
                assert(a[i] == a.skip(1)[i - 1]);
                assert(b[i] == b.skip(1)[i - 1]);
            }
        }
        assert(a =~= b);
    }
}

/// Not being less in either direction is transitive, i.e. `<=` is transitive.
pub proof fn lemma_lex_leq_trans(a: Seq<u8>, b: Seq<u8>, c: Seq<u8>)
    requires
        !lex_lt(b, a),
        !lex_lt(c, b),
    ensures
        !lex_lt(c, a),
{
    if lex_lt(c, a) {
        if lex_lt(a, b) {
            lemma_lex_trans(c, a, b);
        } else {
            lemma_lex_connex(a, b);
        }
        assert(lex_lt(c, b));
    }
}

/// A word never orders below its own prefix.
pub proof fn lemma_prefix_not_lt(p: Seq<u8>, s: Seq<u8>)
    requires
        is_prefix(p, s),
    ensures
        !lex_lt(s, p),
    decreases p.len(),
{
    if p.len() > 0 {
        assert(p[0] == s.subrange(0, p.len() as int)[0]);
        assert(is_prefix(p.skip(1), s.skip(1))) by {
            assert(p.skip(1) =~= s.skip(1).subrange(0, p.len() - 1)) by {
                assert(forall|i: int|
                    0 <= i < p.len() - 1 ==> #[trigger] p.skip(1)[i] == p[i + 1] && p[i + 1]
                        == s.subrange(0, p.len() as int)[i + 1]);
            }
        }
        lemma_prefix_not_lt(p.skip(1), s.skip(1));
    }
}

/// In lexicographic order, everything between a prefix `p` and a word
/// extending `p` also extends `p`.
pub proof fn lemma_prefix_between(p: Seq<u8>, x: Seq<u8>, y: Seq<u8>)
    requires
        !lex_lt(x, p),
        !lex_lt(y, x),
        is_prefix(p, y),
    ensures
        is_prefix(p, x),
    decreases p.len(),
{
    if p.len() == 0 {
        assert(p =~= x.subrange(0, 0));
    } else {
        assert(y.len() > 0);
        assert(p[0] == y.subrange(0, p.len() as int)[0]);
        assert(x.len() > 0);
        assert(x[0] == p[0]) by {
            if x[0] < p[0] {
                assert(lex_lt(x, p));
            }
            if x[0] > p[0] {
                assert(lex_lt(y, x));
            }
        }
        assert(is_prefix(p.skip(1), y.skip(1))) by {
            assert(p.skip(1) =~= y.skip(1).subrange(0, p.len() - 1)) by {
                assert(forall|i: int|
                    0 <= i < p.len() - 1 ==> #[trigger] p.skip(1)[i] == p[i + 1] && p[i + 1]
                        == y.subrange(0, p.len() as int)[i + 1]);
            }
        }
        lemma_prefix_between(p.skip(1), x.skip(1), y.skip(1));
        assert(p.len() <= x.len());
        assert forall|i: int| 0 <= i < p.len() implies p[i] == x.subrange(0, p.len() as int)[i] by {
            if i >= 1 {
                assert(p[i] == p.skip(1)[i - 1]);
                assert(p.skip(1)[i - 1] == x.skip(1).subrange(0, p.len() - 1)[i - 1]);
                assert(x.skip(1).subrange(0, p.len() - 1)[i - 1] == x.skip(1)[i - 1]);
                assert(x.skip(1)[i - 1] == x[i]);
            }
            assert(x.subrange(0, p.len() as int)[i] == x[i]);
        }
        assert(p =~= x.subrange(0, p.len() as int));
    }
}

/// Dropping an equal head byte from both strings keeps their relative order.
pub proof fn lemma_lex_common_prefix(a: Seq<u8>, b: Seq<u8>, n: int)
    requires
        0 <= n <= a.len(),
        n <= b.len(),
        forall|k: int| 0 <= k < n ==> a[k] == b[k],
    ensures
        lex_lt(a, b) == lex_lt(a.skip(n), b.skip(n)),
    decreases n,
{
    if n == 0 {
        assert(a.skip(0) =~= a);
        assert(b.skip(0) =~= b);
    } else {
        assert(a[0] == b[0]);
        assert(lex_lt(a, b) == lex_lt(a.skip(1), b.skip(1)));
        assert(forall|k: int|
            0 <= k < n - 1 ==> #[trigger] a.skip(1)[k] == a[k + 1] && b.skip(1)[k] == b[k + 1]);
        lemma_lex_common_prefix(a.skip(1), b.skip(1), n - 1);
        assert(a.skip(1).skip(n - 1) =~= a.skip(n));
        assert(b.skip(1).skip(n - 1) =~= b.skip(n));
    }
}

/// Byte-string comparison: strict lexicographic order, as the word lists are
/// sorted.
pub fn bytes_lt(a: &Vec<u8>, b: &Vec<u8>) -> (r: bool)
    ensures
        r == lex_lt(a@, b@),
{
    let mut i: usize = 0;
    while i < a.len() && i < b.len()
        invariant
            i <= a.len(),
            i <= b.len(),
            forall|k: int| 0 <= k < i ==> a@[k] == b@[k],
        decreases a.len() - i,
    {
        if a[i] < b[i] {
            proof {
                lemma_lex_common_prefix(a@, b@, i as int);
            }
            return true;
        }
        if a[i] > b[i] {
            proof {
                lemma_lex_common_prefix(a@, b@, i as int);
            }
            return false;
        }
        i = i + 1;
    }
    proof {
        lemma_lex_common_prefix(a@, b@, i as int);
    }
    a.len() < b.len()
}

/// Byte-string equality.
pub fn bytes_eq(a: &Vec<u8>, b: &Vec<u8>) -> (r: bool)
    ensures
        r == (a@ == b@),
{
    if a.len() != b.len() {
        return false;
    }
    let mut i: usize = 0;
    while i < a.len()
        invariant
            a@.len() == b@.len(),
            i <= a.len(),
            forall|k: int| 0 <= k < i ==> a@[k] == b@[k],
        decreases a.len() - i,
    {
        if a[i] != b[i] {
            return false;
        }
        i = i + 1;
    }
    proof {
        assert(a@ =~= b@);
    }
    true
}

/// True iff `p` is an initial segment of `s`.
pub fn bytes_starts_with(s: &Vec<u8>, p: &Vec<u8>) -> (r: bool)
    ensures
        r == is_prefix(p@, s@),
{
    if p.len() > s.len() {
        return false;
    }
    let mut i: usize = 0;
    while i < p.len()
        invariant
            p@.len() <= s@.len(),
            i <= p.len(),
            forall|k: int| 0 <= k < i ==> p@[k] == s@[k],
        decreases p.len() - i,
    {
        if p[i] != s[i] {
            assert(!is_prefix(p@, s@)) by {
                assert(s@.subrange(0, p@.len() as int)[i as int] == s@[i as int]);
            }
            return false;
        }
        i = i + 1;
    }
    proof {
        assert(p@ =~= s@.subrange(0, p@.len() as int));
    }
    true
}

/// True iff the whole list is sorted ascending.
pub fn check_sorted_word_list(l: &Vec<Vec<u8>>) -> (r: bool)
    ensures
        r == sorted_word_list(l@),
{
    let mut i: usize = 1;
    if l.len() < 2 {
        return true;
    }
    while i < l.len()
        invariant
            1 <= i <= l@.len(),
            forall|x: int, y: int| 0 <= x < y < i ==> !lex_lt(l@[y]@, l@[x]@),
        decreases l.len() - i,
    {
        if bytes_lt(&l[i], &l[i - 1]) {
            return false;
        }
        assert forall|x: int, y: int| 0 <= x < y < i + 1 implies !lex_lt(l@[y]@, l@[x]@) by {
            if y == i && x < i - 1 {
                lemma_lex_leq_trans(l@[x]@, l@[i - 1]@, l@[i as int]@);
            }
        }
        i = i + 1;
    }
    true
}

/// Index of the first entry not below `w`; all earlier entries are below it.
fn lower_bound(l: &Vec<Vec<u8>>, w: &Vec<u8>) -> (r: usize)
    requires
        sorted_word_list(l@),
    ensures
        r <= l@.len(),
        forall|i: int| 0 <= i < r ==> lex_lt(l@[i]@, w@),
        forall|i: int| r <= i < l@.len() ==> !lex_lt(l@[i]@, w@),
{
    let mut lo: usize = 0;
    let mut hi: usize = l.len();
    while lo < hi
        invariant
            lo <= hi <= l@.len(),
            sorted_word_list(l@),
            forall|i: int| 0 <= i < lo ==> lex_lt(l@[i]@, w@),
            forall|i: int| hi <= i < l@.len() ==> !lex_lt(l@[i]@, w@),
        decreases hi - lo,
    {
        let mid = lo + (hi - lo) / 2;
        if bytes_lt(&l[mid], w) {
            assert forall|i: int| 0 <= i < mid + 1 implies lex_lt(l@[i]@, w@) by {
                if lo <= i && i < mid {
                    assert(!lex_lt(l@[mid as int]@, l@[i]@));
                    if !lex_lt(l@[i]@, w@) {
                        lemma_lex_leq_trans(w@, l@[i]@, l@[mid as int]@);
                    }
                }
            }
            lo = mid + 1;
        } else {
            assert forall|i: int| mid <= i < l@.len() implies !lex_lt(l@[i]@, w@) by {
                if mid < i && i < hi {
                    assert(!lex_lt(l@[i]@, l@[mid as int]@));
                    lemma_lex_leq_trans(w@, l@[mid as int]@, l@[i]@);
                }
            }
            hi = mid;
        }
    }
    lo
}

/// Exact membership of `w` in a sorted word list, by binary search.
pub fn word_list_contains(l: &Vec<Vec<u8>>, w: &Vec<u8>) -> (r: bool)
    requires
        sorted_word_list(l@),
    ensures
        r == word_list_has(l@, w@),
{
    let lb = lower_bound(l, w);
    if lb < l.len() && bytes_eq(&l[lb], w) {
        return true;
    }
    assert forall|i: int| 0 <= i < l@.len() implies l@[i]@ != w@ by {
        if i < lb {
            lemma_lex_irrefl(w@);
        } else {
            if l@[i]@ == w@ {
                lemma_lex_connex(l@[lb as int]@, l@[i]@);
            }
        }
    }
    false
}

/// True iff some entry of the sorted list has `p` as a prefix: binary search
/// for the insertion point of `p`, then one prefix test there.
pub fn word_list_has_extension(l: &Vec<Vec<u8>>, p: &Vec<u8>) -> (r: bool)
    requires
        sorted_word_list(l@),
    ensures
        r == word_list_extends(l@, p@),
{
    let lb = lower_bound(l, p);
    if lb < l.len() && bytes_starts_with(&l[lb], p) {
        return true;
    }
    assert forall|i: int| 0 <= i < l@.len() implies !is_prefix(p@, l@[i]@) by {
        if is_prefix(p@, l@[i]@) {
            lemma_prefix_not_lt(p@, l@[i]@);
            assert(lb <= i);
            lemma_prefix_between(p@, l@[lb as int]@, l@[i]@);
        }
    }
    false
}

} // verus!
