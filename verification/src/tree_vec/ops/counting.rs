//! Counting the entries of a sequence that are below or equal to a value.

use vstd::prelude::*;

verus! {

/// How many of the first `upto` entries of `s` are below `b`.
pub open spec fn count_below(s: Seq<usize>, upto: int, b: usize) -> nat
    decreases upto,
{
    if upto <= 0 {
        0
    } else {
        count_below(s, upto - 1, b) + if s[upto - 1] < b {
            1nat
        } else {
            0nat
        }
    }
}

pub proof fn lemma_count_below_bound(s: Seq<usize>, upto: int, b: usize)
    requires
        0 <= upto,
    ensures
        count_below(s, upto, b) <= upto,
    decreases upto,
{
    if upto > 0 {
        lemma_count_below_bound(s, upto - 1, b);
    }
}

/// Where every entry is below `b`, all are counted.
pub proof fn lemma_count_below_all(s: Seq<usize>, upto: int, b: usize)
    requires
        0 <= upto <= s.len(),
        forall|j: int| 0 <= j < upto ==> #[trigger] s[j] < b,
    ensures
        count_below(s, upto, b) == upto,
    decreases upto,
{
    if upto > 0 {
        lemma_count_below_all(s, upto - 1, b);
    }
}

pub proof fn lemma_count_below_none(keys: Seq<usize>, upto: int, b: usize)
    requires
        0 <= upto <= keys.len(),
        forall|q: int| 0 <= q < upto ==> !(#[trigger] keys[q] < b),
    ensures
        count_below(keys, upto, b) == 0,
    decreases upto,
{
    if upto > 0 {
        lemma_count_below_none(keys, upto - 1, b);
    }
}

pub proof fn lemma_count_below_monotone(keys: Seq<usize>, m: int, x: usize, y: usize)
    requires
        x <= y,
    ensures
        count_below(keys, m, x) <= count_below(keys, m, y),
    decreases m,
{
    if m > 0 {
        lemma_count_below_monotone(keys, m - 1, x, y);
    }
}

pub proof fn lemma_count_below_strict(keys: Seq<usize>, m: int, q: int, y: usize)
    requires
        0 <= q < m,
        keys[q] < y,
    ensures
        count_below(keys, m, keys[q]) < count_below(keys, m, y),
    decreases m,
{
    if q == m - 1 {
        lemma_count_below_monotone(keys, m - 1, keys[q], y);
    } else {
        lemma_count_below_strict(keys, m - 1, q, y);
    }
}

pub proof fn lemma_insert_places<T>(s: Seq<T>, q: int, x: T)
    requires
        0 <= q <= s.len(),
    ensures
        s.insert(q, x).len() == s.len() + 1,
        s.insert(q, x)[q] == x,
        forall|j: int| 0 <= j < q ==> #[trigger] s.insert(q, x)[j] == s[j],
        forall|j: int| q < j <= s.len() ==> #[trigger] s.insert(q, x)[j] == s[j - 1],
{
}

/// Counting below `b` in a sequence into which an entry was put.
pub proof fn lemma_count_below_insert(s: Seq<usize>, q: int, x: usize, upto: int, b: usize)
    requires
        0 <= q <= s.len(),
        0 <= upto <= s.len() + 1,
    ensures
        count_below(s.insert(q, x), upto, b) == count_below(
            s,
            if upto <= q {
                upto
            } else {
                upto - 1
            },
            b,
        ) + if q < upto && x < b {
            1nat
        } else {
            0nat
        },
    decreases upto,
{
    lemma_insert_places(s, q, x);
    if upto > 0 {
        lemma_count_below_insert(s, q, x, upto - 1, b);
        let t = s.insert(q, x);
        if upto - 1 < q {
            assert(t[upto - 1] == s[upto - 1]);
        } else if upto - 1 == q {
            assert(t[upto - 1] == x);
        } else {
            assert(t[upto - 1] == s[upto - 2]);
        }
    }
}

/// Where the entries below `b` stand before `pos` and the others behind,
/// `pos` entries are below `b`.
pub proof fn lemma_count_below_split(s: Seq<usize>, pos: int, upto: int, b: usize)
    requires
        0 <= pos <= upto <= s.len(),
        forall|i: int| 0 <= i < pos ==> #[trigger] s[i] < b,
        forall|i: int| pos <= i < upto ==> #[trigger] s[i] >= b,
    ensures
        count_below(s, upto, b) == pos,
    decreases upto,
{
    if upto > pos {
        lemma_count_below_split(s, pos, upto - 1, b);
    } else {
        lemma_count_below_all(s, pos, b);
    }
}

/// How many of the first `upto` keys are `x`.
pub open spec fn count_equal(keys: Seq<usize>, upto: int, x: usize) -> nat
    decreases upto,
{
    if upto <= 0 {
        0
    } else {
        count_equal(keys, upto - 1, x) + if keys[upto - 1] == x {
            1nat
        } else {
            0nat
        }
    }
}

pub proof fn lemma_count_equal_prefix(a: Seq<usize>, b: Seq<usize>, upto: int, x: usize)
    requires
        0 <= upto <= a.len(),
        upto <= b.len(),
        forall|q: int| 0 <= q < upto ==> a[q] == b[q],
    ensures
        count_equal(a, upto, x) == count_equal(b, upto, x),
    decreases upto,
{
    if upto > 0 {
        lemma_count_equal_prefix(a, b, upto - 1, x);
    }
}

pub proof fn lemma_count_equal_concat(a: Seq<usize>, b: Seq<usize>, upto: int, x: usize)
    requires
        0 <= upto <= b.len(),
    ensures
        count_equal(a + b, a.len() + upto, x) == count_equal(a, a.len() as int, x) + count_equal(
            b,
            upto,
            x,
        ),
    decreases upto,
{
    if upto == 0 {
        lemma_count_equal_prefix(a + b, a, a.len() as int, x);
    } else {
        lemma_count_equal_concat(a, b, upto - 1, x);
        assert((a + b)[a.len() + upto - 1] == b[upto - 1]);
    }
}

pub proof fn lemma_count_equal_none(keys: Seq<usize>, upto: int, x: usize)
    requires
        0 <= upto <= keys.len(),
        forall|q: int| 0 <= q < upto ==> #[trigger] keys[q] != x,
    ensures
        count_equal(keys, upto, x) == 0,
    decreases upto,
{
    if upto > 0 {
        lemma_count_equal_none(keys, upto - 1, x);
    }
}

pub proof fn lemma_count_equal_one(keys: Seq<usize>, upto: int, a: int, x: usize)
    requires
        0 <= a < upto <= keys.len(),
        keys[a] == x,
    ensures
        count_equal(keys, upto, x) >= 1,
    decreases upto,
{
    if a < upto - 1 {
        lemma_count_equal_one(keys, upto - 1, a, x);
    }
}

/// Where a key is counted, it stands at some place.
pub proof fn lemma_count_equal_place(keys: Seq<usize>, upto: int, x: usize) -> (q: int)
    requires
        0 <= upto <= keys.len(),
        count_equal(keys, upto, x) >= 1,
    ensures
        0 <= q < upto,
        keys[q] == x,
    decreases upto,
{
    if keys[upto - 1] == x {
        upto - 1
    } else {
        lemma_count_equal_place(keys, upto - 1, x)
    }
}

pub proof fn lemma_count_equal_two(keys: Seq<usize>, upto: int, a: int, b: int, x: usize)
    requires
        0 <= a < b < upto <= keys.len(),
        keys[a] == x,
        keys[b] == x,
    ensures
        count_equal(keys, upto, x) >= 2,
    decreases upto,
{
    if b == upto - 1 {
        lemma_count_equal_one(keys, upto - 1, a, x);
    } else {
        lemma_count_equal_two(keys, upto - 1, a, b, x);
    }
}

pub proof fn lemma_count_below_next(keys: Seq<usize>, upto: int, x: usize)
    requires
        x < usize::MAX,
    ensures
        count_below(keys, upto, (x + 1) as usize) == count_below(keys, upto, x) + count_equal(
            keys,
            upto,
            x,
        ),
    decreases upto,
{
    if upto > 0 {
        lemma_count_below_next(keys, upto - 1, x);
    }
}

} // verus!
