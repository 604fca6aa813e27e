//! Edit distance between byte strings, with an early exit at a bound.

use vstd::prelude::*;
use vstd::math::min;
use vstd::utf8::encode_utf8;

verus! {

/// The least of three numbers.
pub open spec fn least(x: int, y: int, z: int) -> int {
    min(min(x, y), z)
}

/// What replacing `x` by `y` costs: nothing where they are equal, else one edit.
pub open spec fn replace_cost<T>(x: T, y: T) -> nat {
    if x == y {
        0
    } else {
        1
    }
}

/// The Levenshtein distance: the least number of single-item insertions,
/// deletions and replacements that turn `a` into `b`, given by how the
/// distance of two sequences follows from those of their beginnings.
pub open spec fn lev<T>(a: Seq<T>, b: Seq<T>) -> nat
    decreases a.len() + b.len(),
{
    if a.len() == 0 {
        b.len()
    } else if b.len() == 0 {
        a.len()
    } else {
        let delete = lev(a.drop_last(), b) + 1;
        let insert = lev(a, b.drop_last()) + 1;
        let replace = lev(a.drop_last(), b.drop_last()) + replace_cost(a.last(), b.last());
        least(delete as int, insert as int, replace as int) as nat
    }
}

/// One step of an edit script, which turns one sequence into another from
/// left to right.
pub enum Edit {
    /// Take the next item over, or replace it where the two differ.
    Pair,
    /// Drop the next item.
    Delete,
    /// Put in an item.
    Insert,
}

/// The number of edits that a script makes in turning `a` into `b`: every
/// deletion, every insertion, and every pair of items that differ. `None`
/// where the script does not lead from `a` to `b`.
pub open spec fn script_cost<T>(script: Seq<Edit>, a: Seq<T>, b: Seq<T>) -> Option<nat>
    decreases script.len(),
{
    if script.len() == 0 {
        if a.len() == 0 && b.len() == 0 {
            Some(0)
        } else {
            None
        }
    } else {
        let before = script.drop_last();
        match script.last() {
            Edit::Pair => if a.len() > 0 && b.len() > 0 {
                match script_cost(before, a.drop_last(), b.drop_last()) {
                    Some(c) => Some(c + replace_cost(a.last(), b.last())),
                    None => None,
                }
            } else {
                None
            },
            Edit::Delete => if a.len() > 0 {
                match script_cost(before, a.drop_last(), b) {
                    Some(c) => Some(c + 1),
                    None => None,
                }
            } else {
                None
            },
            Edit::Insert => if b.len() > 0 {
                match script_cost(before, a, b.drop_last()) {
                    Some(c) => Some(c + 1),
                    None => None,
                }
            } else {
                None
            },
        }
    }
}

/// No script that leads from `a` to `b` makes fewer edits than the distance.
pub proof fn lemma_lev_is_least<T>(script: Seq<Edit>, a: Seq<T>, b: Seq<T>)
    requires
        script_cost(script, a, b) is Some,
    ensures
        lev(a, b) <= script_cost(script, a, b)->0,
    decreases script.len(),
{
    if script.len() > 0 {
        let before = script.drop_last();
        match script.last() {
            Edit::Pair => {
                lemma_lev_is_least(before, a.drop_last(), b.drop_last());
            },
            Edit::Delete => {
                lemma_lev_is_least(before, a.drop_last(), b);
            },
            Edit::Insert => {
                lemma_lev_is_least(before, a, b.drop_last());
            },
        }
    }
}

/// Some script that leads from `a` to `b` makes exactly as many edits as
/// the distance.
pub proof fn lemma_lev_is_reached<T>(a: Seq<T>, b: Seq<T>) -> (script: Seq<Edit>)
    ensures
        script_cost(script, a, b) == Some(lev(a, b)),
    decreases a.len() + b.len(),
{
    if a.len() == 0 && b.len() == 0 {
        Seq::empty()
    } else if a.len() == 0 {
        let before = lemma_lev_is_reached(a, b.drop_last());
        let script = before.push(Edit::Insert);
        assert(script.drop_last() == before);
        script
    } else if b.len() == 0 {
        let before = lemma_lev_is_reached(a.drop_last(), b);
        let script = before.push(Edit::Delete);
        assert(script.drop_last() == before);
        script
    } else {
        let delete = lev(a.drop_last(), b) + 1;
        let insert = lev(a, b.drop_last()) + 1;
        if lev(a, b) == delete {
            let before = lemma_lev_is_reached(a.drop_last(), b);
            let script = before.push(Edit::Delete);
            assert(script.drop_last() == before);
            script
        } else if lev(a, b) == insert {
            let before = lemma_lev_is_reached(a, b.drop_last());
            let script = before.push(Edit::Insert);
            assert(script.drop_last() == before);
            script
        } else {
            let before = lemma_lev_is_reached(a.drop_last(), b.drop_last());
            let script = before.push(Edit::Pair);
            assert(script.drop_last() == before);
            script
        }
    }
}

/// The distance between the first `i` items of `a` and the first `j` of `b`.
pub open spec fn cell<T>(a: Seq<T>, b: Seq<T>, i: int, j: int) -> nat {
    lev(a.take(i), b.take(j))
}

/// The distance, reported as `bound + 1` wherever it is greater than `bound`.
pub open spec fn capped_lev<T>(a: Seq<T>, b: Seq<T>, bound: nat) -> nat {
    min(lev(a, b) as int, bound as int + 1) as nat
}

/// How one cell of the table follows from its three neighbours.
pub proof fn lemma_cell_step<T>(a: Seq<T>, b: Seq<T>, i: int, j: int)
    requires
        0 < i <= a.len(),
        0 < j <= b.len(),
    ensures
        cell(a, b, i, j) == least(
            cell(a, b, i - 1, j) as int + 1,
            cell(a, b, i, j - 1) as int + 1,
            cell(a, b, i - 1, j - 1) as int + replace_cost(a[i - 1], b[j - 1]) as int,
        ),
{
    assert(a.take(i).drop_last() == a.take(i - 1));
    assert(b.take(j).drop_last() == b.take(j - 1));
}

/// The first row and the first column of the table count plain insertions
/// and deletions.
pub proof fn lemma_cell_edge<T>(a: Seq<T>, b: Seq<T>, i: int, j: int)
    requires
        0 <= i <= a.len(),
        0 <= j <= b.len(),
    ensures
        cell(a, b, 0, j) == j,
        cell(a, b, i, 0) == i,
{
}

/// The distance is at most the length of the longer side.
pub proof fn lemma_lev_upper<T>(a: Seq<T>, b: Seq<T>)
    ensures
        lev(a, b) <= a.len() || lev(a, b) <= b.len(),
    decreases a.len() + b.len(),
{
    if a.len() > 0 && b.len() > 0 {
        lemma_lev_upper(a.drop_last(), b.drop_last());
    }
}

/// The distance from a sequence to itself is zero.
pub proof fn lemma_lev_same<T>(a: Seq<T>)
    ensures
        lev(a, a) == 0,
    decreases a.len(),
{
    if a.len() > 0 {
        lemma_lev_same(a.drop_last());
    }
}

/// The distance from `a` to `b` is the distance from `b` to `a`.
pub proof fn lemma_lev_symmetric<T>(a: Seq<T>, b: Seq<T>)
    ensures
        lev(a, b) == lev(b, a),
    decreases a.len() + b.len(),
{
    if a.len() > 0 && b.len() > 0 {
        lemma_lev_symmetric(a.drop_last(), b);
        lemma_lev_symmetric(a, b.drop_last());
        lemma_lev_symmetric(a.drop_last(), b.drop_last());
    }
}

/// The distance is at least the difference of the two lengths.
pub proof fn lemma_lev_lower<T>(a: Seq<T>, b: Seq<T>)
    ensures
        lev(a, b) >= a.len() - b.len(),
        lev(a, b) >= b.len() - a.len(),
    decreases a.len() + b.len(),
{
    if a.len() > 0 && b.len() > 0 {
        lemma_lev_lower(a.drop_last(), b);
        lemma_lev_lower(a, b.drop_last());
        lemma_lev_lower(a.drop_last(), b.drop_last());
    }
}

/// A floor under all of row `i` is a floor under cell `j` of the next row.
proof fn lemma_floor_next_cell<T>(a: Seq<T>, b: Seq<T>, i: int, r: int, j: int)
    requires
        0 <= i < a.len(),
        0 <= j <= b.len(),
        forall|k: int| 0 <= k <= b.len() ==> #[trigger] cell(a, b, i, k) >= r,
    ensures
        cell(a, b, i + 1, j) >= r,
    decreases j,
{
    if j == 0 {
        lemma_cell_edge(a, b, i, 0);
        lemma_cell_edge(a, b, i + 1, 0);
    } else {
        lemma_floor_next_cell(a, b, i, r, j - 1);
        lemma_cell_step(a, b, i + 1, j);
    }
}

/// A floor under all of one row of the table is a floor under the distance.
pub proof fn lemma_row_floor<T>(a: Seq<T>, b: Seq<T>, i: int, r: int)
    requires
        0 <= i <= a.len(),
        forall|k: int| 0 <= k <= b.len() ==> #[trigger] cell(a, b, i, k) >= r,
    ensures
        lev(a, b) >= r,
    decreases a.len() - i,
{
    if i == a.len() {
        assert(a.take(i) == a);
        assert(b.take(b.len() as int) == b);
        assert(cell(a, b, i, b.len() as int) >= r);
    } else {
        let next = i + 1;
        assert forall|k: int| 0 <= k <= b.len() implies #[trigger] cell(a, b, next, k) >= r by {
            lemma_floor_next_cell(a, b, i, r, k);
        }
        lemma_row_floor(a, b, next, r);
    }
}

/// The smaller of a length and `bound + 1`.
fn cap(len: usize, bound: usize) -> (d: usize)
    requires
        bound < usize::MAX,
    ensures
        d == min(len as int, bound + 1),
{
    if len <= bound {
        len
    } else {
        bound + 1
    }
}

/// Levenshtein distance between the bytes of two strings, reported as
/// `bound + 1` wherever it is greater than `bound`. The table is filled row
/// by row, and the work stops at the first row that lies above the bound
/// throughout.
pub fn bounded_lev(a: &str, b: &str, bound: usize) -> (d: usize)
    requires
        bound < usize::MAX,
    ensures
        d == capped_lev(encode_utf8(a@), encode_utf8(b@), bound as nat),
{
    let x = a.as_bytes();
    let y = b.as_bytes();
    let n = x.len();
    let m = y.len();
    if n == 0 {
        return cap(m, bound);
    }
    if m == 0 {
        return cap(n, bound);
    }
    let mut prev: Vec<usize> = Vec::new();
    let mut j: usize = 0;
    while j < m
        invariant
            j <= m,
            m == y@.len(),
            prev@.len() == j,
            forall|k: int| 0 <= k < j ==> prev@[k] == cell(x@, y@, 0, k),
        decreases m - j,
    {
        prev.push(j);
        j += 1;
    }
    prev.push(m);
    let mut curr: Vec<usize> = prev.clone();
    let mut row: usize = 0;
    while row < n
        invariant
            row <= n,
            n == x@.len(),
            m == y@.len(),
            0 < m,
            bound < usize::MAX,
            x@ == encode_utf8(a@),
            y@ == encode_utf8(b@),
            prev@.len() == m + 1,
            curr@.len() == m + 1,
            forall|k: int| 0 <= k <= m ==> prev@[k] == cell(x@, y@, row as int, k),
        decreases n - row,
    {
        let i = row + 1;
        curr[0] = i;
        let mut row_min = i;
        let mut j: usize = 0;
        while j < m
            invariant
                j <= m,
                i == row + 1,
                i <= n,
                n == x@.len(),
                m == y@.len(),
                prev@.len() == m + 1,
                curr@.len() == m + 1,
                forall|k: int| 0 <= k <= m ==> prev@[k] == cell(x@, y@, row as int, k),
                forall|k: int| 0 <= k <= j ==> curr@[k] == cell(x@, y@, i as int, k),
                forall|k: int| 0 <= k <= j ==> curr@[k] >= row_min,
            decreases m - j,
        {
            let col = j + 1;
            proof {
                lemma_cell_step(x@, y@, i as int, col as int);
                lemma_lev_upper(x@.take(i as int), y@.take(col as int));
            }
            let mut best: u128 = prev[col] as u128 + 1;
            let insert: u128 = curr[j] as u128 + 1;
            if insert < best {
                best = insert;
            }
            let cost: u128 = if x[row] == y[j] {
                0
            } else {
                1
            };
            let replace: u128 = prev[j] as u128 + cost;
            if replace < best {
                best = replace;
            }
            let value = best as usize;
            curr[col] = value;
            if value < row_min {
                row_min = value;
            }
            j = col;
        }
        if row_min > bound {
            proof {
                let r = row_min as int;
                let ii = i as int;
                assert forall|k: int| 0 <= k <= m implies #[trigger] cell(x@, y@, ii, k) >= r by {
                    assert(curr@[k] == cell(x@, y@, ii, k));
                }
                lemma_row_floor(x@, y@, ii, r);
            }
            return bound + 1;
        }
        std::mem::swap(&mut prev, &mut curr);
        row = i;
    }
    proof {
        assert(x@.take(n as int) == x@);
        assert(y@.take(m as int) == y@);
    }
    cap(prev[m], bound)
}

} // verus!
