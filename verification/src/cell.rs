//! A single cell of the sheet: its value, the text of the formula last
//! assigned to it, an error flag, and the two dependency indexes.
//!
//! `dependencies` is an ordered set (kept as a strictly increasing sequence
//! of cell ids) of the cells whose formulas read this cell. `dependents` is
//! a last-in-first-out sequence of the cells this cell reads, one entry per
//! read edge. The two indexes are kept in lock step: `x` is in
//! `cells[y].dependencies` exactly when `y` occurs once in
//! `cells[x].dependents`.

use vstd::prelude::*;

verus! {

/// Longest expression a cell keeps; `Cell::new` truncates beyond it.
pub const MAX_INPUT_LEN_CELL: usize = 35;

/// One cell of the grid.
pub struct Cell {
    /// The last computed value.
    pub val: i32,
    /// The bytes of the formula last assigned (empty on creation).
    pub expression: Vec<u8>,
    /// 0 when the cell is sound, 1 when its evaluation failed.
    pub status: i32,
    /// Ids of the cells that read this cell, strictly increasing.
    pub dependencies: Vec<usize>,
    /// Ids of the cells this cell reads, in the order the reads were bound.
    pub dependents: Vec<usize>,
}

/// `s` is strictly increasing, so it represents an ordered set.
pub open spec fn sorted_set(s: Seq<usize>) -> bool {
    forall|i: int, j: int| 0 <= i < j < s.len() ==> s[i] < s[j]
}

/// The structural invariant of one cell in a grid of `n` cells.
pub open spec fn cell_ids_ok(c: Cell, n: int) -> bool {
    &&& sorted_set(c.dependencies@)
    &&& forall|i: int| 0 <= i < c.dependencies@.len() ==> (c.dependencies@[i] as int) < n
    &&& forall|i: int| 0 <= i < c.dependents@.len() ==> (c.dependents@[i] as int) < n
    &&& (c.status == 0 || c.status == 1)
}

/// How many times `x` occurs in `s`.
pub open spec fn occ(s: Seq<usize>, x: usize) -> nat
    decreases s.len(),
{
    if s.len() == 0 {
        0
    } else {
        occ(s.drop_last(), x) + if s.last() == x {
            1nat
        } else {
            0nat
        }
    }
}

impl Cell {
    /// A fresh cell holding `val` and `status`, with the expression text
    /// truncated to `MAX_INPUT_LEN_CELL` bytes and no edges.
    pub fn new(val: i32, expression: &[u8], status: i32) -> (r: Cell)
        ensures
            r.val == val,
            r.status == status,
            r.expression@ == expression@.take(
                if expression@.len() <= MAX_INPUT_LEN_CELL {
                    expression@.len() as int
                } else {
                    MAX_INPUT_LEN_CELL as int
                },
            ),
            r.dependencies@.len() == 0,
            r.dependents@.len() == 0,
    {
        let keep: usize = if expression.len() <= MAX_INPUT_LEN_CELL {
            expression.len()
        } else {
            MAX_INPUT_LEN_CELL
        };
        let mut e: Vec<u8> = Vec::new();
        let mut i: usize = 0;
        while i < keep
            invariant
                0 <= i <= keep <= expression@.len(),
                e@ == expression@.take(i as int),
            decreases keep - i,
        {
            e.push(expression[i]);
            proof {
                assert(expression@.take(i + 1) =~= expression@.take(i as int).push(
                    expression@[i as int],
                ));
            }
            i = i + 1;
        }
        Cell { val, expression: e, status, dependencies: Vec::new(), dependents: Vec::new() }
    }
}

/// An element occurs in a sequence exactly when its count is positive.
pub proof fn lemma_occ_contains(s: Seq<usize>, x: usize)
    ensures
        occ(s, x) > 0 <==> s.contains(x),
    decreases s.len(),
{
    if s.len() > 0 {
        lemma_occ_contains(s.drop_last(), x);
        assert(s.drop_last().contains(x) ==> s.contains(x)) by {
            if s.drop_last().contains(x) {
                let i = choose|i: int| 0 <= i < s.len() - 1 && s.drop_last()[i] == x;
                assert(s[i] == x);
            }
        }
        if s.contains(x) && s.last() != x {
            let i = choose|i: int| 0 <= i < s.len() && s[i] == x;
            assert(s.drop_last()[i] == x);
        }
    }
}


/// Two strictly increasing sequences holding the same elements are equal:
/// the ordered-set representation is unique for its contents.
pub proof fn lemma_sorted_unique(a: Seq<usize>, b: Seq<usize>)
    requires
        sorted_set(a),
        sorted_set(b),
        forall|x: usize| a.contains(x) <==> b.contains(x),
    ensures
        a =~= b,
    decreases a.len(),
{
    if a.len() == 0 {
        if b.len() > 0 {
            assert(b.contains(b[0]));
        }
    } else if b.len() == 0 {
        assert(a.contains(a[0]));
    } else {
        // the largest element of each is its last; they must agree
        assert(a.contains(a.last()));
        assert(b.contains(b.last()));
        let i = choose|i: int| 0 <= i < b.len() && b[i] == a.last();
        assert(b[i] <= b.last());
        let j = choose|j: int| 0 <= j < a.len() && a[j] == b.last();
        assert(a[j] <= a.last());
        assert(a.last() == b.last());
        assert(forall|x: usize| a.drop_last().contains(x) ==> a.contains(x)) by {
            assert(forall|k: int| 0 <= k < a.len() - 1 ==> a.drop_last()[k] == a[k]);
        }
        assert(forall|x: usize| b.drop_last().contains(x) ==> b.contains(x)) by {
            assert(forall|k: int| 0 <= k < b.len() - 1 ==> b.drop_last()[k] == b[k]);
        }
        assert(forall|x: usize| a.drop_last().contains(x) <==> b.drop_last().contains(x)) by {
            assert forall|x: usize|
                a.drop_last().contains(x) implies b.drop_last().contains(x) by {
                let k = choose|k: int| 0 <= k < a.len() - 1 && a.drop_last()[k] == x;
                assert(a[k] == x && a[k] < a.last());
                assert(b.contains(x));
                let m = choose|m: int| 0 <= m < b.len() && b[m] == x;
                assert(m < b.len() - 1) by {
                    if m == b.len() - 1 {
                        assert(x == b.last());
                    }
                }
                assert(b.drop_last()[m] == x);
            }
            assert forall|x: usize|
                b.drop_last().contains(x) implies a.drop_last().contains(x) by {
                let k = choose|k: int| 0 <= k < b.len() - 1 && b.drop_last()[k] == x;
                assert(b[k] == x && b[k] < b.last());
                assert(a.contains(x));
                let m = choose|m: int| 0 <= m < a.len() && a[m] == x;
                assert(m < a.len() - 1) by {
                    if m == a.len() - 1 {
                        assert(x == a.last());
                    }
                }
                assert(a.drop_last()[m] == x);
            }
        }
        assert(sorted_set(a.drop_last()));
        assert(sorted_set(b.drop_last()));
        lemma_sorted_unique(a.drop_last(), b.drop_last());
        assert(a =~= a.drop_last().push(a.last()));
        assert(b =~= b.drop_last().push(b.last()));
    }
}

} // verus!
