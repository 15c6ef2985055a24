//! Operations on the two dependency indexes of a cell: the ordered set of
//! readers (`dependencies`) and the stack of reads (`dependents`).
//!
//! The ordered set is a strictly increasing sequence of cell ids, which
//! makes its shape unique for its contents; insertion and deletion keep it
//! so. The stack is pushed and popped at the end.

use vstd::prelude::*;
use crate::cell::{cell_ids_ok, occ, sorted_set, Cell};
use crate::sheet::{sd_dims_ok, sd_ids_ok, sd_symmetric, SheetData};

verus! {

/// Inserts `id` into an ordered id set; a present id leaves the set as it
/// was.
#[verifier::spinoff_prover]
pub fn insert(set: &mut Vec<usize>, id: usize)
    requires
        sorted_set(old(set)@),
    ensures
        sorted_set(final(set)@),
        forall|x: usize| final(set)@.contains(x) <==> (old(set)@.contains(x) || x == id),
        old(set)@.contains(id) ==> final(set)@ == old(set)@,
        !old(set)@.contains(id) ==> final(set)@.len() == old(set)@.len() + 1,
{
    let n: usize = set.len();
    let mut i: usize = 0;
    while i < n && set[i] < id
        invariant
            0 <= i <= n == set@.len(),
            set@ == old(set)@,
            sorted_set(set@),
            forall|q: int| 0 <= q < i ==> set@[q] < id,
        decreases n - i,
    {
        i = i + 1;
    }
    if i < n && set[i] == id {
        proof {
            assert(set@.contains(id));
        }
        return ;
    }
    proof {
        assert(forall|q: int| i <= q < n ==> set@[q] > id) by {
            assert(forall|q: int| i < q < n ==> set@[(i as int)] < set@[q]);
        }
        if old(set)@.contains(id) {
            let q = choose|q: int| 0 <= q < n && old(set)@[q] == id;
            assert(false);
        }
    }
    set.insert(i, id);
    proof {
        assert(sorted_set(set@)) by {
            assert forall|q1: int, q2: int| 0 <= q1 < q2 < set@.len() implies set@[q1]
                < set@[q2] by {
                if q2 < i {
                    assert(set@[q1] == old(set)@[q1] && set@[q2] == old(set)@[q2]);
                } else if q2 == i {
                    assert(set@[q2] == id && set@[q1] == old(set)@[q1]);
                } else if q1 < i {
                    assert(set@[q1] == old(set)@[q1] && set@[q2] == old(set)@[q2 - 1]);
                } else if q1 == i {
                    assert(set@[q1] == id && set@[q2] == old(set)@[q2 - 1]);
                } else {
                    assert(set@[q1] == old(set)@[q1 - 1] && set@[q2] == old(set)@[q2 - 1]);
                }
            }
        }
        assert forall|x: usize| set@.contains(x) implies (old(set)@.contains(x) || x == id) by {
            let q = choose|q: int| 0 <= q < set@.len() && set@[q] == x;
            if q < i {
                assert(old(set)@[q] == x);
            } else if q > i {
                assert(old(set)@[q - 1] == x);
            }
        }
        assert forall|x: usize| old(set)@.contains(x) implies set@.contains(x) by {
            let q = choose|q: int| 0 <= q < old(set)@.len() && old(set)@[q] == x;
            if q < i {
                assert(set@[q] == x);
            } else {
                assert(set@[q + 1] == x);
            }
        }
        assert(set@[i as int] == id && set@.contains(id));
    }
}

/// Looks the cell at `(row, col)` up in an ordered id set; gives its id
/// back when it is there.
#[verifier::spinoff_prover]
#[verifier::loop_isolation(false)]
pub fn find(set: &Vec<usize>, row: usize, col: usize, s: &SheetData) -> (r: Option<usize>)
    requires
        sd_dims_ok(*s),
        row < s.rows,
        col < s.cols,
    ensures
        r == if set@.contains((row * s.cols + col) as usize) {
            Some(((row * s.cols + col) as usize))
        } else {
            None::<usize>
        },
{
    proof {
        crate::sheet::lemma_dims_bound(s.rows as int, s.cols as int);
        crate::sheet::lemma_id_in_range(s.rows as int, s.cols as int, row as int, col as int);
    }
    let id: usize = s.get(row, col);
    let n: usize = set.len();
    let mut i: usize = 0;
    while i < n
        invariant
            0 <= i <= n == set@.len(),
            forall|q: int| 0 <= q < i ==> set@[q] != id,
        decreases n - i,
    {
        if set[i] == id {
            proof {
                assert(set@.contains(id));
            }
            return Some(id);
        }
        i = i + 1;
    }
    proof {
        if set@.contains(id) {
            let q = choose|q: int| 0 <= q < set@.len() && set@[q] == id;
            assert(false);
        }
    }
    None
}

/// Removes the cell at `(row, col)` from an ordered id set; an absent id
/// leaves the set as it was.
#[verifier::spinoff_prover]
pub fn delete_node(set: &mut Vec<usize>, row: usize, col: usize, s: &SheetData)
    requires
        sorted_set(old(set)@),
        sd_dims_ok(*s),
        row < s.rows,
        col < s.cols,
    ensures
        sorted_set(final(set)@),
        forall|x: usize|
            final(set)@.contains(x) <==> (old(set)@.contains(x) && x != (row * s.cols
                + col) as usize),
        !old(set)@.contains(((row * s.cols + col) as usize)) ==> final(set)@ == old(set)@,
{
    proof {
        crate::sheet::lemma_dims_bound(s.rows as int, s.cols as int);
        crate::sheet::lemma_id_in_range(s.rows as int, s.cols as int, row as int, col as int);
    }
    let id: usize = s.get(row, col);
    remove_id(set, id);
}

/// Removes `id` from an ordered id set.
#[verifier::spinoff_prover]
pub fn remove_id(set: &mut Vec<usize>, id: usize)
    requires
        sorted_set(old(set)@),
    ensures
        sorted_set(final(set)@),
        forall|x: usize| final(set)@.contains(x) <==> (old(set)@.contains(x) && x != id),
        !old(set)@.contains(id) ==> final(set)@ == old(set)@,
{
    let n: usize = set.len();
    let mut i: usize = 0;
    while i < n
        invariant
            0 <= i <= n == set@.len(),
            set@ == old(set)@,
            sorted_set(set@),
            forall|q: int| 0 <= q < i ==> set@[q] != id,
        decreases n - i,
    {
        if set[i] == id {
            set.remove(i);
            proof {
                assert(forall|q: int| 0 <= q < i ==> set@[q] == old(set)@[q]);
                assert(forall|q: int| i <= q < set@.len() ==> set@[q] == old(set)@[q + 1]);
                assert(sorted_set(set@)) by {
                    assert forall|q1: int, q2: int| 0 <= q1 < q2 < set@.len() implies set@[q1]
                        < set@[q2] by {
                        if q2 < i {
                            assert(set@[q1] == old(set)@[q1] && set@[q2] == old(set)@[q2]);
                        } else if q1 < i {
                            assert(set@[q1] == old(set)@[q1] && set@[q2] == old(set)@[q2 + 1]);
                        } else {
                            assert(set@[q1] == old(set)@[q1 + 1] && set@[q2] == old(set)@[q2
                                + 1]);
                        }
                    }
                }
                assert forall|x: usize| set@.contains(x) implies (old(set)@.contains(x) && x
                    != id) by {
                    let q = choose|q: int| 0 <= q < set@.len() && set@[q] == x;
                    if q < i {
                        assert(old(set)@[q] == x);
                    } else {
                        assert(old(set)@[q + 1] == x);
                        assert(old(set)@[(i as int)] < old(set)@[q + 1]);
                    }
                }
                assert forall|x: usize| old(set)@.contains(x) && x != id implies set@.contains(
                    x,
                ) by {
                    let q = choose|q: int| 0 <= q < old(set)@.len() && old(set)@[q] == x;
                    if q < i {
                        assert(set@[q] == x);
                    } else if q > i {
                        assert(set@[q - 1] == x);
                    }
                }
            }
            return ;
        }
        i = i + 1;
    }
    proof {
        if old(set)@.contains(id) {
            let q = choose|q: int| 0 <= q < old(set)@.len() && old(set)@[q] == id;
            assert(false);
        }
    }
}

/// Pushes a cell onto a stack of cell ids.
pub fn push(stack: &mut Vec<usize>, cell: usize)
    ensures
        final(stack)@ == old(stack)@.push(cell),
{
    stack.push(cell);
}

/// Pops the most recently pushed cell off a stack of cell ids.
pub fn pop(stack: &mut Vec<usize>) -> (r: Option<usize>)
    ensures
        old(stack)@.len() == 0 ==> r is None && final(stack)@ == old(stack)@,
        old(stack)@.len() > 0 ==> r == Some(old(stack)@.last()) && final(stack)@ == old(
            stack,
        )@.drop_last(),
{
    let r: Option<usize> = stack.pop();
    proof {
        if old(stack)@.len() > 0 {
            assert(old(stack)@.subrange(0, old(stack)@.len() - 1) =~= old(stack)@.drop_last());
        }
    }
    r
}

/// A mutable borrow of the reader set of cell `c`.
fn self_deps(sheet_data: &mut SheetData, c: usize) -> (r: &mut Vec<usize>)
    requires
        (c as int) < old(sheet_data).cells@.len(),
    ensures
        *r == old(sheet_data).cells@[c as int].dependencies,
        final(sheet_data).rows == old(sheet_data).rows,
        final(sheet_data).cols == old(sheet_data).cols,
        final(sheet_data).start_row == old(sheet_data).start_row,
        final(sheet_data).start_col == old(sheet_data).start_col,
        final(sheet_data).flag == old(sheet_data).flag,
        final(sheet_data).pending_sleep == old(sheet_data).pending_sleep,
        final(sheet_data).cells@ == old(sheet_data).cells@.update(
            c as int,
            (Cell { dependencies: *final(r), ..old(sheet_data).cells@[c as int] }),
        ),
{
    &mut sheet_data.cells[c].dependencies
}

/// A mutable borrow of the read stack of cell `c`.
fn self_dependents(sheet_data: &mut SheetData, c: usize) -> (r: &mut Vec<usize>)
    requires
        (c as int) < old(sheet_data).cells@.len(),
    ensures
        *r == old(sheet_data).cells@[c as int].dependents,
        final(sheet_data).rows == old(sheet_data).rows,
        final(sheet_data).cols == old(sheet_data).cols,
        final(sheet_data).start_row == old(sheet_data).start_row,
        final(sheet_data).start_col == old(sheet_data).start_col,
        final(sheet_data).flag == old(sheet_data).flag,
        final(sheet_data).pending_sleep == old(sheet_data).pending_sleep,
        final(sheet_data).cells@ == old(sheet_data).cells@.update(
            c as int,
            (Cell { dependents: *final(r), ..old(sheet_data).cells@[c as int] }),
        ),
{
    &mut sheet_data.cells[c].dependents
}

/// Registers `dep` as a reader of `c` in the ordered reader set of `c`.
#[verifier::spinoff_prover]
pub fn add_dependency(c: usize, dep: usize, sheet_data: &mut SheetData)
    requires
        sd_ids_ok(*old(sheet_data)),
        (c as int) < old(sheet_data).cells@.len(),
        (dep as int) < old(sheet_data).cells@.len(),
    ensures
        sd_ids_ok(*final(sheet_data)),
        final(sheet_data).rows == old(sheet_data).rows,
        final(sheet_data).cols == old(sheet_data).cols,
        final(sheet_data).start_row == old(sheet_data).start_row,
        final(sheet_data).start_col == old(sheet_data).start_col,
        final(sheet_data).flag == old(sheet_data).flag,
        final(sheet_data).pending_sleep == old(sheet_data).pending_sleep,
        final(sheet_data).cells@.len() == old(sheet_data).cells@.len(),
        forall|x: int|
            0 <= x < old(sheet_data).cells@.len() && x != c ==> final(sheet_data).cells@[x]
                == old(sheet_data).cells@[x],
        ({
            let oldc = old(sheet_data).cells@[c as int];
            let newc = final(sheet_data).cells@[c as int];
            &&& newc.val == oldc.val
            &&& newc.expression == oldc.expression
            &&& newc.status == oldc.status
            &&& newc.dependents == oldc.dependents
            &&& sorted_set(newc.dependencies@)
            &&& forall|x: usize|
                newc.dependencies@.contains(x) <==> (oldc.dependencies@.contains(x) || x
                    == dep)
            &&& (oldc.dependencies@.contains(dep) ==> newc.dependencies@
                == oldc.dependencies@)
        }),
{
    let ghost pre = *sheet_data;
    let cref: &mut Vec<usize> = self_deps(sheet_data, c);
    insert(cref, dep);
    proof {
        let n = pre.cells@.len() as int;
        let newc = final(sheet_data).cells@[c as int];
        assert(cell_ids_ok(newc, n)) by {
            assert(forall|i: int|
                0 <= i < newc.dependencies@.len() ==> newc.dependencies@.contains(
                    #[trigger] newc.dependencies@[i],
                ));
        }
        assert(forall|x: int|
            0 <= x < n ==> cell_ids_ok(#[trigger] final(sheet_data).cells@[x], n));
    }
}

/// Pushes `dep` onto the stack of reads of `cell`.
#[verifier::spinoff_prover]
pub fn push_dependent(sheet_data: &mut SheetData, cell: usize, dep: usize)
    requires
        sd_ids_ok(*old(sheet_data)),
        (cell as int) < old(sheet_data).cells@.len(),
        (dep as int) < old(sheet_data).cells@.len(),
    ensures
        sd_ids_ok(*final(sheet_data)),
        final(sheet_data).rows == old(sheet_data).rows,
        final(sheet_data).cols == old(sheet_data).cols,
        final(sheet_data).start_row == old(sheet_data).start_row,
        final(sheet_data).start_col == old(sheet_data).start_col,
        final(sheet_data).flag == old(sheet_data).flag,
        final(sheet_data).pending_sleep == old(sheet_data).pending_sleep,
        final(sheet_data).cells@ == old(sheet_data).cells@.update(
            cell as int,
            (Cell {
                dependents: final(sheet_data).cells@[cell as int].dependents,
                ..old(sheet_data).cells@[cell as int]
            }),
        ),
        final(sheet_data).cells@[cell as int].dependents@ == old(
            sheet_data,
        ).cells@[cell as int].dependents@.push(dep),
{
    let ghost pre = *sheet_data;
    let dref: &mut Vec<usize> = self_dependents(sheet_data, cell);
    dref.push(dep);
    proof {
        let n = pre.cells@.len() as int;
        let newc = final(sheet_data).cells@[cell as int];
        assert(cell_ids_ok(newc, n)) by {
            assert(forall|i: int|
                0 <= i < newc.dependents@.len() - 1 ==> newc.dependents@[i]
                    == pre.cells@[cell as int].dependents@[i]);
        }
        assert(forall|x: int|
            0 <= x < n ==> cell_ids_ok(#[trigger] final(sheet_data).cells@[x], n));
    }
}

/// Pushes `dep` onto the stack of reads of `cell`; a second name for the
/// same operation, kept for callers that know it as such.
pub fn add_dependent(sheet_data: &mut SheetData, cell: usize, dep: usize)
    requires
        sd_ids_ok(*old(sheet_data)),
        (cell as int) < old(sheet_data).cells@.len(),
        (dep as int) < old(sheet_data).cells@.len(),
    ensures
        sd_ids_ok(*final(sheet_data)),
        final(sheet_data).rows == old(sheet_data).rows,
        final(sheet_data).cols == old(sheet_data).cols,
        final(sheet_data).cells@ == old(sheet_data).cells@.update(
            cell as int,
            (Cell {
                dependents: final(sheet_data).cells@[cell as int].dependents,
                ..old(sheet_data).cells@[cell as int]
            }),
        ),
        final(sheet_data).cells@[cell as int].dependents@ == old(
            sheet_data,
        ).cells@[cell as int].dependents@.push(dep),
{
    push_dependent(sheet_data, cell, dep);
}

/// Pops the most recent read off the stack of `cell`.
#[verifier::spinoff_prover]
pub fn pop_dependent(sheet_data: &mut SheetData, cell: usize) -> (r: Option<usize>)
    requires
        sd_ids_ok(*old(sheet_data)),
        (cell as int) < old(sheet_data).cells@.len(),
    ensures
        sd_ids_ok(*final(sheet_data)),
        final(sheet_data).rows == old(sheet_data).rows,
        final(sheet_data).cols == old(sheet_data).cols,
        final(sheet_data).start_row == old(sheet_data).start_row,
        final(sheet_data).start_col == old(sheet_data).start_col,
        final(sheet_data).flag == old(sheet_data).flag,
        final(sheet_data).pending_sleep == old(sheet_data).pending_sleep,
        final(sheet_data).cells@ == old(sheet_data).cells@.update(
            cell as int,
            (Cell {
                dependents: final(sheet_data).cells@[cell as int].dependents,
                ..old(sheet_data).cells@[cell as int]
            }),
        ),
        ({
            let olds = old(sheet_data).cells@[cell as int].dependents@;
            let news = final(sheet_data).cells@[cell as int].dependents@;
            if olds.len() == 0 {
                r is None && news == olds
            } else {
                r == Some(olds.last()) && news == olds.drop_last() && (r.unwrap() as int)
                    < old(sheet_data).cells@.len()
            }
        }),
{
    let ghost pre = *sheet_data;
    let dref: &mut Vec<usize> = self_dependents(sheet_data, cell);
    let r: Option<usize> = dref.pop();
    proof {
        let n = pre.cells@.len() as int;
        let newc = final(sheet_data).cells@[cell as int];
        let olds = pre.cells@[cell as int].dependents@;
        if olds.len() > 0 {
            assert(olds.subrange(0, olds.len() - 1) =~= olds.drop_last());
        }
        assert(cell_ids_ok(newc, n)) by {
            assert(forall|i: int|
                0 <= i < newc.dependents@.len() ==> newc.dependents@[i] == olds[i]);
        }
        assert(forall|x: int|
            0 <= x < n ==> cell_ids_ok(#[trigger] final(sheet_data).cells@[x], n));
    }
    r
}

/// The state in the middle of `delete_dependencies`: the first `j` entries
/// of the old read stack are still to be drained, the rest are done.
pub open spec fn clear_mid(
    cur: SheetData,
    pre: SheetData,
    id: usize,
    stack: Seq<usize>,
    j: int,
) -> bool {
    &&& cur.cells@.len() == pre.cells@.len()
    &&& forall|x: usize|
        (x as int) < cur.cells@.len() ==> {
            &&& (#[trigger] cur.cells@[x as int]).val == pre.cells@[x as int].val
            &&& cur.cells@[x as int].expression == pre.cells@[x as int].expression
            &&& cur.cells@[x as int].status == pre.cells@[x as int].status
            &&& cur.cells@[x as int].dependents@ == if x == id {
                stack.take(j)
            } else {
                pre.cells@[x as int].dependents@
            }
            &&& forall|y: usize|
                cur.cells@[x as int].dependencies@.contains(y) <==> (pre.cells@[x
                    as int].dependencies@.contains(y) && !(y == id && stack.skip(j).contains(
                    x,
                )))
        }
    &&& forall|x: usize|
        (x as int) < cur.cells@.len() && !stack.skip(j).contains(x) ==> (#[trigger] cur.cells@[x
            as int]).dependencies == pre.cells@[x as int].dependencies
}

/// Clears every read edge of the cell at `(row, col)`: drains its stack of
/// reads and, for each read cell, removes `(row, col)` from that cell's
/// reader set. On a sheet whose indexes are in lock step this removes the
/// cell from every reader set it occurred in, and keeps the lock step.
#[verifier::spinoff_prover]
#[verifier::rlimit(100)]
pub fn delete_dependencies(row: usize, col: usize, sheet_data: &mut SheetData)
    requires
        sd_ids_ok(*old(sheet_data)),
        row < old(sheet_data).rows,
        col < old(sheet_data).cols,
    ensures
        sd_ids_ok(*final(sheet_data)),
        final(sheet_data).rows == old(sheet_data).rows,
        final(sheet_data).cols == old(sheet_data).cols,
        final(sheet_data).start_row == old(sheet_data).start_row,
        final(sheet_data).start_col == old(sheet_data).start_col,
        final(sheet_data).flag == old(sheet_data).flag,
        final(sheet_data).pending_sleep == old(sheet_data).pending_sleep,
        final(sheet_data).cells@.len() == old(sheet_data).cells@.len(),
        clear_mid(
            *final(sheet_data),
            *old(sheet_data),
            ((row * old(sheet_data).cols + col) as usize),
            old(sheet_data).cells@[row * old(sheet_data).cols + col].dependents@,
            0,
        ),
        sd_symmetric(*old(sheet_data)) ==> sd_symmetric(*final(sheet_data)),
{
    let ghost pre = *sheet_data;
    proof {
        crate::sheet::lemma_dims_bound(pre.rows as int, pre.cols as int);
        crate::sheet::lemma_id_in_range(pre.rows as int, pre.cols as int, row as int, col as int);
    }
    let id: usize = sheet_data.get(row, col);
    let ghost stack = pre.cells@[id as int].dependents@;
    let ghost n = pre.cells@.len() as int;
    proof {
        assert(stack.take(stack.len() as int) =~= stack);
        assert(stack.skip(stack.len() as int) =~= Seq::<usize>::empty());
        assert(clear_mid(*sheet_data, pre, id, stack, stack.len() as int));
    }
    loop
        invariant
            sd_ids_ok(*sheet_data),
            sheet_data.rows == pre.rows,
            sheet_data.cols == pre.cols,
            sheet_data.start_row == pre.start_row,
            sheet_data.start_col == pre.start_col,
            sheet_data.flag == pre.flag,
            sheet_data.pending_sleep == pre.pending_sleep,
            sheet_data.cells@.len() == n,
            (id as int) < n,
            exists|j: int|
                0 <= j <= stack.len() && #[trigger] clear_mid(*sheet_data, pre, id, stack, j),
        ensures
            sd_ids_ok(*sheet_data),
            sheet_data.rows == pre.rows,
            sheet_data.cols == pre.cols,
            sheet_data.start_row == pre.start_row,
            sheet_data.start_col == pre.start_col,
            sheet_data.flag == pre.flag,
            sheet_data.pending_sleep == pre.pending_sleep,
            sheet_data.cells@.len() == n,
            clear_mid(*sheet_data, pre, id, stack, 0),
        decreases sheet_data.cells@[id as int].dependents@.len(),
    {
        let ghost j = choose|j: int|
            0 <= j <= stack.len() && clear_mid(*sheet_data, pre, id, stack, j);
        let d_opt: Option<usize> = pop_dependent(sheet_data, id);
        match d_opt {
            None => {
                proof {
                    assert(stack.take(j).len() == 0);
                    assert(j == 0);
                    assert(clear_mid(*sheet_data, pre, id, stack, 0));
                }
                break ;
            },
            Some(d) => {
                proof {
                    assert(stack.take(j).len() > 0);
                    assert(j >= 1);
                    assert(stack.take(j).last() == stack[j - 1]);
                    assert(stack.take(j).drop_last() =~= stack.take(j - 1));
                    assert(d == stack[j - 1]);
                }
                let ghost mid = *sheet_data;
                let dref: &mut Vec<usize> = self_deps(sheet_data, d);
                remove_id(dref, id);
                proof {
                    let newc = sheet_data.cells@[d as int];
                    assert(cell_ids_ok(newc, n)) by {
                        assert(forall|q: int|
                            0 <= q < newc.dependencies@.len() ==> newc.dependencies@.contains(
                                #[trigger] newc.dependencies@[q],
                            ));
                    }
                    assert(forall|x: int|
                        0 <= x < n ==> cell_ids_ok(#[trigger] sheet_data.cells@[x], n));
                    assert(forall|q: int|
                        0 <= q < stack.len() - j + 1 ==> #[trigger] stack.skip(j - 1)[q]
                            == stack[j - 1 + q]);
                    assert(forall|q: int|
                        0 <= q < stack.len() - j ==> #[trigger] stack.skip(j)[q] == stack[j
                            + q]);
                    assert forall|x: usize|
                        stack.skip(j - 1).contains(x) <==> (x == stack[j - 1] || stack.skip(
                            j,
                        ).contains(x)) by {
                        if stack.skip(j - 1).contains(x) {
                            let q = choose|q: int|
                                0 <= q < stack.skip(j - 1).len() && #[trigger] stack.skip(
                                    j - 1,
                                )[q] == x;
                            if q > 0 {
                                assert(stack.skip(j)[q - 1] == x);
                            }
                        }
                        if x == stack[j - 1] {
                            assert(stack.skip(j - 1)[0] == x);
                        }
                        if stack.skip(j).contains(x) {
                            let q = choose|q: int|
                                0 <= q < stack.skip(j).len() && #[trigger] stack.skip(j)[q]
                                    == x;
                            assert(stack.skip(j - 1)[q + 1] == x);
                        }
                    }
                    assert(clear_mid(*sheet_data, pre, id, stack, j - 1)) by {
                        assert forall|x: usize| (x as int) < n implies {
                            &&& (sheet_data.cells@[x as int]).val == pre.cells@[x as int].val
                            &&& sheet_data.cells@[x as int].expression == pre.cells@[x
                                as int].expression
                            &&& sheet_data.cells@[x as int].status == pre.cells@[x
                                as int].status
                            &&& sheet_data.cells@[x as int].dependents@ == if x == id {
                                stack.take(j - 1)
                            } else {
                                pre.cells@[x as int].dependents@
                            }
                            &&& forall|y: usize|
                                sheet_data.cells@[x as int].dependencies@.contains(y) <==> (
                                pre.cells@[x as int].dependencies@.contains(y) && !(y == id
                                    && stack.skip(j - 1).contains(x)))
                        } by {
                            if x == d {
                                assert(forall|y: usize|
                                    sheet_data.cells@[x as int].dependencies@.contains(y)
                                        <==> (mid.cells@[x as int].dependencies@.contains(y)
                                        && y != id));
                            } else {
                                assert(sheet_data.cells@[x as int].dependencies
                                    == mid.cells@[x as int].dependencies);
                            }
                        }
                        assert forall|x: usize|
                            (x as int) < n && !stack.skip(j - 1).contains(x) implies (
                        sheet_data.cells@[x as int]).dependencies == pre.cells@[x
                            as int].dependencies by {
                            assert(x != d);
                            assert(!stack.skip(j).contains(x));
                        }
                    }
                }
            },
        }
    }
    proof {
        if sd_symmetric(pre) {
            lemma_clear_symmetric(pre, *sheet_data, id);
        }
    }
}

/// Draining the read stack of `id` keeps the two indexes in lock step.
proof fn lemma_clear_symmetric(pre: SheetData, post: SheetData, id: usize)
    requires
        sd_symmetric(pre),
        sd_ids_ok(pre),
        sd_ids_ok(post),
        post.cells@.len() == pre.cells@.len(),
        (id as int) < pre.cells@.len(),
        clear_mid(post, pre, id, pre.cells@[id as int].dependents@, 0),
    ensures
        sd_symmetric(post),
{
    let n = pre.cells@.len();
    let stack = pre.cells@[id as int].dependents@;
    assert(stack.skip(0) =~= stack);
    assert(stack.take(0) =~= Seq::<usize>::empty());
    assert forall|a: usize, b: usize|
        (a as int) < n && (b as int) < n implies (#[trigger] occ(
        post.cells@[b as int].dependents@,
        a,
    )) == if post.cells@[a as int].dependencies@.contains(b) {
        1nat
    } else {
        0nat
    } by {
        if b == id {
            assert(post.cells@[b as int].dependents@.len() == 0);
            assert(occ(post.cells@[b as int].dependents@, a) == 0);
            if post.cells@[a as int].dependencies@.contains(b) {
                assert(pre.cells@[a as int].dependencies@.contains(id));
                assert(occ(stack, a) == 1);
                crate::cell::lemma_occ_contains(stack, a);
                assert(false);
            }
        } else {
            assert(post.cells@[b as int].dependents@ == pre.cells@[b as int].dependents@);
            assert(post.cells@[a as int].dependencies@.contains(b) <==> pre.cells@[a
                as int].dependencies@.contains(b));
        }
    }
}

} // verus!
