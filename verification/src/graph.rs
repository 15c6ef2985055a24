//! Reachability over the dependency graph, the cycle checks, and the
//! depth-first post-order walk that drives recomputation.
//!
//! An edge runs from a cell to each of its readers, so the cells reachable
//! from a cell are exactly the cells that directly or transitively read it.
//! A proposed formula for a writer closes a loop exactly when one of the
//! cells it would read is already reachable from the writer.

use vstd::prelude::*;
use crate::cell::{cell_ids_ok, Cell};
use crate::sheet::{sd_dims_ok, sd_ids_ok, SheetData};

verus! {

/// An edge from `a` to `b`: `b` reads `a`.
pub open spec fn edge(cells: Seq<Cell>, a: usize, b: usize) -> bool {
    &&& (a as int) < cells.len()
    &&& (b as int) < cells.len()
    &&& cells[a as int].dependencies@.contains(b)
}

/// `p` is a walk along edges; a single cell is a walk of length one.
pub open spec fn path_ok(cells: Seq<Cell>, p: Seq<usize>) -> bool {
    &&& p.len() >= 1
    &&& forall|i: int| 0 <= i < p.len() ==> ((#[trigger] p[i]) as int) < cells.len()
    &&& forall|i: int| 0 <= i < p.len() - 1 ==> edge(cells, #[trigger] p[i], p[i + 1])
}

/// A walk leads from `a` to `b`; in particular every cell reaches itself.
pub open spec fn reaches(cells: Seq<Cell>, a: usize, b: usize) -> bool {
    exists|p: Seq<usize>| #[trigger] path_ok(cells, p) && p.first() == a && p.last() == b
}

/// No walk returns to its start: the graph is a DAG.
pub open spec fn acyclic(cells: Seq<Cell>) -> bool {
    forall|p: Seq<usize>| !(#[trigger] path_ok(cells, p) && p.len() >= 2 && p.first() == p.last())
}

/// Membership after a push: the pushed element and the old members.
pub proof fn lemma_push_contains(s: Seq<usize>, v: usize, x: usize)
    ensures
        s.push(v).contains(x) <==> (s.contains(x) || x == v),
{
    if s.push(v).contains(x) {
        let q = choose|q: int| 0 <= q < s.push(v).len() && s.push(v)[q] == x;
        if q < s.len() {
            assert(s[q] == x);
        }
    }
    if s.contains(x) {
        let q = choose|q: int| 0 <= q < s.len() && s[q] == x;
        assert(s.push(v)[q] == x);
    }
    assert(s.push(v)[s.len() as int] == v);
}

/// Every cell reaches itself.
pub proof fn lemma_reaches_self(cells: Seq<Cell>, a: usize)
    requires
        (a as int) < cells.len(),
    ensures
        reaches(cells, a, a),
{
    let p = seq![a];
    assert(path_ok(cells, p));
    assert(p.first() == a && p.last() == a);
}

/// Reachability extends along an edge.
pub proof fn lemma_reaches_step(cells: Seq<Cell>, a: usize, b: usize, c: usize)
    requires
        reaches(cells, a, b),
        edge(cells, b, c),
    ensures
        reaches(cells, a, c),
{
    let p = choose|p: Seq<usize>|
        #[trigger] path_ok(cells, p) && p.first() == a && p.last() == b;
    let q = p.push(c);
    assert(path_ok(cells, q)) by {
        assert(forall|i: int| 0 <= i < p.len() ==> q[i] == p[i]);
        assert(q[q.len() - 1] == c);
        assert(edge(cells, q[q.len() - 2], q[q.len() - 1]));
    }
    assert(q.first() == a && q.last() == c);
}

/// A walk starting inside a set that is closed under edges ends inside it.
pub proof fn lemma_closed_path(cells: Seq<Cell>, visited: Seq<bool>, p: Seq<usize>)
    requires
        visited.len() == cells.len(),
        path_ok(cells, p),
        visited[p.first() as int],
        forall|x: usize, y: usize|
            (x as int) < cells.len() && (y as int) < cells.len() && visited[x as int] && #[trigger] edge(
                cells,
                x,
                y,
            ) ==> visited[y as int],
    ensures
        visited[p.last() as int],
    decreases p.len(),
{
    if p.len() > 1 {
        let q = p.drop_last();
        assert(path_ok(cells, q)) by {
            assert(forall|i: int| 0 <= i < q.len() ==> q[i] == p[i]);
        }
        assert(q.first() == p.first());
        lemma_closed_path(cells, visited, q);
        assert(edge(cells, p[p.len() - 2], p[p.len() - 1]));
        assert(q.last() == p[p.len() - 2]);
    }
}

/// How many entries of `v` are set.
pub open spec fn count_true(v: Seq<bool>) -> nat
    decreases v.len(),
{
    if v.len() == 0 {
        0
    } else {
        count_true(v.drop_last()) + if v.last() {
            1nat
        } else {
            0nat
        }
    }
}

/// Nothing is set in an all-clear marking.
pub proof fn lemma_count_true_zero(v: Seq<bool>)
    requires
        forall|x: int| 0 <= x < v.len() ==> !v[x],
    ensures
        count_true(v) == 0,
    decreases v.len(),
{
    if v.len() > 0 {
        assert(forall|x: int| 0 <= x < v.len() - 1 ==> v.drop_last()[x] == v[x]);
        lemma_count_true_zero(v.drop_last());
    }
}

/// At most every entry is set.
pub proof fn lemma_count_true_le(v: Seq<bool>)
    ensures
        count_true(v) <= v.len(),
    decreases v.len(),
{
    if v.len() > 0 {
        lemma_count_true_le(v.drop_last());
    }
}

/// Setting a clear entry raises the count by one.
pub proof fn lemma_count_true_update(v: Seq<bool>, i: int)
    requires
        0 <= i < v.len(),
        !v[i],
    ensures
        count_true(v.update(i, true)) == count_true(v) + 1,
    decreases v.len(),
{
    let w = v.update(i, true);
    if i == v.len() - 1 {
        assert(w.drop_last() =~= v.drop_last());
    } else {
        assert(w.drop_last() =~= v.drop_last().update(i, true));
        lemma_count_true_update(v.drop_last(), i);
    }
}

/// Marks, in `visited`, exactly the cells reachable from `start`.
#[verifier::spinoff_prover]
#[verifier::loop_isolation(false)]
#[verifier::rlimit(100)]
pub fn reach_mark(s: &SheetData, start: usize, visited: &mut Vec<bool>)
    requires
        sd_ids_ok(*s),
        (start as int) < s.cells@.len(),
        old(visited)@.len() == s.cells@.len(),
        forall|x: int| 0 <= x < old(visited)@.len() ==> !old(visited)@[x],
    ensures
        final(visited)@.len() == s.cells@.len(),
        forall|x: usize|
            (x as int) < s.cells@.len() ==> (final(visited)@[x as int] <==> reaches(
                s.cells@,
                start,
                x,
            )),
{
    let ghost cells = s.cells@;
    let n: usize = visited.len();
    let mut stack: Vec<usize> = Vec::new();
    visited[start] = true;
    stack.push(start);
    proof {
        lemma_reaches_self(cells, start);
        lemma_count_true_zero(old(visited)@);
        lemma_count_true_update(old(visited)@, start as int);
        assert(stack@[0] == start);
        assert(stack@.contains(start));
    }
    while stack.len() > 0
        invariant
            visited@.len() == n,
            forall|x: usize| (x as int) < n && visited@[x as int] ==> reaches(cells, start, x),
            visited@[start as int],
            forall|i: int|
                0 <= i < stack@.len() ==> ((#[trigger] stack@[i]) as int) < n
                    && visited@[stack@[i] as int],
            forall|x: usize|
                (x as int) < n && visited@[x as int] && !stack@.contains(x) ==> (forall|y: usize|
                    (y as int) < n && #[trigger] edge(cells, x, y) ==> visited@[y as int]),
            count_true(visited@) <= n,
        decreases n - count_true(visited@), stack@.len(),
    {
        let ghost s_old = stack@;
        let u_opt: Option<usize> = stack.pop();
        match u_opt {
            None => {
                proof {
                    // the loop condition guarantees the stack was nonempty
                    assert(false);
                }
                break ;
            },
            Some(u) => {
                proof {
                    assert(s_old =~= stack@.push(u));
                    assert forall|x: usize|
                        (x as int) < n && visited@[x as int] && !stack@.contains(x) && x
                            != u implies (forall|y: usize|
                        (y as int) < n && #[trigger] edge(cells, x, y) ==> visited@[y
                            as int]) by {
                        lemma_push_contains(stack@, u, x);
                        assert(!s_old.contains(x));
                    }
                }
                let deps_len: usize = s.cells[u].dependencies.len();
                let mut k: usize = 0;
                let ghost visited_at_entry = visited@;
                while k < deps_len
                    invariant
                        visited@.len() == n,
                        0 <= k <= deps_len == cells[u as int].dependencies@.len(),
                        forall|x: usize|
                            (x as int) < n && visited@[x as int] ==> reaches(cells, start, x),
                        visited@[start as int],
                        visited@[u as int],
                        forall|i: int|
                            0 <= i < stack@.len() ==> ((#[trigger] stack@[i]) as int) < n
                                && visited@[stack@[i] as int],
                        forall|x: usize|
                            (x as int) < n && visited_at_entry[x as int] ==> visited@[x
                                as int],
                        forall|x: usize|
                            (x as int) < n && visited@[x as int] && !visited_at_entry[x
                                as int] ==> stack@.contains(x),
                        forall|x: usize|
                            (x as int) < n && visited@[x as int] && !stack@.contains(x) && x
                                != u ==> (forall|y: usize|
                                (y as int) < n && #[trigger] edge(cells, x, y) ==> visited@[y
                                    as int]),
                        forall|q: int|
                            0 <= q < k ==> visited@[cells[u as int].dependencies@[q] as int],
                        count_true(visited@) >= count_true(visited_at_entry),
                        count_true(visited@) <= n,
                        stack@.len() + count_true(visited_at_entry) == s_old.len() - 1
                            + count_true(visited@),
                    decreases deps_len - k,
                {
                    let y: usize = s.cells[u].dependencies[k];
                    proof {
                        assert(cells[u as int].dependencies@.contains(y));
                        assert(edge(cells, u, y));
                        lemma_reaches_step(cells, start, u, y);
                    }
                    if !visited[y] {
                        proof {
                            lemma_count_true_update(visited@, y as int);
                            lemma_count_true_le(visited@.update(y as int, true));
                        }
                        let ghost s_prev = stack@;
                        let ghost v_prev = visited@;
                        visited[y] = true;
                        stack.push(y);
                        proof {
                            assert(forall|x: usize|
                                s_prev.contains(x) ==> stack@.contains(x)) by {
                                assert forall|x: usize| s_prev.contains(x) implies stack@.contains(
                                    x,
                                ) by {
                                    lemma_push_contains(s_prev, y, x);
                                }
                            }
                            assert(stack@[stack@.len() - 1] == y);
                            assert(stack@.contains(y));
                            assert forall|x: usize|
                                (x as int) < n && visited@[x as int] && !stack@.contains(x)
                                    && x != u implies (forall|y2: usize|
                                (y2 as int) < n && #[trigger] edge(cells, x, y2)
                                    ==> visited@[y2 as int]) by {
                                lemma_push_contains(s_prev, y, x);
                                assert(!s_prev.contains(x));
                                assert(x != y);
                                assert(v_prev[x as int]);
                            }
                        }
                    }
                    k = k + 1;
                }
                proof {
                    // u is now fully expanded: every successor is marked
                    assert(forall|y: usize|
                        (y as int) < n && #[trigger] edge(cells, u, y) ==> visited@[y
                            as int]) by {
                        assert forall|y: usize|
                            (y as int) < n && edge(cells, u, y) implies visited@[y as int] by {
                            let q = choose|q: int|
                                0 <= q < cells[u as int].dependencies@.len() && cells[u
                                    as int].dependencies@[q] == y;
                        }
                    }
                    // termination: either something new was marked, or the
                    // stack shrank by the pop of u
                    if count_true(visited@) == count_true(visited_at_entry) {
                        assert(forall|x: usize|
                            (x as int) < n && visited@[x as int] ==> visited_at_entry[x
                                as int]) by {
                            lemma_count_eq_mono(visited_at_entry, visited@);
                        }
                        assert(stack@.len() < s_old.len());
                    }
                }
            },
        }
    }
    proof {
        assert(stack@.len() == 0);
        assert forall|x: usize, y: usize|
            (x as int) < n && (y as int) < n && visited@[x as int] && #[trigger] edge(
                cells,
                x,
                y,
            ) implies visited@[y as int] by {
            assert(!stack@.contains(x));
        }
        assert forall|x: usize|
            (x as int) < n && reaches(cells, start, x) implies visited@[x as int] by {
            let p = choose|p: Seq<usize>|
                #[trigger] path_ok(cells, p) && p.first() == start && p.last() == x;
            lemma_closed_path(cells, visited@, p);
        }
    }
}

/// Two equally full monotone markings are equal.
proof fn lemma_count_eq_mono(a: Seq<bool>, b: Seq<bool>)
    requires
        a.len() == b.len(),
        forall|x: int| 0 <= x < a.len() && a[x] ==> b[x],
        count_true(a) == count_true(b),
    ensures
        forall|x: int| 0 <= x < a.len() && b[x] ==> a[x],
    decreases a.len(),
{
    if a.len() > 0 {
        assert(forall|x: int|
            0 <= x < a.len() - 1 && a.drop_last()[x] ==> b.drop_last()[x]) by {
            assert(forall|x: int| 0 <= x < a.len() - 1 ==> a.drop_last()[x] == a[x]);
            assert(forall|x: int| 0 <= x < b.len() - 1 ==> b.drop_last()[x] == b[x]);
        }
        lemma_count_mono(a.drop_last(), b.drop_last());
        if a.last() {
            assert(b.last());
        }
        if count_true(a.drop_last()) == count_true(b.drop_last()) {
            lemma_count_eq_mono(a.drop_last(), b.drop_last());
            assert(forall|x: int| 0 <= x < a.len() - 1 ==> a.drop_last()[x] == a[x]);
            assert(forall|x: int| 0 <= x < b.len() - 1 ==> b.drop_last()[x] == b[x]);
            if b.last() && !a.last() {
                assert(count_true(a) < count_true(b));
            }
        } else {
            assert(count_true(a.drop_last()) < count_true(b.drop_last()));
            assert(count_true(a) < count_true(b));
            assert(false);
        }
    }
}

/// A marking that is pointwise below another has no higher count.
proof fn lemma_count_mono(a: Seq<bool>, b: Seq<bool>)
    requires
        a.len() == b.len(),
        forall|x: int| 0 <= x < a.len() && a[x] ==> b[x],
    ensures
        count_true(a) <= count_true(b),
    decreases a.len(),
{
    if a.len() > 0 {
        assert(forall|x: int|
            0 <= x < a.len() - 1 && a.drop_last()[x] ==> b.drop_last()[x]) by {
            assert(forall|x: int| 0 <= x < a.len() - 1 ==> a.drop_last()[x] == a[x]);
            assert(forall|x: int| 0 <= x < b.len() - 1 ==> b.drop_last()[x] == b[x]);
        }
        lemma_count_mono(a.drop_last(), b.drop_last());
    }
}

/// Depth-first search from `current`: marks the reachable cells in
/// `visited` and says whether `target` is among them, that is, whether
/// `target` directly or transitively reads `current`.
pub fn dfs(current: usize, target: usize, visited: &mut Vec<bool>, sheet_data: &SheetData) -> (r:
    bool)
    requires
        sd_ids_ok(*sheet_data),
        (current as int) < sheet_data.cells@.len(),
        (target as int) < sheet_data.cells@.len(),
        old(visited)@.len() == sheet_data.cells@.len(),
        forall|x: int| 0 <= x < old(visited)@.len() ==> !old(visited)@[x],
    ensures
        r == reaches(sheet_data.cells@, current, target),
        final(visited)@.len() == sheet_data.cells@.len(),
        forall|x: usize|
            (x as int) < sheet_data.cells@.len() ==> (final(visited)@[x as int] <==> reaches(
                sheet_data.cells@,
                current,
                x,
            )),
{
    reach_mark(sheet_data, current, visited);
    visited[target]
}

/// Would an edge from `start` to `target` close a loop? True exactly when
/// `target` is `start` itself or already reads it, directly or through
/// other cells.
pub fn check_loop(start: usize, target: usize, sheet_data: &SheetData) -> (r: bool)
    requires
        sd_ids_ok(*sheet_data),
        (start as int) < sheet_data.cells@.len(),
        (target as int) < sheet_data.cells@.len(),
    ensures
        r == reaches(sheet_data.cells@, start, target),
{
    let n: usize = sheet_data.cells.len();
    let mut visited: Vec<bool> = Vec::new();
    let mut i: usize = 0;
    while i < n
        invariant
            0 <= i <= n,
            visited@.len() == i,
            forall|x: int| 0 <= x < i ==> !visited@[x],
        decreases n - i,
    {
        visited.push(false);
        i = i + 1;
    }
    dfs(start, target, &mut visited, sheet_data)
}

/// The cell with id `x` lies in the rectangle `(row1, col1)..(row2, col2)`.
pub open spec fn rect_contains(
    cols: int,
    row1: int,
    col1: int,
    row2: int,
    col2: int,
    x: usize,
) -> bool {
    &&& row1 <= (x as int) / cols <= row2
    &&& col1 <= (x as int) % cols <= col2
}

/// Some cell of the rectangle is reachable from `start`.
pub open spec fn reaches_rect(
    cells: Seq<Cell>,
    cols: int,
    start: usize,
    row1: int,
    col1: int,
    row2: int,
    col2: int,
) -> bool {
    exists|x: usize|
        (x as int) < cells.len() && #[trigger] rect_contains(cols, row1, col1, row2, col2, x)
            && reaches(cells, start, x)
}

/// Depth-first search from `current` that says whether any cell inside the
/// rectangle is reachable, the rectangle's own corner cells included.
#[verifier::spinoff_prover]
#[verifier::loop_isolation(false)]
#[verifier::rlimit(100)]
pub fn dfs_range(
    current: usize,
    visited: &mut Vec<bool>,
    row1: usize,
    col1: usize,
    row2: usize,
    col2: usize,
    sheet_data: &SheetData,
) -> (r: bool)
    requires
        sd_ids_ok(*sheet_data),
        (current as int) < sheet_data.cells@.len(),
        row1 <= row2 < sheet_data.rows,
        col1 <= col2 < sheet_data.cols,
        old(visited)@.len() == sheet_data.cells@.len(),
        forall|x: int| 0 <= x < old(visited)@.len() ==> !old(visited)@[x],
    ensures
        r == reaches_rect(
            sheet_data.cells@,
            sheet_data.cols as int,
            current,
            row1 as int,
            col1 as int,
            row2 as int,
            col2 as int,
        ),
{
    let ghost cells = sheet_data.cells@;
    let ghost cols = sheet_data.cols as int;
    reach_mark(sheet_data, current, visited);
    let mut rr: usize = row1;
    while rr <= row2
        invariant
            row1 <= rr <= row2 + 1,
            forall|x: usize|
                (x as int) < cells.len() && #[trigger] rect_contains(
                    cols,
                    row1 as int,
                    col1 as int,
                    row2 as int,
                    col2 as int,
                    x,
                ) && (x as int) / cols < rr ==> !reaches(cells, current, x),
        decreases row2 + 1 - rr,
    {
        let mut cc: usize = col1;
        while cc <= col2
            invariant
                row1 <= rr <= row2,
                col1 <= cc <= col2 + 1,
                forall|x: usize|
                    (x as int) < cells.len() && #[trigger] rect_contains(
                        cols,
                        row1 as int,
                        col1 as int,
                        row2 as int,
                        col2 as int,
                        x,
                    ) && ((x as int) / cols < rr || ((x as int) / cols == rr && (x as int) % cols
                        < cc)) ==> !reaches(cells, current, x),
            decreases col2 + 1 - cc,
        {
            let id: usize = sheet_data.get(rr, cc);
            proof {
                crate::sheet::lemma_id_decode(cols, rr as int, cc as int);
            }
            if visited[id] {
                proof {
                    assert(rect_contains(
                        cols,
                        row1 as int,
                        col1 as int,
                        row2 as int,
                        col2 as int,
                        id,
                    ));
                }
                return true;
            }
            proof {
                assert forall|x: usize|
                    (x as int) < cells.len() && rect_contains(
                        cols,
                        row1 as int,
                        col1 as int,
                        row2 as int,
                        col2 as int,
                        x,
                    ) && (x as int) / cols == rr && (x as int) % cols == cc implies !reaches(
                    cells,
                    current,
                    x,
                ) by {
                    vstd::arithmetic::div_mod::lemma_fundamental_div_mod(x as int, cols);
                    assert(x == id);
                }
            }
            cc = cc + 1;
        }
        rr = rr + 1;
    }
    proof {
        if reaches_rect(cells, cols, current, row1 as int, col1 as int, row2 as int, col2 as int) {
            let x = choose|x: usize|
                (x as int) < cells.len() && #[trigger] rect_contains(
                    cols,
                    row1 as int,
                    col1 as int,
                    row2 as int,
                    col2 as int,
                    x,
                ) && reaches(cells, current, x);
            assert(false);
        }
    }
    false
}

/// Allocates a fresh marking and runs the rectangle reachability check.
pub fn check_loop_range(
    start: usize,
    row1: usize,
    col1: usize,
    row2: usize,
    col2: usize,
    sheet_data: &SheetData,
) -> (r: bool)
    requires
        sd_ids_ok(*sheet_data),
        (start as int) < sheet_data.cells@.len(),
        row1 <= row2 < sheet_data.rows,
        col1 <= col2 < sheet_data.cols,
    ensures
        r == reaches_rect(
            sheet_data.cells@,
            sheet_data.cols as int,
            start,
            row1 as int,
            col1 as int,
            row2 as int,
            col2 as int,
        ),
{
    let n: usize = sheet_data.cells.len();
    let mut visited: Vec<bool> = Vec::new();
    let mut i: usize = 0;
    while i < n
        invariant
            0 <= i <= n,
            visited@.len() == i,
            forall|x: int| 0 <= x < i ==> !visited@[x],
        decreases n - i,
    {
        visited.push(false);
        i = i + 1;
    }
    dfs_range(start, &mut visited, row1, col1, row2, col2, sheet_data)
}



/// Every reader of a listed cell appears earlier in the list: processing
/// the list from its end to its start therefore refreshes a cell only
/// after every cell it reads.
pub open spec fn topo_ok(cells: Seq<Cell>, l: Seq<usize>) -> bool {
    forall|k: int, y: usize|
        0 <= k < l.len() && (y as int) < cells.len() && #[trigger] edge(cells, l[k], y)
            ==> exists|m: int| 0 <= m < k && l[m] == y
}

/// The stack frames of the post-order walk: nodes in range, indexes within
/// their successor lists, consecutive frames joined by edges, every frame
/// distinct, the scanned successors already marked.
pub open spec fn frames_ok(
    cells: Seq<Cell>,
    fs: Seq<(usize, usize)>,
    root: usize,
    visited: Seq<bool>,
) -> bool {
    &&& forall|t: int|
        0 <= t < fs.len() ==> ((#[trigger] fs[t]).0 as int) < cells.len() && fs[t].1
            <= cells[fs[t].0 as int].dependencies@.len() && visited[fs[t].0 as int]
    &&& (fs.len() > 0 ==> fs[0].0 == root)
    &&& forall|t: int| 0 <= t < fs.len() - 1 ==> edge(cells, (#[trigger] fs[t]).0, fs[t + 1].0)
    &&& forall|t1: int, t2: int|
        0 <= t1 < t2 < fs.len() ==> (#[trigger] fs[t1]).0 != (#[trigger] fs[t2]).0
    &&& forall|t: int, q: int|
        0 <= t < fs.len() && 0 <= q < fs[t].1 ==> visited[(#[trigger] cells[fs[t].0
            as int].dependencies@[q]) as int]
}

/// Some frame holds `x`.
pub open spec fn gray(fs: Seq<(usize, usize)>, x: usize) -> bool {
    exists|t: int| 0 <= t < fs.len() && (#[trigger] fs[t]).0 == x
}

/// The whole state of the post-order walk is sound.
pub open spec fn topo_inv(
    cells: Seq<Cell>,
    root: usize,
    fs: Seq<(usize, usize)>,
    visited: Seq<bool>,
    l: Seq<usize>,
) -> bool {
    &&& visited.len() == cells.len()
    &&& (root as int) < cells.len()
    &&& frames_ok(cells, fs, root, visited)
    &&& visited[root as int]
    &&& forall|x: usize| (x as int) < cells.len() && visited[x as int] ==> reaches(cells, root, x)
    &&& forall|k: int| 0 <= k < l.len() ==> ((#[trigger] l[k]) as int) < cells.len() && visited[l[k] as int]
    &&& forall|k1: int, k2: int| 0 <= k1 < k2 < l.len() ==> l[k1] != l[k2]
    &&& topo_ok(cells, l)
    &&& forall|x: usize|
        (x as int) < cells.len() ==> (visited[x as int] <==> (gray(fs, x) || l.contains(x)))
    &&& forall|t: int| 0 <= t < fs.len() ==> !l.contains((#[trigger] fs[t]).0)
}

/// The work left in the frame stack, for termination.
pub open spec fn rem_work(cells: Seq<Cell>, fs: Seq<(usize, usize)>) -> int
    decreases fs.len(),
{
    if fs.len() == 0 {
        0
    } else {
        rem_work(cells, fs.drop_last()) + (cells[fs.last().0 as int].dependencies@.len()
            - fs.last().1) + 1
    }
}

/// Sound frames never owe negative work.
proof fn lemma_rem_work_nonneg(cells: Seq<Cell>, fs: Seq<(usize, usize)>)
    requires
        forall|t: int|
            0 <= t < fs.len() ==> ((#[trigger] fs[t]).0 as int) < cells.len() && fs[t].1
                <= cells[fs[t].0 as int].dependencies@.len(),
    ensures
        rem_work(cells, fs) >= 0,
    decreases fs.len(),
{
    if fs.len() > 0 {
        assert(forall|t: int| 0 <= t < fs.len() - 1 ==> fs.drop_last()[t] == fs[t]);
        lemma_rem_work_nonneg(cells, fs.drop_last());
    }
}

/// A marked cell among the frames whose chain ends in `u` yields, with the
/// edge from `u` back to it, a walk that returns to its start.
proof fn lemma_gray_cycle(cells: Seq<Cell>, fs: Seq<(usize, usize)>, t: int, u: usize, y: usize)
    requires
        forall|q: int| 0 <= q < fs.len() ==> ((#[trigger] fs[q]).0 as int) < cells.len(),
        forall|q: int| 0 <= q < fs.len() - 1 ==> edge(cells, (#[trigger] fs[q]).0, fs[q + 1].0),
        0 <= t < fs.len(),
        fs[t].0 == y,
        fs[fs.len() - 1].0 == u,
        edge(cells, u, y),
    ensures
        !acyclic(cells),
{
    let nodes = Seq::new(fs.len() as nat, |i: int| fs[i].0);
    let p = nodes.subrange(t, fs.len() as int);
    assert(forall|i: int| 0 <= i < p.len() ==> p[i] == fs[t + i].0);
    let q = p.push(y);
    assert(path_ok(cells, q)) by {
        assert(forall|i: int| 0 <= i < p.len() ==> q[i] == p[i]);
        assert(q[q.len() - 1] == y);
        assert(forall|i: int| 0 <= i < q.len() - 2 ==> #[trigger] edge(cells, q[i], q[i + 1]));
        assert(q[q.len() - 2] == u);
        assert(edge(cells, q[q.len() - 2], q[q.len() - 1]));
    }
    assert(q.first() == y && q.last() == y && q.len() >= 2);
}

/// Advancing the top frame past an already marked successor keeps the walk
/// sound.
proof fn lemma_topo_advance(
    cells: Seq<Cell>,
    root: usize,
    fs: Seq<(usize, usize)>,
    visited: Seq<bool>,
    l: Seq<usize>,
    u: usize,
    i: usize,
)
    requires
        topo_inv(cells, root, fs, visited, l),
        forall|x: int| 0 <= x < cells.len() ==> cell_ids_ok(#[trigger] cells[x], cells.len() as int),
        fs.len() > 0,
        fs.last() == (u, i),
        (i as int) + 1 <= usize::MAX,
        (i as int) < cells[u as int].dependencies@.len(),
        visited[cells[u as int].dependencies@[i as int] as int],
    ensures
        topo_inv(cells, root, fs.update(fs.len() - 1, (u, (i + 1) as usize)), visited, l),
{
    assert((u as int) < cells.len());
    let fs2 = fs.update(fs.len() - 1, (u, (i + 1) as usize));
    assert(forall|t: int| 0 <= t < fs.len() - 1 ==> fs2[t] == fs[t]);
    assert(fs2[fs2.len() - 1] == (u, (i + 1) as usize));
    assert(frames_ok(cells, fs2, root, visited)) by {
        assert forall|t: int, q: int|
            0 <= t < fs2.len() && 0 <= q < fs2[t].1 implies visited[(#[trigger] cells[fs2[t].0
            as int].dependencies@[q]) as int] by {
            if t < fs2.len() - 1 {
                assert(fs2[t] == fs[t]);
            } else {
                assert(fs2[t].0 == u);
                if q < i {
                    assert(visited[cells[u as int].dependencies@[q] as int]);
                }
            }
        }
    }
    assert forall|x: usize| gray(fs2, x) implies gray(fs, x) by {
        let tq = choose|tq: int| 0 <= tq < fs2.len() && (#[trigger] fs2[tq]).0 == x;
        assert(fs[tq].0 == x);
    }
    assert forall|x: usize| gray(fs, x) implies gray(fs2, x) by {
        let tq = choose|tq: int| 0 <= tq < fs.len() && (#[trigger] fs[tq]).0 == x;
        assert(fs2[tq].0 == x);
    }
}

/// Stepping into a fresh successor keeps the walk sound.
proof fn lemma_topo_mark(
    cells: Seq<Cell>,
    root: usize,
    fs: Seq<(usize, usize)>,
    visited: Seq<bool>,
    l: Seq<usize>,
    u: usize,
    i: usize,
)
    requires
        topo_inv(cells, root, fs, visited, l),
        forall|x: int| 0 <= x < cells.len() ==> cell_ids_ok(#[trigger] cells[x], cells.len() as int),
        fs.len() > 0,
        fs.last() == (u, i),
        (i as int) + 1 <= usize::MAX,
        (i as int) < cells[u as int].dependencies@.len(),
        !visited[cells[u as int].dependencies@[i as int] as int],
    ensures
        topo_inv(
            cells,
            root,
            fs.update(fs.len() - 1, (u, (i + 1) as usize)).push(
                (cells[u as int].dependencies@[i as int], 0usize),
            ),
            visited.update(cells[u as int].dependencies@[i as int] as int, true),
            l,
        ),
{
    let y = cells[u as int].dependencies@[i as int];
    let fs2 = fs.update(fs.len() - 1, (u, (i + 1) as usize));
    let fs3 = fs2.push((y, 0usize));
    let v2 = visited.update(y as int, true);
    assert((u as int) < cells.len());
    assert(cell_ids_ok(cells[u as int], cells.len() as int));
    assert((y as int) < cells.len());
    assert(cells[u as int].dependencies@.contains(y)) by {
        assert(cells[u as int].dependencies@[i as int] == y);
    }
    assert(edge(cells, u, y));
    assert(reaches(cells, root, y)) by {
        lemma_reaches_step(cells, root, u, y);
    }
    assert(forall|t: int| 0 <= t < fs.len() - 1 ==> fs3[t] == fs[t]);
    assert(fs3[fs3.len() - 2] == (u, (i + 1) as usize));
    assert(fs3[fs3.len() - 1] == (y, 0usize));
    assert(frames_ok(cells, fs3, root, v2)) by {
        assert(forall|t: int| 0 <= t < fs.len() ==> (#[trigger] fs3[t]).0 == fs[t].0);
        assert(forall|t: int| 0 <= t < fs.len() ==> (#[trigger] fs[t]).0 != y);
        assert(edge(cells, fs3[fs3.len() - 2].0, fs3[fs3.len() - 1].0));
        assert forall|t: int, q: int|
            0 <= t < fs3.len() && 0 <= q < fs3[t].1 implies v2[(#[trigger] cells[fs3[t].0
            as int].dependencies@[q]) as int] by {
            if t < fs.len() - 1 {
                assert(fs3[t] == fs[t]);
            } else if t == fs.len() - 1 {
                assert(fs3[t].0 == u && fs3[t].1 == i + 1);
                if q < i {
                    assert(visited[cells[u as int].dependencies@[q] as int]);
                }
            }
        }
    }
    assert forall|x: usize|
        (x as int) < cells.len() && v2[x as int] implies (gray(fs3, x) || l.contains(x)) by {
        if x == y {
            assert(fs3[fs3.len() - 1].0 == y);
            assert(gray(fs3, y));
        } else {
            assert(visited[x as int]);
            if gray(fs, x) {
                let tq = choose|tq: int| 0 <= tq < fs.len() && (#[trigger] fs[tq]).0 == x;
                assert(fs3[tq].0 == x);
                assert(gray(fs3, x));
            }
        }
    }
    assert forall|x: usize|
        (x as int) < cells.len() && (gray(fs3, x) || l.contains(x)) implies v2[x as int] by {
        if gray(fs3, x) {
            let tq = choose|tq: int| 0 <= tq < fs3.len() && (#[trigger] fs3[tq]).0 == x;
            if tq < fs3.len() - 1 {
                assert(fs[tq].0 == x);
                assert(gray(fs, x));
            }
        }
    }
    assert forall|t: int| 0 <= t < fs3.len() implies !l.contains((#[trigger] fs3[t]).0) by {
        if t < fs3.len() - 1 {
            assert(fs3[t].0 == fs[t].0);
        } else {
            assert(fs3[t].0 == y);
            if l.contains(y) {
                let m = choose|m: int| 0 <= m < l.len() && l[m] == y;
                assert(visited[y as int]);
            }
        }
    }
}

/// Retiring a fully expanded frame into the order keeps the walk sound;
/// under acyclicity every successor of the retiring cell is already in the
/// order, so the order property extends.
proof fn lemma_topo_pop(
    cells: Seq<Cell>,
    root: usize,
    fs: Seq<(usize, usize)>,
    visited: Seq<bool>,
    l: Seq<usize>,
    u: usize,
)
    requires
        topo_inv(cells, root, fs, visited, l),
        forall|x: int| 0 <= x < cells.len() ==> cell_ids_ok(#[trigger] cells[x], cells.len() as int),
        acyclic(cells),
        fs.len() > 0,
        fs.last().0 == u,
        fs.last().1 == cells[u as int].dependencies@.len(),
    ensures
        topo_inv(cells, root, fs.drop_last(), visited, l.push(u)),
        fs.len() == 1 ==> u == root,
{
    let fs2 = fs.drop_last();
    let l2 = l.push(u);
    assert(forall|t: int| 0 <= t < fs.len() - 1 ==> fs2[t] == fs[t]);
    assert(fs[fs.len() - 1].0 == u);
    assert(!l.contains(u));
    assert(forall|k: int| 0 <= k < l.len() ==> l2[k] == l[k]);
    assert(l2[l2.len() - 1] == u);
    // every successor of u is already in the order
    assert forall|y: usize|
        (y as int) < cells.len() && #[trigger] edge(cells, u, y) implies l.contains(y) by {
        let q = choose|q: int|
            0 <= q < cells[u as int].dependencies@.len() && cells[u as int].dependencies@[q]
                == y;
        assert(visited[(cells[u as int].dependencies@[q]) as int]);
        if gray(fs, y) {
            let tq = choose|tq: int| 0 <= tq < fs.len() && (#[trigger] fs[tq]).0 == y;
            lemma_gray_cycle(cells, fs, tq, u, y);
            assert(false);
        }
    }
    assert(topo_ok(cells, l2)) by {
        assert forall|k: int, y: usize|
            0 <= k < l2.len() && (y as int) < cells.len() && #[trigger] edge(cells, l2[k], y)
                implies exists|m: int| 0 <= m < k && l2[m] == y by {
            if k < l.len() {
                assert(edge(cells, l[k], y));
                let m = choose|m: int| 0 <= m < k && l[m] == y;
                assert(l2[m] == y);
            } else {
                assert(l2[k] == u);
                assert(l.contains(y));
                let m = choose|m: int| 0 <= m < l.len() && l[m] == y;
                assert(l2[m] == y);
            }
        }
    }
    assert forall|x: usize|
        (x as int) < cells.len() && visited[x as int] implies (gray(fs2, x) || l2.contains(
        x,
    )) by {
        if gray(fs, x) {
            let tq = choose|tq: int| 0 <= tq < fs.len() && (#[trigger] fs[tq]).0 == x;
            if tq < fs.len() - 1 {
                assert(fs2[tq].0 == x);
                assert(gray(fs2, x));
            } else {
                assert(x == u);
                assert(l2.contains(u)) by {
                    assert(l2[l2.len() - 1] == u);
                }
            }
        } else {
            assert(l.contains(x));
            let m = choose|m: int| 0 <= m < l.len() && l[m] == x;
            assert(l2[m] == x);
        }
    }
    assert forall|x: usize|
        (x as int) < cells.len() && (gray(fs2, x) || l2.contains(x)) implies visited[x
        as int] by {
        if gray(fs2, x) {
            let tq = choose|tq: int| 0 <= tq < fs2.len() && (#[trigger] fs2[tq]).0 == x;
            assert(fs[tq].0 == x);
        } else {
            let m = choose|m: int| 0 <= m < l2.len() && l2[m] == x;
            if m < l.len() {
                assert(visited[l[m] as int]);
            }
        }
    }
    assert forall|t: int| 0 <= t < fs2.len() implies !l2.contains((#[trigger] fs2[t]).0) by {
        assert(fs2[t].0 == fs[t].0);
        assert(fs[t].0 != u);
        if l2.contains(fs2[t].0) {
            let m = choose|m: int| 0 <= m < l2.len() && l2[m] == fs2[t].0;
            assert(m < l.len());
            assert(l.contains(fs[t].0));
        }
    }
    assert(forall|k1: int, k2: int| 0 <= k1 < k2 < l2.len() ==> l2[k1] != l2[k2]) by {
        assert(forall|k1: int| 0 <= k1 < l.len() ==> l2[k1] == l[k1] && l.contains(l[k1]));
    }
}

/// The depth-first post-order walk from `cell` over the reader graph. It
/// appends to `stack` every cell reachable from `cell`, each exactly once,
/// `cell` itself on top, ordered so that every reader stands nearer the top
/// of the stack than the cells it reads: popping the stack therefore yields
/// a valid recomputation order.
#[verifier::spinoff_prover]
#[verifier::loop_isolation(false)]
#[verifier::rlimit(100)]
pub fn topological_sort_util(
    cell: usize,
    visited: &mut Vec<bool>,
    sheet_data: &SheetData,
    stack: &mut Vec<usize>,
)
    requires
        sd_ids_ok(*sheet_data),
        acyclic(sheet_data.cells@),
        (cell as int) < sheet_data.cells@.len(),
        old(visited)@.len() == sheet_data.cells@.len(),
        forall|x: int| 0 <= x < old(visited)@.len() ==> !old(visited)@[x],
    ensures
        final(visited)@.len() == sheet_data.cells@.len(),
        final(stack)@.len() > old(stack)@.len(),
        final(stack)@.take(old(stack)@.len() as int) == old(stack)@,
        ({
            let l = final(stack)@.skip(old(stack)@.len() as int);
            &&& forall|k: int|
                0 <= k < l.len() ==> ((#[trigger] l[k]) as int) < sheet_data.cells@.len()
            &&& forall|x: usize|
                (x as int) < sheet_data.cells@.len() ==> (l.contains(x) <==> reaches(
                    sheet_data.cells@,
                    cell,
                    x,
                ))
            &&& forall|k1: int, k2: int| 0 <= k1 < k2 < l.len() ==> l[k1] != l[k2]
            &&& l.last() == cell
            &&& topo_ok(sheet_data.cells@, l)
        }),
{
    let ghost cells = sheet_data.cells@;
    let ghost old_len = stack@.len() as int;
    let n: usize = visited.len();
    let mut frames: Vec<(usize, usize)> = Vec::new();
    visited[cell] = true;
    frames.push((cell, 0));
    proof {
        lemma_reaches_self(cells, cell);
        lemma_count_true_zero(old(visited)@);
        lemma_count_true_update(old(visited)@, cell as int);
        lemma_count_true_le(visited@);
        assert(frames@[0] == (cell, 0usize));
        assert(gray(frames@, cell));
        assert(stack@.skip(old_len) =~= Seq::<usize>::empty());
        assert(stack@.take(old_len) =~= stack@);
        assert(topo_inv(cells, cell, frames@, visited@, stack@.skip(old_len))) by {
            assert(forall|x: usize|
                (x as int) < n && visited@[x as int] ==> x == cell);
        }
    }
    while frames.len() > 0
        invariant
            visited@.len() == n,
            topo_inv(cells, cell, frames@, visited@, stack@.skip(old_len)),
            stack@.len() >= old_len,
            stack@.take(old_len) == old(stack)@,
            frames@.len() == 0 ==> stack@.len() > old_len && stack@.skip(old_len).last() == cell,
            count_true(visited@) <= n,
        decreases n - count_true(visited@), rem_work(cells, frames@),
    {
        let ghost fs_old = frames@;
        let ghost l_old = stack@.skip(old_len);
        let f_opt: Option<(usize, usize)> = frames.pop();
        let (u, i): (usize, usize) = match f_opt {
            Some(f) => f,
            None => {
                proof {
                    assert(false);
                }
                (0, 0)
            },
        };
        proof {
            assert(fs_old =~= frames@.push((u, i)));
            assert(fs_old.last() == (u, i));
            assert(rem_work(cells, fs_old) == rem_work(cells, frames@) + (cells[u
                as int].dependencies@.len() - i) + 1);
            lemma_rem_work_nonneg(cells, frames@);
        }
        let du_len: usize = sheet_data.cells[u].dependencies.len();
        if i < du_len {
            let y: usize = sheet_data.cells[u].dependencies[i];
            if !visited[y] {
                proof {
                    lemma_topo_mark(cells, cell, fs_old, visited@, l_old, u, i);
                    lemma_count_true_update(visited@, y as int);
                    lemma_count_true_le(visited@.update(y as int, true));
                }
                visited[y] = true;
                frames.push((u, i + 1));
                frames.push((y, 0));
                proof {
                    assert(frames@ =~= fs_old.update(fs_old.len() - 1, (u, (i + 1) as usize))
                        .push((y, 0usize)));
                    lemma_rem_work_nonneg(cells, frames@);
                }
            } else {
                proof {
                    lemma_topo_advance(cells, cell, fs_old, visited@, l_old, u, i);
                }
                frames.push((u, i + 1));
                proof {
                    let fs2 = fs_old.update(fs_old.len() - 1, (u, (i + 1) as usize));
                    assert(frames@ =~= fs2);
                    assert(fs2.drop_last() =~= fs_old.drop_last());
                    assert(rem_work(cells, fs2) == rem_work(cells, fs_old) - 1);
                    lemma_rem_work_nonneg(cells, frames@);
                }
            }
        } else {
            proof {
                assert(i == du_len);
                lemma_topo_pop(cells, cell, fs_old, visited@, l_old, u);
                assert(frames@ =~= fs_old.drop_last());
            }
            stack.push(u);
            proof {
                assert(stack@.skip(old_len) =~= l_old.push(u));
                assert(stack@.take(old_len) =~= old(stack)@);
                lemma_rem_work_nonneg(cells, frames@);
                if frames@.len() == 0 {
                    assert(stack@.skip(old_len).last() == u);
                }
            }
        }
    }
    proof {
        let l = stack@.skip(old_len);
        assert forall|x: usize, y: usize|
            (x as int) < n && (y as int) < n && visited@[x as int] && #[trigger] edge(
                cells,
                x,
                y,
            ) implies visited@[y as int] by {
            assert(!gray(frames@, x));
            assert(l.contains(x));
            let k = choose|k: int| 0 <= k < l.len() && l[k] == x;
            assert(edge(cells, l[k], y));
            let m = choose|m: int| 0 <= m < k && l[m] == y;
            assert(visited@[l[m] as int]);
        }
        assert forall|x: usize|
            (x as int) < n && reaches(cells, cell, x) implies visited@[x as int] by {
            let p = choose|p: Seq<usize>|
                #[trigger] path_ok(cells, p) && p.first() == cell && p.last() == x;
            lemma_closed_path(cells, visited@, p);
        }
        assert forall|x: usize|
            (x as int) < n implies (l.contains(x) <==> reaches(cells, cell, x)) by {
            if l.contains(x) {
                let m = choose|m: int| 0 <= m < l.len() && l[m] == x;
                assert(visited@[x as int]);
            }
            if reaches(cells, cell, x) {
                assert(visited@[x as int]);
                assert(!gray(frames@, x));
            }
        }
    }
}

/// Runs the post-order walk from `start_cell` with a fresh marking.
pub fn topological_sort_from_cell(
    start_cell: usize,
    sheet_data: &SheetData,
    stack: &mut Vec<usize>,
)
    requires
        sd_ids_ok(*sheet_data),
        acyclic(sheet_data.cells@),
        (start_cell as int) < sheet_data.cells@.len(),
    ensures
        final(stack)@.len() > old(stack)@.len(),
        final(stack)@.take(old(stack)@.len() as int) == old(stack)@,
        ({
            let l = final(stack)@.skip(old(stack)@.len() as int);
            &&& forall|k: int|
                0 <= k < l.len() ==> ((#[trigger] l[k]) as int) < sheet_data.cells@.len()
            &&& forall|x: usize|
                (x as int) < sheet_data.cells@.len() ==> (l.contains(x) <==> reaches(
                    sheet_data.cells@,
                    start_cell,
                    x,
                ))
            &&& forall|k1: int, k2: int| 0 <= k1 < k2 < l.len() ==> l[k1] != l[k2]
            &&& l.last() == start_cell
            &&& topo_ok(sheet_data.cells@, l)
        }),
{
    let n: usize = sheet_data.cells.len();
    let mut visited: Vec<bool> = Vec::new();
    let mut i: usize = 0;
    while i < n
        invariant
            0 <= i <= n,
            visited@.len() == i,
            forall|x: int| 0 <= x < i ==> !visited@[x],
        decreases n - i,
    {
        visited.push(false);
        i = i + 1;
    }
    topological_sort_util(start_cell, &mut visited, sheet_data, stack);
}


/// Rebinding the reads of `w` cannot create a cycle when none of the new
/// read cells could reach back: a returning walk in the new graph would
/// have to enter `w` through a new edge, and the stretch of the walk from
/// `w` to that edge's source uses only edges that the graphs share.
///
/// The hypotheses say exactly what an edit does: edges not pointing at `w`
/// are untouched, and every cell that points at `w` afterwards was checked
/// not to be reachable from `w` beforehand.
pub proof fn lemma_install_preserves_acyclic(old_cells: Seq<Cell>, new_cells: Seq<Cell>, w: usize)
    requires
        acyclic(old_cells),
        new_cells.len() == old_cells.len(),
        (w as int) < old_cells.len(),
        forall|a: usize, b: usize|
            b != w ==> (#[trigger] edge(new_cells, a, b) <==> edge(old_cells, a, b)),
        forall|a: usize| #[trigger] edge(new_cells, a, w) ==> !reaches(old_cells, w, a),
    ensures
        acyclic(new_cells),
{
    assert forall|p: Seq<usize>|
        !(#[trigger] path_ok(new_cells, p) && p.len() >= 2 && p.first() == p.last()) by {
        if path_ok(new_cells, p) && p.len() >= 2 && p.first() == p.last() {
            if exists|i: int| 0 < i < p.len() && p[i] == w {
                // rotate the cycle so that it starts and ends at w
                let i = choose|i: int| 0 < i < p.len() && p[i] == w;
                let q = p.subrange(i, p.len() as int) + p.subrange(1, i + 1);
                assert(q.len() == p.len());
                assert(forall|k: int| 0 <= k < p.len() - i ==> q[k] == p[i + k]);
                assert(forall|k: int|
                    p.len() - i <= k < q.len() ==> q[k] == p[k - (p.len() - i) + 1]);
                assert(path_ok(new_cells, q)) by {
                    assert forall|k: int|
                        0 <= k < q.len() - 1 implies #[trigger] edge(new_cells, q[k], q[k
                        + 1]) by {
                        if k < p.len() - i - 1 {
                            assert(q[k] == p[i + k] && q[k + 1] == p[i + k + 1]);
                        } else if k == p.len() - i - 1 {
                            assert(q[k] == p[p.len() - 1] && q[k + 1] == p[1]);
                            assert(p[p.len() - 1] == p[0]);
                            assert(edge(new_cells, p[0], p[1]));
                        } else {
                            assert(q[k] == p[k - (p.len() - i) + 1]);
                            assert(q[k + 1] == p[k - (p.len() - i) + 2]);
                        }
                    }
                }
                assert(q.first() == w && q.last() == w);
                lemma_cycle_through_w(old_cells, new_cells, w, q);
                assert(false);
            } else {
                // the cycle avoids w except possibly at its ends, so every
                // edge of it ends away from w and already existed
                assert(path_ok(old_cells, p)) by {
                    assert forall|k: int|
                        0 <= k < p.len() - 1 implies #[trigger] edge(old_cells, p[k], p[k
                        + 1]) by {
                        assert(p[k + 1] != w);
                        assert(edge(new_cells, p[k], p[k + 1]));
                    }
                }
                assert(false);
            }
        }
    }
}

/// A walk of the new graph from `w` back to `w` contradicts the checks: by
/// induction on its length, its final stretch reaches `w` through a new
/// edge whose source the old graph already reached from `w`.
proof fn lemma_cycle_through_w(
    old_cells: Seq<Cell>,
    new_cells: Seq<Cell>,
    w: usize,
    q: Seq<usize>,
)
    requires
        acyclic(old_cells),
        new_cells.len() == old_cells.len(),
        (w as int) < old_cells.len(),
        forall|a: usize, b: usize|
            b != w ==> (#[trigger] edge(new_cells, a, b) <==> edge(old_cells, a, b)),
        forall|a: usize| #[trigger] edge(new_cells, a, w) ==> !reaches(old_cells, w, a),
        path_ok(new_cells, q),
        q.len() >= 2,
        q.first() == w,
        q.last() == w,
    ensures
        !acyclic(old_cells),
    decreases q.len(),
{
    if exists|k: int| 0 < k < q.len() - 1 && q[k] == w {
        let k = choose|k: int| 0 < k < q.len() - 1 && q[k] == w;
        let r = q.subrange(k, q.len() as int);
        assert(forall|m: int| 0 <= m < r.len() ==> r[m] == q[k + m]);
        assert(path_ok(new_cells, r));
        assert(r.first() == w && r.last() == w && r.len() >= 2);
        lemma_cycle_through_w(old_cells, new_cells, w, r);
    } else {
        // no interior w: the prefix of the walk is a walk of the old graph
        let pre = q.drop_last();
        assert(forall|m: int| 0 <= m < pre.len() ==> pre[m] == q[m]);
        assert(path_ok(old_cells, pre)) by {
            assert forall|m: int|
                0 <= m < pre.len() - 1 implies #[trigger] edge(old_cells, pre[m], pre[m
                + 1]) by {
                assert(q[m + 1] != w);
                assert(edge(new_cells, q[m], q[m + 1]));
            }
        }
        assert(pre.first() == w && pre.last() == q[q.len() - 2]);
        assert(reaches(old_cells, w, q[q.len() - 2]));
        assert(edge(new_cells, q[q.len() - 2], w));
        assert(false);
    }
}


/// In a DAG nothing reaches back along an existing edge: a walk from `a`
/// to `b` together with the edge from `b` to `a` would return to its
/// start.
pub proof fn lemma_no_back_reach(cells: Seq<Cell>, a: usize, b: usize)
    requires
        acyclic(cells),
        edge(cells, b, a),
    ensures
        !reaches(cells, a, b),
{
    if reaches(cells, a, b) {
        let p = choose|p: Seq<usize>|
            #[trigger] path_ok(cells, p) && p.first() == a && p.last() == b;
        let q = p.push(a);
        assert(path_ok(cells, q)) by {
            assert(forall|i: int| 0 <= i < p.len() ==> q[i] == p[i]);
            assert(q[q.len() - 1] == a);
            assert(edge(cells, q[q.len() - 2], q[q.len() - 1]));
        }
        assert(q.first() == a && q.last() == a && q.len() >= 2);
    }
}


/// Reachability composes.
pub proof fn lemma_reaches_trans(cells: Seq<Cell>, a: usize, b: usize, c: usize)
    requires
        reaches(cells, a, b),
        reaches(cells, b, c),
    ensures
        reaches(cells, a, c),
{
    let p1 = choose|p1: Seq<usize>|
        #[trigger] path_ok(cells, p1) && p1.first() == a && p1.last() == b;
    let p2 = choose|p2: Seq<usize>|
        #[trigger] path_ok(cells, p2) && p2.first() == b && p2.last() == c;
    let q = p1 + p2.drop_first();
    assert(forall|i: int| 0 <= i < p1.len() ==> q[i] == p1[i]);
    assert(forall|i: int|
        0 <= i < p2.len() - 1 ==> #[trigger] q[p1.len() + i] == p2[i + 1]);
    assert(path_ok(cells, q)) by {
        assert forall|i: int|
            0 <= i < q.len() - 1 implies #[trigger] edge(cells, q[i], q[i + 1]) by {
            if i < p1.len() - 1 {
                assert(q[i] == p1[i] && q[i + 1] == p1[i + 1]);
            } else if i == p1.len() - 1 {
                if p2.len() >= 2 {
                    assert(q[i] == b && q[i + 1] == p2[1]);
                    assert(edge(cells, p2[0], p2[1]));
                }
            } else {
                let j = i - p1.len();
                assert(q[i] == p2[j + 1] && q[i + 1] == p2[j + 2]);
                assert(edge(cells, p2[j + 1], p2[j + 2]));
            }
        }
    }
    assert(q.first() == a);
    assert(q.last() == c) by {
        if p2.len() == 1 {
            assert(q =~= p1);
        } else {
            assert(q[q.len() - 1] == p2[p2.len() - 1]);
        }
    }
}

/// An edge is a walk of length two.
pub proof fn lemma_edge_reaches(cells: Seq<Cell>, a: usize, b: usize)
    requires
        edge(cells, a, b),
    ensures
        reaches(cells, a, b),
{
    let p = seq![a, b];
    assert(path_ok(cells, p)) by {
        assert(p[0] == a && p[1] == b);
        assert(edge(cells, p[0], p[1]));
    }
    assert(p.first() == a && p.last() == b);
}

/// Acyclicity carries over to a state whose reader sets hold the same
/// members.
pub proof fn lemma_acyclic_same_graph(c1: Seq<Cell>, c2: Seq<Cell>)
    requires
        acyclic(c1),
        c2.len() == c1.len(),
        forall|a: usize, b: usize|
            (a as int) < c1.len() ==> ((#[trigger] c1[a as int].dependencies@.contains(b))
                <==> c2[a as int].dependencies@.contains(b)),
    ensures
        acyclic(c2),
{
    assert forall|p: Seq<usize>|
        !(#[trigger] path_ok(c2, p) && p.len() >= 2 && p.first() == p.last()) by {
        if path_ok(c2, p) {
            assert(path_ok(c1, p)) by {
                assert forall|i: int|
                    0 <= i < p.len() - 1 implies #[trigger] edge(c1, p[i], p[i + 1]) by {
                    assert(edge(c2, p[i], p[i + 1]));
                }
            }
        }
    }
}

/// Every nonempty finite family of cells in a DAG holds one that none of
/// the others read: walking "is read by" inside the family must stop.
pub proof fn lemma_pick_unread(cells: Seq<Cell>, d: Set<int>)
    requires
        acyclic(cells),
        d.finite(),
        d.len() > 0,
        forall|x: int| #[trigger] d.contains(x) ==> 0 <= x < cells.len(),
    ensures
        exists|x: int| #[trigger]
            d.contains(x) && (forall|r: int| #[trigger]
                d.contains(r) ==> !edge(cells, (r as usize), (x as usize))),
    decreases d.len(),
{
    let x0 = d.choose();
    assert(d.contains(x0));
    let up = Set::new(
        |r: int| d.contains(r) && r != x0 && reaches(cells, (r as usize), (x0 as usize)),
    );
    assert(up.subset_of(d.remove(x0)));
    vstd::set_lib::lemma_len_subset(up, d.remove(x0));
    if up.len() == 0 {
        up.lemma_len0_is_empty();
        assert forall|r: int| #[trigger]
            d.contains(r) implies !edge(cells, (r as usize), (x0 as usize)) by {
            if edge(cells, (r as usize), (x0 as usize)) {
                lemma_edge_reaches(cells, (r as usize), (x0 as usize));
                if r == x0 {
                    // a self edge is a two-step walk back to its start
                    let p = seq![(x0 as usize), (x0 as usize)];
                    assert(path_ok(cells, p)) by {
                        assert(p[0] == (x0 as usize) && p[1] == (x0 as usize));
                        assert(edge(cells, p[0], p[1]));
                    }
                    assert(p.first() == p.last() && p.len() >= 2);
                    assert(false);
                }
                assert(up.contains(r));
                assert(false);
            }
        }
    } else {
        lemma_pick_unread(cells, up);
        let y = choose|y: int| #[trigger]
            up.contains(y) && (forall|r: int| #[trigger]
                up.contains(r) ==> !edge(cells, (r as usize), (y as usize)));
        assert(d.contains(y));
        assert forall|r: int| #[trigger]
            d.contains(r) implies !edge(cells, (r as usize), (y as usize)) by {
            if edge(cells, (r as usize), (y as usize)) {
                assert(reaches(cells, (y as usize), (x0 as usize)));
                if r == x0 {
                    lemma_no_back_reach(cells, (y as usize), (x0 as usize));
                    assert(false);
                } else {
                    lemma_edge_reaches(cells, (r as usize), (y as usize));
                    lemma_reaches_trans(
                        cells,
                        (r as usize),
                        (y as usize),
                        (x0 as usize),
                    );
                    assert(up.contains(r));
                    assert(false);
                }
            }
        }
    }
}

} // verus!
