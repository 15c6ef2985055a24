//! The command dispatcher: one line of input becomes a viewport command or
//! an assignment `LABEL=EXPR`, and an assignment that succeeds or fails at
//! run time re-evaluates every cell that transitively reads the target, in
//! an order where every cell is refreshed after the cells it reads.

use vstd::prelude::*;
use vstd::string::StringSliceAdditionalSpecFns;
use crate::cell::Cell;
use crate::depset::pop;
use crate::eval::{
    eval_spec, evaluate_bytes, first_pos, trim_slice, trim_spec, unchanged_cells,
};
use crate::graph::{acyclic, reaches, topological_sort_from_cell};
use crate::labels::{all_digits, digits_val, is_digit, parse_col_spec, parse_label_spec};
use crate::sheet::{sd_dims_ok, sd_wf, SheetData};

verus! {

/// The bytes of the one-letter and keyword commands.
pub open spec fn kw_q() -> Seq<u8> {
    seq![0x71u8]
}

pub open spec fn kw_wsad(e: Seq<u8>) -> bool {
    e.len() == 1 && (e[0] == 0x77 || e[0] == 0x73 || e[0] == 0x61 || e[0] == 0x64)
}

pub open spec fn kw_disable() -> Seq<u8> {
    seq![0x64u8, 0x69u8, 0x73u8, 0x61u8, 0x62u8, 0x6cu8, 0x65u8, 0x5fu8, 0x6fu8, 0x75u8,
        0x74u8, 0x70u8, 0x75u8, 0x74u8]
}

pub open spec fn kw_enable() -> Seq<u8> {
    seq![0x65u8, 0x6eu8, 0x61u8, 0x62u8, 0x6cu8, 0x65u8, 0x5fu8, 0x6fu8, 0x75u8, 0x74u8,
        0x70u8, 0x75u8, 0x74u8]
}

pub open spec fn kw_scroll_to() -> Seq<u8> {
    seq![0x73u8, 0x63u8, 0x72u8, 0x6fu8, 0x6cu8, 0x6cu8, 0x5fu8, 0x74u8, 0x6fu8, 0x20u8]
}

/// The input asks to move the viewport to a cell.
pub open spec fn is_scroll_to(e: Seq<u8>) -> bool {
    e.len() >= 10 && e.take(10) =~= kw_scroll_to()
}

/// Where `scroll_to` splits its argument: at the first decimal digit, or
/// at the start when there is none.
pub open spec fn first_digit_pos(s: Seq<u8>) -> int
    decreases s.len(),
{
    if s.len() == 0 {
        0
    } else if is_digit(s[0]) {
        0
    } else {
        1 + first_digit_pos(s.drop_first())
    }
}

/// What `scroll_to LABEL` decides: the new viewport origin, or a parse
/// failure that changes nothing.
pub open spec fn scroll_to_spec(rows: int, cols: int, e: Seq<u8>) -> Option<(usize, usize)> {
    let cap = e.skip(10);
    let dp = if first_digit_pos(cap) < cap.len() {
        first_digit_pos(cap)
    } else {
        0
    };
    let lab = cap.take(dp);
    let rs = cap.skip(dp);
    if rs.len() >= 1 && rs[0] == 0x30 {
        None
    } else if parse_col_spec(lab) is None {
        None
    } else if !(rs.len() >= 1 && all_digits(rs)) {
        None
    } else {
        let c = parse_col_spec(lab).unwrap() as int;
        let r = if digits_val(rs) >= 1 {
            digits_val(rs) - 1
        } else {
            0
        };
        if c >= cols || r >= rows {
            None
        } else {
            Some(((r as usize), (c as usize)))
        }
    }
}

/// The assignment `LABEL=EXPR` leaves the sheet in the state this
/// predicate describes: a rejected assignment changes nothing; an accepted
/// or run-time-failed one installs the formula and its read edges on the
/// target cell and refreshes only cells that transitively read the target,
/// leaving every other cell exactly as it was.
pub open spec fn assign_state_post(
    pre: SheetData,
    post: SheetData,
    rows: int,
    cols: int,
    e: Seq<u8>,
) -> bool {
    let p = first_pos(e, 0x3d);
    let lab = trim_spec(e.take(p));
    let ex = e.skip(p + 1);
    match parse_label_spec(lab) {
        None => unchanged_cells(pre, post),
        Some((rr, cc)) => if (rr as int) >= rows || (cc as int) >= cols {
            unchanged_cells(pre, post)
        } else {
            let out = eval_spec(pre, rows, cols, rr as int, cc as int, ex);
            let w = ((rr * pre.cols + cc) as usize);
            if out.0 == 0 || out.0 == -2 {
                &&& post.cells@.len() == pre.cells@.len()
                &&& post.rows == pre.rows
                &&& post.cols == pre.cols
                &&& post.start_row == pre.start_row
                &&& post.start_col == pre.start_col
                &&& post.flag == pre.flag
                // the dependency indexes are exactly the rebound ones
                &&& forall|x: usize|
                    (x as int) < post.cells@.len() ==> (#[trigger] post.cells@[x
                        as int]).dependents@ == if x == w {
                        out.2
                    } else {
                        pre.cells@[x as int].dependents@
                    }
                &&& forall|x: usize, y: usize|
                    (x as int) < post.cells@.len() ==> ((#[trigger] post.cells@[x
                        as int].dependencies@.contains(y)) <==> ((pre.cells@[x
                        as int].dependencies@.contains(y) && y != w) || (y == w
                        && out.2.contains(x))))
                // the target cell itself
                &&& post.cells@[w as int].expression@ == trim_spec(ex)
                &&& post.cells@[w as int].status == if out.0 == 0 {
                    0int
                } else {
                    1int
                }
                &&& (out.0 == 0 ==> post.cells@[w as int].val == out.1)
                &&& (out.0 == -2 ==> post.cells@[w as int].val == pre.cells@[w as int].val)
                // formulas elsewhere are untouched
                &&& forall|x: usize|
                    (x as int) < post.cells@.len() && x != w ==> (#[trigger] post.cells@[x
                        as int]).expression == pre.cells@[x as int].expression
                // cells the target cannot reach are untouched entirely
                &&& forall|x: usize|
                    (x as int) < post.cells@.len() && x != w && !reaches(post.cells@, w, x)
                        ==> (#[trigger] post.cells@[x as int]).val == pre.cells@[x
                        as int].val && post.cells@[x as int].status == pre.cells@[x
                        as int].status
                // a refresh that fails leaves the stale value in place
                &&& forall|x: usize|
                    (x as int) < post.cells@.len() && x != w && (#[trigger] post.cells@[x
                        as int]).status == 1 ==> post.cells@[x as int].val == pre.cells@[x
                        as int].val
            } else {
                unchanged_cells(pre, post)
            }
        },
    }
}


/// The formula of cell `x` parses and runs (code 0 or -2) in state `s`,
/// and every cell it reads carries `x` in its reader set.
#[verifier::opaque]
pub open spec fn cell_committed(s: SheetData, rows: int, cols: int, x: usize) -> bool {
    let out = eval_spec(
        s,
        rows,
        cols,
        (x as int) / (s.cols as int),
        (x as int) % (s.cols as int),
        s.cells@[x as int].expression@,
    );
    &&& (out.0 == 0 || out.0 == -2)
    &&& forall|r: usize| #[trigger]
        out.2.contains(r) ==> (r as int) < s.cells@.len() && s.cells@[r
            as int].dependencies@.contains(x)
}

/// The cell accounts for itself: its stored status matches the runtime
/// outcome of its formula in the current state, and when sound, its stored
/// value is what the formula evaluates to now.
#[verifier::opaque]
pub open spec fn cell_accounted(s: SheetData, rows: int, cols: int, x: usize) -> bool {
    let out = eval_spec(
        s,
        rows,
        cols,
        (x as int) / (s.cols as int),
        (x as int) % (s.cols as int),
        s.cells@[x as int].expression@,
    );
    &&& cell_committed(s, rows, cols, x)
    &&& (s.cells@[x as int].status == 0 ==> out.0 == 0 && s.cells@[x as int].val == out.1)
    &&& (s.cells@[x as int].status == 1 ==> out.0 == -2)
}

/// Value consistency and taint closure over the whole sheet: every cell
/// that holds a formula accounts for itself, and every cell that reads
/// something holds a formula. A sound cell's value is what its formula
/// evaluates to in the current state; a failed cell's formula still fails
/// at run time, which by the shape of `eval_spec` means a division by zero
/// or a read of a failed cell.
#[verifier::opaque]
pub open spec fn sheet_consistent(s: SheetData, rows: int, cols: int) -> bool {
    &&& forall|x: usize|
        (x as int) < s.cells@.len() && (#[trigger] s.cells@[x as int]).expression@.len() > 0
            ==> cell_accounted(s, rows, cols, x)
    &&& forall|x: usize|
        (x as int) < s.cells@.len() && (#[trigger] s.cells@[x as int]).dependents@.len() > 0
            ==> s.cells@[x as int].expression@.len() > 0
}

/// An accounted cell stays accounted in a state that keeps its formula,
/// its value and status, the values and statuses of its read cells, and
/// its read edges, as long as the new state is acyclic.
proof fn lemma_accounted_stable(s1: SheetData, s2: SheetData, rows: int, cols: int, x: usize)
    requires
        s2.cols == s1.cols,
        s2.cells@.len() == s1.cells@.len(),
        1 <= s1.cols <= 18278,
        1 <= rows <= 999,
        1 <= cols <= s1.cols,
        (x as int) < s1.cells@.len(),
        cell_accounted(s1, rows, cols, x),
        s2.cells@[x as int].expression@ == s1.cells@[x as int].expression@,
        s2.cells@[x as int].val == s1.cells@[x as int].val,
        s2.cells@[x as int].status == s1.cells@[x as int].status,
        ({
            let out = eval_spec(
                s1,
                rows,
                cols,
                (x as int) / (s1.cols as int),
                (x as int) % (s1.cols as int),
                s1.cells@[x as int].expression@,
            );
            forall|r: usize| #[trigger]
                out.2.contains(r) ==> crate::graph::edge(s2.cells@, r, x) && s2.cells@[r
                    as int].val == s1.cells@[r as int].val && s2.cells@[r as int].status
                    == s1.cells@[r as int].status
        }),
        acyclic(s2.cells@),
    ensures
        cell_accounted(s2, rows, cols, x),
{
    reveal(crate::engine::cell_accounted);
    reveal(crate::engine::cell_committed);
    let wr = (x as int) / (s1.cols as int);
    let wc = (x as int) % (s1.cols as int);
    let e = s1.cells@[x as int].expression@;
    assert(wr * (s1.cols as int) + wc == x as int) by {
        vstd::arithmetic::div_mod::lemma_fundamental_div_mod(x as int, s1.cols as int);
        assert((s1.cols as int) * wr == wr * (s1.cols as int)) by (nonlinear_arith);
    }
    crate::eval::lemma_eval_stable(s1, s2, rows, cols, wr, wc, e, true);
    let out = eval_spec(s1, rows, cols, wr, wc, e);
    let out2 = eval_spec(s2, rows, cols, wr, wc, e);
    assert(out2 == out);
    assert forall|r: usize| #[trigger] out2.2.contains(r) implies (r as int)
        < s2.cells@.len() && s2.cells@[r as int].dependencies@.contains(x) by {
        assert(crate::graph::edge(s2.cells@, r, x));
    }
}

/// A committed cell stays committed whenever its read edges carry over
/// into an acyclic state, whatever happened to any values.
proof fn lemma_committed_stable(s1: SheetData, s2: SheetData, rows: int, cols: int, x: usize)
    requires
        s2.cols == s1.cols,
        s2.cells@.len() == s1.cells@.len(),
        1 <= s1.cols <= 18278,
        1 <= rows <= 999,
        1 <= cols <= s1.cols,
        (x as int) < s1.cells@.len(),
        cell_committed(s1, rows, cols, x),
        s2.cells@[x as int].expression@ == s1.cells@[x as int].expression@,
        ({
            let out = eval_spec(
                s1,
                rows,
                cols,
                (x as int) / (s1.cols as int),
                (x as int) % (s1.cols as int),
                s1.cells@[x as int].expression@,
            );
            forall|r: usize| #[trigger]
                out.2.contains(r) ==> crate::graph::edge(s2.cells@, r, x)
        }),
        acyclic(s2.cells@),
    ensures
        cell_committed(s2, rows, cols, x),
        ({
            let out = eval_spec(
                s1,
                rows,
                cols,
                (x as int) / (s1.cols as int),
                (x as int) % (s1.cols as int),
                s1.cells@[x as int].expression@,
            );
            let out2 = eval_spec(
                s2,
                rows,
                cols,
                (x as int) / (s2.cols as int),
                (x as int) % (s2.cols as int),
                s2.cells@[x as int].expression@,
            );
            out2.2 == out.2
        }),
{
    reveal(crate::engine::cell_committed);
    let wr = (x as int) / (s1.cols as int);
    let wc = (x as int) % (s1.cols as int);
    let e = s1.cells@[x as int].expression@;
    assert(wr * (s1.cols as int) + wc == x as int) by {
        vstd::arithmetic::div_mod::lemma_fundamental_div_mod(x as int, s1.cols as int);
        assert((s1.cols as int) * wr == wr * (s1.cols as int)) by (nonlinear_arith);
    }
    crate::eval::lemma_eval_stable(s1, s2, rows, cols, wr, wc, e, false);
    let out = eval_spec(s1, rows, cols, wr, wc, e);
    let out2 = eval_spec(s2, rows, cols, wr, wc, e);
    assert(out2.2 == out.2);
    assert forall|r: usize| #[trigger] out2.2.contains(r) implies (r as int)
        < s2.cells@.len() && s2.cells@[r as int].dependencies@.contains(x) by {
        assert(crate::graph::edge(s2.cells@, r, x));
    }
}

/// Consistency carries over to a state with the same cells, whatever
/// happened to the viewport, the output flag or the pending sleep.
proof fn lemma_consistent_same_cells(s1: SheetData, s2: SheetData, rows: int, cols: int)
    requires
        sheet_consistent(s1, rows, cols),
        acyclic(s1.cells@),
        s2.cols == s1.cols,
        s2.cells@ == s1.cells@,
        1 <= s1.cols <= 18278,
        1 <= rows <= 999,
        1 <= cols <= s1.cols,
    ensures
        sheet_consistent(s2, rows, cols),
{
    reveal(crate::engine::sheet_consistent);
    assert forall|x: usize|
        (x as int) < s2.cells@.len() && (#[trigger] s2.cells@[x as int]).expression@.len() > 0
            implies cell_accounted(s2, rows, cols, x) by {
        reveal(crate::engine::cell_accounted);
        reveal(crate::engine::cell_committed);
        assert(cell_accounted(s1, rows, cols, x));
        let out = eval_spec(
            s1,
            rows,
            cols,
            (x as int) / (s1.cols as int),
            (x as int) % (s1.cols as int),
            s1.cells@[x as int].expression@,
        );
        assert forall|r: usize| #[trigger]
            out.2.contains(r) implies crate::graph::edge(s2.cells@, r, x) && s2.cells@[r
            as int].val == s1.cells@[r as int].val && s2.cells@[r as int].status
            == s1.cells@[r as int].status by {
            assert(s1.cells@[r as int].dependencies@.contains(x));
        }
        lemma_accounted_stable(s1, s2, rows, cols, x);
    }
}

/// The return code of one command.
pub open spec fn cmd_code_spec(pre: SheetData, rows: int, cols: int, e: Seq<u8>) -> i32 {
    if e =~= kw_q() {
        1
    } else if kw_wsad(e) {
        0
    } else if e =~= kw_disable() || e =~= kw_enable() {
        0
    } else if is_scroll_to(e) {
        if scroll_to_spec(rows, cols, e) is Some {
            0
        } else {
            (-1i32)
        }
    } else if first_pos(e, 0x3d) < e.len() {
        let p = first_pos(e, 0x3d);
        let lab = trim_spec(e.take(p));
        match parse_label_spec(lab) {
            None => (-1i32),
            Some((rr, cc)) => if (rr as int) >= rows || (cc as int) >= cols {
                (-1i32)
            } else {
                eval_spec(pre, rows, cols, rr as int, cc as int, e.skip(p + 1)).0
            },
        }
    } else {
        (-1i32)
    }
}


/// Where the four viewport keys move the origin: one block of ten in the
/// key's direction, stopping at the edges of the grid; any other input
/// leaves it alone.
pub open spec fn wsad_origin(
    rows: usize,
    cols: usize,
    sr: usize,
    sc: usize,
    e: Seq<u8>,
) -> (usize, usize) {
    let nr = if e =~= seq![0x77u8] {
        if sr >= 10 {
            (sr - 10) as usize
        } else {
            0usize
        }
    } else if e =~= seq![0x73u8] {
        if sr + 20 <= rows - 1 {
            (sr + 10) as usize
        } else if rows >= 10 {
            (rows - 10) as usize
        } else {
            0usize
        }
    } else {
        sr
    };
    let nc = if e =~= seq![0x61u8] {
        if sc >= 10 {
            (sc - 10) as usize
        } else {
            0usize
        }
    } else if e =~= seq![0x64u8] {
        if sc + 20 <= cols - 1 {
            (sc + 10) as usize
        } else if cols >= 10 {
            (cols - 10) as usize
        } else {
            0usize
        }
    } else {
        sc
    };
    (nr, nc)
}

/// Moves the viewport one block of ten in the direction the key names,
/// stopping at the edges of the grid.
pub fn scroll(input: &str, sheet_data: &mut SheetData) -> (r: i32)
    requires
        sd_dims_ok(*old(sheet_data)),
        old(sheet_data).start_row < old(sheet_data).rows,
        old(sheet_data).start_col < old(sheet_data).cols,
    ensures
        r == 0,
        final(sheet_data).start_row < final(sheet_data).rows,
        final(sheet_data).start_col < final(sheet_data).cols,
        final(sheet_data).cells@ == old(sheet_data).cells@,
        final(sheet_data).rows == old(sheet_data).rows,
        final(sheet_data).cols == old(sheet_data).cols,
        final(sheet_data).flag == old(sheet_data).flag,
        final(sheet_data).pending_sleep == old(sheet_data).pending_sleep,
        ({
            let o = wsad_origin(
                old(sheet_data).rows,
                old(sheet_data).cols,
                old(sheet_data).start_row,
                old(sheet_data).start_col,
                input.spec_bytes(),
            );
            final(sheet_data).start_row == o.0 && final(sheet_data).start_col == o.1
        }),
{
    let b: &[u8] = input.as_bytes();
    if b.len() != 1 {
        return 0;
    }
    let c: u8 = b[0];
    proof {
        assert(input.spec_bytes()[0] == c);
        if input.spec_bytes() =~= seq![0x77u8] {
            assert(c == 0x77);
        }
    }
    if c == 0x77 {
        proof {
            assert(input.spec_bytes() =~= seq![0x77u8]);
        }
        if sheet_data.start_row >= 10 {
            sheet_data.start_row = sheet_data.start_row - 10;
        } else {
            sheet_data.start_row = 0;
        }
    } else if c == 0x73 {
        proof {
            assert(input.spec_bytes() =~= seq![0x73u8]);
        }
        if sheet_data.start_row + 20 <= sheet_data.rows - 1 {
            sheet_data.start_row = sheet_data.start_row + 10;
        } else {
            sheet_data.start_row = if sheet_data.rows >= 10 {
                sheet_data.rows - 10
            } else {
                0
            };
        }
    } else if c == 0x61 {
        proof {
            assert(input.spec_bytes() =~= seq![0x61u8]);
        }
        if sheet_data.start_col >= 10 {
            sheet_data.start_col = sheet_data.start_col - 10;
        } else {
            sheet_data.start_col = 0;
        }
    } else if c == 0x64 {
        proof {
            assert(input.spec_bytes() =~= seq![0x64u8]);
        }
        if sheet_data.start_col + 20 <= sheet_data.cols - 1 {
            sheet_data.start_col = sheet_data.start_col + 10;
        } else {
            sheet_data.start_col = if sheet_data.cols >= 10 {
                sheet_data.cols - 10
            } else {
                0
            };
        }
    }
    0
}


/// Parses a trimmed label window as cell coordinates.
#[verifier::spinoff_prover]
pub fn label_bytes(b: &[u8], from: usize, to: usize) -> (r: Option<(usize, usize)>)
    requires
        from <= to <= b@.len(),
    ensures
        r == parse_label_spec(b@.subrange(from as int, to as int)),
{
    let ghost s = b@.subrange(from as int, to as int);
    let ul: usize = crate::eval::upper_run(b, from, to);
    proof {
        crate::eval::lemma_upper_len_run(s);
        lemma_upper_prefix_is_upper_len(s);
    }
    if ul < 1 || ul > 3 {
        return None;
    }
    if to - from - ul < 1 || to - from - ul > 3 {
        return None;
    }
    let dl: usize = crate::eval::digit_run(b, from + ul, to);
    proof {
        assert(s.skip(ul as int) =~= b@.subrange((from + ul) as int, to as int));
        crate::eval::lemma_digit_len_run(s.skip(ul as int));
    }
    if from + ul + dl < to {
        proof {
            assert(!is_digit(s.skip(ul as int)[dl as int]));
            assert(!all_digits(s.skip(ul as int)));
        }
        return None;
    }
    if b[from + ul] == 0x30 {
        proof {
            assert(s[ul as int] == b@[(from + ul) as int]);
        }
        return None;
    }
    proof {
        assert(s[ul as int] == b@[(from + ul) as int]);
        assert(all_digits(s.skip(ul as int)));
        assert(crate::labels::all_upper(b@.subrange(from as int, (from + ul) as int))) by {
            assert(forall|i: int|
                0 <= i < ul ==> b@.subrange(from as int, (from + ul) as int)[i] == s[i]);
        }
        crate::labels::lemma_digits_val_pos(s.skip(ul as int));
        crate::labels::lemma_col_val_pos(b@.subrange(from as int, (from + ul) as int));
        assert(b@.subrange(from as int, (from + ul) as int) =~= s.take(ul as int));
        assert(crate::labels::wf_label(s));
    }
    let rowv: u64 = crate::eval::digits_cap(b, from + ul, to);
    let colv: u64 = crate::eval::col_cap(b, from, from + ul);
    proof {
        // at most three digits and three letters keep both values small
        lemma_small_digits(s.skip(ul as int));
        lemma_small_cols(b@.subrange(from as int, (from + ul) as int));
    }
    Some((((rowv - 1) as usize), ((colv - 1) as usize)))
}

/// The maximal uppercase prefix computed front-first equals the one the
/// label codec speaks of.
proof fn lemma_upper_prefix_is_upper_len(s: Seq<u8>)
    ensures
        crate::labels::upper_prefix_len(s) == crate::eval::upper_len(s),
    decreases s.len(),
{
    if s.len() > 0 && crate::labels::is_upper(s[0]) {
        lemma_upper_prefix_is_upper_len(s.drop_first());
    }
}

/// Up to three digits stay below a thousand.
proof fn lemma_small_digits(s: Seq<u8>)
    requires
        all_digits(s),
        1 <= s.len() <= 3,
    ensures
        0 <= digits_val(s),
        s.len() <= 1 ==> digits_val(s) <= 9,
        s.len() <= 2 ==> digits_val(s) <= 99,
        digits_val(s) <= 999,
    decreases s.len(),
{
    if s.len() > 1 {
        assert(forall|i: int| 0 <= i < s.len() - 1 ==> s.drop_last()[i] == s[i]);
        lemma_small_digits(s.drop_last());
    } else {
        assert(s.drop_last().len() == 0);
        assert(digits_val(s.drop_last()) == 0);
    }
    assert(is_digit(s.last()));
}

/// Up to three letters stay below the largest three-letter column.
proof fn lemma_small_cols(s: Seq<u8>)
    requires
        crate::labels::all_upper(s),
        1 <= s.len() <= 3,
    ensures
        1 <= crate::labels::col_val(s),
        s.len() <= 1 ==> crate::labels::col_val(s) <= 26,
        s.len() <= 2 ==> crate::labels::col_val(s) <= 702,
        crate::labels::col_val(s) <= 18278,
    decreases s.len(),
{
    if s.len() > 1 {
        assert(forall|i: int| 0 <= i < s.len() - 1 ==> s.drop_last()[i] == s[i]);
        lemma_small_cols(s.drop_last());
    } else {
        assert(s.drop_last().len() == 0);
        assert(crate::labels::col_val(s.drop_last()) == 0);
    }
    assert(crate::labels::is_upper(s.last()));
}

/// The state change of each command other than an assignment.
pub open spec fn plain_cmd_post(pre: SheetData, post: SheetData, rows: int, cols: int, e: Seq<
    u8,
>) -> bool {
    &&& post.cells@ == pre.cells@
    &&& post.rows == pre.rows
    &&& post.cols == pre.cols
    &&& post.pending_sleep == pre.pending_sleep
    &&& post.flag == (if e =~= kw_disable() {
        0int
    } else if e =~= kw_enable() {
        1int
    } else {
        pre.flag as int
    })
    &&& ((e =~= kw_disable() || e =~= kw_enable() || e =~= kw_q() || (!kw_wsad(e)
        && !is_scroll_to(e))) ==> post.start_row == pre.start_row && post.start_col
        == pre.start_col)
    &&& (is_scroll_to(e) && !kw_wsad(e) ==> ((match scroll_to_spec(rows, cols, e) {
        Some(rc) => post.start_row == rc.0 && post.start_col == rc.1,
        None => post.start_row == pre.start_row && post.start_col == pre.start_col,
    })))
}

/// Moves the viewport to the labelled cell, when the argument parses and
/// lies inside the `rows` by `cols` window.
#[verifier::spinoff_prover]
#[verifier::loop_isolation(false)]
#[verifier::rlimit(100)]
fn scroll_to_exec(b: &[u8], bn: usize, rows: usize, cols: usize, sheet_data: &mut SheetData) -> (
    r: i32)
    requires
        bn == b@.len() >= 10,
        sd_dims_ok(*old(sheet_data)),
        1 <= rows <= old(sheet_data).rows,
        1 <= cols <= old(sheet_data).cols,
        old(sheet_data).start_row < old(sheet_data).rows,
        old(sheet_data).start_col < old(sheet_data).cols,
    ensures
        final(sheet_data).cells@ == old(sheet_data).cells@,
        final(sheet_data).rows == old(sheet_data).rows,
        final(sheet_data).cols == old(sheet_data).cols,
        final(sheet_data).flag == old(sheet_data).flag,
        final(sheet_data).pending_sleep == old(sheet_data).pending_sleep,
        final(sheet_data).start_row < final(sheet_data).rows,
        final(sheet_data).start_col < final(sheet_data).cols,
        ({
            match scroll_to_spec(rows as int, cols as int, b@) {
                Some(rc) => r == 0 && final(sheet_data).start_row == rc.0
                    && final(sheet_data).start_col == rc.1,
                None => r == -1 && final(sheet_data).start_row == old(sheet_data).start_row
                    && final(sheet_data).start_col == old(sheet_data).start_col,
            }
        }),
{
    let ghost cap = b@.skip(10);
    proof {
        assert(cap =~= b@.subrange(10, bn as int));
    }
    // the first digit splits column letters from the row number
    let mut i: usize = 10;
    proof {
        assert(cap.skip(0) =~= cap);
    }
    while i < bn && !(0x30 <= b[i] && b[i] <= 0x39)
        invariant
            10 <= i <= bn,
            first_digit_pos(cap) == (i - 10) + first_digit_pos(cap.skip(i - 10)),
            forall|q: int| 0 <= q < i - 10 ==> !is_digit(cap[q]),
        decreases bn - i,
    {
        proof {
            assert(cap.skip(i - 10)[0] == cap[i - 10]);
            assert(cap[i - 10] == b@[i as int]);
            assert(cap.skip(i - 10).drop_first() =~= cap.skip(i - 10 + 1));
        }
        i = i + 1;
    }
    proof {
        if i < bn {
            assert(cap.skip(i - 10)[0] == b@[i as int]);
        }
        assert(first_digit_pos(cap.skip(i - 10)) == 0 || i == bn);
        if i == bn {
            assert(first_digit_pos(cap.skip(i - 10)) == 0);
        }
        assert(first_digit_pos(cap) == i - 10);
    }
    let dp: usize = if i < bn {
        i - 10
    } else {
        0
    };
    let ghost lab = cap.take(dp as int);
    let ghost rs = cap.skip(dp as int);
    proof {
        assert(lab =~= b@.subrange(10, (10 + dp) as int));
        assert(rs =~= b@.subrange((10 + dp) as int, bn as int));
    }
    if 10 + dp < bn && b[10 + dp] == 0x30 {
        proof {
            assert(rs[0] == b@[(10 + dp) as int]);
        }
        return -1;
    }
    proof {
        if rs.len() >= 1 {
            assert(rs[0] == b@[(10 + dp) as int]);
        }
    }
    let ul: usize = crate::eval::upper_run(b, 10, 10 + dp);
    proof {
        crate::eval::lemma_upper_len_run(lab);
        lemma_upper_prefix_is_upper_len(lab);
    }
    if dp == 0 || ul != dp {
        proof {
            if ul < dp {
                assert(!crate::labels::is_upper(lab[ul as int]));
                assert(!crate::labels::all_upper(lab));
            }
            assert(parse_col_spec(lab) is None);
        }
        return -1;
    }
    proof {
        assert(crate::labels::all_upper(lab)) by {
            assert(forall|i2: int| 0 <= i2 < dp ==> crate::labels::is_upper(lab[i2]));
        }
        crate::labels::lemma_col_val_pos(lab);
    }
    let colv: u64 = crate::eval::col_cap(b, 10, 10 + dp);
    if colv > 0x8000_0000 {
        proof {
            assert(crate::labels::col_val(lab) - 1 > crate::labels::MAX_COL_INDEX);
            assert(parse_col_spec(lab) is None);
        }
        return -1;
    }
    let dl: usize = crate::eval::digit_run(b, 10 + dp, bn);
    proof {
        crate::eval::lemma_digit_len_run(rs);
    }
    if 10 + dp + dl < bn {
        proof {
            assert(!is_digit(rs[dl as int]));
            assert(!all_digits(rs));
        }
        return -1;
    }
    if 10 + dp == bn {
        return -1;
    }
    proof {
        assert(all_digits(rs));
        assert(rs.len() >= 1);
        crate::labels::lemma_digits_val_pos(rs);
    }
    let rowv: u64 = crate::eval::digits_cap(b, 10 + dp, bn);
    let row0: u64 = if rowv >= 1 {
        rowv - 1
    } else {
        0
    };
    if colv - 1 >= cols as u64 || row0 >= rows as u64 {
        return -1;
    }
    sheet_data.start_row = row0 as usize;
    sheet_data.start_col = (colv - 1) as usize;
    0
}


/// A committed formula leaves the sheet, right after the write to its
/// target cell, in a state where the target accounts for itself, every
/// cell it cannot reach still accounts for itself, and every cell it can
/// reach still at least runs. This is the springboard for the
/// recomputation pass.
#[verifier::spinoff_prover]
#[verifier::rlimit(100)]
proof fn lemma_success_setup(
    pre: SheetData,
    written: SheetData,
    rows: int,
    cols: int,
    rr: usize,
    cc: usize,
    ex: Seq<u8>,
)
    requires
        sd_wf(pre),
        acyclic(pre.cells@),
        sheet_consistent(pre, rows, cols),
        1 <= rows <= 999,
        1 <= cols <= pre.cols,
        1 <= pre.cols <= 18278,
        (rr as int) < pre.rows,
        (cc as int) < pre.cols,
        pre.cells@.len() == pre.rows * pre.cols,
        ({
            let out = eval_spec(pre, rows, cols, rr as int, cc as int, ex);
            out.0 == 0 || out.0 == -2
        }),
        sd_wf(written),
        acyclic(written.cells@),
        written.cols == pre.cols,
        written.rows == pre.rows,
        written.cells@.len() == pre.cells@.len(),
        ({
            let out = eval_spec(pre, rows, cols, rr as int, cc as int, ex);
            let w = ((rr * pre.cols + cc) as usize);
            &&& forall|x: usize, y: usize|
                (x as int) < written.cells@.len() ==> ((#[trigger] written.cells@[x
                    as int].dependencies@.contains(y)) <==> ((pre.cells@[x
                    as int].dependencies@.contains(y) && y != w) || (y == w
                    && out.2.contains(x))))
            &&& forall|x: usize|
                (x as int) < written.cells@.len() ==> (#[trigger] written.cells@[x
                    as int]).dependents@ == if x == w {
                    out.2
                } else {
                    pre.cells@[x as int].dependents@
                }
            &&& forall|x: usize|
                (x as int) < written.cells@.len() && x != w ==> (#[trigger] written.cells@[x
                    as int]).val == pre.cells@[x as int].val && written.cells@[x
                    as int].status == pre.cells@[x as int].status && written.cells@[x
                    as int].expression == pre.cells@[x as int].expression
            &&& written.cells@[w as int].expression@ == trim_spec(ex)
            &&& written.cells@[w as int].status == (if out.0 == 0 {
                0int
            } else {
                1int
            })
            &&& (out.0 == 0 ==> written.cells@[w as int].val == eval_spec(
                pre,
                rows,
                cols,
                rr as int,
                cc as int,
                ex,
            ).1)
        }),
    ensures
        ({
            let w = ((rr * pre.cols + cc) as usize);
            &&& cell_accounted(written, rows, cols, w)
            &&& forall|x: usize|
                (x as int) < written.cells@.len() && x != w && !reaches(
                    written.cells@,
                    w,
                    x,
                ) && (#[trigger] written.cells@[x as int]).expression@.len() > 0
                    ==> cell_accounted(written, rows, cols, x)
            &&& forall|y: usize|
                (y as int) < written.cells@.len() && y != w && #[trigger] reaches(
                    written.cells@,
                    w,
                    y,
                ) ==> cell_committed(written, rows, cols, y) && written.cells@[y
                    as int].expression@.len() > 0
            &&& forall|x: usize|
                (x as int) < written.cells@.len() && (#[trigger] written.cells@[x
                    as int]).dependents@.len() > 0 ==> written.cells@[x
                    as int].expression@.len() > 0
        }),
{
    reveal(crate::engine::sheet_consistent);
    reveal(crate::engine::cell_accounted);
    reveal(crate::engine::cell_committed);
    let out = eval_spec(pre, rows, cols, rr as int, cc as int, ex);
    let w = ((rr * pre.cols + cc) as usize);
    let n = pre.cells@.len();
    assert((w as int) == (rr as int) * (pre.cols as int) + (cc as int)) by {
        crate::sheet::lemma_dims_bound(pre.rows as int, pre.cols as int);
        crate::sheet::lemma_id_in_range(
            pre.rows as int,
            pre.cols as int,
            rr as int,
            cc as int,
        );
    }
    assert((w as int) < n) by {
        crate::sheet::lemma_id_in_range(
            pre.rows as int,
            pre.cols as int,
            rr as int,
            cc as int,
        );
    }
    // the target cell accounts for itself
    assert forall|r: usize| #[trigger]
        out.2.contains(r) implies (r as int) < n && crate::graph::edge(written.cells@, r, w)
        && r != w && written.cells@[r as int].val == pre.cells@[r as int].val
        && written.cells@[r as int].status == pre.cells@[r as int].status by {
        assert(written.cells@[r as int].dependencies@.contains(w));
        if r == w {
            crate::graph::lemma_no_back_reach(written.cells@, w, w);
            crate::graph::lemma_reaches_self(written.cells@, w);
        }
    }
    crate::eval::lemma_eval_stable(pre, written, rows, cols, rr as int, cc as int, ex, true);
    crate::eval::lemma_trim_idempotent(ex);
    assert((w as int) / (pre.cols as int) == rr as int && (w as int) % (pre.cols as int)
        == cc as int) by {
        crate::sheet::lemma_id_decode(pre.cols as int, rr as int, cc as int);
    }
    assert(eval_spec(written, rows, cols, rr as int, cc as int, trim_spec(ex)) == eval_spec(
        written,
        rows,
        cols,
        rr as int,
        cc as int,
        ex,
    ));
    assert(cell_accounted(written, rows, cols, w)) by {
        assert(eval_spec(written, rows, cols, rr as int, cc as int, ex) == out);
        assert forall|r: usize| #[trigger]
            out.2.contains(r) implies (r as int) < n && written.cells@[r
            as int].dependencies@.contains(w) by {}
    }
    // cells the target cannot reach still account for themselves
    assert forall|x: usize|
        (x as int) < n && x != w && !reaches(written.cells@, w, x) && (
    #[trigger] written.cells@[x as int]).expression@.len() > 0 implies cell_accounted(
        written,
        rows,
        cols,
        x,
    ) by {
        assert(pre.cells@[x as int].expression@.len() > 0);
        assert(cell_accounted(pre, rows, cols, x));
        let out_x = eval_spec(
            pre,
            rows,
            cols,
            (x as int) / (pre.cols as int),
            (x as int) % (pre.cols as int),
            pre.cells@[x as int].expression@,
        );
        assert forall|r: usize| #[trigger]
            out_x.2.contains(r) implies crate::graph::edge(written.cells@, r, x)
            && written.cells@[r as int].val == pre.cells@[r as int].val && written.cells@[r
            as int].status == pre.cells@[r as int].status by {
            assert(pre.cells@[r as int].dependencies@.contains(x));
            assert(written.cells@[r as int].dependencies@.contains(x));
            if r == w {
                crate::graph::lemma_reaches_self(written.cells@, w);
                crate::graph::lemma_reaches_step(written.cells@, w, w, x);
            }
        }
        lemma_accounted_stable(pre, written, rows, cols, x);
    }
    // cells the target can reach still run
    assert forall|y: usize|
        (y as int) < n && y != w && #[trigger] reaches(written.cells@, w, y) implies
        cell_committed(written, rows, cols, y) && written.cells@[y
        as int].expression@.len() > 0 by {
        let pth = choose|pth: Seq<usize>|
            #[trigger] crate::graph::path_ok(written.cells@, pth) && pth.first() == w
                && pth.last() == y;
        assert(pth.len() >= 2);
        let prev = pth[pth.len() - 2];
        assert(crate::graph::edge(written.cells@, prev, y));
        assert(written.cells@[prev as int].dependencies@.contains(y));
        assert(crate::cell::occ(written.cells@[y as int].dependents@, prev) == 1);
        crate::cell::lemma_occ_contains(written.cells@[y as int].dependents@, prev);
        assert(written.cells@[y as int].dependents@.len() > 0);
        assert(pre.cells@[y as int].dependents@.len() > 0);
        assert(pre.cells@[y as int].expression@.len() > 0);
        assert(cell_accounted(pre, rows, cols, y));
        let out_y = eval_spec(
            pre,
            rows,
            cols,
            (y as int) / (pre.cols as int),
            (y as int) % (pre.cols as int),
            pre.cells@[y as int].expression@,
        );
        assert forall|r: usize| #[trigger]
            out_y.2.contains(r) implies crate::graph::edge(written.cells@, r, y) by {
            assert(pre.cells@[r as int].dependencies@.contains(y));
            assert(written.cells@[r as int].dependencies@.contains(y));
        }
        lemma_committed_stable(pre, written, rows, cols, y);
    }
    // a cell that is read holds a formula
    assert forall|x: usize|
        (x as int) < n && (#[trigger] written.cells@[x as int]).dependents@.len() > 0
            implies written.cells@[x as int].expression@.len() > 0 by {
        if x != w {
            assert(pre.cells@[x as int].dependents@.len() > 0);
        } else {
            assert(out.2.len() > 0);
            assert(trim_spec(ex).len() > 0) by {
                if trim_spec(ex).len() == 0 {
                    let t0 = trim_spec(ex);
                    assert(crate::eval::parse_i32_spec(t0) is None);
                    assert(!crate::eval::sleep_form(t0));
                    assert(crate::eval::first_pos(t0, 0x2b) == 0);
                    assert(crate::eval::first_pos(t0, 0x2d) == 0);
                    assert(crate::eval::first_pos(t0, 0x2a) == 0);
                    assert(crate::eval::first_pos(t0, 0x2f) == 0);
                    assert(crate::eval::op_choice(t0) == 0);
                    assert(crate::eval::upper_len(t0) == 0);
                    assert(!crate::eval::agg_form(t0));
                    assert(!crate::eval::ref_form(t0));
                    assert(out.0 == -1);
                }
            }
        }
    }
}


/// Bridges the state after the write with what the recomputation pass
/// asks about the refresh order.
#[verifier::spinoff_prover]
#[verifier::rlimit(100)]
proof fn lemma_recompute_pre(written: SheetData, rows: int, cols: int, w: usize, l: Seq<usize>)
    requires
        (w as int) < written.cells@.len(),
        l.len() >= 1,
        l.last() == w,
        forall|k: int| 0 <= k < l.len() ==> ((#[trigger] l[k]) as int) < written.cells@.len(),
        forall|k1: int, k2: int| 0 <= k1 < k2 < l.len() ==> l[k1] != l[k2],
        forall|x: usize|
            (x as int) < written.cells@.len() ==> (l.contains(x) <==> reaches(
                written.cells@,
                w,
                x,
            )),
        cell_accounted(written, rows, cols, w),
        forall|x: usize|
            (x as int) < written.cells@.len() && x != w && !reaches(written.cells@, w, x)
                && (#[trigger] written.cells@[x as int]).expression@.len() > 0
                ==> cell_accounted(written, rows, cols, x),
        forall|y: usize|
            (y as int) < written.cells@.len() && y != w && #[trigger] reaches(
                written.cells@,
                w,
                y,
            ) ==> cell_committed(written, rows, cols, y) && written.cells@[y
                as int].expression@.len() > 0,
    ensures
        forall|x: usize|
            (x as int) < written.cells@.len() && (#[trigger] written.cells@[x
                as int]).expression@.len() > 0 && !l.drop_last().contains(x)
                ==> cell_accounted(written, rows, cols, x),
        forall|k: int|
            0 <= k < l.len() - 1 ==> cell_committed(written, rows, cols, #[trigger] l[k])
                && written.cells@[l[k] as int].expression@.len() > 0,
{
    assert(forall|k: int| 0 <= k < l.len() - 1 ==> l.drop_last()[k] == l[k]);
    assert forall|x: usize|
        (x as int) < written.cells@.len() && (#[trigger] written.cells@[x
            as int]).expression@.len() > 0 && !l.drop_last().contains(x) implies
        cell_accounted(written, rows, cols, x) by {
        if x != w {
            assert(!l.contains(x)) by {
                if l.contains(x) {
                    let k = choose|k: int| 0 <= k < l.len() && l[k] == x;
                    assert(k < l.len() - 1);
                    assert(l.drop_last()[k] == x);
                }
            }
            assert(!reaches(written.cells@, w, x));
        }
    }
    assert forall|k: int|
        0 <= k < l.len() - 1 implies cell_committed(written, rows, cols, #[trigger] l[k])
        && written.cells@[l[k] as int].expression@.len() > 0 by {
        assert(l.contains(l[k]));
        assert(reaches(written.cells@, w, l[k]));
        assert(l[k] != w);
    }
}

/// Carries the read-implies-formula rule across the refresh pass, which
/// touches neither formulas nor the dependency indexes.
#[verifier::spinoff_prover]
proof fn lemma_reads_have_formulas(written: SheetData, fin: SheetData)
    requires
        fin.cells@.len() == written.cells@.len(),
        forall|x: usize|
            (x as int) < written.cells@.len() ==> (#[trigger] fin.cells@[x
                as int]).expression == written.cells@[x as int].expression && fin.cells@[x
                as int].dependents == written.cells@[x as int].dependents,
        forall|x: usize|
            (x as int) < written.cells@.len() && (#[trigger] written.cells@[x
                as int]).dependents@.len() > 0 ==> written.cells@[x
                as int].expression@.len() > 0,
    ensures
        forall|x: usize|
            (x as int) < fin.cells@.len() && (#[trigger] fin.cells@[x
                as int]).dependents@.len() > 0 ==> fin.cells@[x as int].expression@.len()
                > 0,
{
}

/// Runs one command against the sheet: `q` to quit, the four viewport
/// keys, `scroll_to LABEL`, the output toggles, or an assignment
/// `LABEL=EXPR`. An assignment that parses and does not close a loop
/// installs the formula and refreshes every cell that transitively reads
/// the target; the dependency graph stays acyclic and the two dependency
/// indexes stay in lock step through every command.
#[verifier::spinoff_prover]
#[verifier::loop_isolation(false)]
#[verifier::rlimit(100)]
pub fn execute_command(input: &str, rows: usize, cols: usize, sheet_data: &mut SheetData) -> (r:
    i32)
    requires
        sd_wf(*old(sheet_data)),
        acyclic(old(sheet_data).cells@),
        sheet_consistent(*old(sheet_data), rows as int, cols as int),
        1 <= rows <= old(sheet_data).rows,
        1 <= cols <= old(sheet_data).cols,
        old(sheet_data).start_row < old(sheet_data).rows,
        old(sheet_data).start_col < old(sheet_data).cols,
    ensures
        sd_wf(*final(sheet_data)),
        acyclic(final(sheet_data).cells@),
        sheet_consistent(*final(sheet_data), rows as int, cols as int),
        final(sheet_data).rows == old(sheet_data).rows,
        final(sheet_data).cols == old(sheet_data).cols,
        final(sheet_data).start_row < final(sheet_data).rows,
        final(sheet_data).start_col < final(sheet_data).cols,
        final(sheet_data).pending_sleep >= old(sheet_data).pending_sleep,
        r == cmd_code_spec(*old(sheet_data), rows as int, cols as int, input.spec_bytes()),
        ({
            let e = input.spec_bytes();
            if first_pos(e, 0x3d) < e.len() && !(e =~= kw_q()) && !kw_wsad(e) && !(e
                =~= kw_disable()) && !(e =~= kw_enable()) && !is_scroll_to(e) {
                &&& assign_state_post(
                    *old(sheet_data),
                    *final(sheet_data),
                    rows as int,
                    cols as int,
                    e,
                )
                &&& final(sheet_data).start_row == old(sheet_data).start_row
                &&& final(sheet_data).start_col == old(sheet_data).start_col
                &&& final(sheet_data).flag == old(sheet_data).flag
            } else if !(e =~= kw_q()) && !kw_wsad(e) {
                plain_cmd_post(
                    *old(sheet_data),
                    *final(sheet_data),
                    rows as int,
                    cols as int,
                    e,
                )
            } else {
                &&& final(sheet_data).cells@ == old(sheet_data).cells@
                &&& final(sheet_data).flag == old(sheet_data).flag
                &&& final(sheet_data).pending_sleep == old(sheet_data).pending_sleep
                &&& (e =~= kw_q() ==> final(sheet_data).start_row == old(
                    sheet_data,
                ).start_row && final(sheet_data).start_col == old(sheet_data).start_col)
                &&& (kw_wsad(e) ==> ({
                    let o = wsad_origin(
                        old(sheet_data).rows,
                        old(sheet_data).cols,
                        old(sheet_data).start_row,
                        old(sheet_data).start_col,
                        e,
                    );
                    final(sheet_data).start_row == o.0 && final(sheet_data).start_col == o.1
                }))
            }
        }),
{
    let ghost pre = *sheet_data;
    let ghost e = input.spec_bytes();
    let b: &[u8] = input.as_bytes();
    let bn: usize = b.len();
    proof {
        assert(e == b@);
        assert(b@.subrange(0, bn as int) =~= e);
    }
    if bn == 1 && b[0] == 0x71 {
        proof {
            assert(e =~= kw_q());
        }
        return 1;
    }
    if bn == 1 && (b[0] == 0x77 || b[0] == 0x73 || b[0] == 0x61 || b[0] == 0x64) {
        proof {
            assert(e[0] == b@[0]);
            assert(kw_wsad(e));
            assert(!(e =~= kw_q()));
        }
        let r: i32 = scroll(input, sheet_data);
        proof {
            lemma_consistent_same_cells(pre, *sheet_data, rows as int, cols as int);
        }
        return r;
    }
    proof {
        if e =~= kw_q() {
            assert(e[0] == 0x71);
            assert(false);
        }
        if kw_wsad(e) {
            assert(e[0] == b@[0]);
            assert(false);
        }
    }
    if bn == 14 && b[0] == 0x64 && b[1] == 0x69 && b[2] == 0x73 && b[3] == 0x61 && b[4] == 0x62
        && b[5] == 0x6c && b[6] == 0x65 && b[7] == 0x5f && b[8] == 0x6f && b[9] == 0x75 && b[10]
        == 0x74 && b[11] == 0x70 && b[12] == 0x75 && b[13] == 0x74 {
        proof {
            assert(e =~= kw_disable());
        }
        sheet_data.flag = 0;
        proof {
            lemma_consistent_same_cells(pre, *sheet_data, rows as int, cols as int);
        }
        return 0;
    }
    proof {
        if e =~= kw_disable() {
            assert(forall|i: int| 0 <= i < 14 ==> e[i] == kw_disable()[i]);
            assert(false);
        }
    }
    if bn == 13 && b[0] == 0x65 && b[1] == 0x6e && b[2] == 0x61 && b[3] == 0x62 && b[4] == 0x6c
        && b[5] == 0x65 && b[6] == 0x5f && b[7] == 0x6f && b[8] == 0x75 && b[9] == 0x74 && b[10]
        == 0x70 && b[11] == 0x75 && b[12] == 0x74 {
        proof {
            assert(e =~= kw_enable());
        }
        sheet_data.flag = 1;
        proof {
            lemma_consistent_same_cells(pre, *sheet_data, rows as int, cols as int);
        }
        return 0;
    }
    proof {
        if e =~= kw_enable() {
            assert(forall|i: int| 0 <= i < 13 ==> e[i] == kw_enable()[i]);
            assert(false);
        }
    }
    if bn >= 10 && b[0] == 0x73 && b[1] == 0x63 && b[2] == 0x72 && b[3] == 0x6f && b[4] == 0x6c
        && b[5] == 0x6c && b[6] == 0x5f && b[7] == 0x74 && b[8] == 0x6f && b[9] == 0x20 {
        proof {
            assert(e.take(10) =~= kw_scroll_to());
            assert(is_scroll_to(e));
        }
        let r: i32 = scroll_to_exec(b, bn, rows, cols, sheet_data);
        proof {
            lemma_consistent_same_cells(pre, *sheet_data, rows as int, cols as int);
        }
        return r;
    }
    proof {
        if is_scroll_to(e) {
            assert(forall|i: int| 0 <= i < 10 ==> e.take(10)[i] == kw_scroll_to()[i]);
            assert(e[0] == b@[0] && e[1] == b@[1] && e[2] == b@[2] && e[3] == b@[3] && e[4]
                == b@[4] && e[5] == b@[5] && e[6] == b@[6] && e[7] == b@[7] && e[8] == b@[8]
                && e[9] == b@[9]);
            assert(false);
        }
    }
    let eqp: Option<usize> = crate::eval::find_char(b, 0, bn, 0x3d);
    let p: usize = match eqp {
        Some(p) => p,
        None => {
            proof {
                assert(first_pos(e, 0x3d) == e.len());
            }
            return -1;
        },
    };
    let (ll, lh): (usize, usize) = trim_slice(b, 0, p);
    proof {
        assert(b@.subrange(0, p as int) =~= e.take(p as int));
        assert(b@.subrange(ll as int, lh as int) =~= b@.subrange(0, p as int).subrange(
            ll as int,
            lh as int,
        ));
        assert(b@.subrange(ll as int, lh as int) == trim_spec(e.take(p as int)));
    }
    let lab: Option<(usize, usize)> = label_bytes(b, ll, lh);
    let (rr, cc): (usize, usize) = match lab {
        Some(rc) => rc,
        None => {
            return -1;
        },
    };
    if rr >= rows || cc >= cols {
        return -1;
    }
    let expr_slice: &[u8] = vstd::slice::slice_subrange(b, p + 1, bn);
    proof {
        assert(expr_slice@ =~= e.skip(p + 1));
        crate::sheet::lemma_dims_bound(pre.rows as int, pre.cols as int);
        crate::sheet::lemma_id_in_range(pre.rows as int, pre.cols as int, rr as int, cc as int);
    }
    let w: usize = rr * sheet_data.cols + cc;
    let mut result: i32 = 0;
    let ghost out = eval_spec(pre, rows as int, cols as int, rr as int, cc as int, e.skip(
        p + 1,
    ));
    let code: i32 = evaluate_bytes(expr_slice, rows, cols, sheet_data, &mut result, &rr, &cc, 1);
    if code != 0 && code != -2 {
        proof {
            assert(unchanged_cells(pre, *sheet_data));
            assert(assign_state_post(pre, *sheet_data, rows as int, cols as int, e));
            lemma_consistent_same_cells(pre, *sheet_data, rows as int, cols as int);
        }
        return code;
    }
    let ghost bound = *sheet_data;
    // install the formula text and the outcome on the target cell
    let (tl, th): (usize, usize) = trim_slice(b, p + 1, bn);
    let trimmed: &[u8] = vstd::slice::slice_subrange(b, tl, th);
    proof {
        assert(trimmed@ =~= e.skip(p + 1).subrange(tl - (p + 1), th - (p + 1)));
        assert(trimmed@ == trim_spec(e.skip(p + 1)));
    }
    let newexpr: Vec<u8> = vstd::slice::slice_to_vec(trimmed);
    sheet_data.cells[w].expression = newexpr;
    if code == 0 {
        sheet_data.cells[w].val = result;
        sheet_data.cells[w].status = 0;
    } else {
        sheet_data.cells[w].status = 1;
    }
    let ghost written = *sheet_data;
    proof {
        assert(sd_wf(written)) by {
            assert(forall|x: int|
                0 <= x < written.cells@.len() && x != w ==> written.cells@[x]
                    == bound.cells@[x]);
            assert(written.cells@[w as int].dependencies == bound.cells@[w
                as int].dependencies);
            assert(written.cells@[w as int].dependents == bound.cells@[w as int].dependents);
            assert(forall|x: int|
                0 <= x < written.cells@.len() ==> crate::cell::cell_ids_ok(
                    #[trigger] written.cells@[x],
                    written.cells@.len() as int,
                ));
            assert(forall|a: usize, bb: usize|
                (a as int) < written.cells@.len() && (bb as int) < written.cells@.len()
                    ==> (#[trigger] crate::cell::occ(written.cells@[bb as int].dependents@, a))
                    == crate::cell::occ(bound.cells@[bb as int].dependents@, a));
        }
        assert(acyclic(written.cells@)) by {
            assert(forall|a: usize, bb: usize|
                #[trigger] crate::graph::edge(written.cells@, a, bb) <==> crate::graph::edge(
                    bound.cells@,
                    a,
                    bb,
                ));
            assert forall|pp: Seq<usize>|
                !(#[trigger] crate::graph::path_ok(written.cells@, pp) && pp.len() >= 2
                    && pp.first() == pp.last()) by {
                if crate::graph::path_ok(written.cells@, pp) {
                    assert(crate::graph::path_ok(bound.cells@, pp));
                }
            }
        }
    }
    proof {
        crate::sheet::lemma_dims_bound(pre.rows as int, pre.cols as int);
        lemma_success_setup(pre, written, rows as int, cols as int, rr, cc, e.skip(p + 1));
    }
    // refresh every cell that transitively reads the target
    let mut stack: Vec<usize> = Vec::new();
    topological_sort_from_cell(w, sheet_data, &mut stack);
    proof {
        assert(stack@.skip(0) =~= stack@);
    }
    let ghost l = stack@;
    let first: Option<usize> = pop(&mut stack);
    proof {
        assert(l.take(0) =~= Seq::<usize>::empty());
        assert(l.last() == w);
        assert(stack@ == l.drop_last());
        assert(forall|k: int| 0 <= k < l.len() - 1 ==> l.drop_last()[k] == l[k]);
        lemma_recompute_pre(written, rows as int, cols as int, w, l);
    }
    recompute_stack(&mut stack, rows, cols, sheet_data, Ghost(written), Ghost(l), Ghost(w));
    proof {
        lemma_reads_have_formulas(written, *sheet_data);
        assert(sheet_consistent(*sheet_data, rows as int, cols as int)) by {
            reveal(crate::engine::sheet_consistent);
        }
        assert(assign_state_post(pre, *sheet_data, rows as int, cols as int, e)) by {
            assert(forall|x: usize, y: usize|
                (x as int) < sheet_data.cells@.len() ==> ((#[trigger] sheet_data.cells@[x
                    as int].dependencies@.contains(y)) <==> written.cells@[x
                    as int].dependencies@.contains(y)));
            assert forall|x: usize|
                (x as int) < sheet_data.cells@.len() && x != w && !reaches(
                    sheet_data.cells@,
                    w,
                    x,
                ) implies (#[trigger] sheet_data.cells@[x as int]).val == pre.cells@[x
                as int].val && sheet_data.cells@[x as int].status == pre.cells@[x
                as int].status by {
                assert(!l.contains(x)) by {
                    if l.contains(x) {
                        assert(reaches(written.cells@, w, x));
                        lemma_reaches_same_graph(written.cells@, sheet_data.cells@, w, x);
                    }
                }
            }
        }
    }
    code
}

/// Reachability agrees between two states whose dependency indexes agree.
proof fn lemma_reaches_same_graph(c1: Seq<Cell>, c2: Seq<Cell>, a: usize, x: usize)
    requires
        c1.len() == c2.len(),
        forall|p: usize, q: usize|
            (p as int) < c1.len() ==> ((#[trigger] c1[p as int].dependencies@.contains(q))
                <==> c2[p as int].dependencies@.contains(q)),
        reaches(c1, a, x),
    ensures
        reaches(c2, a, x),
{
    let pp = choose|pp: Seq<usize>|
        #[trigger] crate::graph::path_ok(c1, pp) && pp.first() == a && pp.last() == x;
    assert(crate::graph::path_ok(c2, pp)) by {
        assert(forall|i: int|
            0 <= i < pp.len() - 1 ==> crate::graph::edge(c1, #[trigger] pp[i], pp[i + 1]));
        assert forall|i: int|
            0 <= i < pp.len() - 1 implies crate::graph::edge(c2, #[trigger] pp[i], pp[i
            + 1]) by {
            assert(crate::graph::edge(c1, pp[i], pp[i + 1]));
        }
    }
}

/// Pops the refresh order and re-evaluates each cell in turn: a cell is
/// popped only after every cell that reads it, so each evaluation sees the
/// final values of the cells it reads.
#[verifier::spinoff_prover]
#[verifier::loop_isolation(false)]
#[verifier::rlimit(100)]
fn recompute_stack(
    stack: &mut Vec<usize>,
    rows: usize,
    cols: usize,
    sheet_data: &mut SheetData,
    base: Ghost<SheetData>,
    l: Ghost<Seq<usize>>,
    w: Ghost<usize>,
)
    requires
        sd_wf(*old(sheet_data)),
        acyclic(old(sheet_data).cells@),
        sd_wf(base@),
        1 <= rows <= old(sheet_data).rows,
        1 <= cols <= old(sheet_data).cols,
        *old(sheet_data) == base@,
        l@.len() >= 1,
        l@.last() == w@,
        old(stack)@ == l@.drop_last(),
        (w@ as int) < base@.cells@.len(),
        forall|k: int| 0 <= k < l@.len() ==> ((#[trigger] l@[k]) as int) < base@.cells@.len(),
        forall|k1: int, k2: int| 0 <= k1 < k2 < l@.len() ==> l@[k1] != l@[k2],
        crate::graph::topo_ok(base@.cells@, l@),
        forall|x: usize|
            (x as int) < base@.cells@.len() ==> (l@.contains(x) <==> reaches(
                base@.cells@,
                w@,
                x,
            )),
        forall|x: usize|
            (x as int) < base@.cells@.len() && (#[trigger] base@.cells@[x
                as int]).expression@.len() > 0 && !l@.drop_last().contains(x)
                ==> cell_accounted(base@, rows as int, cols as int, x),
        forall|k: int|
            0 <= k < l@.len() - 1 ==> cell_committed(base@, rows as int, cols as int, #[trigger] l@[k])
                && base@.cells@[l@[k] as int].expression@.len() > 0,
    ensures
        forall|x: usize|
            (x as int) < base@.cells@.len() && (#[trigger] final(sheet_data).cells@[x
                as int]).expression@.len() > 0 ==> cell_accounted(
                *final(sheet_data),
                rows as int,
                cols as int,
                x,
            ),
        sd_wf(*final(sheet_data)),
        acyclic(final(sheet_data).cells@),
        final(sheet_data).rows == old(sheet_data).rows,
        final(sheet_data).cols == old(sheet_data).cols,
        final(sheet_data).start_row == old(sheet_data).start_row,
        final(sheet_data).start_col == old(sheet_data).start_col,
        final(sheet_data).flag == old(sheet_data).flag,
        final(sheet_data).pending_sleep >= old(sheet_data).pending_sleep,
        final(sheet_data).cells@.len() == base@.cells@.len(),
        forall|x: usize|
            (x as int) < base@.cells@.len() ==> (#[trigger] final(sheet_data).cells@[x
                as int]).expression == base@.cells@[x as int].expression && final(sheet_data).cells@[x as int].dependencies == base@.cells@[x as int].dependencies && final(sheet_data).cells@[x as int].dependents == base@.cells@[x as int].dependents,
        forall|x: usize|
            (x as int) < base@.cells@.len() && !l@.contains(x) ==> (#[trigger] final(sheet_data).cells@[x as int]).val == base@.cells@[x as int].val && final(sheet_data).cells@[x
                as int].status == base@.cells@[x as int].status,
        final(sheet_data).cells@[w@ as int].val == base@.cells@[w@ as int].val,
        final(sheet_data).cells@[w@ as int].status == base@.cells@[w@ as int].status,
        forall|x: usize|
            (x as int) < base@.cells@.len() && (#[trigger] final(sheet_data).cells@[x
                as int]).status == 1 ==> final(sheet_data).cells@[x as int].val
                == base@.cells@[x as int].val,
{
    let ghost n = base@.cells@.len() as int;
    proof {
        assert forall|x: usize| #[trigger]
            stack@.contains(x) implies cell_committed(*sheet_data, rows as int, cols as int, x)
            && sheet_data.cells@[x as int].expression@.len() > 0 by {
            let k = choose|k: int| 0 <= k < stack@.len() && stack@[k] == x;
            assert(l@.drop_last()[k] == x);
            assert(l@[k] == x);
        }
        assert(forall|x: usize|
            !l@.drop_last().contains(x) && #[trigger] stack@.contains(x) ==> false);
    }
    loop
        invariant
            sd_wf(*sheet_data),
            acyclic(sheet_data.cells@),
            sheet_data.rows == base@.rows,
            sheet_data.cols == base@.cols,
            sheet_data.start_row == base@.start_row,
            sheet_data.start_col == base@.start_col,
            sheet_data.flag == base@.flag,
            sheet_data.pending_sleep >= old(sheet_data).pending_sleep,
            sheet_data.cells@.len() == n,
            1 <= rows <= base@.rows,
            1 <= cols <= base@.cols,
            exists|m: int|
                0 <= m <= l@.len() - 1 && stack@ == #[trigger] l@.take(m),
            forall|x: usize|
                (x as int) < n && (#[trigger] sheet_data.cells@[x as int]).expression@.len()
                    > 0 && !stack@.contains(x) ==> cell_accounted(
                    *sheet_data,
                    rows as int,
                    cols as int,
                    x,
                ),
            forall|x: usize| #[trigger]
                stack@.contains(x) ==> cell_committed(*sheet_data, rows as int, cols as int, x)
                    && sheet_data.cells@[x as int].expression@.len() > 0,
            forall|x: usize|
                (x as int) < n ==> (#[trigger] sheet_data.cells@[x as int]).expression
                    == base@.cells@[x as int].expression && sheet_data.cells@[x
                    as int].dependencies == base@.cells@[x as int].dependencies
                    && sheet_data.cells@[x as int].dependents == base@.cells@[x
                    as int].dependents,
            forall|x: usize|
                (x as int) < n && !l@.contains(x) ==> (#[trigger] sheet_data.cells@[x
                    as int]).val == base@.cells@[x as int].val && sheet_data.cells@[x
                    as int].status == base@.cells@[x as int].status,
            sheet_data.cells@[w@ as int].val == base@.cells@[w@ as int].val,
            sheet_data.cells@[w@ as int].status == base@.cells@[w@ as int].status,
            forall|x: usize| #[trigger]
                stack@.contains(x) ==> sheet_data.cells@[x as int].val == base@.cells@[x
                    as int].val && sheet_data.cells@[x as int].status == base@.cells@[x
                    as int].status,
            forall|x: usize|
                (x as int) < n && (#[trigger] sheet_data.cells@[x as int]).status == 1
                    ==> sheet_data.cells@[x as int].val == base@.cells@[x as int].val,
        decreases stack@.len(),
    {
        let ghost m = choose|m: int| 0 <= m <= l@.len() - 1 && stack@ == l@.take(m);
        let ghost cur0 = *sheet_data;
        let x_opt: Option<usize> = pop(stack);
        let x: usize = match x_opt {
            Some(x) => x,
            None => {
                break ;
            },
        };
        proof {
            assert(stack@ =~= l@.take(m - 1));
            assert(l@.take(m).last() == l@[m - 1]);
            assert(x == l@[m - 1]);
            assert((x as int) < n);
            assert(l@.contains(x)) by {
                assert(l@[m - 1] == x);
            }
            assert(x != w@) by {
                if x == w@ {
                    assert(l@[m - 1] == l@[l@.len() - 1]);
                }
            }
        }
        let rc: Option<(usize, usize)> = sheet_data.calculate_row_col(x);
        let (xr, xc): (usize, usize) = match rc {
            Some(v) => v,
            None => {
                proof {
                    assert(false);
                }
                (0, 0)
            },
        };
        proof {
            vstd::arithmetic::div_mod::lemma_mod_bound(x as int, sheet_data.cols as int);
            assert((x as int) / (sheet_data.cols as int) < sheet_data.rows as int) by {
                crate::sheet::lemma_dims_bound(
                    sheet_data.rows as int,
                    sheet_data.cols as int,
                );
                assert((x as int) < (sheet_data.cols as int) * (sheet_data.rows as int))
                    by (nonlinear_arith)
                    requires
                        (x as int) < (sheet_data.rows as int) * (sheet_data.cols as int),
                ;
                vstd::arithmetic::div_mod::lemma_multiply_divide_lt(
                    x as int,
                    sheet_data.cols as int,
                    sheet_data.rows as int,
                );
            }
        }
        let ex: Vec<u8> = sheet_data.cells[x].expression.clone();
        proof {
            assert(ex@ =~= sheet_data.cells@[x as int].expression@) by {
                assert(forall|i: int|
                    0 <= i < ex@.len() ==> cloned::<u8>(
                        sheet_data.cells@[x as int].expression@[i],
                        #[trigger] ex@[i],
                    ));
            }
        }
        let mut res: i32 = 0;
        let ghost before_eval = *sheet_data;
        let ecode: i32 = evaluate_bytes(
            ex.as_slice(),
            rows,
            cols,
            sheet_data,
            &mut res,
            &xr,
            &xc,
            0,
        );
        proof {
            assert(unchanged_cells(before_eval, *sheet_data));
        }
        if ecode == 0 {
            sheet_data.cells[x].val = res;
            sheet_data.cells[x].status = 0;
        } else if ecode == -2 {
            sheet_data.cells[x].status = 1;
        }
        proof {
            reveal(crate::engine::cell_accounted);
            reveal(crate::engine::cell_committed);
            let cur = *sheet_data;
            assert(sd_wf(cur)) by {
                assert(forall|y: int|
                    0 <= y < n && y != x ==> cur.cells@[y] == before_eval.cells@[y]);
                assert(cur.cells@[x as int].dependencies == before_eval.cells@[x
                    as int].dependencies);
                assert(cur.cells@[x as int].dependents == before_eval.cells@[x
                    as int].dependents);
                assert(forall|y: int|
                    0 <= y < n ==> crate::cell::cell_ids_ok(
                        #[trigger] cur.cells@[y],
                        n,
                    ));
                assert(forall|a: usize, bb: usize|
                    (a as int) < n && (bb as int) < n ==> (#[trigger] crate::cell::occ(
                        cur.cells@[bb as int].dependents@,
                        a,
                    )) == crate::cell::occ(before_eval.cells@[bb as int].dependents@, a));
            }
            assert(acyclic(cur.cells@)) by {
                assert forall|pp: Seq<usize>|
                    !(#[trigger] crate::graph::path_ok(cur.cells@, pp) && pp.len() >= 2
                        && pp.first() == pp.last()) by {
                    if crate::graph::path_ok(cur.cells@, pp) {
                        assert(forall|i: int|
                            0 <= i < pp.len() - 1 ==> crate::graph::edge(
                                cur.cells@,
                                #[trigger] pp[i],
                                pp[i + 1],
                            ));
                        assert forall|i: int|
                            0 <= i < pp.len() - 1 implies crate::graph::edge(
                            before_eval.cells@,
                            #[trigger] pp[i],
                            pp[i + 1],
                        ) by {
                            assert(crate::graph::edge(cur.cells@, pp[i], pp[i + 1]));
                        }
                        assert(crate::graph::path_ok(before_eval.cells@, pp));
                    }
                }
            }
            assert(exists|m2: int|
                0 <= m2 <= l@.len() - 1 && stack@ == #[trigger] l@.take(m2)) by {
                assert(stack@ == l@.take(m - 1));
            }
            // the dependency indexes never move in this loop
            assert(forall|a: usize, bb: usize|
                (a as int) < n ==> ((#[trigger] cur.cells@[a as int].dependencies@.contains(
                    bb,
                )) <==> base@.cells@[a as int].dependencies@.contains(bb)));
            assert(forall|a: usize, bb: usize|
                (a as int) < n ==> ((#[trigger] cur0.cells@[a as int].dependencies@.contains(
                    bb,
                )) <==> base@.cells@[a as int].dependencies@.contains(bb)));
            // membership in the shrunken stack
            assert(forall|q: int| 0 <= q < m - 1 ==> l@.take(m)[q] == l@.take(m - 1)[q]);
            assert forall|x2: usize| #[trigger]
                l@.take(m).contains(x2) implies (l@.take(m - 1).contains(x2) || x2 == x) by {
                let q = choose|q: int| 0 <= q < m && l@.take(m)[q] == x2;
                if q < m - 1 {
                    assert(l@.take(m - 1)[q] == x2);
                }
            }
            assert forall|x2: usize| #[trigger]
                l@.take(m - 1).contains(x2) implies l@.take(m).contains(x2) by {
                let q = choose|q: int|
                    0 <= q < m - 1 && #[trigger] l@.take(m - 1)[q] == x2;
                assert(l@.take(m)[q] == x2);
            }
            // the freshly written cell accounts for itself
            assert(cell_committed(cur0, rows as int, cols as int, x)) by {
                assert(l@.take(m).contains(x)) by {
                    assert(l@.take(m)[m - 1] == x);
                }
            }
            let ghost xwr = (x as int) / (cur0.cols as int);
            let ghost xwc = (x as int) % (cur0.cols as int);
            let ghost e_x = cur0.cells@[x as int].expression@;
            assert(xwr * (cur0.cols as int) + xwc == x as int) by {
                vstd::arithmetic::div_mod::lemma_fundamental_div_mod(
                    x as int,
                    cur0.cols as int,
                );
                assert((cur0.cols as int) * xwr == xwr * (cur0.cols as int))
                    by (nonlinear_arith);
            }
            let ghost out0 = eval_spec(cur0, rows as int, cols as int, xwr, xwc, e_x);
            assert(ecode == out0.0);
            assert forall|r: usize| #[trigger]
                out0.2.contains(r) implies (r as int) < n && crate::graph::edge(
                cur.cells@,
                r,
                x,
            ) && cur.cells@[r as int].val == cur0.cells@[r as int].val && cur.cells@[r
                as int].status == cur0.cells@[r as int].status by {
                assert(cur0.cells@[r as int].dependencies@.contains(x));
                assert(r != x) by {
                    if r == x {
                        crate::graph::lemma_no_back_reach(cur.cells@, x, x);
                        crate::graph::lemma_reaches_self(cur.cells@, x);
                    }
                }
            }
            crate::eval::lemma_eval_stable(cur0, cur, rows as int, cols as int, xwr, xwc, e_x, true);
            assert(cell_accounted(cur, rows as int, cols as int, x)) by {
                assert(eval_spec(cur, rows as int, cols as int, xwr, xwc, e_x) == out0);
                assert(cur.cells@[x as int].expression@ == e_x);
            }
            // everything already accounted stays accounted: nothing it
            // reads was touched
            assert forall|x2: usize|
                (x2 as int) < n && (#[trigger] cur.cells@[x2 as int].expression@.len()) > 0
                    && !l@.take(m - 1).contains(x2) implies cell_accounted(
                cur,
                rows as int,
                cols as int,
                x2,
            ) by {
                if x2 == x {
                } else if l@.take(m).contains(x2) {
                    assert(false);
                } else {
                    assert(cell_accounted(cur0, rows as int, cols as int, x2));
                    let out_x2 = eval_spec(
                        cur0,
                        rows as int,
                        cols as int,
                        (x2 as int) / (cur0.cols as int),
                        (x2 as int) % (cur0.cols as int),
                        cur0.cells@[x2 as int].expression@,
                    );
                    assert forall|r: usize| #[trigger]
                        out_x2.2.contains(r) implies crate::graph::edge(cur.cells@, r, x2)
                        && cur.cells@[r as int].val == cur0.cells@[r as int].val
                        && cur.cells@[r as int].status == cur0.cells@[r as int].status by {
                        assert(cur0.cells@[r as int].dependencies@.contains(x2));
                        assert(r != x) by {
                            if r == x {
                                assert(crate::graph::edge(base@.cells@, x, x2));
                                if l@.contains(x2) {
                                    let kx = choose|kx: int|
                                        0 <= kx < l@.len() && l@[kx] == x2;
                                    assert(crate::graph::edge(base@.cells@, l@[m - 1], x2));
                                    let mm = choose|mm: int| 0 <= mm < m - 1 && l@[mm] == x2;
                                    assert(l@.take(m - 1)[mm] == x2);
                                } else {
                                    assert(reaches(base@.cells@, w@, x)) by {
                                        assert(l@.contains(x)) by {
                                            assert(l@[m - 1] == x);
                                        }
                                    }
                                    crate::graph::lemma_reaches_step(
                                        base@.cells@,
                                        w@,
                                        x,
                                        x2,
                                    );
                                }
                            }
                        }
                    }
                    lemma_accounted_stable(cur0, cur, rows as int, cols as int, x2);
                }
            }
            // cells still waiting stay committed
            assert forall|x2: usize| #[trigger]
                l@.take(m - 1).contains(x2) implies cell_committed(cur, rows as int, cols as int, x2)
                && cur.cells@[x2 as int].expression@.len() > 0 by {
                assert(l@.take(m).contains(x2));
                assert(cell_committed(cur0, rows as int, cols as int, x2));
                let out_x2 = eval_spec(
                    cur0,
                    rows as int,
                    cols as int,
                    (x2 as int) / (cur0.cols as int),
                    (x2 as int) % (cur0.cols as int),
                    cur0.cells@[x2 as int].expression@,
                );
                assert forall|r: usize| #[trigger]
                    out_x2.2.contains(r) implies crate::graph::edge(cur.cells@, r, x2) by {
                    assert(cur0.cells@[r as int].dependencies@.contains(x2));
                }
                lemma_committed_stable(cur0, cur, rows as int, cols as int, x2);
            }
        }
    }
    proof {
        let ghost m = choose|m: int| 0 <= m <= l@.len() - 1 && stack@ == l@.take(m);
        assert(stack@.len() == 0);
        assert(forall|x: usize| !stack@.contains(x));
    }
}

} // verus!
