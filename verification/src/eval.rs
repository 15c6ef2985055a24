//! The expression parser and evaluator.
//!
//! A formula is one of five shapes: an integer literal, a `SLEEP` call on a
//! literal or a cell, a range aggregate (`SUM`, `AVG`, `MAX`, `MIN`,
//! `STDEV`), a single binary operation between two operands, or a plain
//! cell reference. `evaluate_expression` decides the shape, validates every
//! reference, runs the cycle check before any mutation, rebinds the
//! writer's read edges in bind mode, and computes the value.
//!
//! Return codes: `0` for success, `-1` for a malformed or out-of-range
//! expression, `-2` for a runtime failure (division by zero, or a read of a
//! cell whose status is failed), `-4` for an assignment that would close a
//! dependency loop.

use vstd::prelude::*;
use vstd::string::StringSliceAdditionalSpecFns;
use crate::cell::{occ, Cell};
use crate::depset::{add_dependency, clear_mid, delete_dependencies, push_dependent};
use crate::graph::{check_loop, check_loop_range, edge, reaches, reaches_rect, rect_contains};
use crate::labels::{all_digits, col_val, digits_val, is_digit, is_upper};
use crate::sheet::{sd_dims_ok, sd_ids_ok, sd_wf, SheetData};

verus! {

/// ASCII whitespace, as trimmed from the ends of an expression.
pub open spec fn is_ws(b: u8) -> bool {
    b == 0x20 || b == 0x09 || b == 0x0a || b == 0x0b || b == 0x0c || b == 0x0d
}

/// `b` is an ASCII letter of either case.
pub open spec fn is_alpha(b: u8) -> bool {
    (0x41 <= b <= 0x5a) || (0x61 <= b <= 0x7a)
}

/// Length of the leading whitespace of `s`.
pub open spec fn lead_ws(s: Seq<u8>) -> int
    decreases s.len(),
{
    if s.len() > 0 && is_ws(s[0]) {
        1 + lead_ws(s.drop_first())
    } else {
        0
    }
}

/// Length of the trailing whitespace of `s`.
pub open spec fn trail_ws(s: Seq<u8>) -> int
    decreases s.len(),
{
    if s.len() > 0 && is_ws(s.last()) {
        1 + trail_ws(s.drop_last())
    } else {
        0
    }
}

/// `s` without its leading and trailing whitespace.
pub open spec fn trim_spec(s: Seq<u8>) -> Seq<u8> {
    if lead_ws(s) == s.len() {
        Seq::empty()
    } else {
        s.subrange(lead_ws(s), s.len() - trail_ws(s))
    }
}

/// Length of the leading run of uppercase letters.
pub open spec fn upper_len(s: Seq<u8>) -> int
    decreases s.len(),
{
    if s.len() > 0 && is_upper(s[0]) {
        1 + upper_len(s.drop_first())
    } else {
        0
    }
}

/// Length of the leading run of decimal digits.
pub open spec fn digit_len(s: Seq<u8>) -> int
    decreases s.len(),
{
    if s.len() > 0 && is_digit(s[0]) {
        1 + digit_len(s.drop_first())
    } else {
        0
    }
}

/// Length of the leading run of letters of either case.
pub open spec fn alpha_len(s: Seq<u8>) -> int
    decreases s.len(),
{
    if s.len() > 0 && is_alpha(s[0]) {
        1 + alpha_len(s.drop_first())
    } else {
        0
    }
}

/// What parsing `s` as a 32-bit integer yields: an optional sign, at least
/// one digit, nothing else, and a value that fits.
pub open spec fn parse_i32_spec(s: Seq<u8>) -> Option<i32> {
    let body = if s.len() >= 1 && (s[0] == 0x2b || s[0] == 0x2d) {
        s.skip(1)
    } else {
        s
    };
    if body.len() >= 1 && all_digits(body) {
        if s.len() >= 1 && s[0] == 0x2d {
            if digits_val(body) <= 0x8000_0000 {
                Some(((0 - digits_val(body)) as i32))
            } else {
                None
            }
        } else {
            if digits_val(body) <= 0x7fff_ffff {
                Some((digits_val(body) as i32))
            } else {
                None
            }
        }
    } else {
        None
    }
}

/// Index of the first occurrence of `c` in `s`; the length when absent.
pub open spec fn first_pos(s: Seq<u8>, c: u8) -> int
    decreases s.len(),
{
    if s.len() == 0 {
        0
    } else if s[0] == c {
        0
    } else {
        1 + first_pos(s.drop_first(), c)
    }
}

/// The operator an expression splits on: `+` wherever it occurs, else `-`,
/// else `*`, else `/`; `0` when none occurs.
pub open spec fn op_choice(s: Seq<u8>) -> u8 {
    if first_pos(s, 0x2b) < s.len() {
        0x2b
    } else if first_pos(s, 0x2d) < s.len() {
        0x2d
    } else if first_pos(s, 0x2a) < s.len() {
        0x2a
    } else if first_pos(s, 0x2f) < s.len() {
        0x2f
    } else {
        0
    }
}

/// The value of `v` wrapped into the 32-bit two's-complement range.
pub open spec fn norm32(v: int) -> int {
    ((v + 0x8000_0000) % 0x1_0000_0000) - 0x8000_0000
}

/// Division truncating toward zero, the semantics of the `/` operator.
pub open spec fn tdiv32(a: int, b: int) -> int {
    if a >= 0 && b > 0 {
        a / b
    } else if a < 0 && b > 0 {
        0 - ((0 - a) / b)
    } else if a >= 0 && b < 0 {
        0 - (a / (0 - b))
    } else {
        (0 - a) / (0 - b)
    }
}

/// Saturating addition on 64-bit counters.
pub open spec fn sat_add64(a: int, b: int) -> int {
    if a + b > 0xffff_ffff_ffff_ffff {
        0xffff_ffff_ffff_ffff
    } else {
        a + b
    }
}

/// The ids of one row stretch of a rectangle.
pub open spec fn row_ids(cols: int, r: int, c1: int, c2: int) -> Seq<usize> {
    Seq::new((if c2 + 1 >= c1 { c2 + 1 - c1 } else { 0 }) as nat, |j: int| ((r * cols + c1 + j) as usize))
}

/// The ids of the rectangle `(r1, c1)..(r2, c2)`, row-major.
pub open spec fn rect_ids(cols: int, r1: int, c1: int, r2: int, c2: int) -> Seq<usize>
    decreases (if r2 - r1 + 1 >= 0 { r2 - r1 + 1 } else { 0 }),
{
    if r2 < r1 {
        Seq::empty()
    } else {
        rect_ids(cols, r1, c1, r2 - 1, c2) + row_ids(cols, r2, c1, c2)
    }
}

/// The values of the cells `ids`, summed with 32-bit wraparound.
pub open spec fn fold_sum(cells: Seq<Cell>, ids: Seq<usize>) -> int
    decreases ids.len(),
{
    if ids.len() == 0 {
        0
    } else {
        norm32(fold_sum(cells, ids.drop_last()) + cells[ids.last() as int].val)
    }
}

/// The largest value among the cells `ids`, starting from the smallest
/// 32-bit integer.
pub open spec fn fold_max(cells: Seq<Cell>, ids: Seq<usize>) -> int
    decreases ids.len(),
{
    if ids.len() == 0 {
        -0x8000_0000
    } else if cells[ids.last() as int].val >= fold_max(cells, ids.drop_last()) {
        cells[ids.last() as int].val as int
    } else {
        fold_max(cells, ids.drop_last())
    }
}

/// The smallest value among the cells `ids`, starting from the largest
/// 32-bit integer.
pub open spec fn fold_min(cells: Seq<Cell>, ids: Seq<usize>) -> int
    decreases ids.len(),
{
    if ids.len() == 0 {
        0x7fff_ffff
    } else if cells[ids.last() as int].val <= fold_min(cells, ids.drop_last()) {
        cells[ids.last() as int].val as int
    } else {
        fold_min(cells, ids.drop_last())
    }
}

/// The sum of the squared deviations of the cells `ids` from `mean`.
pub open spec fn fold_sqdev(cells: Seq<Cell>, ids: Seq<usize>, mean: int) -> int
    decreases ids.len(),
{
    if ids.len() == 0 {
        0
    } else {
        fold_sqdev(cells, ids.drop_last(), mean) + (cells[ids.last() as int].val - mean) * (
        cells[ids.last() as int].val - mean)
    }
}

/// Some cell among `ids` carries a failed status.
pub open spec fn any_err(cells: Seq<Cell>, ids: Seq<usize>) -> bool {
    exists|k: int| 0 <= k < ids.len() && cells[(#[trigger] ids[k]) as int].status == 1
}

/// `r` rounds the square root of the ratio `vnum / cnt` to the nearest
/// integer: the ratio lies between the squares of `r - 1/2` and `r + 1/2`.
pub open spec fn rounded_sqrt_ratio(vnum: int, cnt: int, r: int) -> bool {
    &&& r >= 0
    &&& (r == 0 || cnt * (4 * r * r - 4 * r + 1) <= 4 * vnum)
    &&& 4 * vnum < cnt * (4 * r * r + 4 * r + 1)
}

/// The population standard deviation, rounded to the nearest integer.
pub open spec fn stdev_val(vnum: int, cnt: int) -> int {
    choose|r: int| rounded_sqrt_ratio(vnum, cnt, r)
}

/// Aggregate functions, in the order the grammar names them.
pub open spec fn agg_value(cells: Seq<Cell>, func: int, ids: Seq<usize>) -> int {
    if func == 0 {
        fold_sum(cells, ids)
    } else if func == 1 {
        tdiv32(fold_sum(cells, ids), ids.len() as int)
    } else if func == 2 {
        fold_max(cells, ids)
    } else if func == 3 {
        fold_min(cells, ids)
    } else {
        let mean = tdiv32(fold_sum(cells, ids), ids.len() as int);
        let v = stdev_val(fold_sqdev(cells, ids, mean), ids.len() as int);
        if v > 0x7fff_ffff {
            0x7fff_ffff
        } else {
            v
        }
    }
}

/// `s` spells one of the five aggregate names; their index, or `-1`.
pub open spec fn agg_func_of(s: Seq<u8>) -> int {
    if s =~= seq![0x53u8, 0x55u8, 0x4du8] {
        0  // SUM
    } else if s =~= seq![0x41u8, 0x56u8, 0x47u8] {
        1  // AVG
    } else if s =~= seq![0x4du8, 0x41u8, 0x58u8] {
        2  // MAX
    } else if s =~= seq![0x4du8, 0x49u8, 0x4eu8] {
        3  // MIN
    } else if s =~= seq![0x53u8, 0x54u8, 0x44u8, 0x45u8, 0x56u8] {
        4  // STDEV
    } else {
        -1
    }
}

/// What evaluating one operand of a binary expression yields: `None` for a
/// malformed or out-of-range operand, or the pair (value source, optional
/// referenced cell id).
///
/// An operand is either an integer literal or a cell reference written as
/// letters followed by digits; the reference must use uppercase letters,
/// must not write its row with a leading zero, and must lie inside the
/// `rows` by `cols` window.
pub open spec fn operand_spec(
    pre: SheetData,
    rows: int,
    cols: int,
    t: Seq<u8>,
) -> Option<(i32, Option<usize>)> {
    let a = alpha_len(t);
    let d = digit_len(t.skip(alpha_len(t)));
    if a >= 1 && d >= 1 && a + d == t.len() {
        // shaped like a reference: letters then digits and nothing else
        let lab = t.take(a);
        let num = t.skip(a);
        if upper_len(t) == a && num[0] != 0x30 && col_val(lab) - 1 < cols && 1 <= digits_val(
            num,
        ) && digits_val(num) - 1 < rows {
            let id = ((digits_val(num) - 1) * pre.cols + (col_val(lab) - 1)) as usize;
            Some((pre.cells@[id as int].val, Some(id)))
        } else {
            None
        }
    } else {
        match parse_i32_spec(t) {
            Some(v) => Some((v, None::<usize>)),
            None => None,
        }
    }
}

/// Everything `evaluate_expression` decides, as one value: the return
/// code, the value on success, the read edges it binds in bind mode (in
/// binding order), and the seconds of blocking a `SLEEP` demands.
pub open spec fn eval_spec(
    pre: SheetData,
    rows: int,
    cols: int,
    wrow: int,
    wcol: int,
    e: Seq<u8>,
) -> (i32, i32, Seq<usize>, int) {
    let t = trim_spec(e);
    let w = ((wrow * pre.cols + wcol) as usize);
    if parse_i32_spec(t) is Some {
        (0i32, parse_i32_spec(t).unwrap(), Seq::empty(), 0)
    } else if sleep_form(t) {
        eval_sleep_spec(pre, rows, cols, w, t)
    } else if op_choice(t) != 0 {
        eval_binop_spec(pre, rows, cols, w, t)
    } else if agg_form(t) {
        eval_agg_spec(pre, rows, cols, w, t)
    } else if ref_form(t) {
        eval_ref_spec(pre, rows, cols, w, t)
    } else {
        (-1i32, 0i32, Seq::empty(), 0)
    }
}


/// The shapes that still hand the computed value out on the taint outcome:
/// a `SLEEP` call, a range aggregate, and a plain cell reference. A binary
/// operation reports the failure without producing a value, and the other
/// shapes never reach that outcome.
pub open spec fn taint_carries_value(e: Seq<u8>) -> bool {
    let t = trim_spec(e);
    &&& parse_i32_spec(t) is None
    &&& (sleep_form(t) || (op_choice(t) == 0 && (agg_form(t) || ref_form(t))))
}

/// `t` looks like a `SLEEP(...)` call: the literal name, an opening
/// parenthesis, a body free of closing parentheses, and a closing
/// parenthesis at the very end.
pub open spec fn sleep_form(t: Seq<u8>) -> bool {
    &&& t.len() >= 8
    &&& t.take(6) =~= seq![0x53u8, 0x4cu8, 0x45u8, 0x45u8, 0x50u8, 0x28u8]
    &&& t.last() == 0x29
    &&& (forall|i: int| 6 <= i < t.len() - 1 ==> t[i] != 0x29)
    &&& sleep_body_form(t.subrange(6, t.len() - 1))
}

/// The body of a `SLEEP` call opens with an optional minus sign and a
/// digit, or with a cell reference.
pub open spec fn sleep_body_form(m: Seq<u8>) -> bool {
    ||| (m.len() >= 1 && is_digit(m[0]))
    ||| (m.len() >= 2 && m[0] == 0x2d && is_digit(m[1]))
    ||| (upper_len(m) >= 1 && digit_len(m.skip(upper_len(m))) >= 1)
}

/// The meaning of a `SLEEP` call, both on a literal and on a cell.
pub open spec fn eval_sleep_spec(
    pre: SheetData,
    rows: int,
    cols: int,
    w: usize,
    t: Seq<u8>,
) -> (i32, i32, Seq<usize>, int) {
    let m = t.subrange(6, t.len() - 1);
    if (m.len() >= 1 && is_digit(m[0])) || (m.len() >= 2 && m[0] == 0x2d && is_digit(m[1])) {
        // SLEEP on a literal number
        let dl = if m[0] == 0x2d {
            1 + digit_len(m.skip(1))
        } else {
            digit_len(m)
        };
        if dl < m.len() {
            (-1i32, 0i32, Seq::empty(), 0)
        } else {
            let v = match parse_i32_spec(m) {
                Some(v) => v,
                None => -1i32,
            };
            (0i32, v, Seq::empty(), if v >= 0 {
                v as int
            } else {
                0
            })
        }
    } else {
        // SLEEP on a cell reference
        let a = upper_len(m);
        let num = m.skip(a);
        let d = digit_len(num);
        if a + d < m.len() {
            (-1i32, 0i32, Seq::empty(), 0)
        } else if num[0] == 0x30 || digits_val(num) < 1 || digits_val(num) - 1 >= rows
            || col_val(m.take(a)) - 1 >= cols {
            (-1i32, 0i32, Seq::empty(), 0)
        } else {
            let id = (((digits_val(num) - 1) * pre.cols + (col_val(m.take(a)) - 1)) as usize);
            if reaches(pre.cells@, w, id) {
                (-4i32, 0i32, Seq::empty(), 0)
            } else if pre.cells@[id as int].status == 1 {
                (-2i32, pre.cells@[id as int].val, seq![id], 0)
            } else {
                let v = pre.cells@[id as int].val;
                (0i32, v, seq![id], if v >= 0 {
                    v as int
                } else {
                    0
                })
            }
        }
    }
}

/// The meaning of an expression that splits on an operator.
pub open spec fn eval_binop_spec(
    pre: SheetData,
    rows: int,
    cols: int,
    w: usize,
    t: Seq<u8>,
) -> (i32, i32, Seq<usize>, int) {
    let op = op_choice(t);
    let pos = first_pos(t, op);
    let t1 = trim_spec(t.take(pos));
    let t2 = trim_spec(t.skip(pos + 1));
    match (operand_spec(pre, rows, cols, t1), operand_spec(pre, rows, cols, t2)) {
        (Some((v1, r1)), Some((v2, r2))) => {
            if (r1 is Some && reaches(pre.cells@, w, r1.unwrap())) || (r2 is Some && reaches(
                pre.cells@,
                w,
                r2.unwrap(),
            )) {
                (-4i32, 0i32, Seq::empty(), 0)
            } else {
                let d = binop_deps(r1, r2);
                if (r1 is Some && pre.cells@[r1.unwrap() as int].status == 1) || (r2 is Some
                    && pre.cells@[r2.unwrap() as int].status == 1) {
                    (-2i32, 0i32, d, 0)
                } else if op == 0x2f && v2 == 0 {
                    (-2i32, 0i32, d, 0)
                } else {
                    let v = if op == 0x2b {
                        norm32(v1 + v2)
                    } else if op == 0x2d {
                        norm32(v1 - v2)
                    } else if op == 0x2a {
                        norm32(v1 * v2)
                    } else {
                        norm32(tdiv32(v1 as int, v2 as int))
                    };
                    (0i32, ((v as i32)), d, 0)
                }
            }
        },
        _ => (-1i32, 0i32, Seq::empty(), 0),
    }
}

/// The read edges a binary expression binds: each distinct referenced
/// cell, first operand first.
pub open spec fn binop_deps(r1: Option<usize>, r2: Option<usize>) -> Seq<usize> {
    let d1: Seq<usize> = match r1 {
        Some(id) => seq![id],
        None => Seq::empty(),
    };
    match r2 {
        Some(id) => if r1 == Some(id) {
            d1
        } else {
            d1.push(id)
        },
        None => d1,
    }
}

/// `t` looks like an aggregate call: at least one uppercase letter and an
/// opening parenthesis straight after.
pub open spec fn agg_form(t: Seq<u8>) -> bool {
    1 <= upper_len(t) < t.len() && t[upper_len(t)] == 0x28
}

/// The meaning of an aggregate over a rectangle of cells.
pub open spec fn eval_agg_spec(
    pre: SheetData,
    rows: int,
    cols: int,
    w: usize,
    t: Seq<u8>,
) -> (i32, i32, Seq<usize>, int) {
    let f = upper_len(t);
    let func = agg_func_of(t.take(f));
    let rest = t.skip(f + 1);
    // rest must be L1 D1 : L2 D2 ) with nothing after
    let a1 = upper_len(rest);
    let d1 = digit_len(rest.skip(a1));
    let afterd1 = rest.skip(a1 + d1);
    if func < 0 || a1 < 1 || a1 > 3 || d1 < 1 || afterd1.len() < 1 || afterd1[0] != 0x3a {
        (-1i32, 0i32, Seq::empty(), 0)
    } else {
        let rest2 = afterd1.skip(1);
        let a2 = upper_len(rest2);
        let d2 = digit_len(rest2.skip(a2));
        let afterd2 = rest2.skip(a2 + d2);
        if a2 < 1 || a2 > 3 || d2 < 1 || afterd2.len() != 1 || afterd2[0] != 0x29 {
            (-1i32, 0i32, Seq::empty(), 0)
        } else {
            let l1 = rest.take(a1);
            let n1 = rest.skip(a1).take(d1);
            let l2 = rest2.take(a2);
            let n2 = rest2.skip(a2).take(d2);
            if n1[0] == 0x30 || n2[0] == 0x30 {
                (-1i32, 0i32, Seq::empty(), 0)
            } else {
                let r1 = digits_val(n1) - 1;
                let c1 = col_val(l1) - 1;
                let r2 = digits_val(n2) - 1;
                let c2 = col_val(l2) - 1;
                if r1 < 0 || r1 >= rows || r2 < 0 || r2 >= rows || c1 >= cols || c2 >= cols
                    || r2 < r1 || c2 < c1 {
                    (-1i32, 0i32, Seq::empty(), 0)
                } else if reaches_rect(pre.cells@, pre.cols as int, w, r1, c1, r2, c2) {
                    (-4i32, 0i32, Seq::empty(), 0)
                } else {
                    let ids = rect_ids(pre.cols as int, r1, c1, r2, c2);
                    if any_err(pre.cells@, ids) {
                        (-2i32, ((agg_value(pre.cells@, func, ids) as i32)), ids, 0)
                    } else {
                        (0i32, ((agg_value(pre.cells@, func, ids) as i32)), ids, 0)
                    }
                }
            }
        }
    }
}

/// `t` looks like a plain cell reference: uppercase letters, then at least
/// one digit.
pub open spec fn ref_form(t: Seq<u8>) -> bool {
    upper_len(t) >= 1 && digit_len(t.skip(upper_len(t))) >= 1
}

/// The meaning of a plain cell reference.
pub open spec fn eval_ref_spec(
    pre: SheetData,
    rows: int,
    cols: int,
    w: usize,
    t: Seq<u8>,
) -> (i32, i32, Seq<usize>, int) {
    let a = upper_len(t);
    let num = t.skip(a);
    let d = digit_len(num);
    if a + d < t.len() {
        (-1i32, 0i32, Seq::empty(), 0)
    } else if num[0] == 0x30 || digits_val(num) < 1 || digits_val(num) - 1 >= rows || col_val(
        t.take(a),
    ) - 1 >= cols {
        (-1i32, 0i32, Seq::empty(), 0)
    } else {
        let id = (((digits_val(num) - 1) * pre.cols + (col_val(t.take(a)) - 1)) as usize);
        if reaches(pre.cells@, w, id) {
            (-4i32, 0i32, Seq::empty(), 0)
        } else if pre.cells@[id as int].status == 1 {
            (-2i32, pre.cells@[id as int].val, seq![id], 0)
        } else {
            (0i32, pre.cells@[id as int].val, seq![id], 0)
        }
    }
}

/// Everything but the pending sleep demand is as it was.
pub open spec fn unchanged_cells(pre: SheetData, post: SheetData) -> bool {
    &&& post.cells@ == pre.cells@
    &&& post.rows == pre.rows
    &&& post.cols == pre.cols
    &&& post.start_row == pre.start_row
    &&& post.start_col == pre.start_col
    &&& post.flag == pre.flag
}

/// The state after rebinding the reads of `w` to exactly `d`: only the two
/// dependency indexes change, the read stack of `w` becomes `d`, and `w`
/// moves out of every reader set it was in and into those of the cells of
/// `d`.
pub open spec fn bound_post(pre: SheetData, post: SheetData, w: usize, d: Seq<usize>) -> bool {
    &&& post.rows == pre.rows
    &&& post.cols == pre.cols
    &&& post.start_row == pre.start_row
    &&& post.start_col == pre.start_col
    &&& post.flag == pre.flag
    &&& post.cells@.len() == pre.cells@.len()
    &&& forall|x: usize|
        (x as int) < post.cells@.len() ==> {
            &&& (#[trigger] post.cells@[x as int]).val == pre.cells@[x as int].val
            &&& post.cells@[x as int].expression == pre.cells@[x as int].expression
            &&& post.cells@[x as int].status == pre.cells@[x as int].status
            &&& post.cells@[x as int].dependents@ == if x == w {
                d
            } else {
                pre.cells@[x as int].dependents@
            }
            &&& forall|y: usize|
                post.cells@[x as int].dependencies@.contains(y) <==> ((pre.cells@[x
                    as int].dependencies@.contains(y) && y != w) || (y == w && d.contains(x)))
        }
}


/// The cells of a rectangle, listed row-major, form a strictly increasing
/// id sequence of the expected length, and every id decodes back into the
/// rectangle.
pub proof fn lemma_rect_ids_props(cols: int, r1: int, c1: int, r2: int, c2: int)
    requires
        cols >= 1,
        0 <= r1 <= r2,
        0 <= c1 <= c2 < cols,
        r2 * cols + c2 < 0x8000_0000,
    ensures
        rect_ids(cols, r1, c1, r2, c2).len() == (r2 - r1 + 1) * (c2 - c1 + 1),
        forall|k: int|
            0 <= k < rect_ids(cols, r1, c1, r2, c2).len() ==> ((#[trigger] rect_ids(
                cols,
                r1,
                c1,
                r2,
                c2,
            )[k]) as int) == (r1 + k / (c2 - c1 + 1)) * cols + c1 + (k % (c2 - c1 + 1)),
        forall|k1: int, k2: int|
            0 <= k1 < k2 < rect_ids(cols, r1, c1, r2, c2).len() ==> rect_ids(
                cols,
                r1,
                c1,
                r2,
                c2,
            )[k1] != rect_ids(cols, r1, c1, r2, c2)[k2],
        forall|k: int|
            0 <= k < rect_ids(cols, r1, c1, r2, c2).len() ==> rect_contains(
                cols,
                r1,
                c1,
                r2,
                c2,
                #[trigger] rect_ids(cols, r1, c1, r2, c2)[k],
            ),
    decreases r2 - r1,
{
    let width = c2 - c1 + 1;
    let ids = rect_ids(cols, r1, c1, r2, c2);
    if r1 == r2 {
        assert(rect_ids(cols, r1, c1, r1 - 1, c2) =~= Seq::<usize>::empty());
        assert(ids =~= row_ids(cols, r2, c1, c2));
        assert(ids.len() == width);
        assert(forall|k: int| 0 <= k < width ==> (ids[k] as int) == r2 * cols + c1 + k);
        assert forall|k: int|
            0 <= k < ids.len() implies ((#[trigger] ids[k]) as int) == (r1 + k / width) * cols
            + c1 + (k % width) by {
            assert(0 <= k < width);
            assert(k == 0 * width + k);
            vstd::arithmetic::div_mod::lemma_fundamental_div_mod_converse(k, width, 0, k);
        }
        assert forall|k: int|
            0 <= k < ids.len() implies rect_contains(cols, r1, c1, r2, c2, ids[k]) by {
            let v = r2 * cols + c1 + k;
            vstd::arithmetic::div_mod::lemma_fundamental_div_mod_converse(v, cols, r2, c1 + k);
            assert(v / cols == r2 && v % cols == c1 + k);
        }
    } else {
        assert((r2 - 1) * cols + c2 < r2 * cols + c2) by (nonlinear_arith)
            requires cols >= 1;
        lemma_rect_ids_props(cols, r1, c1, r2 - 1, c2);
        let pre = rect_ids(cols, r1, c1, r2 - 1, c2);
        assert(ids == pre + row_ids(cols, r2, c1, c2));
        assert((r2 - 1 - r1 + 1) * width + width == (r2 - r1 + 1) * width) by (nonlinear_arith);
        assert(forall|k: int| 0 <= k < pre.len() ==> ids[k] == pre[k]);
        assert forall|k: int|
            pre.len() <= k < ids.len() implies ((#[trigger] ids[k]) as int) == r2 * cols + c1
            + (k - pre.len()) by {
            assert(ids[k] == row_ids(cols, r2, c1, c2)[k - pre.len()]);
        }
        assert forall|k: int|
            0 <= k < ids.len() implies ((#[trigger] ids[k]) as int) == (r1 + k / width) * cols
            + c1 + (k % width) by {
            if k < pre.len() {
            } else {
                let j = k - pre.len();
                assert(k == (r2 - r1) * width + j);
                vstd::arithmetic::div_mod::lemma_fundamental_div_mod_converse(
                    k,
                    width,
                    r2 - r1,
                    j,
                );
                assert(k / width == r2 - r1 && k % width == j);
            }
        }
        assert forall|k1: int, k2: int|
            0 <= k1 < k2 < ids.len() implies ids[k1] != ids[k2] by {
            if k1 < pre.len() && k2 >= pre.len() {
                assert((ids[k1] as int) == (r1 + k1 / width) * cols + c1 + (k1 % width));
                assert(r1 + k1 / width <= r2 - 1) by {
                    assert(k1 / width < r2 - 1 - r1 + 1) by {
                        assert(k1 < width * (r2 - 1 - r1 + 1)) by (nonlinear_arith)
                            requires k1 < (r2 - 1 - r1 + 1) * width;
                        vstd::arithmetic::div_mod::lemma_multiply_divide_lt(
                            k1,
                            width,
                            r2 - 1 - r1 + 1,
                        );
                    }
                }
                assert(k1 % width < width) by {
                    vstd::arithmetic::div_mod::lemma_mod_bound(k1, width);
                }
                assert((r1 + k1 / width) * cols <= (r2 - 1) * cols) by (nonlinear_arith)
                    requires r1 + k1 / width <= r2 - 1, cols >= 1;
                assert((r2 - 1) * cols + cols <= r2 * cols) by (nonlinear_arith);
                assert((ids[k1] as int) < r2 * cols + c1);
            }
        }
        assert forall|k: int|
            0 <= k < ids.len() implies rect_contains(cols, r1, c1, r2, c2, ids[k]) by {
            if k < pre.len() {
                assert(rect_contains(cols, r1, c1, r2 - 1, c2, pre[k]));
            } else {
                let v = r2 * cols + c1 + (k - pre.len());
                vstd::arithmetic::div_mod::lemma_fundamental_div_mod_converse(
                    v,
                    cols,
                    r2,
                    c1 + (k - pre.len()),
                );
            }
        }
    }
}

/// A strictly increasing sequence repeats nothing, so every element occurs
/// exactly once.
proof fn lemma_occ_distinct(s: Seq<usize>, x: usize)
    requires
        forall|k1: int, k2: int| 0 <= k1 < k2 < s.len() ==> s[k1] != s[k2],
    ensures
        occ(s, x) == if s.contains(x) {
            1nat
        } else {
            0nat
        },
    decreases s.len(),
{
    if s.len() > 0 {
        assert(forall|k: int| 0 <= k < s.len() - 1 ==> s.drop_last()[k] == s[k]);
        lemma_occ_distinct(s.drop_last(), x);
        crate::cell::lemma_occ_contains(s.drop_last(), x);
        if s.last() == x {
            assert(!s.drop_last().contains(x)) by {
                if s.drop_last().contains(x) {
                    let k = choose|k: int| 0 <= k < s.len() - 1 && s.drop_last()[k] == x;
                    assert(s[k] == x && s[s.len() - 1] == x);
                }
            }
            assert(s.contains(x)) by {
                assert(s[s.len() - 1] == x);
            }
        } else {
            if s.contains(x) {
                let k = choose|k: int| 0 <= k < s.len() && s[k] == x;
                assert(k < s.len() - 1);
                assert(s.drop_last()[k] == x);
            }
            if s.drop_last().contains(x) {
                let k = choose|k: int| 0 <= k < s.len() - 1 && s.drop_last()[k] == x;
                assert(s[k] == x);
            }
        }
    }
}


/// The state in the middle of `bind_deps`: the first `k` read edges are
/// installed.
pub open spec fn bind_mid(
    cur: SheetData,
    pre: SheetData,
    w: usize,
    d: Seq<usize>,
    k: int,
) -> bool {
    &&& cur.cells@.len() == pre.cells@.len()
    &&& forall|x: usize|
        (x as int) < cur.cells@.len() ==> {
            &&& (#[trigger] cur.cells@[x as int]).val == pre.cells@[x as int].val
            &&& cur.cells@[x as int].expression == pre.cells@[x as int].expression
            &&& cur.cells@[x as int].status == pre.cells@[x as int].status
            &&& cur.cells@[x as int].dependents@ == if x == w {
                d.take(k)
            } else {
                pre.cells@[x as int].dependents@
            }
            &&& forall|y: usize|
                cur.cells@[x as int].dependencies@.contains(y) <==> ((pre.cells@[x
                    as int].dependencies@.contains(y) && y != w) || (y == w && d.take(
                    k,
                ).contains(x)))
        }
}

/// Installing one more read edge advances the middle state of `bind_deps`.
proof fn lemma_bind_step(
    pre: SheetData,
    b4: SheetData,
    aft: SheetData,
    w: usize,
    d: Seq<usize>,
    k: int,
)
    requires
        bind_mid(b4, pre, w, d, k),
        0 <= k < d.len(),
        (w as int) < pre.cells@.len(),
        ((d[k]) as int) < pre.cells@.len(),
        d[k] != w,
        aft.cells@.len() == b4.cells@.len(),
        forall|x: int|
            0 <= x < aft.cells@.len() && x != d[k] as int && x != w as int ==> (
            #[trigger] aft.cells@[x]) == b4.cells@[x],
        aft.cells@[d[k] as int].val == b4.cells@[d[k] as int].val,
        aft.cells@[d[k] as int].expression == b4.cells@[d[k] as int].expression,
        aft.cells@[d[k] as int].status == b4.cells@[d[k] as int].status,
        aft.cells@[d[k] as int].dependents == b4.cells@[d[k] as int].dependents,
        forall|y: usize|
            aft.cells@[d[k] as int].dependencies@.contains(y) <==> (b4.cells@[d[k]
                as int].dependencies@.contains(y) || y == w),
        aft.cells@[w as int].val == b4.cells@[w as int].val,
        aft.cells@[w as int].expression == b4.cells@[w as int].expression,
        aft.cells@[w as int].status == b4.cells@[w as int].status,
        aft.cells@[w as int].dependencies == b4.cells@[w as int].dependencies,
        aft.cells@[w as int].dependents@ == b4.cells@[w as int].dependents@.push(d[k]),
    ensures
        bind_mid(aft, pre, w, d, k + 1),
{
    let dep = d[k];
    assert(d.take(k + 1).drop_last() =~= d.take(k));
    assert(d.take(k + 1).last() == d[k]);
    assert forall|x: usize|
        d.take(k + 1).contains(x) <==> (d.take(k).contains(x) || x == dep) by {
        if d.take(k + 1).contains(x) {
            let q = choose|q: int| 0 <= q <= k && #[trigger] d.take(k + 1)[q] == x;
            if q < k {
                assert(d.take(k)[q] == x);
            }
        }
        if d.take(k).contains(x) {
            let q = choose|q: int| 0 <= q < k && #[trigger] d.take(k)[q] == x;
            assert(d.take(k + 1)[q] == x);
        }
        if x == dep {
            assert(d.take(k + 1)[k] == x);
        }
    }
    assert(aft.cells@[w as int].dependents@ =~= d.take(k + 1));
    assert forall|x: usize| (x as int) < aft.cells@.len() implies {
        &&& (aft.cells@[x as int]).val == pre.cells@[x as int].val
        &&& aft.cells@[x as int].expression == pre.cells@[x as int].expression
        &&& aft.cells@[x as int].status == pre.cells@[x as int].status
        &&& aft.cells@[x as int].dependents@ == if x == w {
            d.take(k + 1)
        } else {
            pre.cells@[x as int].dependents@
        }
        &&& forall|y: usize|
            aft.cells@[x as int].dependencies@.contains(y) <==> ((pre.cells@[x
                as int].dependencies@.contains(y) && y != w) || (y == w && d.take(
                k + 1,
            ).contains(x)))
    } by {
        if x == dep {
            assert(b4.cells@[x as int].dependents@ == pre.cells@[x as int].dependents@);
        } else if x == w {
        } else {
            assert(aft.cells@[x as int] == b4.cells@[x as int]);
        }
    }
}

/// Rebinds the reads of `w` to exactly the cells of `d`: clears the old
/// edges and installs one read edge per entry, in order. The caller has
/// already checked that no entry of `d` is reachable from `w`.
#[verifier::spinoff_prover]
#[verifier::rlimit(100)]
pub fn bind_deps(sheet_data: &mut SheetData, w: usize, d: &Vec<usize>)
    requires
        sd_wf(*old(sheet_data)),
        (w as int) < old(sheet_data).cells@.len(),
        forall|k: int|
            0 <= k < d@.len() ==> ((#[trigger] d@[k]) as int) < old(sheet_data).cells@.len()
                && d@[k] != w,
        forall|k1: int, k2: int| 0 <= k1 < k2 < d@.len() ==> d@[k1] != d@[k2],
    ensures
        sd_wf(*final(sheet_data)),
        final(sheet_data).pending_sleep == old(sheet_data).pending_sleep,
        bound_post(*old(sheet_data), *final(sheet_data), w, d@),
{
    let ghost pre = *sheet_data;
    let ghost n = pre.cells@.len() as int;
    let (wr, wc): (usize, usize) = match sheet_data.calculate_row_col(w) {
        Some(rc) => rc,
        None => {
            proof {
                assert(false);
            }
            (0, 0)
        },
    };
    proof {
        crate::sheet::lemma_dims_bound(pre.rows as int, pre.cols as int);
        assert((w as int) < (pre.cols as int) * (pre.rows as int)) by (nonlinear_arith)
            requires (w as int) < (pre.rows as int) * (pre.cols as int);
        vstd::arithmetic::div_mod::lemma_multiply_divide_lt(
            w as int,
            pre.cols as int,
            pre.rows as int,
        );
        vstd::arithmetic::div_mod::lemma_mod_bound(w as int, pre.cols as int);
        vstd::arithmetic::div_mod::lemma_fundamental_div_mod(w as int, pre.cols as int);
        assert((w as int) == (pre.cols as int) * ((w as int) / (pre.cols as int)) + (w as int)
            % (pre.cols as int));
        assert(wr * pre.cols == pre.cols * wr) by (nonlinear_arith);
        assert(wr * pre.cols + wc == w);
    }
    delete_dependencies(wr, wc, sheet_data);
    let ghost cleared = *sheet_data;
    proof {
        assert(clear_mid(cleared, pre, w, pre.cells@[w as int].dependents@, 0));
        assert(pre.cells@[w as int].dependents@.take(0) =~= Seq::<usize>::empty());
        // under symmetry, clearing leaves the reader sets equal to the old
        // ones with w removed
        let ghost wstack = pre.cells@[w as int].dependents@;
        assert(wstack.skip(0) =~= wstack);
        assert forall|x: usize, y: usize|
            (x as int) < n implies (cleared.cells@[x as int].dependencies@.contains(y) <==> (
        pre.cells@[x as int].dependencies@.contains(y) && y != w)) by {
            assert(cleared.cells@[x as int].dependencies@.contains(y) <==> (pre.cells@[x
                as int].dependencies@.contains(y) && !(y == w && wstack.skip(0).contains(x))));
            crate::cell::lemma_occ_contains(wstack, x);
            if y == w {
                if pre.cells@[x as int].dependencies@.contains(w) {
                    assert(occ(wstack, x) == 1);
                }
            }
        }
    }
    proof {
        assert(d@.take(0) =~= Seq::<usize>::empty());
        assert(bind_mid(*sheet_data, pre, w, d@, 0));
    }
    let total: usize = d.len();
    let mut k: usize = 0;
    while k < total
        invariant
            sd_ids_ok(*sheet_data),
            total == d@.len(),
            0 <= k <= total,
            (w as int) < n,
            sheet_data.cells@.len() == n,
            forall|q: int| 0 <= q < d@.len() ==> ((#[trigger] d@[q]) as int) < n && d@[q] != w,
            forall|q1: int, q2: int| 0 <= q1 < q2 < d@.len() ==> d@[q1] != d@[q2],
            pre.cells@.len() == n,
            sheet_data.rows == pre.rows,
            sheet_data.cols == pre.cols,
            sheet_data.start_row == pre.start_row,
            sheet_data.start_col == pre.start_col,
            sheet_data.flag == pre.flag,
            sheet_data.pending_sleep == pre.pending_sleep,
            bind_mid(*sheet_data, pre, w, d@, k as int),
        decreases total - k,
    {
        let dep: usize = d[k];
        let ghost b4 = *sheet_data;
        add_dependency(dep, w, sheet_data);
        let ghost mid = *sheet_data;
        push_dependent(sheet_data, w, dep);
        proof {
            assert(forall|x: int|
                0 <= x < n && x != dep as int && x != w as int ==> (#[trigger] sheet_data.cells@[x])
                    == b4.cells@[x]);
            assert(sheet_data.cells@[w as int].dependents@ == b4.cells@[w
                as int].dependents@.push(dep));
            if dep != w {
                assert(sheet_data.cells@[dep as int] == mid.cells@[dep as int]);
            }
            lemma_bind_step(pre, b4, *sheet_data, w, d@, k as int);
        }
        k = k + 1;
    }
    proof {
        assert(d@.take(total as int) =~= d@);
        assert(bind_mid(*sheet_data, pre, w, d@, total as int));
        assert(bound_post(pre, *sheet_data, w, d@));
        // the rebuilt indexes are again in lock step
        assert forall|a: usize, b: usize|
            (a as int) < n && (b as int) < n implies (#[trigger] occ(
            sheet_data.cells@[b as int].dependents@,
            a,
        )) == if sheet_data.cells@[a as int].dependencies@.contains(b) {
            1nat
        } else {
            0nat
        } by {
            if b == w {
                assert(sheet_data.cells@[b as int].dependents@ == d@);
                lemma_occ_distinct(d@, a);
                assert(sheet_data.cells@[a as int].dependencies@.contains(w) <==> d@.contains(
                    a,
                ));
            } else {
                assert(sheet_data.cells@[b as int].dependents@ == pre.cells@[b
                    as int].dependents@);
                assert(sheet_data.cells@[a as int].dependencies@.contains(b) <==> pre.cells@[a
                    as int].dependencies@.contains(b));
            }
        }
    }
}


/// The bounds of `b` with surrounding whitespace dropped:
/// `b[lo..hi]` is the trimmed window.
#[verifier::spinoff_prover]
#[verifier::loop_isolation(false)]
pub fn trim_slice(b: &[u8], from: usize, to: usize) -> (r: (usize, usize))
    requires
        from <= to <= b@.len(),
    ensures
        from <= r.0 <= r.1 <= to,
        b@.subrange(from as int, to as int).subrange(
            r.0 - from,
            r.1 - from,
        ) == trim_spec(b@.subrange(from as int, to as int)),
        r.1 - r.0 == trim_spec(b@.subrange(from as int, to as int)).len(),
{
    let ghost s = b@.subrange(from as int, to as int);
    let mut lo: usize = from;
    proof {
        assert(s.skip(0) =~= s);
    }
    while lo < to && (b[lo] == 0x20 || b[lo] == 0x09 || b[lo] == 0x0a || b[lo] == 0x0b || b[lo]
        == 0x0c || b[lo] == 0x0d)
        invariant
            from <= lo <= to,
            lead_ws(s) == (lo - from) + lead_ws(s.skip(lo - from)),
            forall|i: int| 0 <= i < lo - from ==> is_ws(s[i]),
        decreases to - lo,
    {
        proof {
            assert(s.skip(lo - from)[0] == s[lo - from]);
            assert(s[lo - from] == b@[lo as int]);
            assert(s.skip(lo - from).drop_first() =~= s.skip(lo - from + 1));
        }
        lo = lo + 1;
    }
    proof {
        if lo < to {
            assert(s.skip(lo - from)[0] == b@[lo as int]);
        }
        assert(lead_ws(s.skip(lo - from)) == 0);
        assert(lead_ws(s) == lo - from);
    }
    if lo == to {
        proof {
            assert(s.subrange(lo - from, lo - from) =~= Seq::<u8>::empty());
            assert(trim_spec(s) =~= Seq::<u8>::empty());
        }
        return (lo, lo);
    }
    let mut hiv: usize = to;
    while hiv > lo && (b[hiv - 1] == 0x20 || b[hiv - 1] == 0x09 || b[hiv - 1] == 0x0a || b[hiv
        - 1] == 0x0b || b[hiv - 1] == 0x0c || b[hiv - 1] == 0x0d)
        invariant
            lo <= hiv <= to,
            trail_ws(s) == (to - hiv) + trail_ws(s.take(hiv - from)),
            forall|i: int| hiv - from <= i < to - from ==> is_ws(s[i]),
        decreases hiv - lo,
    {
        proof {
            assert(s.take(hiv - from).last() == s[hiv - from - 1]);
            assert(s[hiv - from - 1] == b@[hiv - 1]);
            assert(s.take(hiv - from).drop_last() =~= s.take(hiv - from - 1));
        }
        hiv = hiv - 1;
    }
    proof {
        assert(!is_ws(s[lo - from]));
        if hiv > lo {
            assert(s.take(hiv - from).last() == s[hiv - from - 1]);
        } else {
            assert(hiv == lo);
            assert(false) by {
                // the character at lo is not whitespace, so the backward
                // scan cannot pass it
                assert(is_ws(s[lo - from]));
            }
        }
        assert(trail_ws(s.take(hiv - from)) == 0);
        assert(trail_ws(s) == to - hiv);
        assert(trim_spec(s) == s.subrange(lo - from, hiv - from));
    }
    (lo, hiv)
}

/// Length of the run of uppercase letters at the start of `b[from..to]`.
#[verifier::spinoff_prover]
#[verifier::loop_isolation(false)]
pub fn upper_run(b: &[u8], from: usize, to: usize) -> (r: usize)
    requires
        from <= to <= b@.len(),
    ensures
        r <= to - from,
        r == upper_len(b@.subrange(from as int, to as int)),
{
    let ghost s = b@.subrange(from as int, to as int);
    let mut i: usize = from;
    proof {
        assert(s.skip(0) =~= s);
        assert(s.take(0) =~= Seq::<u8>::empty());
    }
    while i < to && 0x41 <= b[i] && b[i] <= 0x5a
        invariant
            from <= i <= to,
            upper_len(s) == (i - from) + upper_len(s.skip(i - from)),
        decreases to - i,
    {
        proof {
            assert(s.skip(i - from)[0] == s[i - from]);
            assert(s[i - from] == b@[i as int]);
            assert(s.skip(i - from).drop_first() =~= s.skip(i - from + 1));
        }
        i = i + 1;
    }
    proof {
        if i < to {
            assert(s.skip(i - from)[0] == b@[i as int]);
        }
        assert(upper_len(s.skip(i - from)) == 0);
    }
    i - from
}

/// Length of the run of digits at the start of `b[from..to]`.
#[verifier::spinoff_prover]
#[verifier::loop_isolation(false)]
pub fn digit_run(b: &[u8], from: usize, to: usize) -> (r: usize)
    requires
        from <= to <= b@.len(),
    ensures
        r <= to - from,
        r == digit_len(b@.subrange(from as int, to as int)),
{
    let ghost s = b@.subrange(from as int, to as int);
    let mut i: usize = from;
    proof {
        assert(s.skip(0) =~= s);
        assert(s.take(0) =~= Seq::<u8>::empty());
    }
    while i < to && 0x30 <= b[i] && b[i] <= 0x39
        invariant
            from <= i <= to,
            digit_len(s) == (i - from) + digit_len(s.skip(i - from)),
        decreases to - i,
    {
        proof {
            assert(s.skip(i - from)[0] == s[i - from]);
            assert(s[i - from] == b@[i as int]);
            assert(s.skip(i - from).drop_first() =~= s.skip(i - from + 1));
        }
        i = i + 1;
    }
    proof {
        if i < to {
            assert(s.skip(i - from)[0] == b@[i as int]);
        }
        assert(digit_len(s.skip(i - from)) == 0);
    }
    i - from
}

/// Length of the run of letters of either case at the start of
/// `b[from..to]`.
#[verifier::spinoff_prover]
#[verifier::loop_isolation(false)]
pub fn alpha_run(b: &[u8], from: usize, to: usize) -> (r: usize)
    requires
        from <= to <= b@.len(),
    ensures
        r <= to - from,
        r == alpha_len(b@.subrange(from as int, to as int)),
{
    let ghost s = b@.subrange(from as int, to as int);
    let mut i: usize = from;
    proof {
        assert(s.skip(0) =~= s);
        assert(s.take(0) =~= Seq::<u8>::empty());
    }
    while i < to && ((0x41 <= b[i] && b[i] <= 0x5a) || (0x61 <= b[i] && b[i] <= 0x7a))
        invariant
            from <= i <= to,
            alpha_len(s) == (i - from) + alpha_len(s.skip(i - from)),
        decreases to - i,
    {
        proof {
            assert(s.skip(i - from)[0] == s[i - from]);
            assert(s[i - from] == b@[i as int]);
            assert(s.skip(i - from).drop_first() =~= s.skip(i - from + 1));
        }
        i = i + 1;
    }
    proof {
        if i < to {
            assert(s.skip(i - from)[0] == b@[i as int]);
        }
        assert(alpha_len(s.skip(i - from)) == 0);
    }
    i - from
}

/// The value of the digit run `b[from..to]`, saturating above
/// `0x8000_0000` so that comparisons against 32-bit bounds and sheet
/// dimensions stay faithful.
#[verifier::spinoff_prover]
#[verifier::loop_isolation(false)]
pub fn digits_cap(b: &[u8], from: usize, to: usize) -> (r: u64)
    requires
        from <= to <= b@.len(),
        all_digits(b@.subrange(from as int, to as int)),
    ensures
        digits_val(b@.subrange(from as int, to as int)) <= 0x8000_0000 ==> r == digits_val(
            b@.subrange(from as int, to as int),
        ),
        digits_val(b@.subrange(from as int, to as int)) > 0x8000_0000 ==> r > 0x8000_0000,
{
    let ghost s = b@.subrange(from as int, to as int);
    let mut acc: u64 = 0;
    let mut i: usize = from;
    proof {
        assert(s.take(0) =~= Seq::<u8>::empty());
    }
    while i < to
        invariant
            from <= i <= to,
            digits_val(s.take(i - from)) <= 0x8000_0000 ==> acc == digits_val(
                s.take(i - from),
            ),
            digits_val(s.take(i - from)) > 0x8000_0000 ==> 0x8000_0000 < acc
                <= 0x8000_0001,
            acc <= 0x8000_0001,
        decreases to - i,
    {
        proof {
            assert(s.take(i - from + 1).drop_last() =~= s.take(i - from));
            assert(s.take(i - from + 1).last() == s[i - from]);
            assert(s[i - from] == b@[i as int]);
            assert(is_digit(s[i - from]));
        }
        if acc > 0x8000_0000 {
            acc = 0x8000_0001;
        }
        acc = acc * 10 + ((b[i] - 0x30) as u64);
        if acc > 0x8000_0000 {
            acc = 0x8000_0001;
        }
        i = i + 1;
    }
    proof {
        assert(s.take(to - from) =~= s);
    }
    acc
}

/// The bijective base-26 value of the uppercase run `b[from..to]`,
/// saturating above `0x8000_0000`.
#[verifier::spinoff_prover]
#[verifier::loop_isolation(false)]
pub fn col_cap(b: &[u8], from: usize, to: usize) -> (r: u64)
    requires
        from <= to <= b@.len(),
        crate::labels::all_upper(b@.subrange(from as int, to as int)),
    ensures
        col_val(b@.subrange(from as int, to as int)) <= 0x8000_0000 ==> r == col_val(
            b@.subrange(from as int, to as int),
        ),
        col_val(b@.subrange(from as int, to as int)) > 0x8000_0000 ==> r > 0x8000_0000,
{
    let ghost s = b@.subrange(from as int, to as int);
    let mut acc: u64 = 0;
    let mut i: usize = from;
    proof {
        assert(s.take(0) =~= Seq::<u8>::empty());
    }
    while i < to
        invariant
            from <= i <= to,
            col_val(s.take(i - from)) <= 0x8000_0000 ==> acc == col_val(s.take(i - from)),
            col_val(s.take(i - from)) > 0x8000_0000 ==> 0x8000_0000 < acc <= 0x8000_0001,
            acc <= 0x8000_0001,
        decreases to - i,
    {
        proof {
            assert(s.take(i - from + 1).drop_last() =~= s.take(i - from));
            assert(s.take(i - from + 1).last() == s[i - from]);
            assert(s[i - from] == b@[i as int]);
            assert(is_upper(s[i - from]));
        }
        if acc > 0x8000_0000 {
            acc = 0x8000_0001;
        }
        acc = acc * 26 + ((b[i] - 0x40) as u64);
        if acc > 0x8000_0000 {
            acc = 0x8000_0001;
        }
        i = i + 1;
    }
    proof {
        assert(s.take(to - from) =~= s);
    }
    acc
}

/// Parses `b[from..to]` as a 32-bit integer, exactly as the integer shape
/// of the grammar demands.
#[verifier::spinoff_prover]
#[verifier::loop_isolation(false)]
pub fn parse_int(b: &[u8], from: usize, to: usize) -> (r: Option<i32>)
    requires
        from <= to <= b@.len(),
    ensures
        r == parse_i32_spec(b@.subrange(from as int, to as int)),
{
    let ghost s = b@.subrange(from as int, to as int);
    let neg: bool = from < to && b[from] == 0x2d;
    let has_sign: bool = from < to && (b[from] == 0x2b || b[from] == 0x2d);
    let start: usize = if has_sign {
        from + 1
    } else {
        from
    };
    let ghost body = if has_sign {
        s.skip(1)
    } else {
        s
    };
    proof {
        if has_sign {
            assert(body =~= b@.subrange(start as int, to as int));
        } else {
            assert(body =~= b@.subrange(start as int, to as int));
        }
    }
    if start == to {
        return None;
    }
    let dl: usize = digit_run(b, start, to);
    if start + dl < to {
        proof {
            let q = (start + dl - from) as int;
            assert(!is_digit(s[q])) by {
                lemma_digit_len_run(b@.subrange(start as int, to as int));
                assert(b@.subrange(start as int, to as int)[dl as int] == s[q]);
            }
            assert(!all_digits(body)) by {
                assert(body[(if has_sign { q - 1 } else { q })] == s[q]);
            }
        }
        return None;
    }
    proof {
        lemma_digit_len_run(b@.subrange(start as int, to as int));
        assert(all_digits(body)) by {
            assert(forall|i: int|
                0 <= i < body.len() ==> body[i] == b@.subrange(start as int, to as int)[i]);
        }
    }
    let mag: u64 = digits_cap(b, start, to);
    if neg {
        if mag > 0x8000_0000 {
            return None;
        }
        proof {
            assert(digits_val(body) <= 0x8000_0000);
        }
        return Some(((0i64 - (mag as i64)) as i32));
    }
    if mag > 0x7fff_ffff {
        proof {
            if digits_val(body) <= 0x8000_0000 {
                assert(digits_val(body) == mag > 0x7fff_ffff);
            }
        }
        return None;
    }
    Some((mag as i32))
}

/// The digit run of a sequence is digits while the rest of the sequence
/// starts with something else.
pub proof fn lemma_digit_len_run(s: Seq<u8>)
    ensures
        0 <= digit_len(s) <= s.len(),
        forall|i: int| 0 <= i < digit_len(s) ==> is_digit(s[i]),
        digit_len(s) < s.len() ==> !is_digit(s[digit_len(s)]),
    decreases s.len(),
{
    if s.len() > 0 && is_digit(s[0]) {
        lemma_digit_len_run(s.drop_first());
        assert(forall|i: int| 0 <= i < s.len() - 1 ==> s.drop_first()[i] == s[i + 1]);
        assert forall|i: int| 0 <= i < digit_len(s) implies is_digit(s[i]) by {
            if i > 0 {
                assert(is_digit(s.drop_first()[i - 1]));
            }
        }
        if digit_len(s) < s.len() {
            assert(!is_digit(s.drop_first()[digit_len(s) - 1]));
        }
    }
}

/// The upper-case run of a sequence, likewise.
pub proof fn lemma_upper_len_run(s: Seq<u8>)
    ensures
        0 <= upper_len(s) <= s.len(),
        forall|i: int| 0 <= i < upper_len(s) ==> is_upper(s[i]),
        upper_len(s) < s.len() ==> !is_upper(s[upper_len(s)]),
    decreases s.len(),
{
    if s.len() > 0 && is_upper(s[0]) {
        lemma_upper_len_run(s.drop_first());
        assert(forall|i: int| 0 <= i < s.len() - 1 ==> s.drop_first()[i] == s[i + 1]);
        assert forall|i: int| 0 <= i < upper_len(s) implies is_upper(s[i]) by {
            if i > 0 {
                assert(is_upper(s.drop_first()[i - 1]));
            }
        }
        if upper_len(s) < s.len() {
            assert(!is_upper(s.drop_first()[upper_len(s) - 1]));
        }
    }
}

/// The alphabetic run of a sequence, likewise.
pub proof fn lemma_alpha_len_run(s: Seq<u8>)
    ensures
        0 <= alpha_len(s) <= s.len(),
        forall|i: int| 0 <= i < alpha_len(s) ==> is_alpha(s[i]),
        alpha_len(s) < s.len() ==> !is_alpha(s[alpha_len(s)]),
    decreases s.len(),
{
    if s.len() > 0 && is_alpha(s[0]) {
        lemma_alpha_len_run(s.drop_first());
        assert(forall|i: int| 0 <= i < s.len() - 1 ==> s.drop_first()[i] == s[i + 1]);
        assert forall|i: int| 0 <= i < alpha_len(s) implies is_alpha(s[i]) by {
            if i > 0 {
                assert(is_alpha(s.drop_first()[i - 1]));
            }
        }
        if alpha_len(s) < s.len() {
            assert(!is_alpha(s.drop_first()[alpha_len(s) - 1]));
        }
    }
}

/// Saturating addition of sleep demands.
pub fn sat_add_u64(a: u64, d: u64) -> (r: u64)
    ensures
        r as int == sat_add64(a as int, d as int),
{
    match a.checked_add(d) {
        Some(v) => v,
        None => 0xffff_ffff_ffff_ffff,
    }
}

/// Reduces a 64-bit value into the 32-bit two's-complement range.
#[verifier::spinoff_prover]
pub fn wrap_to_i32(v: i64) -> (r: i32)
    ensures
        r as int == norm32(v as int),
{
    let shifted: i128 = (v as i128) + 0x8000_0000;
    let lifted: i128 = shifted + 0x8000_0000_0000_0000i128;
    let m: i128 = lifted % 0x1_0000_0000;
    proof {
        vstd::arithmetic::div_mod::lemma_mod_bound(lifted as int, 0x1_0000_0000);
        assert((lifted as int) % 0x1_0000_0000 == (shifted as int) % 0x1_0000_0000) by {
            vstd::arithmetic::div_mod::lemma_mod_multiples_vanish(
                0x8000_0000,
                shifted as int,
                0x1_0000_0000,
            );
        }
    }
    ((m - 0x8000_0000) as i32)
}

/// 32-bit division truncating toward zero; division of the smallest value
/// by minus one wraps.
#[verifier::spinoff_prover]
pub fn div_trunc(a: i32, bq: i32) -> (r: i32)
    requires
        bq != 0,
    ensures
        r as int == norm32(tdiv32(a as int, bq as int)),
{
    let aa: i64 = a as i64;
    let bb: i64 = bq as i64;
    let ma: u64 = if aa < 0 {
        ((0 - aa) as u64)
    } else {
        (aa as u64)
    };
    let mb: u64 = if bb < 0 {
        ((0 - bb) as u64)
    } else {
        (bb as u64)
    };
    let qu: u64 = ma / mb;
    let q: i64 = if (aa < 0) != (bb < 0) {
        0 - (qu as i64)
    } else {
        (qu as i64)
    };
    proof {
        assert(q == tdiv32(a as int, bq as int));
    }
    wrap_to_i32(q)
}


/// Wrapping a value already in the 32-bit range changes nothing.
pub proof fn lemma_norm32_id(v: int)
    requires
        -0x8000_0000 <= v < 0x8000_0000,
    ensures
        norm32(v) == v,
{
    vstd::arithmetic::div_mod::lemma_small_mod((v + 0x8000_0000) as nat, 0x1_0000_0000);
}

/// Two roundings of the same square-root ratio agree.
pub proof fn lemma_stdev_unique(vnum: int, cnt: int, r1: int, r2: int)
    requires
        cnt >= 1,
        rounded_sqrt_ratio(vnum, cnt, r1),
        rounded_sqrt_ratio(vnum, cnt, r2),
    ensures
        r1 == r2,
{
    if r1 < r2 {
        assert(cnt * (4 * r2 * r2 - 4 * r2 + 1) >= cnt * (4 * r1 * r1 + 4 * r1 + 1))
            by (nonlinear_arith)
            requires cnt >= 1, 0 <= r1, r1 + 1 <= r2;
        assert(false);
    }
    if r2 < r1 {
        assert(cnt * (4 * r1 * r1 - 4 * r1 + 1) >= cnt * (4 * r2 * r2 + 4 * r2 + 1))
            by (nonlinear_arith)
            requires cnt >= 1, 0 <= r2, r2 + 1 <= r1;
        assert(false);
    }
}

/// The integer nearest to the square root of `v / cnt`, found by binary
/// search on the characterizing inequalities.
#[verifier::spinoff_prover]
#[verifier::loop_isolation(false)]
pub fn isqrt_round(v: i128, cnt: i128) -> (r: u64)
    requires
        0 <= v < 0x400_0000_0000_0000_0000_0000,
        1 <= cnt <= 0x200_0000,
    ensures
        rounded_sqrt_ratio(v as int, cnt as int, r as int),
{
    let mut lo: u64 = 0;
    let mut hi: u64 = 0x4000_0000_0000;
    proof {
        let h: int = 0x4000_0000_0000;
        assert(4 * h * h == 0x4000_0000_0000_0000_0000_0000) by (nonlinear_arith)
            requires h == 0x4000_0000_0000;
        assert(4 * h * h - 4 * h + 1 > 4 * v);
        assert(cnt * (4 * h * h - 4 * h + 1) >= 4 * h * h - 4 * h + 1) by (nonlinear_arith)
            requires cnt >= 1, 4 * h * h - 4 * h + 1 > 0;
    }
    while hi - lo > 1
        invariant
            0 <= lo < hi <= 0x4000_0000_0000,
            lo == 0 || cnt * (4 * (lo as i128) * (lo as i128) - 4 * (lo as i128) + 1) <= 4
                * v,
            cnt * (4 * (hi as i128) * (hi as i128) - 4 * (hi as i128) + 1) > 4 * v,
        decreases hi - lo,
    {
        let mid: u64 = lo + (hi - lo) / 2;
        let m128: i128 = mid as i128;
        proof {
            assert(lo < mid < hi);
            assert((4 * m128) * m128 <= 0x1_0000_0000_0000_0000_0000_0000i128)
                by (nonlinear_arith)
                requires 0 <= m128 <= 0x4000_0000_0000;
            assert(0 <= m128 * m128) by (nonlinear_arith);
            assert(4 * m128 * m128 - 4 * m128 + 1 >= 1) by (nonlinear_arith)
                requires m128 >= 1;
        }
        let t1: i128 = 4 * m128 * m128 - 4 * m128 + 1;
        proof {
            assert(cnt * t1 <= 0x200_0000i128 * 0x1_0000_0000_0000_0000_0000_0000i128)
                by (nonlinear_arith)
                requires 1 <= cnt <= 0x200_0000, 1 <= t1 <= 0x1_0000_0000_0000_0000_0000_0000i128;
            assert(cnt * t1 >= 0) by (nonlinear_arith)
                requires cnt >= 1, t1 >= 1;
        }
        let c: i128 = cnt * t1;
        if c <= 4 * v {
            lo = mid;
        } else {
            hi = mid;
        }
    }
    proof {
        assert(hi == lo + 1);
        assert(4 * v < cnt * (4 * (lo as i128) * (lo as i128) + 4 * (lo as i128) + 1)) by {
            assert(4 * ((lo as i128) + 1) * ((lo as i128) + 1) - 4 * ((lo as i128) + 1) + 1
                == 4 * (lo as i128) * (lo as i128) + 4 * (lo as i128) + 1) by (nonlinear_arith);
        }
    }
    lo
}

/// Builds the row-major id list of a rectangle of cells.
#[verifier::spinoff_prover]
#[verifier::loop_isolation(false)]
#[verifier::rlimit(100)]
pub fn build_rect(s: &SheetData, r1: usize, c1: usize, r2: usize, c2: usize) -> (ids: Vec<usize>)
    requires
        sd_dims_ok(*s),
        r1 <= r2 < s.rows,
        c1 <= c2 < s.cols,
    ensures
        ids@ == rect_ids(s.cols as int, r1 as int, c1 as int, r2 as int, c2 as int),
        ids@.len() >= 1,
        forall|k: int| 0 <= k < ids@.len() ==> ((#[trigger] ids@[k]) as int) < s.cells@.len(),
        forall|k1: int, k2: int| 0 <= k1 < k2 < ids@.len() ==> ids@[k1] != ids@[k2],
        forall|k: int|
            0 <= k < ids@.len() ==> rect_contains(
                s.cols as int,
                r1 as int,
                c1 as int,
                r2 as int,
                c2 as int,
                #[trigger] ids@[k],
            ),
{
    let ghost cols = s.cols as int;
    proof {
        crate::sheet::lemma_dims_bound(s.rows as int, s.cols as int);
        crate::sheet::lemma_id_in_range(s.rows as int, s.cols as int, r2 as int, c2 as int);
        lemma_rect_ids_props(cols, r1 as int, c1 as int, r2 as int, c2 as int);
        assert(rect_ids(cols, r1 as int, c1 as int, r1 as int - 1, c2 as int)
            =~= Seq::<usize>::empty());
    }
    let mut ids: Vec<usize> = Vec::new();
    let mut rr: usize = r1;
    while rr <= r2
        invariant
            r1 <= rr <= r2 + 1,
            ids@ == rect_ids(cols, r1 as int, c1 as int, rr as int - 1, c2 as int),
        decreases r2 + 1 - rr,
    {
        let mut cc: usize = c1;
        let ghost row_start = ids@;
        while cc <= c2
            invariant
                r1 <= rr <= r2,
                c1 <= cc <= c2 + 1,
                row_start == rect_ids(cols, r1 as int, c1 as int, rr as int - 1, c2 as int),
                ids@ == row_start + row_ids(cols, rr as int, c1 as int, cc as int - 1),
            decreases c2 + 1 - cc,
        {
            let id: usize = s.get(rr, cc);
            ids.push(id);
            proof {
                assert(row_ids(cols, rr as int, c1 as int, cc as int) =~= row_ids(
                    cols,
                    rr as int,
                    c1 as int,
                    cc as int - 1,
                ).push(((rr * s.cols + cc) as usize)));
                assert(ids@ =~= row_start + row_ids(cols, rr as int, c1 as int, cc as int));
            }
            cc = cc + 1;
        }
        proof {
            assert(rect_ids(cols, r1 as int, c1 as int, rr as int, c2 as int) == rect_ids(
                cols,
                r1 as int,
                c1 as int,
                rr as int - 1,
                c2 as int,
            ) + row_ids(cols, rr as int, c1 as int, c2 as int));
        }
        rr = rr + 1;
    }
    proof {
        assert(ids@.len() >= 1) by {
            assert((1 <= (r2 - r1 + 1) * (c2 - c1 + 1))) by (nonlinear_arith)
                requires r1 <= r2, c1 <= c2;
        }
        assert(forall|k: int|
            0 <= k < ids@.len() ==> rect_contains(
                cols,
                r1 as int,
                c1 as int,
                r2 as int,
                c2 as int,
                #[trigger] ids@[k],
            ));
        assert forall|k: int|
            0 <= k < ids@.len() implies ((#[trigger] ids@[k]) as int) < s.cells@.len() by {
            assert((ids@[k] as int) == (r1 as int + k / (c2 as int - c1 as int + 1)) * cols
                + c1 + (k % (c2 as int - c1 as int + 1)));
            assert(rect_contains(cols, r1 as int, c1 as int, r2 as int, c2 as int, ids@[k]));
            assert((ids@[k] as int) / cols <= r2 as int);
            vstd::arithmetic::div_mod::lemma_fundamental_div_mod(ids@[k] as int, cols);
            assert((ids@[k] as int) == cols * ((ids@[k] as int) / cols) + (ids@[k] as int)
                % cols);
            assert(cols * ((ids@[k] as int) / cols) <= cols * (r2 as int)) by (nonlinear_arith)
                requires cols >= 1, (ids@[k] as int) / cols <= r2 as int;
            assert((ids@[k] as int) % cols < cols) by {
                vstd::arithmetic::div_mod::lemma_mod_bound(ids@[k] as int, cols);
            }
            assert(cols * (r2 as int) + cols <= cols * (s.rows as int)) by (nonlinear_arith)
                requires (r2 as int) + 1 <= s.rows as int, cols >= 1;
            assert((s.rows as int) * cols == cols * (s.rows as int)) by (nonlinear_arith);
        }
    }
    ids
}

/// Reads one aggregate of the cells `ids` off the sheet: the value of the
/// chosen function and whether any read cell is in the failed state.
#[verifier::spinoff_prover]
#[verifier::loop_isolation(false)]
#[verifier::rlimit(100)]
pub fn compute_agg(s: &SheetData, ids: &Vec<usize>, func: usize) -> (r: (i32, bool))
    requires
        sd_dims_ok(*s),
        func <= 4,
        1 <= ids@.len() <= 0x200_0000,
        forall|k: int| 0 <= k < ids@.len() ==> ((#[trigger] ids@[k]) as int) < s.cells@.len(),
    ensures
        r.0 as int == agg_value(s.cells@, func as int, ids@),
        r.1 == any_err(s.cells@, ids@),
{
    let ghost cells = s.cells@;
    let n: usize = ids.len();
    // the failed-state scan
    let mut taint: bool = false;
    let mut k: usize = 0;
    proof {
        assert(ids@.take(0) =~= Seq::<usize>::empty());
    }
    while k < n
        invariant
            0 <= k <= n == ids@.len(),
            taint == any_err(cells, ids@.take(k as int)),
        decreases n - k,
    {
        proof {
            assert(forall|q: int| 0 <= q < k ==> ids@.take(k as int)[q] == ids@[q]);
            assert(forall|q: int| 0 <= q <= k ==> ids@.take(k + 1)[q] == ids@[q]);
        }
        if s.cells[ids[k]].status == 1 {
            taint = true;
            proof {
                assert(ids@.take(k + 1)[k as int] == ids@[k as int]);
            }
        } else {
            proof {
                if any_err(cells, ids@.take(k + 1)) {
                    let q = choose|q: int|
                        0 <= q < k + 1 && cells[(#[trigger] ids@.take(k + 1)[q]) as int].status
                            == 1;
                    if q < k {
                        assert(cells[ids@.take(k as int)[q] as int].status == 1);
                    }
                }
                if any_err(cells, ids@.take(k as int)) {
                    let q = choose|q: int|
                        0 <= q < k && cells[(#[trigger] ids@.take(k as int)[q]) as int].status
                            == 1;
                    assert(cells[ids@.take(k + 1)[q] as int].status == 1);
                }
            }
        }
        k = k + 1;
    }
    proof {
        assert(ids@.take(n as int) =~= ids@);
    }
    // the running sum, used by SUM, AVG and STDEV
    let mut sum: i32 = 0;
    let mut i: usize = 0;
    while i < n
        invariant
            0 <= i <= n == ids@.len(),
            sum as int == fold_sum(cells, ids@.take(i as int)),
        decreases n - i,
    {
        proof {
            assert(ids@.take(i + 1).drop_last() =~= ids@.take(i as int));
            assert(ids@.take(i + 1).last() == ids@[i as int]);
        }
        sum = wrap_to_i32((sum as i64) + (s.cells[ids[i]].val as i64));
        i = i + 1;
    }
    proof {
        assert(ids@.take(n as int) =~= ids@);
    }
    if func == 0 {
        return (sum, taint);
    }
    if func == 1 {
        let v: i32 = div_trunc(sum, n as i32);
        proof {
            lemma_tdiv_small(sum as int, n as int);
            lemma_norm32_id(tdiv32(sum as int, n as int));
        }
        return (v, taint);
    }
    if func == 2 {
        let mut mx: i32 = -0x8000_0000;
        let mut i2: usize = 0;
        proof {
            assert(ids@.take(0) =~= Seq::<usize>::empty());
        }
        while i2 < n
            invariant
                0 <= i2 <= n == ids@.len(),
                mx as int == fold_max(cells, ids@.take(i2 as int)),
            decreases n - i2,
        {
            proof {
                assert(ids@.take(i2 + 1).drop_last() =~= ids@.take(i2 as int));
                assert(ids@.take(i2 + 1).last() == ids@[i2 as int]);
            }
            let v: i32 = s.cells[ids[i2]].val;
            if v >= mx {
                mx = v;
            }
            i2 = i2 + 1;
        }
        proof {
            assert(ids@.take(n as int) =~= ids@);
        }
        return (mx, taint);
    }
    if func == 3 {
        let mut mn: i32 = 0x7fff_ffff;
        let mut i3: usize = 0;
        proof {
            assert(ids@.take(0) =~= Seq::<usize>::empty());
        }
        while i3 < n
            invariant
                0 <= i3 <= n == ids@.len(),
                mn as int == fold_min(cells, ids@.take(i3 as int)),
            decreases n - i3,
        {
            proof {
                assert(ids@.take(i3 + 1).drop_last() =~= ids@.take(i3 as int));
                assert(ids@.take(i3 + 1).last() == ids@[i3 as int]);
            }
            let v: i32 = s.cells[ids[i3]].val;
            if v <= mn {
                mn = v;
            }
            i3 = i3 + 1;
        }
        proof {
            assert(ids@.take(n as int) =~= ids@);
        }
        return (mn, taint);
    }
    // STDEV
    let mean: i32 = div_trunc(sum, n as i32);
    proof {
        lemma_tdiv_small(sum as int, n as int);
        lemma_norm32_id(tdiv32(sum as int, n as int));
    }
    let mut acc: i128 = 0;
    let mut i4: usize = 0;
    proof {
        assert(ids@.take(0) =~= Seq::<usize>::empty());
    }
    while i4 < n
        invariant
            0 <= i4 <= n == ids@.len(),
            acc == fold_sqdev(cells, ids@.take(i4 as int), mean as int),
            0 <= acc <= (i4 as int) * 0x1_0000_0000_0000_0000,
        decreases n - i4,
    {
        proof {
            assert(ids@.take(i4 + 1).drop_last() =~= ids@.take(i4 as int));
            assert(ids@.take(i4 + 1).last() == ids@[i4 as int]);
        }
        let d64: i64 = (s.cells[ids[i4]].val as i64) - (mean as i64);
        proof {
            assert(0 <= (d64 as i128) * (d64 as i128) <= 0x1_0000_0000_0000_0000)
                by (nonlinear_arith)
                requires -0x1_0000_0000 < (d64 as i128) < 0x1_0000_0000;
            assert((i4 as int) * 0x1_0000_0000_0000_0000 + 0x1_0000_0000_0000_0000 == ((
            i4 as int) + 1) * 0x1_0000_0000_0000_0000) by (nonlinear_arith);
            assert((i4 as int) * 0x1_0000_0000_0000_0000 <= 0x200_0000
                * 0x1_0000_0000_0000_0000) by (nonlinear_arith)
                requires i4 <= 0x200_0000;
        }
        let sq: i128 = (d64 as i128) * (d64 as i128);
        acc = acc + sq;
        i4 = i4 + 1;
    }
    proof {
        assert(ids@.take(n as int) =~= ids@);
        assert((n as int) * 0x1_0000_0000_0000_0000 < 0x400_0000_0000_0000_0000_0000)
            by (nonlinear_arith)
            requires n <= 0x200_0000;
    }
    let root: u64 = isqrt_round(acc, n as i128);
    let ghost mean_g = tdiv32(fold_sum(cells, ids@), ids@.len() as int);
    proof {
        let vr = stdev_val(fold_sqdev(cells, ids@, mean_g), ids@.len() as int);
        assert(rounded_sqrt_ratio(fold_sqdev(cells, ids@, mean_g), ids@.len() as int, vr)) by {
            assert(rounded_sqrt_ratio(
                fold_sqdev(cells, ids@, mean_g),
                ids@.len() as int,
                root as int,
            ));
        }
        lemma_stdev_unique(
            fold_sqdev(cells, ids@, mean_g),
            ids@.len() as int,
            vr,
            root as int,
        );
    }
    if root > 0x7fff_ffff {
        return (0x7fff_ffff, taint);
    }
    ((root as i32), taint)
}

/// Truncating division keeps the 32-bit range when the divisor is a
/// positive count.
pub proof fn lemma_tdiv_small(a: int, b: int)
    requires
        -0x8000_0000 <= a < 0x8000_0000,
        b >= 1,
    ensures
        -0x8000_0000 <= tdiv32(a, b) < 0x8000_0000,
{
    if a >= 0 {
        vstd::arithmetic::div_mod::lemma_div_is_ordered_by_denominator(a, 1, b);
        vstd::arithmetic::div_mod::lemma_div_basics(a);
        vstd::arithmetic::div_mod::lemma_div_pos_is_pos(a, b);
    } else {
        vstd::arithmetic::div_mod::lemma_div_is_ordered_by_denominator(0 - a, 1, b);
        vstd::arithmetic::div_mod::lemma_div_basics(0 - a);
        vstd::arithmetic::div_mod::lemma_div_pos_is_pos(0 - a, b);
    }
}


/// The first position of `c` in `b[from..to]`, if it occurs there.
#[verifier::spinoff_prover]
#[verifier::loop_isolation(false)]
pub fn find_char(b: &[u8], from: usize, to: usize, c: u8) -> (r: Option<usize>)
    requires
        from <= to <= b@.len(),
    ensures
        ({
            let s = b@.subrange(from as int, to as int);
            match r {
                Some(p) => from <= p < to && p - from == first_pos(s, c) && b@[p as int] == c,
                None => first_pos(s, c) == s.len(),
            }
        }),
{
    let ghost s = b@.subrange(from as int, to as int);
    let mut i: usize = from;
    proof {
        assert(s.skip(0) =~= s);
    }
    while i < to
        invariant
            from <= i <= to,
            first_pos(s, c) == (i - from) + first_pos(s.skip(i - from), c),
            forall|q: int| 0 <= q < i - from ==> s[q] != c,
        decreases to - i,
    {
        proof {
            assert(s.skip(i - from)[0] == s[i - from]);
            assert(s[i - from] == b@[i as int]);
            assert(s.skip(i - from).drop_first() =~= s.skip(i - from + 1));
        }
        if b[i] == c {
            return Some(i);
        }
        i = i + 1;
    }
    proof {
        assert(first_pos(s.skip(i - from), c) == 0);
    }
    None
}

/// Whether `c` occurs in `b[from..to]`.
#[verifier::spinoff_prover]
#[verifier::loop_isolation(false)]
pub fn contains_char(b: &[u8], from: usize, to: usize, c: u8) -> (r: bool)
    requires
        from <= to <= b@.len(),
    ensures
        r <==> exists|i: int| from <= i < to && b@[i] == c,
{
    let mut i: usize = from;
    while i < to
        invariant
            from <= i <= to,
            forall|q: int| from <= q < i ==> b@[q] != c,
        decreases to - i,
    {
        if b[i] == c {
            return true;
        }
        i = i + 1;
    }
    false
}

/// Evaluates one expression, given as bytes, for the cell at `(row, col)`.
/// The recomputation pass calls this directly on stored expressions; user
/// input comes through `evaluate_expression`.
#[verifier::spinoff_prover]
#[verifier::loop_isolation(false)]
#[verifier::rlimit(100)]
pub fn evaluate_bytes(
    b: &[u8],
    rows: usize,
    cols: usize,
    sheet_data: &mut SheetData,
    result: &mut i32,
    row: &usize,
    col: &usize,
    call_value: i32,
) -> (code: i32)
    requires
        sd_wf(*old(sheet_data)),
        1 <= rows <= old(sheet_data).rows,
        1 <= cols <= old(sheet_data).cols,
        *row < old(sheet_data).rows,
        *col < old(sheet_data).cols,
        call_value == 0 || call_value == 1,
    ensures
        ({
            let out = eval_spec(
                *old(sheet_data),
                rows as int,
                cols as int,
                *row as int,
                *col as int,
                b@,
            );
            let w = ((*row * old(sheet_data).cols + *col) as usize);
            &&& code == out.0
            &&& (code == 0 || (code == -2 && taint_carries_value(b@)) ==> *final(result)
                == out.1)
            &&& (!(code == 0 || (code == -2 && taint_carries_value(b@))) ==> *final(result)
                == *old(result))
            &&& sd_wf(*final(sheet_data))
            &&& final(sheet_data).pending_sleep as int == sat_add64(
                old(sheet_data).pending_sleep as int,
                out.3,
            )
            &&& (call_value == 1 && (code == 0 || code == -2) ==> bound_post(
                *old(sheet_data),
                *final(sheet_data),
                w,
                out.2,
            ))
            &&& (!(call_value == 1 && (code == 0 || code == -2)) ==> unchanged_cells(
                *old(sheet_data),
                *final(sheet_data),
            ))
            &&& (call_value == 1 && (code == 0 || code == -2) ==> final(sheet_data).rows
                == old(sheet_data).rows && final(sheet_data).cols == old(sheet_data).cols)
            &&& (crate::graph::acyclic(old(sheet_data).cells@) ==> crate::graph::acyclic(
                final(sheet_data).cells@,
            ))
        }),
{
    let ghost pre = *sheet_data;
    let ghost e = b@;
    let ghost out = eval_spec(pre, rows as int, cols as int, *row as int, *col as int, e);
    let bn: usize = b.len();
    proof {
        assert(b@.subrange(0, bn as int) =~= e);
        crate::sheet::lemma_dims_bound(pre.rows as int, pre.cols as int);
        crate::sheet::lemma_id_in_range(pre.rows as int, pre.cols as int, *row as int, *col as int);
        assert((*row as int) * (pre.cols as int) + (*col as int) < pre.rows as int
            * pre.cols as int) by (nonlinear_arith)
            requires
                (*row as int) < pre.rows as int,
                (*col as int) < pre.cols as int,
                pre.cols as int >= 1;
    }
    let w: usize = *row * sheet_data.cols + *col;
    let ghost t = trim_spec(e);
    let (lo, hi): (usize, usize) = trim_slice(b, 0, bn);
    proof {
        assert(b@.subrange(lo as int, hi as int) =~= b@.subrange(0, bn as int).subrange(
            lo as int,
            hi as int,
        ));
        assert(b@.subrange(lo as int, hi as int) == t);
    }
    let mut code: i32 = -1;
    let mut value: i32 = 0;
    let mut dv: Vec<usize> = Vec::new();
    let mut demand: u64 = 0;
    let mut taintw: bool = false;
    // shape 1: an integer literal
    let lit: Option<i32> = parse_int(b, lo, hi);
    match lit {
        Some(v) => {
            code = 0;
            value = v;
            proof {
                assert(out == (0i32, v, Seq::<usize>::empty(), 0int));
                assert(!taint_carries_value(e));
            }
        },
        None => {
            let is_sleep: bool = sleep_check(b, lo, hi);
            if is_sleep {
                let r2 = eval_sleep_exec(b, lo, hi, rows, cols, w, sheet_data);
                code = r2.0;
                value = r2.1;
                dv = r2.2;
                demand = r2.3;
                taintw = true;
                proof {
                    assert(code == out.0 && (code == 0 || code == -2 ==> value == out.1)
                        && dv@ == out.2 && demand as int == out.3);
                    assert(taint_carries_value(e));
                }
            } else {
                let opf: Option<(usize, u8)> = op_find(b, lo, hi);
                match opf {
                    Some((pos, op)) => {
                        let r3 = eval_binop_exec(b, lo, hi, pos, op, rows, cols, w, sheet_data);
                        code = r3.0;
                        value = r3.1;
                        dv = r3.2;
                        proof {
                            assert(code == out.0 && (code == 0 ==> value == out.1) && dv@
                                == out.2 && out.3 == 0);
                            assert(!taint_carries_value(e));
                        }
                    },
                    None => {
                        let fl: usize = upper_run(b, lo, hi);
                        if fl >= 1 && lo + fl < hi && b[lo + fl] == 0x28 {
                            proof {
                                assert(t[fl as int] == b@[(lo + fl) as int]);
                                assert(agg_form(t));
                            }
                            let r4 = eval_agg_exec(b, lo, hi, fl, rows, cols, w, sheet_data);
                            code = r4.0;
                            value = r4.1;
                            dv = r4.2;
                            taintw = true;
                            proof {
                                assert(code == out.0 && (code == 0 || code == -2 ==> value
                                    == out.1) && dv@ == out.2 && out.3 == 0);
                                assert(taint_carries_value(e));
                            }
                        } else {
                            proof {
                                if fl >= 1 && fl < t.len() {
                                    assert(t[fl as int] == b@[(lo + fl) as int]);
                                }
                                assert(!agg_form(t));
                            }
                            let rl: usize = upper_run(b, lo, hi);
                            let dl: usize = if rl < hi - lo {
                                digit_run(b, lo + rl, hi)
                            } else {
                                0
                            };
                            if rl >= 1 && dl >= 1 {
                                proof {
                                    assert(t.skip(rl as int) =~= b@.subrange(
                                        (lo + rl) as int,
                                        hi as int,
                                    ));
                                    assert(ref_form(t));
                                }
                                let r5 = eval_ref_exec(b, lo, hi, rl, dl, rows, cols, w, sheet_data);
                                code = r5.0;
                                value = r5.1;
                                dv = r5.2;
                                taintw = true;
                                proof {
                                    assert(code == out.0 && (code == 0 || code == -2
                                        ==> value == out.1) && dv@ == out.2 && out.3 == 0);
                                    assert(taint_carries_value(e));
                                }
                            } else {
                                proof {
                                    if rl >= 1 {
                                        assert(t.skip(rl as int) =~= b@.subrange(
                                            (lo + rl) as int,
                                            hi as int,
                                        ));
                                    }
                                    assert(!ref_form(t));
                                    assert(out == (-1i32, 0i32, Seq::<usize>::empty(), 0int));
                                    assert(!taint_carries_value(e));
                                }
                                code = -1;
                            }
                        }
                    },
                }
            }
        },
    }
    // epilogue: bind, account the sleep demand, store the value
    proof {
        assert(code == out.0);
        assert(taintw == taint_carries_value(e));
        assert(code == 0 || (code == -2 && taintw) ==> value == out.1);
        assert((code == 0 || code == -2) ==> dv@ == out.2 && demand as int == out.3);
        assert(!(code == 0 || code == -2) ==> dv@.len() == 0 && out.2.len() == 0 && demand
            == 0 && out.3 == 0);
    }
    if call_value == 1 && (code == 0 || code == -2) {
        proof {
            assert(forall|k: int|
                0 <= k < dv@.len() ==> ((#[trigger] dv@[k]) as int) < pre.cells@.len()
                    && !reaches(pre.cells@, w, dv@[k]));
            assert forall|k: int| 0 <= k < dv@.len() implies (#[trigger] dv@[k]) != w by {
                crate::graph::lemma_reaches_self(pre.cells@, w);
            }
        }
        bind_deps(sheet_data, w, &dv);
        proof {
            if crate::graph::acyclic(pre.cells@) {
                assert forall|a: usize, bb: usize|
                    bb != w implies (#[trigger] edge(sheet_data.cells@, a, bb) <==> edge(
                    pre.cells@,
                    a,
                    bb,
                )) by {
                    if (a as int) < pre.cells@.len() && (bb as int) < pre.cells@.len() {
                        assert(sheet_data.cells@[a as int].dependencies@.contains(bb) <==> ((
                        pre.cells@[a as int].dependencies@.contains(bb) && bb != w) || (bb == w
                            && dv@.contains(a))));
                    }
                }
                assert forall|a: usize| #[trigger]
                    edge(sheet_data.cells@, a, w) implies !reaches(pre.cells@, w, a) by {
                    assert(sheet_data.cells@[a as int].dependencies@.contains(w));
                    assert(dv@.contains(a));
                    let k = choose|k: int| 0 <= k < dv@.len() && dv@[k] == a;
                }
                crate::graph::lemma_install_preserves_acyclic(
                    pre.cells@,
                    sheet_data.cells@,
                    w,
                );
            }
        }
    }
    let cur: u64 = sheet_data.pending_sleep;
    sheet_data.pending_sleep = sat_add_u64(cur, demand);
    proof {
        assert(sd_wf(*sheet_data));
    }
    if code == 0 || (code == -2 && taintw) {
        *result = value;
    }
    code
}


/// Whether `b[from..to]` has the shape of a `SLEEP` call.
#[verifier::spinoff_prover]
pub fn sleep_check(b: &[u8], from: usize, to: usize) -> (r: bool)
    requires
        from <= to <= b@.len(),
    ensures
        r == sleep_form(b@.subrange(from as int, to as int)),
{
    let ghost t = b@.subrange(from as int, to as int);
    if to - from < 8 {
        return false;
    }
    if !(b[from] == 0x53 && b[from + 1] == 0x4c && b[from + 2] == 0x45 && b[from + 3] == 0x45
        && b[from + 4] == 0x50 && b[from + 5] == 0x28) {
        proof {
            assert(t.take(6)[0] == b@[from as int]);
            assert(t.take(6)[1] == b@[from + 1]);
            assert(t.take(6)[2] == b@[from + 2]);
            assert(t.take(6)[3] == b@[from + 3]);
            assert(t.take(6)[4] == b@[from + 4]);
            assert(t.take(6)[5] == b@[from + 5]);
            assert(!(t.take(6) =~= seq![0x53u8, 0x4cu8, 0x45u8, 0x45u8, 0x50u8, 0x28u8]));
        }
        return false;
    }
    proof {
        assert(t.take(6) =~= seq![0x53u8, 0x4cu8, 0x45u8, 0x45u8, 0x50u8, 0x28u8]);
    }
    if b[to - 1] != 0x29 {
        return false;
    }
    if contains_char(b, from + 6, to - 1, 0x29) {
        proof {
            let i = choose|i: int| from + 6 <= i < to - 1 && b@[i] == 0x29;
            assert(t[i - from] == 0x29);
        }
        return false;
    }
    proof {
        assert(forall|i: int| 6 <= i < t.len() - 1 ==> t[i] == b@[from + i]);
    }
    let ghost m = t.subrange(6, t.len() - 1);
    proof {
        assert(m =~= b@.subrange(from + 6, to - 1));
    }
    // the body must open with a number or a reference
    let first: u8 = b[from + 6];
    if 0x30 <= first && first <= 0x39 {
        proof {
            assert(m[0] == first);
        }
        return true;
    }
    if first == 0x2d && to - 1 > from + 7 && 0x30 <= b[from + 7] && b[from + 7] <= 0x39 {
        proof {
            assert(m[0] == first && m[1] == b@[from + 7]);
        }
        return true;
    }
    let ul: usize = upper_run(b, from + 6, to - 1);
    if ul >= 1 {
        let dl: usize = digit_run(b, from + 6 + ul, to - 1);
        proof {
            assert(m.skip(ul as int) =~= b@.subrange(from + 6 + ul, to - 1));
        }
        if dl >= 1 {
            return true;
        }
    }
    proof {
        assert(m[0] == first);
        if m.len() >= 2 {
            assert(m[1] == b@[from + 7]);
        }
        assert(upper_len(m) == ul);
        if ul >= 1 {
            assert(m.skip(ul as int) =~= b@.subrange(from + 6 + ul, to - 1));
        }
        assert(!sleep_body_form(m));
    }
    false
}

/// Decides which operator an expression splits on and where.
#[verifier::spinoff_prover]
pub fn op_find(b: &[u8], from: usize, to: usize) -> (r: Option<(usize, u8)>)
    requires
        from <= to <= b@.len(),
    ensures
        ({
            let t = b@.subrange(from as int, to as int);
            match r {
                Some(po) => po.1 == op_choice(t) && po.1 != 0 && from <= po.0 < to && po.0
                    - from == first_pos(t, po.1),
                None => op_choice(t) == 0,
            }
        }),
{
    let p1: Option<usize> = find_char(b, from, to, 0x2b);
    match p1 {
        Some(p) => {
            return Some((p, 0x2b));
        },
        None => {},
    }
    let p2: Option<usize> = find_char(b, from, to, 0x2d);
    match p2 {
        Some(p) => {
            return Some((p, 0x2d));
        },
        None => {},
    }
    let p3: Option<usize> = find_char(b, from, to, 0x2a);
    match p3 {
        Some(p) => {
            return Some((p, 0x2a));
        },
        None => {},
    }
    let p4: Option<usize> = find_char(b, from, to, 0x2f);
    match p4 {
        Some(p) => {
            return Some((p, 0x2f));
        },
        None => {},
    }
    None
}

/// Resolves one operand of a binary expression: a literal, or a valid
/// in-range reference together with its cell id.
#[verifier::spinoff_prover]
#[verifier::rlimit(100)]
pub fn parse_operand(
    b: &[u8],
    from: usize,
    to: usize,
    rows: usize,
    cols: usize,
    s: &SheetData,
) -> (r: Option<(i32, Option<usize>)>)
    requires
        from <= to <= b@.len(),
        sd_dims_ok(*s),
        1 <= rows <= s.rows,
        1 <= cols <= s.cols,
    ensures
        r == operand_spec(*s, rows as int, cols as int, b@.subrange(from as int, to as int)),
        ({
            match r {
                Some(vr) => match vr.1 {
                    Some(id) => (id as int) < s.cells@.len(),
                    None => true,
                },
                None => true,
            }
        }),
{
    let ghost t = b@.subrange(from as int, to as int);
    let al: usize = alpha_run(b, from, to);
    let dl: usize = if al < to - from {
        digit_run(b, from + al, to)
    } else {
        0
    };
    proof {
        if al < to - from {
            assert(t.skip(al as int) =~= b@.subrange(from + al, to as int));
        } else {
            assert(al == to - from);
            assert(t.skip(al as int) =~= Seq::<u8>::empty());
        }
    }
    if al >= 1 && dl >= 1 && from + al + dl == to {
        let ul: usize = upper_run(b, from, to);
        if ul != al {
            return None;
        }
        if b[from + al] == 0x30 {
            proof {
                assert(t.skip(al as int)[0] == b@[from + al]);
            }
            return None;
        }
        proof {
            assert(t.skip(al as int)[0] == b@[from + al]);
            lemma_digit_len_run(b@.subrange(from + al, to as int));
            assert(all_digits(b@.subrange(from + al, to as int)));
            lemma_upper_len_run(t);
            assert(crate::labels::all_upper(b@.subrange(from as int, (from + al) as int))) by {
                assert(forall|i: int|
                    0 <= i < al ==> b@.subrange(from as int, (from + al) as int)[i] == t[i]);
            }
            crate::labels::lemma_digits_val_pos(b@.subrange(from + al, to as int));
            crate::labels::lemma_col_val_pos(b@.subrange(from as int, (from + al) as int));
            assert(b@.subrange(from + al, to as int) =~= t.skip(al as int));
            assert(b@.subrange(from as int, (from + al) as int) =~= t.take(al as int));
        }
        let rowv: u64 = digits_cap(b, from + al, to);
        if rowv - 1 >= rows as u64 {
            return None;
        }
        let colv: u64 = col_cap(b, from, from + al);
        if colv - 1 >= cols as u64 {
            return None;
        }
        let rr: usize = (rowv - 1) as usize;
        let cc: usize = (colv - 1) as usize;
        proof {
            crate::sheet::lemma_dims_bound(s.rows as int, s.cols as int);
            crate::sheet::lemma_id_in_range(s.rows as int, s.cols as int, rr as int, cc as int);
        }
        let id: usize = rr * s.cols + cc;
        return Some((s.cells[id].val, Some(id)));
    }
    let lit: Option<i32> = parse_int(b, from, to);
    match lit {
        Some(v) => Some((v, None)),
        None => None,
    }
}

/// Evaluates a `SLEEP` expression.
#[verifier::spinoff_prover]
#[verifier::rlimit(100)]
pub fn eval_sleep_exec(
    b: &[u8],
    from: usize,
    to: usize,
    rows: usize,
    cols: usize,
    w: usize,
    s: &SheetData,
) -> (r: (i32, i32, Vec<usize>, u64))
    requires
        from <= to <= b@.len(),
        sleep_form(b@.subrange(from as int, to as int)),
        sd_wf(*s),
        1 <= rows <= s.rows,
        1 <= cols <= s.cols,
        (w as int) < s.cells@.len(),
    ensures
        ({
            let o = eval_sleep_spec(
                *s,
                rows as int,
                cols as int,
                w,
                b@.subrange(from as int, to as int),
            );
            &&& r.0 == o.0
            &&& (r.0 == 0 || r.0 == -2 ==> r.1 == o.1)
            &&& r.2@ == o.2
            &&& r.3 as int == o.3
            &&& forall|k: int|
                0 <= k < r.2@.len() ==> ((#[trigger] r.2@[k]) as int) < s.cells@.len()
                    && !reaches(s.cells@, w, r.2@[k])
            &&& forall|k1: int, k2: int| 0 <= k1 < k2 < r.2@.len() ==> r.2@[k1] != r.2@[k2]
        }),
{
    let ghost t = b@.subrange(from as int, to as int);
    let ghost m = t.subrange(6, t.len() - 1);
    let mfrom: usize = from + 6;
    let mto: usize = to - 1;
    proof {
        assert(m =~= b@.subrange(mfrom as int, mto as int));
    }
    let first: u8 = b[mfrom];
    proof {
        assert(m[0] == first);
        if m.len() >= 2 {
            assert(m[1] == b@[mfrom + 1]);
        }
    }
    if (0x30 <= first && first <= 0x39) || (first == 0x2d && mto > mfrom + 1 && 0x30 <= b[mfrom
        + 1] && b[mfrom + 1] <= 0x39) {
        // a literal count of seconds
        let dl: usize = if first == 0x2d {
            let dr: usize = digit_run(b, mfrom + 1, mto);
            proof {
                assert(m.skip(1) =~= b@.subrange(mfrom + 1, mto as int));
            }
            1 + dr
        } else {
            digit_run(b, mfrom, mto)
        };
        proof {
            assert(digit_len(m) == digit_len(b@.subrange(mfrom as int, mto as int)));
        }
        if mfrom + dl < mto {
            return (-1, 0, Vec::new(), 0);
        }
        let v: i32 = match parse_int(b, mfrom, mto) {
            Some(v) => v,
            None => -1,
        };
        let demand: u64 = if v >= 0 {
            (v as u64)
        } else {
            0
        };
        return (0, v, Vec::new(), demand);
    }
    // a reference to the cell whose value is the count
    let ul: usize = upper_run(b, mfrom, mto);
    proof {
        assert(upper_len(m) == ul);
        if ul < mto - mfrom {
            assert(m.skip(ul as int) =~= b@.subrange(mfrom + ul, mto as int));
        } else {
            assert(m.skip(ul as int) =~= Seq::<u8>::empty());
        }
        assert(ul >= 1);
    }
    let dl: usize = digit_run(b, mfrom + ul, mto);
    if mfrom + ul + dl < mto {
        return (-1, 0, Vec::new(), 0);
    }
    if b[mfrom + ul] == 0x30 {
        proof {
            assert(m.skip(ul as int)[0] == b@[mfrom + ul]);
        }
        return (-1, 0, Vec::new(), 0);
    }
    proof {
        assert(m.skip(ul as int)[0] == b@[mfrom + ul]);
        lemma_digit_len_run(b@.subrange(mfrom + ul, mto as int));
        assert(all_digits(b@.subrange(mfrom + ul, mto as int)));
        lemma_upper_len_run(m);
        assert(crate::labels::all_upper(b@.subrange(mfrom as int, (mfrom + ul) as int))) by {
            assert(forall|i: int|
                0 <= i < ul ==> b@.subrange(mfrom as int, (mfrom + ul) as int)[i] == m[i]);
        }
        crate::labels::lemma_digits_val_pos(b@.subrange(mfrom + ul, mto as int));
        crate::labels::lemma_col_val_pos(b@.subrange(mfrom as int, (mfrom + ul) as int));
        assert(b@.subrange(mfrom + ul, mto as int) =~= m.skip(ul as int));
        assert(b@.subrange(mfrom as int, (mfrom + ul) as int) =~= m.take(ul as int));
    }
    let rowv: u64 = digits_cap(b, mfrom + ul, mto);
    if rowv - 1 >= rows as u64 {
        return (-1, 0, Vec::new(), 0);
    }
    let colv: u64 = col_cap(b, mfrom, mfrom + ul);
    if colv - 1 >= cols as u64 {
        return (-1, 0, Vec::new(), 0);
    }
    let rr: usize = (rowv - 1) as usize;
    let cc: usize = (colv - 1) as usize;
    proof {
        crate::sheet::lemma_dims_bound(s.rows as int, s.cols as int);
        crate::sheet::lemma_id_in_range(s.rows as int, s.cols as int, rr as int, cc as int);
    }
    let id: usize = rr * s.cols + cc;
    if check_loop(w, id, s) {
        return (-4, 0, Vec::new(), 0);
    }
    let mut d: Vec<usize> = Vec::new();
    d.push(id);
    let v: i32 = s.cells[id].val;
    if s.cells[id].status == 1 {
        return (-2, v, d, 0);
    }
    let demand: u64 = if v >= 0 {
        (v as u64)
    } else {
        0
    };
    (0, v, d, demand)
}

/// Evaluates a binary expression split at the chosen operator.
#[verifier::spinoff_prover]
#[verifier::rlimit(100)]
pub fn eval_binop_exec(
    b: &[u8],
    from: usize,
    to: usize,
    pos: usize,
    op: u8,
    rows: usize,
    cols: usize,
    w: usize,
    s: &SheetData,
) -> (r: (i32, i32, Vec<usize>))
    requires
        from <= pos < to <= b@.len(),
        op == op_choice(b@.subrange(from as int, to as int)),
        op != 0,
        pos - from == first_pos(b@.subrange(from as int, to as int), op),
        sd_wf(*s),
        1 <= rows <= s.rows,
        1 <= cols <= s.cols,
        (w as int) < s.cells@.len(),
    ensures
        ({
            let o = eval_binop_spec(
                *s,
                rows as int,
                cols as int,
                w,
                b@.subrange(from as int, to as int),
            );
            &&& r.0 == o.0
            &&& (r.0 == 0 ==> r.1 == o.1)
            &&& r.2@ == o.2
            &&& o.3 == 0
            &&& forall|k: int|
                0 <= k < r.2@.len() ==> ((#[trigger] r.2@[k]) as int) < s.cells@.len()
                    && !reaches(s.cells@, w, r.2@[k])
            &&& forall|k1: int, k2: int| 0 <= k1 < k2 < r.2@.len() ==> r.2@[k1] != r.2@[k2]
        }),
{
    let ghost t = b@.subrange(from as int, to as int);
    let (l1, h1): (usize, usize) = trim_slice(b, from, pos);
    let (l2, h2): (usize, usize) = trim_slice(b, pos + 1, to);
    proof {
        assert(b@.subrange(from as int, pos as int) =~= t.take(pos - from));
        assert(b@.subrange(pos + 1, to as int) =~= t.skip(pos - from + 1));
        assert(b@.subrange(l1 as int, h1 as int) =~= b@.subrange(from as int, pos as int)
            .subrange(l1 - from, h1 - from));
        assert(b@.subrange(l2 as int, h2 as int) =~= b@.subrange(pos + 1, to as int).subrange(
            l2 - (pos + 1),
            h2 - (pos + 1),
        ));
    }
    let o1: Option<(i32, Option<usize>)> = parse_operand(b, l1, h1, rows, cols, s);
    let o2: Option<(i32, Option<usize>)> = parse_operand(b, l2, h2, rows, cols, s);
    let (v1, r1): (i32, Option<usize>) = match o1 {
        Some(p) => p,
        None => {
            return (-1, 0, Vec::new());
        },
    };
    let (v2, r2): (i32, Option<usize>) = match o2 {
        Some(p) => p,
        None => {
            return (-1, 0, Vec::new());
        },
    };
    match r1 {
        Some(id1) => {
            if check_loop(w, id1, s) {
                return (-4, 0, Vec::new());
            }
        },
        None => {},
    }
    match r2 {
        Some(id2) => {
            if check_loop(w, id2, s) {
                return (-4, 0, Vec::new());
            }
        },
        None => {},
    }
    let mut d: Vec<usize> = Vec::new();
    match r1 {
        Some(id1) => {
            d.push(id1);
        },
        None => {},
    }
    match r2 {
        Some(id2) => {
            if r1 != Some(id2) {
                d.push(id2);
            }
        },
        None => {},
    }
    proof {
        assert(d@ == binop_deps(r1, r2));
    }
    let t1: bool = match r1 {
        Some(id1) => s.cells[id1].status == 1,
        None => false,
    };
    let t2: bool = match r2 {
        Some(id2) => s.cells[id2].status == 1,
        None => false,
    };
    if t1 || t2 {
        return (-2, 0, d);
    }
    if op == 0x2f && v2 == 0 {
        return (-2, 0, d);
    }
    let v: i32 = if op == 0x2b {
        wrap_to_i32((v1 as i64) + (v2 as i64))
    } else if op == 0x2d {
        wrap_to_i32((v1 as i64) - (v2 as i64))
    } else if op == 0x2a {
        proof {
            assert(-0x4000_0000_0000_0000 <= (v1 as i64) * (v2 as i64)
                <= 0x4000_0000_0000_0000) by (nonlinear_arith)
                requires
                    -0x8000_0000 <= v1 as i64 <= 0x7fff_ffff,
                    -0x8000_0000 <= v2 as i64 <= 0x7fff_ffff;
        }
        wrap_to_i32((v1 as i64) * (v2 as i64))
    } else {
        div_trunc(v1, v2)
    };
    (0, v, d)
}

/// Evaluates a plain cell reference.
#[verifier::spinoff_prover]
#[verifier::rlimit(100)]
pub fn eval_ref_exec(
    b: &[u8],
    from: usize,
    to: usize,
    rl: usize,
    dl: usize,
    rows: usize,
    cols: usize,
    w: usize,
    s: &SheetData,
) -> (r: (i32, i32, Vec<usize>))
    requires
        from <= to <= b@.len(),
        rl == upper_len(b@.subrange(from as int, to as int)),
        dl == digit_len(b@.subrange(from as int, to as int).skip(rl as int)),
        rl >= 1,
        dl >= 1,
        sd_wf(*s),
        1 <= rows <= s.rows,
        1 <= cols <= s.cols,
        (w as int) < s.cells@.len(),
    ensures
        ({
            let o = eval_ref_spec(
                *s,
                rows as int,
                cols as int,
                w,
                b@.subrange(from as int, to as int),
            );
            &&& r.0 == o.0
            &&& (r.0 == 0 || r.0 == -2 ==> r.1 == o.1)
            &&& r.2@ == o.2
            &&& o.3 == 0
            &&& forall|k: int|
                0 <= k < r.2@.len() ==> ((#[trigger] r.2@[k]) as int) < s.cells@.len()
                    && !reaches(s.cells@, w, r.2@[k])
            &&& forall|k1: int, k2: int| 0 <= k1 < k2 < r.2@.len() ==> r.2@[k1] != r.2@[k2]
        }),
{
    let ghost t = b@.subrange(from as int, to as int);
    proof {
        lemma_upper_len_run(t);
        assert(t.skip(rl as int) =~= b@.subrange(from + rl, to as int));
        lemma_digit_len_run(t.skip(rl as int));
        assert(rl + dl <= to - from);
    }
    if from + rl + dl < to {
        return (-1, 0, Vec::new());
    }
    if b[from + rl] == 0x30 {
        proof {
            assert(t.skip(rl as int)[0] == b@[from + rl]);
        }
        return (-1, 0, Vec::new());
    }
    proof {
        assert(t.skip(rl as int)[0] == b@[from + rl]);
        lemma_digit_len_run(b@.subrange(from + rl, to as int));
        assert(all_digits(b@.subrange(from + rl, to as int)));
        assert(crate::labels::all_upper(b@.subrange(from as int, (from + rl) as int))) by {
            assert(forall|i: int|
                0 <= i < rl ==> b@.subrange(from as int, (from + rl) as int)[i] == t[i]);
        }
        crate::labels::lemma_digits_val_pos(b@.subrange(from + rl, to as int));
        crate::labels::lemma_col_val_pos(b@.subrange(from as int, (from + rl) as int));
        assert(b@.subrange(from as int, (from + rl) as int) =~= t.take(rl as int));
    }
    let rowv: u64 = digits_cap(b, from + rl, to);
    if rowv - 1 >= rows as u64 {
        return (-1, 0, Vec::new());
    }
    let colv: u64 = col_cap(b, from, from + rl);
    if colv - 1 >= cols as u64 {
        return (-1, 0, Vec::new());
    }
    let rr: usize = (rowv - 1) as usize;
    let cc: usize = (colv - 1) as usize;
    proof {
        crate::sheet::lemma_dims_bound(s.rows as int, s.cols as int);
        crate::sheet::lemma_id_in_range(s.rows as int, s.cols as int, rr as int, cc as int);
    }
    let id: usize = rr * s.cols + cc;
    if check_loop(w, id, s) {
        return (-4, 0, Vec::new());
    }
    let mut d: Vec<usize> = Vec::new();
    d.push(id);
    if s.cells[id].status == 1 {
        return (-2, s.cells[id].val, d);
    }
    (0, s.cells[id].val, d)
}

/// Evaluates a range aggregate.
#[verifier::spinoff_prover]
#[verifier::rlimit(100)]
pub fn eval_agg_exec(
    b: &[u8],
    from: usize,
    to: usize,
    fl: usize,
    rows: usize,
    cols: usize,
    w: usize,
    s: &SheetData,
) -> (r: (i32, i32, Vec<usize>))
    requires
        from <= to <= b@.len(),
        fl == upper_len(b@.subrange(from as int, to as int)),
        1 <= fl,
        from + fl < to,
        b@[(from + fl) as int] == 0x28,
        sd_wf(*s),
        1 <= rows <= s.rows,
        1 <= cols <= s.cols,
        (w as int) < s.cells@.len(),
    ensures
        ({
            let o = eval_agg_spec(
                *s,
                rows as int,
                cols as int,
                w,
                b@.subrange(from as int, to as int),
            );
            &&& r.0 == o.0
            &&& (r.0 == 0 || r.0 == -2 ==> r.1 == o.1)
            &&& r.2@ == o.2
            &&& o.3 == 0
            &&& forall|k: int|
                0 <= k < r.2@.len() ==> ((#[trigger] r.2@[k]) as int) < s.cells@.len()
                    && !reaches(s.cells@, w, r.2@[k])
            &&& forall|k1: int, k2: int| 0 <= k1 < k2 < r.2@.len() ==> r.2@[k1] != r.2@[k2]
        }),
{
    let ghost t = b@.subrange(from as int, to as int);
    let ghost fname = t.take(fl as int);
    proof {
        assert(forall|i: int| 0 <= i < fl ==> fname[i] == b@[from + i]);
    }
    // which aggregate the letters name
    let func: usize = if fl == 3 {
        if b[from] == 0x53 && b[from + 1] == 0x55 && b[from + 2] == 0x4d {
            0
        } else if b[from] == 0x41 && b[from + 1] == 0x56 && b[from + 2] == 0x47 {
            1
        } else if b[from] == 0x4d && b[from + 1] == 0x41 && b[from + 2] == 0x58 {
            2
        } else if b[from] == 0x4d && b[from + 1] == 0x49 && b[from + 2] == 0x4e {
            3
        } else {
            9
        }
    } else if fl == 5 {
        if b[from] == 0x53 && b[from + 1] == 0x54 && b[from + 2] == 0x44 && b[from + 3] == 0x45
            && b[from + 4] == 0x56 {
            4
        } else {
            9
        }
    } else {
        9
    };
    proof {
        if func == 0 {
            assert(fname =~= seq![0x53u8, 0x55u8, 0x4du8]);
        } else if func == 1 {
            assert(fname =~= seq![0x41u8, 0x56u8, 0x47u8]);
        } else if func == 2 {
            assert(fname =~= seq![0x4du8, 0x41u8, 0x58u8]);
        } else if func == 3 {
            assert(fname =~= seq![0x4du8, 0x49u8, 0x4eu8]);
        } else if func == 4 {
            assert(fname =~= seq![0x53u8, 0x54u8, 0x44u8, 0x45u8, 0x56u8]);
        } else {
            assert(agg_func_of(fname) == -1) by {
                if fname =~= seq![0x53u8, 0x55u8, 0x4du8] {
                    assert(fname[0] == 0x53 && fname[1] == 0x55 && fname[2] == 0x4d);
                    assert(false);
                }
                if fname =~= seq![0x41u8, 0x56u8, 0x47u8] {
                    assert(fname[0] == 0x41 && fname[1] == 0x56 && fname[2] == 0x47);
                    assert(false);
                }
                if fname =~= seq![0x4du8, 0x41u8, 0x58u8] {
                    assert(fname[0] == 0x4d && fname[1] == 0x41 && fname[2] == 0x58);
                    assert(false);
                }
                if fname =~= seq![0x4du8, 0x49u8, 0x4eu8] {
                    assert(fname[0] == 0x4d && fname[1] == 0x49 && fname[2] == 0x4e);
                    assert(false);
                }
                if fname =~= seq![0x53u8, 0x54u8, 0x44u8, 0x45u8, 0x56u8] {
                    assert(fname[0] == 0x53 && fname[1] == 0x54 && fname[2] == 0x44);
                    assert(fname[3] == 0x45 && fname[4] == 0x56);
                    assert(false);
                }
            }
        }
    }
    let rest_from: usize = from + fl + 1;
    let ghost rest = t.skip(fl + 1);
    proof {
        assert(rest =~= b@.subrange(rest_from as int, to as int));
    }
    let a1: usize = upper_run(b, rest_from, to);
    let d1: usize = if a1 < to - rest_from {
        digit_run(b, rest_from + a1, to)
    } else {
        0
    };
    proof {
        if a1 < to - rest_from {
            assert(rest.skip(a1 as int) =~= b@.subrange(rest_from + a1, to as int));
        } else {
            assert(rest.skip(a1 as int) =~= Seq::<u8>::empty());
        }
    }
    let p1: usize = rest_from + a1 + d1;
    if func == 9 || a1 < 1 || a1 > 3 || d1 < 1 || p1 >= to || b[p1] != 0x3a {
        proof {
            if p1 < to {
                assert(rest.skip(a1 + d1)[0] == b@[p1 as int]);
            }
            if a1 + d1 < rest.len() {
                assert(rest.skip(a1 + d1)[0] == b@[p1 as int]);
            }
        }
        return (-1, 0, Vec::new());
    }
    let rest2_from: usize = p1 + 1;
    let ghost rest2 = rest.skip(a1 + d1).skip(1);
    proof {
        assert(rest.skip(a1 + d1) =~= b@.subrange(p1 as int, to as int));
        assert(rest2 =~= b@.subrange(rest2_from as int, to as int));
        assert(rest.skip(a1 + d1)[0] == b@[p1 as int]);
    }
    let a2: usize = upper_run(b, rest2_from, to);
    let d2: usize = if a2 < to - rest2_from {
        digit_run(b, rest2_from + a2, to)
    } else {
        0
    };
    proof {
        if a2 < to - rest2_from {
            assert(rest2.skip(a2 as int) =~= b@.subrange(rest2_from + a2, to as int));
        } else {
            assert(rest2.skip(a2 as int) =~= Seq::<u8>::empty());
        }
    }
    let p2: usize = rest2_from + a2 + d2;
    proof {
        lemma_digit_len_run(rest2.skip(a2 as int));
        assert(a2 + d2 <= rest2.len());
    }
    if a2 < 1 || a2 > 3 || d2 < 1 || p2 >= to || p2 + 1 != to || b[p2] != 0x29 {
        proof {
            if p2 < to {
                assert(rest2.skip(a2 + d2)[0] == b@[p2 as int]);
            }
        }
        return (-1, 0, Vec::new());
    }
    proof {
        assert(rest2.skip(a2 + d2) =~= b@.subrange(p2 as int, to as int));
        assert(rest2.skip(a2 + d2)[0] == b@[p2 as int]);
        assert(rest2.skip(a2 + d2).len() == 1);
    }
    // the two corners
    if b[rest_from + a1] == 0x30 || b[rest2_from + a2] == 0x30 {
        proof {
            assert(rest.skip(a1 as int)[0] == b@[(rest_from + a1) as int]);
            assert(rest2.skip(a2 as int)[0] == b@[(rest2_from + a2) as int]);
            assert(rest.skip(a1 as int).take(d1 as int)[0] == rest.skip(a1 as int)[0]);
            assert(rest2.skip(a2 as int).take(d2 as int)[0] == rest2.skip(a2 as int)[0]);
        }
        return (-1, 0, Vec::new());
    }
    proof {
        assert(rest.skip(a1 as int)[0] == b@[(rest_from + a1) as int]);
        assert(rest2.skip(a2 as int)[0] == b@[(rest2_from + a2) as int]);
        assert(rest.skip(a1 as int).take(d1 as int)[0] == rest.skip(a1 as int)[0]);
        assert(rest2.skip(a2 as int).take(d2 as int)[0] == rest2.skip(a2 as int)[0]);
        assert(rest.skip(a1 as int).take(d1 as int) =~= b@.subrange(
            (rest_from + a1) as int,
            p1 as int,
        ));
        assert(rest2.skip(a2 as int).take(d2 as int) =~= b@.subrange(
            (rest2_from + a2) as int,
            p2 as int,
        ));
        assert(rest.take(a1 as int) =~= b@.subrange(rest_from as int, (rest_from + a1) as int));
        assert(rest2.take(a2 as int) =~= b@.subrange(
            rest2_from as int,
            (rest2_from + a2) as int,
        ));
        lemma_digit_len_run(b@.subrange((rest_from + a1) as int, to as int));
        lemma_digit_len_run(b@.subrange((rest2_from + a2) as int, to as int));
        assert(all_digits(b@.subrange((rest_from + a1) as int, p1 as int))) by {
            assert(forall|i: int|
                0 <= i < d1 ==> #[trigger] b@.subrange((rest_from + a1) as int, p1 as int)[i]
                    == b@.subrange((rest_from + a1) as int, to as int)[i]);
        }
        assert(all_digits(b@.subrange((rest2_from + a2) as int, p2 as int))) by {
            assert(forall|i: int|
                0 <= i < d2 ==> #[trigger] b@.subrange((rest2_from + a2) as int, p2 as int)[i]
                    == b@.subrange((rest2_from + a2) as int, to as int)[i]);
        }
        lemma_upper_len_run(rest);
        lemma_upper_len_run(rest2);
        assert(crate::labels::all_upper(b@.subrange(rest_from as int, (rest_from + a1) as int)))
            by {
            assert(forall|i: int|
                0 <= i < a1 ==> b@.subrange(rest_from as int, (rest_from + a1) as int)[i]
                    == rest[i]);
        }
        assert(crate::labels::all_upper(
            b@.subrange(rest2_from as int, (rest2_from + a2) as int),
        )) by {
            assert(forall|i: int|
                0 <= i < a2 ==> b@.subrange(rest2_from as int, (rest2_from + a2) as int)[i]
                    == rest2[i]);
        }
        crate::labels::lemma_digits_val_pos(b@.subrange((rest_from + a1) as int, p1 as int));
        crate::labels::lemma_digits_val_pos(b@.subrange((rest2_from + a2) as int, p2 as int));
        crate::labels::lemma_col_val_pos(b@.subrange(rest_from as int, (rest_from + a1) as int));
        crate::labels::lemma_col_val_pos(
            b@.subrange(rest2_from as int, (rest2_from + a2) as int),
        );
    }
    let rowv1: u64 = digits_cap(b, rest_from + a1, p1);
    let rowv2: u64 = digits_cap(b, rest2_from + a2, p2);
    let colv1: u64 = col_cap(b, rest_from, rest_from + a1);
    let colv2: u64 = col_cap(b, rest2_from, rest2_from + a2);
    if rowv1 - 1 >= rows as u64 || rowv2 - 1 >= rows as u64 || colv1 - 1 >= cols as u64 || colv2
        - 1 >= cols as u64 || rowv2 < rowv1 || colv2 < colv1 {
        return (-1, 0, Vec::new());
    }
    let r1: usize = (rowv1 - 1) as usize;
    let c1: usize = (colv1 - 1) as usize;
    let r2: usize = (rowv2 - 1) as usize;
    let c2: usize = (colv2 - 1) as usize;
    if check_loop_range(w, r1, c1, r2, c2, s) {
        return (-4, 0, Vec::new());
    }
    let ids: Vec<usize> = build_rect(s, r1, c1, r2, c2);
    proof {
        crate::sheet::lemma_dims_bound(s.rows as int, s.cols as int);
        crate::sheet::lemma_id_in_range(s.rows as int, s.cols as int, r2 as int, c2 as int);
        lemma_rect_ids_props(s.cols as int, r1 as int, c1 as int, r2 as int, c2 as int);
        assert(ids@.len() == (r2 - r1 + 1) * (c2 - c1 + 1));
        assert(((r2 - r1 + 1) as int) * ((c2 - c1 + 1) as int) <= (s.rows as int) * (
        s.cols as int)) by (nonlinear_arith)
            requires
                1 <= (r2 - r1 + 1) as int <= s.rows as int,
                1 <= (c2 - c1 + 1) as int <= s.cols as int;
        assert forall|k: int|
            0 <= k < ids@.len() implies !reaches(s.cells@, w, #[trigger] ids@[k]) by {
            if reaches(s.cells@, w, ids@[k]) {
                assert(rect_contains(
                    s.cols as int,
                    r1 as int,
                    c1 as int,
                    r2 as int,
                    c2 as int,
                    ids@[k],
                ));
                assert(reaches_rect(
                    s.cells@,
                    s.cols as int,
                    w,
                    r1 as int,
                    c1 as int,
                    r2 as int,
                    c2 as int,
                ));
            }
        }
    }
    let va: (i32, bool) = compute_agg(s, &ids, func);
    if va.1 {
        return (-2, va.0, ids);
    }
    (0, va.0, ids)
}


/// Evaluates one expression for the cell at `(row, col)`.
///
/// The return code is `0` on success, `-1` for a malformed or out-of-range
/// expression, `-2` for a runtime failure (division by zero or a read of a
/// failed cell), and `-4` for a formula that would close a dependency
/// loop. On success `result` receives the value; on the runtime-failure
/// code a reference, aggregate or `SLEEP`-on-cell formula still hands the
/// computed value out through `result`, while a binary operation, and
/// every other code, leaves it alone. With `call_value` 1 a code of `0` or
/// `-2` also rebinds the read edges of the cell to exactly the references
/// the formula makes; any other outcome, and any call with `call_value`
/// 0, leaves the sheet's cells untouched. Seconds demanded by `SLEEP` are
/// added to the sheet's `pending_sleep` for the caller to perform.
///
/// A cyclic formula is rejected without touching anything, so an acyclic
/// dependency graph stays acyclic through every call.
pub fn evaluate_expression(
    expr: &str,
    rows: usize,
    cols: usize,
    sheet_data: &mut SheetData,
    result: &mut i32,
    row: &usize,
    col: &usize,
    call_value: i32,
) -> (code: i32)
    requires
        sd_wf(*old(sheet_data)),
        1 <= rows <= old(sheet_data).rows,
        1 <= cols <= old(sheet_data).cols,
        *row < old(sheet_data).rows,
        *col < old(sheet_data).cols,
        call_value == 0 || call_value == 1,
    ensures
        ({
            let out = eval_spec(
                *old(sheet_data),
                rows as int,
                cols as int,
                *row as int,
                *col as int,
                expr.spec_bytes(),
            );
            let w = ((*row * old(sheet_data).cols + *col) as usize);
            &&& code == out.0
            &&& (code == 0 || (code == -2 && taint_carries_value(expr.spec_bytes()))
                ==> *final(result) == out.1)
            &&& (!(code == 0 || (code == -2 && taint_carries_value(expr.spec_bytes())))
                ==> *final(result) == *old(result))
            &&& sd_wf(*final(sheet_data))
            &&& final(sheet_data).pending_sleep as int == sat_add64(
                old(sheet_data).pending_sleep as int,
                out.3,
            )
            &&& (call_value == 1 && (code == 0 || code == -2) ==> bound_post(
                *old(sheet_data),
                *final(sheet_data),
                w,
                out.2,
            ))
            &&& (!(call_value == 1 && (code == 0 || code == -2)) ==> unchanged_cells(
                *old(sheet_data),
                *final(sheet_data),
            ))
            &&& (call_value == 1 && (code == 0 || code == -2) ==> final(sheet_data).rows
                == old(sheet_data).rows && final(sheet_data).cols == old(sheet_data).cols)
            &&& (crate::graph::acyclic(old(sheet_data).cells@) ==> crate::graph::acyclic(
                final(sheet_data).cells@,
            ))
        }),
{
    evaluate_bytes(expr.as_bytes(), rows, cols, sheet_data, result, row, col, call_value)
}


/// Trimming is idempotent: a trimmed text has no whitespace left to drop.
pub proof fn lemma_trim_idempotent(s: Seq<u8>)
    ensures
        trim_spec(trim_spec(s)) == trim_spec(s),
{
    let t = trim_spec(s);
    if lead_ws(s) == s.len() {
        assert(t.len() == 0);
        assert(trim_spec(t) =~= t);
    } else {
        lemma_lead_ws_run(s);
        lemma_trail_ws_run(s);
        assert(t[0] == s[lead_ws(s)]);
        assert(!is_ws(t[0]));
        assert(lead_ws(t) == 0) by {
            if t.len() > 0 && is_ws(t[0]) {
                assert(false);
            }
        }
        assert(t.last() == s[s.len() - trail_ws(s) - 1]);
        assert(!is_ws(t.last()));
        assert(trail_ws(t) == 0) by {
            if t.len() > 0 && is_ws(t.last()) {
                assert(false);
            }
        }
        assert(trim_spec(t) =~= t);
    }
}

/// The leading whitespace run is whitespace and stops at the first
/// non-blank byte.
pub proof fn lemma_lead_ws_run(s: Seq<u8>)
    ensures
        0 <= lead_ws(s) <= s.len(),
        forall|i: int| 0 <= i < lead_ws(s) ==> is_ws(s[i]),
        lead_ws(s) < s.len() ==> !is_ws(s[lead_ws(s)]),
    decreases s.len(),
{
    if s.len() > 0 && is_ws(s[0]) {
        lemma_lead_ws_run(s.drop_first());
        assert(forall|i: int| 0 <= i < s.len() - 1 ==> s.drop_first()[i] == s[i + 1]);
        assert forall|i: int| 0 <= i < lead_ws(s) implies is_ws(s[i]) by {
            if i > 0 {
                assert(is_ws(s.drop_first()[i - 1]));
            }
        }
        if lead_ws(s) < s.len() {
            assert(!is_ws(s.drop_first()[lead_ws(s) - 1]));
        }
    }
}

/// The trailing whitespace run, likewise from the end.
pub proof fn lemma_trail_ws_run(s: Seq<u8>)
    ensures
        0 <= trail_ws(s) <= s.len(),
        forall|i: int| s.len() - trail_ws(s) <= i < s.len() ==> is_ws(s[i]),
        trail_ws(s) < s.len() ==> !is_ws(s[s.len() - trail_ws(s) - 1]),
    decreases s.len(),
{
    if s.len() > 0 && is_ws(s.last()) {
        lemma_trail_ws_run(s.drop_last());
        assert(forall|i: int| 0 <= i < s.len() - 1 ==> s.drop_last()[i] == s[i]);
    }
}

/// The folds of an aggregate agree between two sheets that agree on the
/// values of the listed cells.
pub proof fn lemma_folds_congruent(c1: Seq<Cell>, c2: Seq<Cell>, ids: Seq<usize>, mean: int)
    requires
        forall|k: int|
            0 <= k < ids.len() ==> ((#[trigger] ids[k]) as int) < c1.len() && (ids[k] as int)
                < c2.len() && c2[ids[k] as int].val == c1[ids[k] as int].val && c2[ids[k]
                as int].status == c1[ids[k] as int].status,
    ensures
        fold_sum(c2, ids) == fold_sum(c1, ids),
        fold_max(c2, ids) == fold_max(c1, ids),
        fold_min(c2, ids) == fold_min(c1, ids),
        fold_sqdev(c2, ids, mean) == fold_sqdev(c1, ids, mean),
        any_err(c2, ids) == any_err(c1, ids),
    decreases ids.len(),
{
    if ids.len() > 0 {
        assert(forall|k: int| 0 <= k < ids.len() - 1 ==> ids.drop_last()[k] == ids[k]);
        lemma_folds_congruent(c1, c2, ids.drop_last(), mean);
        assert(ids.last() == ids[ids.len() - 1]);
    }
    assert(any_err(c2, ids) == any_err(c1, ids)) by {
        if any_err(c1, ids) {
            let k = choose|k: int|
                0 <= k < ids.len() && c1[(#[trigger] ids[k]) as int].status == 1;
            assert(c2[ids[k] as int].status == 1);
        }
        if any_err(c2, ids) {
            let k = choose|k: int|
                0 <= k < ids.len() && c2[(#[trigger] ids[k]) as int].status == 1;
            assert(c1[ids[k] as int].status == 1);
        }
    }
}

/// Every cell of a rectangle occurs in its row-major id list.
pub proof fn lemma_rect_contains_ids(
    cols: int,
    r1: int,
    c1: int,
    r2: int,
    c2: int,
    x: usize,
)
    requires
        cols >= 1,
        0 <= r1 <= r2,
        0 <= c1 <= c2 < cols,
        r2 * cols + c2 < 0x8000_0000,
        rect_contains(cols, r1, c1, r2, c2, x),
        (x as int) <= r2 * cols + c2,
    ensures
        rect_ids(cols, r1, c1, r2, c2).contains(x),
{
    lemma_rect_ids_props(cols, r1, c1, r2, c2);
    let width = c2 - c1 + 1;
    let xr = (x as int) / cols;
    let xc = (x as int) % cols;
    vstd::arithmetic::div_mod::lemma_fundamental_div_mod(x as int, cols);
    let k = (xr - r1) * width + (xc - c1);
    assert(0 <= xc - c1 < width);
    assert(0 <= k) by (nonlinear_arith)
        requires xr - r1 >= 0, width >= 1, xc - c1 >= 0, k == (xr - r1) * width + (xc - c1);
    assert(k < (r2 - r1 + 1) * width) by (nonlinear_arith)
        requires
            xr - r1 <= r2 - r1,
            xc - c1 < width,
            width >= 1,
            k == (xr - r1) * width + (xc - c1),
            r2 - r1 >= 0;
    assert(k / width == xr - r1 && k % width == xc - c1) by {
        vstd::arithmetic::div_mod::lemma_fundamental_div_mod_converse(
            k,
            width,
            xr - r1,
            xc - c1,
        );
    }
    assert((rect_ids(cols, r1, c1, r2, c2)[k] as int) == (r1 + k / width) * cols + c1 + (k
        % width));
    assert((r1 + (xr - r1)) * cols == xr * cols) by (nonlinear_arith);
    assert((rect_ids(cols, r1, c1, r2, c2)[k] as int) == xr * cols + xc);
    assert(xr * cols == cols * xr) by (nonlinear_arith);
    assert(rect_ids(cols, r1, c1, r2, c2)[k] == x);
}


/// Re-evaluating a committed formula in a later well-formed state gives
/// the same runtime outcome. The text alone decides the shape and the
/// read set; the read cells' values and statuses decide the value and the
/// taint; and once the read edges stand in the graph, acyclicity itself
/// rules the cycle branch out. With `vals_eq` the read cells are known
/// unchanged and the whole outcome carries over.
#[verifier::spinoff_prover]
#[verifier::rlimit(100)]
pub proof fn lemma_eval_stable(
    s1: SheetData,
    s2: SheetData,
    rows: int,
    cols: int,
    wr: int,
    wc: int,
    e: Seq<u8>,
    vals_eq: bool,
)
    requires
        s2.cols == s1.cols,
        s2.cells@.len() == s1.cells@.len(),
        1 <= s1.cols <= 18278,
        1 <= rows <= 999,
        1 <= cols <= s1.cols,
        ({
            let out = eval_spec(s1, rows, cols, wr, wc, e);
            out.0 == 0 || out.0 == -2
        }),
        ({
            let out = eval_spec(s1, rows, cols, wr, wc, e);
            let w = ((wr * s1.cols + wc) as usize);
            forall|r: usize| #[trigger]
                out.2.contains(r) ==> (r as int) < s2.cells@.len() && crate::graph::edge(
                    s2.cells@,
                    r,
                    w,
                ) && (vals_eq ==> s2.cells@[r as int].val == s1.cells@[r as int].val
                    && s2.cells@[r as int].status == s1.cells@[r as int].status)
        }),
        crate::graph::acyclic(s2.cells@),
    ensures
        ({
            let out = eval_spec(s1, rows, cols, wr, wc, e);
            let out2 = eval_spec(s2, rows, cols, wr, wc, e);
            &&& (out2.0 == 0 || out2.0 == -2)
            &&& out2.2 == out.2
            &&& (vals_eq ==> out2 == out)
        }),
{
    let t = trim_spec(e);
    let w = ((wr * s1.cols + wc) as usize);
    let out = eval_spec(s1, rows, cols, wr, wc, e);
    let out2 = eval_spec(s2, rows, cols, wr, wc, e);
    if parse_i32_spec(t) is Some {
    } else if sleep_form(t) {
        let m = t.subrange(6, t.len() - 1);
        if (m.len() >= 1 && is_digit(m[0])) || (m.len() >= 2 && m[0] == 0x2d && is_digit(
            m[1],
        )) {
        } else {
            let a = upper_len(m);
            let num = m.skip(a);
            let id = (((digits_val(num) - 1) * s1.cols + (col_val(m.take(a)) - 1)) as usize);
            assert(out.2.contains(id)) by {
                assert(out.2 == seq![id]);
                assert(out.2[0] == id);
            }
            crate::graph::lemma_no_back_reach(s2.cells@, w, id);
        }
    } else if op_choice(t) != 0 {
        let op = op_choice(t);
        let pos = first_pos(t, op);
        let t1 = trim_spec(t.take(pos));
        let t2 = trim_spec(t.skip(pos + 1));
        let o1 = operand_spec(s1, rows, cols, t1);
        let o2 = operand_spec(s1, rows, cols, t2);
        let p1 = operand_spec(s2, rows, cols, t1);
        let p2 = operand_spec(s2, rows, cols, t2);
        let (v1, r1) = o1.unwrap();
        let (v2, r2) = o2.unwrap();
        assert(out.2 == binop_deps(r1, r2));
        if r1 is Some {
            assert(out.2.contains(r1.unwrap())) by {
                assert(out.2[0] == r1.unwrap());
            }
            crate::graph::lemma_no_back_reach(s2.cells@, w, r1.unwrap());
        }
        if r2 is Some {
            assert(out.2.contains(r2.unwrap())) by {
                if r1 == Some(r2.unwrap()) {
                    assert(out.2[0] == r2.unwrap());
                } else {
                    assert(out.2[out.2.len() - 1] == r2.unwrap());
                }
            }
            crate::graph::lemma_no_back_reach(s2.cells@, w, r2.unwrap());
        }
        assert(p1 is Some && p1.unwrap().1 == r1 && (vals_eq ==> p1 == o1));
        assert(p2 is Some && p2.unwrap().1 == r2 && (vals_eq ==> p2 == o2));
        assert(out2.2 == binop_deps(r1, r2));
    } else if agg_form(t) {
        let f = upper_len(t);
        let rest = t.skip(f + 1);
        let a1 = upper_len(rest);
        let d1 = digit_len(rest.skip(a1));
        let rest2 = rest.skip(a1 + d1).skip(1);
        let a2 = upper_len(rest2);
        let d2 = digit_len(rest2.skip(a2));
        let r1 = digits_val(rest.skip(a1).take(d1)) - 1;
        let c1 = col_val(rest.take(a1)) - 1;
        let r2 = digits_val(rest2.skip(a2).take(d2)) - 1;
        let c2 = col_val(rest2.take(a2)) - 1;
        let ids = rect_ids(s1.cols as int, r1, c1, r2, c2);
        assert(out.2 == ids);
        assert(c1 >= 0) by {
            lemma_upper_len_run(rest);
            assert(crate::labels::all_upper(rest.take(a1))) by {
                assert(forall|i: int| 0 <= i < a1 ==> rest.take(a1)[i] == rest[i]);
            }
            crate::labels::lemma_col_val_pos(rest.take(a1));
        }
        assert(c2 >= 0) by {
            lemma_upper_len_run(rest2);
            assert(crate::labels::all_upper(rest2.take(a2))) by {
                assert(forall|i: int| 0 <= i < a2 ==> rest2.take(a2)[i] == rest2[i]);
            }
            crate::labels::lemma_col_val_pos(rest2.take(a2));
        }
        assert(r2 * (s1.cols as int) + c2 < 0x8000_0000) by (nonlinear_arith)
            requires 0 <= r2 <= 998, 0 <= c2 < s1.cols as int, s1.cols as int <= 18278;
        lemma_rect_ids_props(s1.cols as int, r1, c1, r2, c2);
        assert(!reaches_rect(s2.cells@, s2.cols as int, w, r1, c1, r2, c2)) by {
            if reaches_rect(s2.cells@, s2.cols as int, w, r1, c1, r2, c2) {
                let x = choose|x: usize|
                    (x as int) < s2.cells@.len() && #[trigger] rect_contains(
                        s2.cols as int,
                        r1,
                        c1,
                        r2,
                        c2,
                        x,
                    ) && reaches(s2.cells@, w, x);
                assert((x as int) <= r2 * (s1.cols as int) + c2) by {
                    vstd::arithmetic::div_mod::lemma_fundamental_div_mod(
                        x as int,
                        s1.cols as int,
                    );
                    vstd::arithmetic::div_mod::lemma_mod_bound(x as int, s1.cols as int);
                    assert((s1.cols as int) * ((x as int) / (s1.cols as int)) <= (
                    s1.cols as int) * r2) by (nonlinear_arith)
                        requires
                            (x as int) / (s1.cols as int) <= r2,
                            s1.cols as int >= 1,
                    ;
                    assert((s1.cols as int) * r2 == r2 * (s1.cols as int))
                        by (nonlinear_arith);
                }
                lemma_rect_contains_ids(s1.cols as int, r1, c1, r2, c2, x);
                assert(out.2.contains(x));
                crate::graph::lemma_no_back_reach(s2.cells@, w, x);
            }
        }
        if vals_eq {
            assert forall|k: int|
                0 <= k < ids.len() implies ((#[trigger] ids[k]) as int) < s1.cells@.len()
                    && s2.cells@[ids[k] as int].val == s1.cells@[ids[k] as int].val
                    && s2.cells@[ids[k] as int].status == s1.cells@[ids[k] as int].status by {
                assert(ids.contains(ids[k]));
                assert(out.2.contains(ids[k]));
            }
            lemma_folds_congruent(
                s1.cells@,
                s2.cells@,
                ids,
                tdiv32(fold_sum(s1.cells@, ids), ids.len() as int),
            );
            lemma_folds_congruent(
                s1.cells@,
                s2.cells@,
                ids,
                tdiv32(fold_sum(s2.cells@, ids), ids.len() as int),
            );
        }
    } else if ref_form(t) {
        let a = upper_len(t);
        let num = t.skip(a);
        let id = (((digits_val(num) - 1) * s1.cols + (col_val(t.take(a)) - 1)) as usize);
        assert(out.2.contains(id)) by {
            assert(out.2 == seq![id]);
            assert(out.2[0] == id);
        }
        crate::graph::lemma_no_back_reach(s2.cells@, w, id);
    } else {
    }
}

} // verus!
