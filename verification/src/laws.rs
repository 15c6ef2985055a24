//! The global invariants of the engine, stated on their own.
//!
//! `execute_command` requires a well-formed, acyclic, consistent sheet and
//! ensures one; together with the two lemmas below on a fresh sheet this
//! says that at every observable state, through any sequence of commands:
//! the dependency graph is a directed acyclic graph; the two dependency
//! indexes agree; every cell holding a formula whose status is sound
//! carries exactly the value its formula evaluates to in that state; and
//! every cell whose status is failed holds a formula that still fails at
//! run time, by a division by zero or by reading a failed cell.
//!
//! On top of these, `lemma_assignment_idempotent` shows that running the
//! same assignment line twice leaves the grid exactly as the first run
//! left it.

use vstd::prelude::*;
use crate::cell::{lemma_sorted_unique, occ};
use crate::engine::{assign_state_post, cell_accounted, cmd_code_spec, sheet_consistent};
use crate::eval::{eval_spec, first_pos, trim_spec, unchanged_cells};
use crate::graph::{acyclic, edge, path_ok, reaches};
use crate::labels::parse_label_spec;
use crate::sheet::{sd_wf, SheetData};

verus! {

/// A fresh sheet is well-formed and its dependency graph, having no edges,
/// is acyclic: every observable state descends from this one through
/// `execute_command`, which preserves both.
pub proof fn lemma_fresh_sheet_wf_acyclic(s: SheetData)
    requires
        sd_wf(s),
        forall|x: int|
            0 <= x < s.cells@.len() ==> (#[trigger] s.cells@[x]).dependencies@.len() == 0,
    ensures
        acyclic(s.cells@),
{
    assert forall|p: Seq<usize>|
        !(#[trigger] path_ok(s.cells@, p) && p.len() >= 2 && p.first() == p.last()) by {
        if path_ok(s.cells@, p) && p.len() >= 2 {
            assert(edge(s.cells@, p[0], p[1]));
            assert(s.cells@[p[0] as int].dependencies@.contains(p[1]));
            let q = choose|q: int|
                0 <= q < s.cells@[p[0] as int].dependencies@.len() && s.cells@[p[0]
                    as int].dependencies@[q] == p[1];
        }
    }
}

/// The two dependency indexes agree: a cell `x` stands in the reader set
/// of a cell `y` exactly when `y` occurs, exactly once, in the read stack
/// of `x`. This holds in every well-formed state, and every operation of
/// the engine keeps the sheet well-formed.
pub proof fn lemma_index_symmetry(s: SheetData, x: usize, y: usize)
    requires
        sd_wf(s),
        (x as int) < s.cells@.len(),
        (y as int) < s.cells@.len(),
    ensures
        s.cells@[y as int].dependencies@.contains(x) <==> occ(
            s.cells@[x as int].dependents@,
            y,
        ) == 1,
        s.cells@[y as int].dependencies@.contains(x) <==> s.cells@[x
            as int].dependents@.contains(y),
{
    crate::cell::lemma_occ_contains(s.cells@[x as int].dependents@, y);
    assert(occ(s.cells@[x as int].dependents@, y) == if s.cells@[y
        as int].dependencies@.contains(x) {
        1nat
    } else {
        0nat
    });
}


/// A fresh sheet is consistent: no cell holds a formula and no cell reads
/// anything, so value consistency and taint closure hold vacuously.
/// `execute_command` preserves them from here on.
pub proof fn lemma_fresh_sheet_consistent(s: SheetData, rows: int, cols: int)
    requires
        forall|x: int|
            0 <= x < s.cells@.len() ==> (#[trigger] s.cells@[x]).expression@.len() == 0
                && s.cells@[x].dependents@.len() == 0,
    ensures
        sheet_consistent(s, rows, cols),
{
    reveal(crate::engine::sheet_consistent);
}



/// Evaluation reads only the grid and its width, so states that share
/// them evaluate every expression alike.
proof fn lemma_eval_same_cells(
    s1: SheetData,
    s2: SheetData,
    rows: int,
    cols: int,
    wr: int,
    wc: int,
    e: Seq<u8>,
)
    requires
        s2.cols == s1.cols,
        s2.cells@ == s1.cells@,
    ensures
        eval_spec(s2, rows, cols, wr, wc, e) == eval_spec(s1, rows, cols, wr, wc, e),
{
}

/// One cell whose reads agree between two consistent states gets the
/// same status, and the same value when sound, in both.
#[verifier::spinoff_prover]
#[verifier::rlimit(100)]
proof fn lemma_unique_step(s1: SheetData, s2: SheetData, rows: int, cols: int, x: usize)
    requires
        s2.cols == s1.cols,
        s2.cells@.len() == s1.cells@.len(),
        1 <= s1.cols <= 18278,
        1 <= rows <= 999,
        1 <= cols <= s1.cols,
        (x as int) < s1.cells@.len(),
        forall|a: usize, y: usize|
            (a as int) < s1.cells@.len() ==> ((#[trigger] s2.cells@[a
                as int].dependencies@.contains(y)) <==> s1.cells@[a
                as int].dependencies@.contains(y)),
        s2.cells@[x as int].expression@ == s1.cells@[x as int].expression@,
        cell_accounted(s1, rows, cols, x),
        cell_accounted(s2, rows, cols, x),
        s1.cells@[x as int].status == 0 || s1.cells@[x as int].status == 1,
        s2.cells@[x as int].status == 0 || s2.cells@[x as int].status == 1,
        ({
            let out1 = eval_spec(
                s1,
                rows,
                cols,
                (x as int) / (s1.cols as int),
                (x as int) % (s1.cols as int),
                s1.cells@[x as int].expression@,
            );
            forall|r: usize| #[trigger]
                out1.2.contains(r) ==> s2.cells@[r as int].val == s1.cells@[r as int].val
                    && s2.cells@[r as int].status == s1.cells@[r as int].status
        }),
        acyclic(s2.cells@),
    ensures
        s2.cells@[x as int].status == s1.cells@[x as int].status,
        s1.cells@[x as int].status == 0 ==> s2.cells@[x as int].val == s1.cells@[x
            as int].val,
{
    reveal(crate::engine::cell_accounted);
    reveal(crate::engine::cell_committed);
    let wr = (x as int) / (s1.cols as int);
    let wc = (x as int) % (s1.cols as int);
    let e = s1.cells@[x as int].expression@;
    let out1 = eval_spec(s1, rows, cols, wr, wc, e);
    assert(out1.0 == 0 || out1.0 == -2);
    assert((x as int) == wr * (s1.cols as int) + wc) by {
        vstd::arithmetic::div_mod::lemma_fundamental_div_mod(x as int, s1.cols as int);
        assert((s1.cols as int) * wr == wr * (s1.cols as int)) by (nonlinear_arith);
    }
    assert forall|r: usize| #[trigger]
        out1.2.contains(r) implies (r as int) < s2.cells@.len() && edge(s2.cells@, r, x)
        && s2.cells@[r as int].val == s1.cells@[r as int].val && s2.cells@[r
        as int].status == s1.cells@[r as int].status by {
        assert(s1.cells@[r as int].dependencies@.contains(x));
        assert(s2.cells@[r as int].dependencies@.contains(x));
    }
    crate::eval::lemma_eval_stable(s1, s2, rows, cols, wr, wc, e, true);
    let out2 = eval_spec(s2, rows, cols, wr, wc, e);
    assert(out2 == out1);
    assert(s2.cells@[x as int].status == s1.cells@[x as int].status) by {
        if out1.0 == 0 {
            assert(s1.cells@[x as int].status != 1 && s2.cells@[x as int].status != 1);
        } else {
            assert(s1.cells@[x as int].status != 0 && s2.cells@[x as int].status != 0);
        }
    }
    if s1.cells@[x as int].status == 0 {
        assert(s1.cells@[x as int].val == out1.1);
        assert(s2.cells@[x as int].val == out2.1);
    }
}

/// Two consistent sheets with the same formulas, the same dependency
/// graph and the same stale values agree on every status and every sound
/// value: on a DAG, consistency determines the grid. The proof walks the
/// cells from below — among any family of disagreeing cells there is one
/// none of whose reads disagrees, and its formula then forces agreement.
#[verifier::spinoff_prover]
#[verifier::rlimit(100)]
proof fn lemma_consistent_unique(s1: SheetData, s2: SheetData, rows: int, cols: int)
    requires
        sd_wf(s1),
        sd_wf(s2),
        acyclic(s1.cells@),
        s2.cols == s1.cols,
        s2.cells@.len() == s1.cells@.len(),
        1 <= rows <= 999,
        1 <= cols <= s1.cols,
        forall|x: usize, y: usize|
            (x as int) < s1.cells@.len() ==> ((#[trigger] s2.cells@[x
                as int].dependencies@.contains(y)) <==> s1.cells@[x
                as int].dependencies@.contains(y)),
        forall|x: usize|
            (x as int) < s1.cells@.len() ==> (#[trigger] s2.cells@[x as int]).expression@
                == s1.cells@[x as int].expression@,
        sheet_consistent(s1, rows, cols),
        sheet_consistent(s2, rows, cols),
        forall|x: usize|
            (x as int) < s1.cells@.len() && (#[trigger] s1.cells@[x
                as int]).expression@.len() == 0 ==> s2.cells@[x as int].val == s1.cells@[x
                as int].val && s2.cells@[x as int].status == s1.cells@[x as int].status,
        forall|x: usize|
            (x as int) < s1.cells@.len() && (#[trigger] s2.cells@[x as int]).status == 1
                ==> s2.cells@[x as int].val == s1.cells@[x as int].val,
    ensures
        forall|x: usize|
            (x as int) < s1.cells@.len() ==> (#[trigger] s2.cells@[x as int]).status
                == s1.cells@[x as int].status && (s1.cells@[x as int].status == 0
                ==> s2.cells@[x as int].val == s1.cells@[x as int].val),
{
    reveal(crate::engine::sheet_consistent);
    let n = s1.cells@.len() as int;
    crate::sheet::lemma_dims_bound(s1.rows as int, s1.cols as int);
    assert(n <= 18259722);
    crate::graph::lemma_acyclic_same_graph(s1.cells@, s2.cells@);
    let d = Set::new(
        |x: int|
            0 <= x < n && ((s1.cells@[x].status != s2.cells@[x].status) || (s1.cells@[x].status
                == 0 && s1.cells@[x].val != s2.cells@[x].val)),
    );
    vstd::set_lib::lemma_int_range(0, n);
    assert(d.subset_of(vstd::set_lib::set_int_range(0, n)));
    vstd::set_lib::lemma_len_subset(d, vstd::set_lib::set_int_range(0, n));
    if d.len() > 0 {
        crate::graph::lemma_pick_unread(s1.cells@, d);
        let xi = choose|xi: int| #[trigger]
            d.contains(xi) && (forall|r: int| #[trigger]
                d.contains(r) ==> !edge(s1.cells@, (r as usize), (xi as usize)));
        assert(d.contains(xi));
        assert(0 <= xi < n);
        let x = xi as usize;
        assert((x as int) == xi);
        assert(s1.cells@[x as int].expression@.len() > 0) by {
            if s1.cells@[x as int].expression@.len() == 0 {
                assert(s2.cells@[x as int].val == s1.cells@[x as int].val && s2.cells@[x
                    as int].status == s1.cells@[x as int].status);
                assert(!d.contains(xi));
            }
        }
        assert(s2.cells@[x as int].expression@ == s1.cells@[x as int].expression@);
        assert(cell_accounted(s1, rows, cols, x));
        assert(cell_accounted(s2, rows, cols, x));
        let out1 = eval_spec(
            s1,
            rows,
            cols,
            (x as int) / (s1.cols as int),
            (x as int) % (s1.cols as int),
            s1.cells@[x as int].expression@,
        );
        assert forall|r: usize| #[trigger]
            out1.2.contains(r) implies s2.cells@[r as int].val == s1.cells@[r as int].val
            && s2.cells@[r as int].status == s1.cells@[r as int].status by {
            reveal(crate::engine::cell_accounted);
            reveal(crate::engine::cell_committed);
            assert(s1.cells@[r as int].dependencies@.contains(x));
            assert(edge(s1.cells@, r, x));
            assert(!d.contains(r as int));
            assert(s2.cells@[r as int].status == s1.cells@[r as int].status);
            if s1.cells@[r as int].status == 0 {
            } else {
                assert(s2.cells@[r as int].status == 1);
            }
        }
        assert(s1.cells@[x as int].status == 0 || s1.cells@[x as int].status == 1) by {
            assert(crate::cell::cell_ids_ok(s1.cells@[x as int], n));
        }
        assert(s2.cells@[x as int].status == 0 || s2.cells@[x as int].status == 1) by {
            assert(crate::cell::cell_ids_ok(s2.cells@[x as int], n));
        }
        lemma_unique_step(s1, s2, rows, cols, x);
        assert(!d.contains(xi));
        assert(false);
    }
    assert forall|x: usize|
        (x as int) < s1.cells@.len() implies (#[trigger] s2.cells@[x as int]).status
        == s1.cells@[x as int].status && (s1.cells@[x as int].status == 0 ==> s2.cells@[x
        as int].val == s1.cells@[x as int].val) by {
        assert(!d.contains(x as int));
    }
}

/// Applying the same assignment line twice yields the same grid: the
/// second run parses the same label and formula, sees the same values in
/// the cells the formula reads (the first run could not have touched
/// them), rebinds the same edges, writes the same target state, and its
/// refresh, being consistency- and graph-determined, reproduces every
/// value and status of the first run. The hypotheses are exactly what
/// `execute_command`'s contract gives for two consecutive runs of one
/// assignment command.
pub proof fn lemma_assignment_idempotent(
    s0: SheetData,
    s1: SheetData,
    s2: SheetData,
    rows: int,
    cols: int,
    e: Seq<u8>,
)
    requires
        sd_wf(s0),
        acyclic(s0.cells@),
        sheet_consistent(s0, rows, cols),
        sd_wf(s1),
        acyclic(s1.cells@),
        sheet_consistent(s1, rows, cols),
        sd_wf(s2),
        acyclic(s2.cells@),
        sheet_consistent(s2, rows, cols),
        1 <= rows <= s0.rows,
        1 <= cols <= s0.cols,
        s1.cols == s0.cols,
        s1.rows == s0.rows,
        s2.cols == s1.cols,
        first_pos(e, 0x3d) < e.len(),
        assign_state_post(s0, s1, rows, cols, e),
        assign_state_post(s1, s2, rows, cols, e),
    ensures
        s2.cells@.len() == s1.cells@.len(),
        cmd_code_spec(s1, rows, cols, e) == cmd_code_spec(s0, rows, cols, e),
        forall|x: usize|
            (x as int) < s1.cells@.len() ==> {
                let c1 = s1.cells@[x as int];
                let c2 = #[trigger] s2.cells@[x as int];
                &&& c2.val == c1.val
                &&& c2.status == c1.status
                &&& c2.expression@ == c1.expression@
                &&& c2.dependencies@ == c1.dependencies@
                &&& c2.dependents@ == c1.dependents@
            },
{
    reveal(crate::engine::sheet_consistent);
    reveal(crate::engine::cell_accounted);
    reveal(crate::engine::cell_committed);
    let p = first_pos(e, 0x3d);
    let lab = trim_spec(e.take(p));
    let ex = e.skip(p + 1);
    let n = s0.cells@.len() as int;
    match parse_label_spec(lab) {
        None => {
            assert(unchanged_cells(s0, s1) && unchanged_cells(s1, s2));
            lemma_eval_same_cells(s0, s1, rows, cols, 0, 0, ex);
        },
        Some((rr, cc)) => {
            if (rr as int) >= rows || (cc as int) >= cols {
                assert(unchanged_cells(s0, s1) && unchanged_cells(s1, s2));
            } else {
                let out0 = eval_spec(s0, rows, cols, rr as int, cc as int, ex);
                let w = ((rr * s0.cols + cc) as usize);
                crate::sheet::lemma_dims_bound(s0.rows as int, s0.cols as int);
                crate::sheet::lemma_id_in_range(
                    s0.rows as int,
                    s0.cols as int,
                    rr as int,
                    cc as int,
                );
                if out0.0 == 0 || out0.0 == -2 {
                    // the second evaluation sees what the first one saw
                    assert forall|r: usize| #[trigger]
                        out0.2.contains(r) implies (r as int) < s1.cells@.len() && edge(
                        s1.cells@,
                        r,
                        w,
                    ) && s1.cells@[r as int].val == s0.cells@[r as int].val && s1.cells@[r
                        as int].status == s0.cells@[r as int].status by {
                        assert(s1.cells@[w as int].dependents@ == out0.2);
                        assert((r as int) < s1.cells@.len()) by {
                            assert(crate::cell::cell_ids_ok(
                                s1.cells@[w as int],
                                s1.cells@.len() as int,
                            ));
                            let k = choose|k: int|
                                0 <= k < out0.2.len() && out0.2[k] == r;
                        }
                        assert(s1.cells@[r as int].dependencies@.contains(w));
                        assert(edge(s1.cells@, r, w));
                        assert(r != w) by {
                            if r == w {
                                crate::graph::lemma_no_back_reach(s1.cells@, w, w);
                                crate::graph::lemma_reaches_self(s1.cells@, w);
                            }
                        }
                        assert(!reaches(s1.cells@, w, r)) by {
                            crate::graph::lemma_no_back_reach(s1.cells@, w, r);
                        }
                    }
                    crate::eval::lemma_eval_stable(
                        s0,
                        s1,
                        rows,
                        cols,
                        rr as int,
                        cc as int,
                        ex,
                        true,
                    );
                    let out1 = eval_spec(s1, rows, cols, rr as int, cc as int, ex);
                    assert(out1 == out0);
                    // the second run rebinds the same graph
                    assert forall|x: usize, y: usize|
                        (x as int) < s1.cells@.len() implies ((#[trigger] s2.cells@[x
                        as int].dependencies@.contains(y)) <==> s1.cells@[x
                        as int].dependencies@.contains(y)) by {
                        if y == w {
                            assert(s1.cells@[x as int].dependencies@.contains(w)
                                <==> out0.2.contains(x));
                        }
                    }
                    // and writes the same target cell
                    assert(s2.cells@[w as int].expression@ == s1.cells@[w
                        as int].expression@);
                    assert(s2.cells@[w as int].status == s1.cells@[w as int].status);
                    assert(s2.cells@[w as int].val == s1.cells@[w as int].val) by {
                        if out0.0 == -2 {
                            assert(s2.cells@[w as int].val == s1.cells@[w as int].val);
                        }
                    }
                    // formulas and read stacks agree everywhere
                    assert(forall|x: usize|
                        (x as int) < s1.cells@.len() ==> (#[trigger] s2.cells@[x
                            as int]).expression@ == s1.cells@[x as int].expression@);
                    assert(forall|x: usize|
                        (x as int) < s1.cells@.len() ==> (#[trigger] s2.cells@[x
                            as int]).dependents@ == s1.cells@[x as int].dependents@);
                    // a cell with no formula is read by nothing and cannot be
                    // reached from the target, so neither run touched it
                    assert forall|x: usize|
                        (x as int) < s1.cells@.len() && (#[trigger] s1.cells@[x
                        as int]).expression@.len() == 0 implies s2.cells@[x as int].val
                        == s1.cells@[x as int].val && s2.cells@[x as int].status
                        == s1.cells@[x as int].status by {
                        assert(x != w) by {
                            lemma_committed_formula_nonempty(s0, rows, cols, rr, cc, ex);
                        }
                        assert(!reaches(s2.cells@, w, x)) by {
                            if reaches(s2.cells@, w, x) {
                                let pth = choose|pth: Seq<usize>|
                                    #[trigger] path_ok(s2.cells@, pth) && pth.first() == w
                                        && pth.last() == x;
                                assert(pth.len() >= 2);
                                let prev = pth[pth.len() - 2];
                                assert(edge(s2.cells@, prev, x));
                                assert(s2.cells@[prev as int].dependencies@.contains(x));
                                assert(occ(s2.cells@[x as int].dependents@, prev) == 1);
                                crate::cell::lemma_occ_contains(
                                    s2.cells@[x as int].dependents@,
                                    prev,
                                );
                                assert(s2.cells@[x as int].dependents@.len() > 0);
                                assert(s2.cells@[x as int].expression@.len() > 0);
                            }
                        }
                    }
                    // stale values of failed cells carry over by contract
                    assert(forall|x: usize|
                        (x as int) < s1.cells@.len() && x != w && (#[trigger] s2.cells@[x
                            as int]).status == 1 ==> s2.cells@[x as int].val == s1.cells@[x
                            as int].val);
                    assert forall|x: usize|
                        (x as int) < s1.cells@.len() && (#[trigger] s2.cells@[x
                        as int]).status == 1 implies s2.cells@[x as int].val == s1.cells@[x
                        as int].val by {}
                    // consistency now determines the rest of the grid
                    assert(1 <= s0.cols <= 18278 && rows <= 999);
                    lemma_consistent_unique(s1, s2, rows, cols);
                    assert forall|x: usize| (x as int) < s1.cells@.len() implies {
                        let c1 = s1.cells@[x as int];
                        let c2 = #[trigger] s2.cells@[x as int];
                        &&& c2.val == c1.val
                        &&& c2.status == c1.status
                        &&& c2.expression@ == c1.expression@
                        &&& c2.dependencies@ == c1.dependencies@
                        &&& c2.dependents@ == c1.dependents@
                    } by {
                        assert(s2.cells@[x as int].dependencies@ == s1.cells@[x
                            as int].dependencies@) by {
                            lemma_sorted_unique(
                                s1.cells@[x as int].dependencies@,
                                s2.cells@[x as int].dependencies@,
                            );
                        }
                        if s1.cells@[x as int].status == 0 {
                        } else {
                            assert(s2.cells@[x as int].status == 1);
                        }
                    }
                } else {
                    assert(unchanged_cells(s0, s1) && unchanged_cells(s1, s2));
                    lemma_eval_same_cells(s0, s1, rows, cols, rr as int, cc as int, ex);
                }
            }
        },
    }
}

/// A formula that runs is not blank: every shape of the grammar needs at
/// least one byte after trimming.
proof fn lemma_committed_formula_nonempty(
    s0: SheetData,
    rows: int,
    cols: int,
    rr: usize,
    cc: usize,
    ex: Seq<u8>,
)
    requires
        ({
            let out = eval_spec(s0, rows, cols, rr as int, cc as int, ex);
            out.0 == 0 || out.0 == -2
        }),
    ensures
        trim_spec(ex).len() > 0,
{
    let t0 = trim_spec(ex);
    if t0.len() == 0 {
        assert(crate::eval::parse_i32_spec(t0) is None);
        assert(!crate::eval::sleep_form(t0));
        assert(crate::eval::first_pos(t0, 0x2b) == 0);
        assert(crate::eval::first_pos(t0, 0x2d) == 0);
        assert(crate::eval::first_pos(t0, 0x2a) == 0);
        assert(crate::eval::first_pos(t0, 0x2f) == 0);
        assert(crate::eval::op_choice(t0) == 0);
        assert(crate::eval::upper_len(t0) == 0);
        assert(!crate::eval::agg_form(t0));
        assert(!crate::eval::ref_form(t0));
        assert(eval_spec(s0, rows, cols, rr as int, cc as int, ex).0 == -1);
        assert(false);
    }
}

} // verus!
