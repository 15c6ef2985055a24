//! End-to-end command scenarios on a fresh 10 by 10 sheet, and the
//! boundary behaviors of the dispatcher.

use sheetcalc::engine::execute_command;
use sheetcalc::eval::evaluate_expression;
use sheetcalc::labels::col_index_to_label;
use sheetcalc::labels::label_to_index;
use sheetcalc::sheet::SheetData;

fn sheet() -> SheetData {
    SheetData::new(10, 10)
}

fn run(s: &mut SheetData, cmd: &str) -> i32 {
    execute_command(cmd, 10, 10, s)
}

#[test]
fn scenario_simple_addition() {
    let mut s = sheet();
    assert_eq!(run(&mut s, "A1=5"), 0);
    assert_eq!(run(&mut s, "B1=7"), 0);
    assert_eq!(run(&mut s, "C1=A1+B1"), 0);
    assert_eq!(s.cell(0, 0).val, 5);
    assert_eq!(s.cell(0, 1).val, 7);
    assert_eq!(s.cell(0, 2).val, 12);
    assert_eq!(s.cell(0, 0).status, 0);
    assert_eq!(s.cell(0, 1).status, 0);
    assert_eq!(s.cell(0, 2).status, 0);
}

#[test]
fn scenario_propagation() {
    let mut s = sheet();
    assert_eq!(run(&mut s, "A1=10"), 0);
    assert_eq!(run(&mut s, "B1=A1*2"), 0);
    assert_eq!(run(&mut s, "A1=3"), 0);
    assert_eq!(s.cell(0, 0).val, 3);
    assert_eq!(s.cell(0, 1).val, 6);
}

#[test]
fn scenario_aggregates() {
    let mut s = sheet();
    assert_eq!(run(&mut s, "A1=5"), 0);
    assert_eq!(run(&mut s, "A2=10"), 0);
    assert_eq!(run(&mut s, "A3=15"), 0);
    assert_eq!(run(&mut s, "B1=SUM(A1:A3)"), 0);
    assert_eq!(run(&mut s, "B2=AVG(A1:A3)"), 0);
    assert_eq!(run(&mut s, "B3=MAX(A1:A3)"), 0);
    assert_eq!(run(&mut s, "B4=MIN(A1:A3)"), 0);
    assert_eq!(s.cell(0, 1).val, 30);
    assert_eq!(s.cell(1, 1).val, 10);
    assert_eq!(s.cell(2, 1).val, 15);
    assert_eq!(s.cell(3, 1).val, 5);
}

#[test]
fn scenario_cycle_rejected_without_mutation() {
    let mut s = sheet();
    assert_eq!(run(&mut s, "A1=1"), 0);
    assert_eq!(run(&mut s, "B1=A1"), 0);
    assert_eq!(run(&mut s, "A1=B1"), -4);
    // grid unchanged from after the second command
    assert_eq!(s.cell(0, 0).val, 1);
    assert_eq!(s.cell(0, 1).val, 1);
    assert_eq!(s.cell(0, 0).status, 0);
    assert_eq!(s.cell(0, 1).status, 0);
}

#[test]
fn scenario_taint_and_repair() {
    let mut s = sheet();
    assert_eq!(run(&mut s, "A1=10"), 0);
    assert_eq!(run(&mut s, "B1=0"), 0);
    assert_eq!(run(&mut s, "C1=A1/B1"), -2);
    assert_eq!(run(&mut s, "D1=C1+1"), -2);
    assert_eq!(s.cell(0, 2).status, 1);
    assert_eq!(s.cell(0, 3).status, 1);
    // repairing the divisor clears the taint downstream
    assert_eq!(run(&mut s, "B1=2"), 0);
    assert_eq!(s.cell(0, 2).status, 0);
    assert_eq!(s.cell(0, 2).val, 5);
    assert_eq!(s.cell(0, 3).status, 0);
    assert_eq!(s.cell(0, 3).val, 6);
}

#[test]
fn scenario_err_then_repair_chain() {
    let mut s = sheet();
    assert_eq!(run(&mut s, "A1=10/0"), -2);
    assert_eq!(s.cell(0, 0).status, 1);
    assert_eq!(run(&mut s, "B1=A1+1"), -2);
    assert_eq!(s.cell(0, 1).status, 1);
    assert_eq!(run(&mut s, "A1=5"), 0);
    assert_eq!(s.cell(0, 0).status, 0);
    assert_eq!(s.cell(0, 0).val, 5);
    assert_eq!(s.cell(0, 1).status, 0);
    assert_eq!(s.cell(0, 1).val, 6);
}

#[test]
fn self_reference_is_a_cycle() {
    let mut s = sheet();
    assert_eq!(run(&mut s, "A1=A1"), -4);
}

#[test]
fn direct_cycle_on_second_command() {
    let mut s = sheet();
    assert_eq!(run(&mut s, "A1=B1"), 0);
    assert_eq!(run(&mut s, "B1=A1"), -4);
}

#[test]
fn indirect_cycle_of_length_three() {
    let mut s = sheet();
    assert_eq!(run(&mut s, "A1=B1"), 0);
    assert_eq!(run(&mut s, "B1=C1"), 0);
    assert_eq!(run(&mut s, "C1=D1"), 0);
    assert_eq!(run(&mut s, "D1=A1"), -4);
}

#[test]
fn range_containing_writer_is_a_cycle() {
    let mut s = sheet();
    assert_eq!(run(&mut s, "B2=SUM(A1:C3)"), -4);
}

#[test]
fn range_reaching_writer_is_a_cycle() {
    let mut s = sheet();
    assert_eq!(run(&mut s, "A1=E5"), 0);
    // E5 reads nothing yet, but A1 reads E5, so an aggregate written into
    // E5 whose rectangle holds A1 closes a loop
    assert_eq!(run(&mut s, "E5=SUM(A1:B2)"), -4);
}

#[test]
fn parse_rejections() {
    let mut s = sheet();
    // out-of-range label
    assert_eq!(run(&mut s, "Z99=1"), -1);
    assert_eq!(run(&mut s, "A11=1"), -1);
    // leading-zero row
    assert_eq!(run(&mut s, "A01=1"), -1);
    // lowercase column
    assert_eq!(run(&mut s, "a1=1"), -1);
    // garbage
    assert_eq!(run(&mut s, "hello"), -1);
    assert_eq!(run(&mut s, ""), -1);
    assert_eq!(run(&mut s, "A1="), -1);
    assert_eq!(run(&mut s, "A1=B1C1"), -1);
    // nothing was written
    assert_eq!(s.cell(0, 0).val, 0);
}

#[test]
fn assignment_is_idempotent() {
    let mut s = sheet();
    assert_eq!(run(&mut s, "A1=4"), 0);
    assert_eq!(run(&mut s, "B1=A1*A1"), 0);
    let first = run(&mut s, "C1=A1+B1");
    assert_eq!(first, 0);
    let v = s.cell(0, 2).val;
    let again = run(&mut s, "C1=A1+B1");
    assert_eq!(again, first);
    assert_eq!(s.cell(0, 2).val, v);
    // the whole grid is as before
    for r in 0..10 {
        for c in 0..10 {
            assert_eq!(s.cell(r, c).status, 0);
        }
    }
    assert_eq!(s.cell(0, 0).val, 4);
    assert_eq!(s.cell(0, 1).val, 16);
    assert_eq!(s.cell(0, 2).val, 20);
}

#[test]
fn stdev_exact_values() {
    let mut s = sheet();
    assert_eq!(run(&mut s, "A1=2"), 0);
    assert_eq!(run(&mut s, "A2=4"), 0);
    assert_eq!(run(&mut s, "A3=4"), 0);
    assert_eq!(run(&mut s, "A4=4"), 0);
    assert_eq!(run(&mut s, "A5=5"), 0);
    assert_eq!(run(&mut s, "A6=5"), 0);
    assert_eq!(run(&mut s, "A7=7"), 0);
    assert_eq!(run(&mut s, "A8=9"), 0);
    // mean 5, squared deviations sum 32, variance 4, square root 2
    assert_eq!(run(&mut s, "B1=STDEV(A1:A8)"), 0);
    assert_eq!(s.cell(0, 1).val, 2);
}

#[test]
fn division_truncates_toward_zero() {
    let mut s = sheet();
    assert_eq!(run(&mut s, "A1=7/2"), 0);
    assert_eq!(s.cell(0, 0).val, 3);
    assert_eq!(run(&mut s, "A2=0-7"), 0);
    assert_eq!(s.cell(1, 0).val, -7);
    assert_eq!(run(&mut s, "A3=A2/2"), 0);
    assert_eq!(s.cell(2, 0).val, -3);
}

#[test]
fn sleep_shapes() {
    let mut s = sheet();
    // a negative count succeeds without blocking
    assert_eq!(run(&mut s, "A1=SLEEP(-3)"), 0);
    assert_eq!(s.cell(0, 0).val, -3);
    assert_eq!(s.pending_sleep, 0);
    // a zero count demands no blocking either
    assert_eq!(run(&mut s, "A2=SLEEP(0)"), 0);
    assert_eq!(s.cell(1, 0).val, 0);
    assert_eq!(s.pending_sleep, 0);
    // a positive count records its demand for the caller
    assert_eq!(run(&mut s, "A3=SLEEP(2)"), 0);
    assert_eq!(s.cell(2, 0).val, 2);
    assert_eq!(s.pending_sleep, 2);
    // SLEEP on a cell copies the value
    assert_eq!(run(&mut s, "A4=SLEEP(A1)"), 0);
    assert_eq!(s.cell(3, 0).val, -3);
    // trailing garbage in the call is rejected
    assert_eq!(run(&mut s, "A5=SLEEP(1x)"), -1);
}

#[test]
fn viewport_commands() {
    let mut s = SheetData::new(100, 100);
    assert_eq!(execute_command("scroll_to B3", 100, 100, &mut s), 0);
    assert_eq!(s.start_row, 2);
    assert_eq!(s.start_col, 1);
    assert_eq!(execute_command("s", 100, 100, &mut s), 0);
    assert_eq!(s.start_row, 12);
    assert_eq!(execute_command("w", 100, 100, &mut s), 0);
    assert_eq!(s.start_row, 2);
    assert_eq!(execute_command("w", 100, 100, &mut s), 0);
    assert_eq!(s.start_row, 0);
    assert_eq!(execute_command("d", 100, 100, &mut s), 0);
    assert_eq!(s.start_col, 11);
    assert_eq!(execute_command("a", 100, 100, &mut s), 0);
    assert_eq!(s.start_col, 1);
    // invalid scroll targets change nothing
    assert_eq!(execute_command("scroll_to b3", 100, 100, &mut s), -1);
    assert_eq!(execute_command("scroll_to B0", 100, 100, &mut s), -1);
    assert_eq!(execute_command("scroll_to B03", 100, 100, &mut s), -1);
    assert_eq!(s.start_row, 0);
    assert_eq!(s.start_col, 1);
    // the output toggles
    assert_eq!(execute_command("disable_output", 100, 100, &mut s), 0);
    assert_eq!(s.flag, 0);
    assert_eq!(execute_command("enable_output", 100, 100, &mut s), 0);
    assert_eq!(s.flag, 1);
}

#[test]
fn label_round_trip_through_format() {
    for &(row, col) in [(0usize, 0usize), (8, 25), (98, 26), (998, 18277), (41, 701)].iter() {
        let label = format!("{}{}", col_index_to_label(col), row + 1);
        assert_eq!(label_to_index(&label), Some((row, col)));
    }
}

#[test]
fn wrapping_arithmetic() {
    let mut s = sheet();
    assert_eq!(run(&mut s, "A1=2147483647"), 0);
    assert_eq!(run(&mut s, "A2=A1+1"), 0);
    assert_eq!(s.cell(1, 0).val, i32::MIN);
    assert_eq!(run(&mut s, "A3=2000000000*2"), 0);
    assert_eq!(s.cell(2, 0).val, 2_000_000_000i32.wrapping_mul(2));
}

#[test]
fn operator_precedence_is_first_match() {
    let mut s = sheet();
    // the split happens at `+` even though `*` comes first in the text,
    // leaving a malformed operand
    assert_eq!(run(&mut s, "A1=1*2+3"), -1);
    // a literal second operand may carry a sign
    assert_eq!(run(&mut s, "A1=5+-2"), 0);
    assert_eq!(s.cell(0, 0).val, 3);
}

#[test]
fn rebinding_drops_old_edges() {
    let mut s = sheet();
    assert_eq!(run(&mut s, "A1=1"), 0);
    assert_eq!(run(&mut s, "B1=A1"), 0);
    // B1 now reads A1; rebinding B1 to a literal must clear that edge,
    // so a later A1=B1 closes no loop
    assert_eq!(run(&mut s, "B1=7"), 0);
    assert_eq!(run(&mut s, "A1=B1"), 0);
    assert_eq!(s.cell(0, 0).val, 7);
}

#[test]
fn taint_still_produces_value() {
    let mut s = sheet();
    let row = 0;
    let col = 0;
    // a failed cell with a known value: the reference copies the value out
    // even though it reports the taint
    s.set_val(0, 1, 7); // B1
    s.set_status(0, 1, 1);
    let mut result = -99;
    assert_eq!(
        evaluate_expression("B1", 10, 10, &mut s, &mut result, &row, &col, 0),
        -2
    );
    assert_eq!(result, 7);
    // an aggregate over a range with a failed cell still computes the fold
    s.set_val(1, 1, 5); // B2
    result = -99;
    let w_row = 4;
    assert_eq!(
        evaluate_expression(
            "SUM(B1:B2)",
            10,
            10,
            &mut s,
            &mut result,
            &w_row,
            &col,
            0
        ),
        -2
    );
    assert_eq!(result, 12);
    // SLEEP on a failed cell copies the value and demands no blocking
    result = -99;
    assert_eq!(
        evaluate_expression(
            "SLEEP(B1)",
            10,
            10,
            &mut s,
            &mut result,
            &w_row,
            &col,
            0
        ),
        -2
    );
    assert_eq!(result, 7);
    assert_eq!(s.pending_sleep, 0);
    // a binary operation reports the taint without producing a value
    result = -99;
    assert_eq!(
        evaluate_expression(
            "B1+1",
            10,
            10,
            &mut s,
            &mut result,
            &w_row,
            &col,
            0
        ),
        -2
    );
    assert_eq!(result, -99);
}
