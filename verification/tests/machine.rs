use cortexforge::compiler::Compiler;
use cortexforge::interpreter::{Interpreter, RunOutcome, MAX_MEMORY};
use cortexforge::ir::{Error, IntermRep, Operation, Token};

const FUEL: u64 = 1_000_000;

fn translated(src: &str) -> IntermRep {
    let mut ir = IntermRep::new();
    ir.from_source_string(String::from(src))
        .expect("translation should succeed");
    ir
}

fn run_to_halt(ir: IntermRep, input: &[u8]) -> Vec<u8> {
    let mut machine = Interpreter::new(ir);
    match machine.run(input, FUEL) {
        RunOutcome::Halted(out) => out,
        RunOutcome::Fault(e) => panic!("unexpected fault: {:?}", e),
        RunOutcome::Running(_) => panic!("step budget exhausted"),
    }
}

#[test]
fn end_to_end_scenario_outputs_seven() {
    let out = run_to_halt(translated("++>+++++[<+>-]<."), &[]);
    assert_eq!(out, vec![7]);
}

#[test]
fn loop_with_zero_cell_is_skipped() {
    let out = run_to_halt(translated("[.]"), &[]);
    assert_eq!(out, vec![]);
}

#[test]
fn increment_wraps_at_cell_width() {
    // 255 + 1 wraps to 0
    let mut ir = IntermRep::new();
    ir.operations.push(Operation { token: Token::INC, count: 255, match_addr: 0 });
    ir.operations.push(Operation { token: Token::INC, count: 1, match_addr: 0 });
    ir.operations.push(Operation { token: Token::OUTPUT, count: 1, match_addr: 0 });
    assert_eq!(run_to_halt(ir, &[]), vec![0]);
}

#[test]
fn decrement_wraps_at_cell_width() {
    // 0 - 1 wraps to 255
    let out = run_to_halt(translated("-."), &[]);
    assert_eq!(out, vec![255]);
}

#[test]
fn pointer_wraps_left_of_the_first_cell() {
    // moving left of index 0 lands on the last cell, capacity - 1
    assert_eq!(MAX_MEMORY, 30000);
    let mut ir = IntermRep::new();
    ir.operations.push(Operation { token: Token::LEFT, count: 1, match_addr: 0 });
    ir.operations.push(Operation { token: Token::INC, count: 9, match_addr: 0 });
    ir.operations.push(Operation { token: Token::OUTPUT, count: 1, match_addr: 0 });
    // one step right of capacity - 1 wraps back to index 0
    ir.operations.push(Operation { token: Token::RIGHT, count: 1, match_addr: 0 });
    ir.operations.push(Operation { token: Token::OUTPUT, count: 1, match_addr: 0 });
    assert_eq!(run_to_halt(ir, &[]), vec![9, 0]);
}

#[test]
fn pointer_wrap_round_trip() {
    // "<" wraps to the top of the tape and ">" wraps back to cell 0
    let out = run_to_halt(translated("+<>."), &[]);
    assert_eq!(out, vec![1]);
}

#[test]
fn rle_equivalence_on_outputs() {
    // one operation with count 3 against three operations with count 1
    let mut compact = IntermRep::new();
    compact.operations.push(Operation { token: Token::INC, count: 3, match_addr: 0 });
    compact.operations.push(Operation { token: Token::OUTPUT, count: 2, match_addr: 0 });
    let mut units = IntermRep::new();
    for _ in 0..3 {
        units.operations.push(Operation { token: Token::INC, count: 1, match_addr: 0 });
    }
    for _ in 0..2 {
        units.operations.push(Operation { token: Token::OUTPUT, count: 1, match_addr: 0 });
    }
    assert_eq!(run_to_halt(compact, &[]), run_to_halt(units, &[]));
}

#[test]
fn rle_equivalence_on_input() {
    // a compressed read run stores the last consumed byte, as unit reads do
    let compact = run_to_halt(translated(",,,."), &[10, 20, 30]);
    let units = {
        let mut ir = IntermRep::new();
        for _ in 0..3 {
            ir.operations.push(Operation { token: Token::INPUT, count: 1, match_addr: 0 });
        }
        ir.operations.push(Operation { token: Token::OUTPUT, count: 1, match_addr: 0 });
        run_to_halt(ir, &[10, 20, 30])
    };
    assert_eq!(compact, vec![30]);
    assert_eq!(units, vec![30]);
}

#[test]
fn input_is_stored_and_echoed() {
    let out = run_to_halt(translated(",."), &[65]);
    assert_eq!(out, vec![65]);
}

#[test]
fn exhausted_input_faults() {
    let mut interp = Interpreter::new(translated(","));
    match interp.run(&[], FUEL) {
        RunOutcome::Fault(e) => assert_eq!(e, Error::InputExhausted),
        _ => panic!("expected a fault"),
    }
}

#[test]
fn input_fault_after_other_work() {
    let mut interp = Interpreter::new(translated("+.,"));
    match interp.run(&[], FUEL) {
        RunOutcome::Fault(e) => assert_eq!(e, Error::InputExhausted),
        _ => panic!("expected a fault"),
    }
}

#[test]
fn non_terminating_program_runs_out_of_budget() {
    let mut interp = Interpreter::new(translated("+[]"));
    match interp.run(&[], 1000) {
        RunOutcome::Running(out) => assert_eq!(out, vec![]),
        _ => panic!("expected the budget to end the run"),
    }
}

#[test]
fn nested_loops_multiply() {
    // 3 * 4 via two nested count-down loops, result in cell 2
    let out = run_to_halt(translated("+++[>++++[>+<-]<-]>>."), &[]);
    assert_eq!(out, vec![12]);
}

#[test]
fn jump_past_the_end_terminates() {
    // a decoded program may point its jump past the last operation
    let mut ir = IntermRep::new();
    ir.operations.push(Operation { token: Token::LOOP, count: 1, match_addr: 99 });
    let out = run_to_halt(ir, &[]);
    assert_eq!(out, vec![]);
}

#[test]
fn compiler_holds_the_finalized_program() {
    let ir = translated("+[-]");
    let expected = ir.operations.clone();
    let compiler = Compiler::new(ir);
    assert_eq!(*compiler.operations(), expected);
}
