use tapelang::machine::{execute, Machine, RunError, TAPE_LEN};
use tapelang::program::Program;

const BUDGET: u64 = 1_000_000;

fn run_program(src: &str, input: Vec<u8>) -> Machine {
    let program = Program::new(src).expect("the program must parse");
    let (machine, halted) = execute(&program, input, BUDGET).expect("the program must run");
    assert!(halted, "the program must halt within the budget");
    machine
}

#[test]
fn fresh_machine_is_zeroed() {
    let machine = Machine::new(vec![]);
    assert_eq!(machine.cells.len(), TAPE_LEN);
    assert_eq!(machine.pointer, 0);
    assert_eq!(machine.pc, 0);
    assert!(machine.cells.iter().all(|c| *c == 0));
    assert!(machine.output.is_empty());
}

#[test]
fn single_step_increments_a_cell() {
    let program = Program::new("+").expect("parses");
    let mut machine = Machine::new(vec![]);
    assert_eq!(machine.step(&program), Ok(true));
    assert_eq!(machine.cells[0], 1);
    assert_eq!(machine.pc, 1);
    assert_eq!(machine.step(&program), Ok(false));
}

#[test]
fn increments_then_output_prints_the_count() {
    let machine = run_program("+++++++.", vec![]);
    assert_eq!(machine.output, vec![7]);
    assert_eq!(machine.cells[0], 7);
}

#[test]
fn output_of_a_fresh_cell_is_zero() {
    let machine = run_program(".", vec![]);
    assert_eq!(machine.output, vec![0]);
}

#[test]
fn increments_wrap_modulo_256() {
    let src = format!("{}.", "+".repeat(256));
    let machine = run_program(&src, vec![]);
    assert_eq!(machine.output, vec![0]);
    let src = format!("{}.", "+".repeat(300));
    let machine = run_program(&src, vec![]);
    assert_eq!(machine.output, vec![44]);
}

#[test]
fn decrement_wraps_below_zero() {
    let machine = run_program("-.", vec![]);
    assert_eq!(machine.output, vec![255]);
}

#[test]
fn clearing_loop_zeroes_the_cell() {
    let machine = run_program("+++[-]", vec![]);
    assert_eq!(machine.cells[0], 0);
    let machine = run_program("[-]", vec![]);
    assert_eq!(machine.cells[0], 0);
}

#[test]
fn zero_guarded_loop_skips_its_body() {
    let machine = run_program("[>+++<].", vec![]);
    assert_eq!(machine.output, vec![0]);
    assert_eq!(machine.cells[0], 0);
    assert_eq!(machine.cells[1], 0);
    assert_eq!(machine.pointer, 0);
}

#[test]
fn nested_loops_multiply() {
    let machine = run_program("+++[>++<-]", vec![]);
    assert_eq!(machine.cells[0], 0);
    assert_eq!(machine.cells[1], 6);
}

#[test]
fn move_and_add_pattern() {
    let machine = run_program("++>+++++[<+>-]", vec![]);
    assert_eq!(machine.cells[0], 7);
    assert_eq!(machine.cells[1], 0);
    assert_eq!(machine.pointer, 1);
}

#[test]
fn input_is_stored_and_echoed() {
    let machine = run_program(",.", vec![65]);
    assert_eq!(machine.output, vec![65]);
    assert_eq!(machine.cells[0], 65);
}

#[test]
fn input_bytes_are_consumed_in_order() {
    let machine = run_program(",>,>,.<.<.", vec![1, 2, 3]);
    assert_eq!(machine.output, vec![3, 2, 1]);
}

#[test]
fn exhausted_input_is_fatal() {
    let program = Program::new(",").expect("parses");
    assert_eq!(execute(&program, vec![], BUDGET).err(), Some(RunError::InputExhausted { pc: 0 }));
    let program = Program::new(",,").expect("parses");
    assert_eq!(
        execute(&program, vec![9], BUDGET).err(),
        Some(RunError::InputExhausted { pc: 1 })
    );
}

#[test]
fn moving_left_of_the_tape_is_fatal() {
    let program = Program::new("<").expect("parses");
    assert_eq!(
        execute(&program, vec![], BUDGET).err(),
        Some(RunError::TapeBoundsViolation { pc: 0 })
    );
}

#[test]
fn moving_past_the_last_cell_is_fatal() {
    let src = ">".repeat(TAPE_LEN);
    let program = Program::new(&src).expect("parses");
    assert_eq!(
        execute(&program, vec![], BUDGET).err(),
        Some(RunError::TapeBoundsViolation { pc: TAPE_LEN - 1 })
    );
}

#[test]
fn reaching_the_last_cell_is_allowed() {
    let src = format!("{}+.", ">".repeat(TAPE_LEN - 1));
    let machine = run_program(&src, vec![]);
    assert_eq!(machine.output, vec![1]);
    assert_eq!(machine.pointer, TAPE_LEN - 1);
}

#[test]
fn a_spent_budget_reports_still_running() {
    let program = Program::new("+[]").expect("parses");
    let (machine, halted) = execute(&program, vec![], 1000).expect("no runtime error");
    assert!(!halted);
    assert!(machine.pc < 3);
}

#[test]
fn a_paused_run_can_be_resumed() {
    let program = Program::new("++++.").expect("parses");
    let mut machine = Machine::new(vec![]);
    let halted = machine.run(&program, 2).expect("no runtime error");
    assert!(!halted);
    assert_eq!(machine.pc, 2);
    let halted = machine.run(&program, BUDGET).expect("no runtime error");
    assert!(halted);
    assert_eq!(machine.output, vec![4]);
}

#[test]
fn hello_world_program_prints_its_text() {
    let src = "++++++++[>++++[>++>+++>+++>+<<<<-]>+>+>->>+[<]<-]>>.>---.+++++++..+++.>>.<-.<.+++.------.--------.>>+.>++.";
    let machine = run_program(src, vec![]);
    assert_eq!(machine.output, b"Hello World!\n".to_vec());
}
