use brainfuck::engine::{execute, interpret, Machine, RunOutcome};
use brainfuck::errors::BfError;
use brainfuck::resolver::build_jump_table;
use brainfuck::semantics::TAPE_LEN;

const FUEL: u64 = 1_000_000;

const HELLO: &[u8] =
    b"++++++++[>++++[>++>+++>+++>+<<<<-]>+>+>->>+[<]<-]>>.>---.+++++++..+++.>>.<-.<.+++.------.--------.>>+.>++.";

fn run_halted(code: &[u8], input: &[u8]) -> Machine {
    match execute(&code.to_vec(), &input.to_vec(), FUEL) {
        Ok(RunOutcome::Halted(m)) => m,
        Ok(RunOutcome::OutOfFuel(_)) => panic!("run did not halt within the step budget"),
        Err(_) => panic!("program was rejected"),
    }
}

#[test]
fn pointer_wraps_backward_from_zero() {
    let m = run_halted(b"<", b"");
    assert_eq!(m.needle, TAPE_LEN - 1);
}

#[test]
fn pointer_wraps_forward_from_last_cell() {
    let m = run_halted(b"<>", b"");
    assert_eq!(m.needle, 0);
}

#[test]
fn pointer_moves_without_wrap() {
    let m = run_halted(b">>><", b"");
    assert_eq!(m.needle, 2);
}

#[test]
fn cell_wraps_down_from_zero() {
    let m = run_halted(b"-", b"");
    assert_eq!(m.tape[0], 255);
}

#[test]
fn cell_wraps_up_from_255() {
    let code = vec![b'+'; 256];
    let m = run_halted(&code, b"");
    assert_eq!(m.tape[0], 0);
}

#[test]
fn tape_starts_zeroed_and_has_fixed_size() {
    let m = run_halted(b"", b"");
    assert_eq!(m.tape.len(), TAPE_LEN);
    assert!(m.tape.iter().all(|&c| c == 0));
    assert_eq!(m.needle, 0);
    assert_eq!(m.output, Vec::<u8>::new());
}

#[test]
fn loop_scenario_emits_two_then_one() {
    let m = run_halted(b"++[-.]", b"");
    assert_eq!(m.output, vec![1u8, 0u8]);
    let out = interpret(&b"++[-.]".to_vec(), &Vec::new(), FUEL)
        .unwrap()
        .unwrap();
    assert_eq!(out, vec![1u8, 0u8, 10u8]);
}

#[test]
fn simple_loop_clears_cell() {
    let m = run_halted(b"+[-]", b"");
    assert_eq!(m.tape[0], 0);
    assert_eq!(m.output, Vec::<u8>::new());
}

#[test]
fn hello_world_end_to_end() {
    let out = interpret(&HELLO.to_vec(), &Vec::new(), FUEL).unwrap().unwrap();
    assert_eq!(out, b"Hello World!\n\n".to_vec());
}

#[test]
fn identical_runs_are_byte_identical() {
    let first = interpret(&HELLO.to_vec(), &Vec::new(), FUEL).unwrap().unwrap();
    let second = interpret(&HELLO.to_vec(), &Vec::new(), FUEL).unwrap().unwrap();
    assert_eq!(first, second);
    let in1 = run_halted(b",>,.<.", b"ab");
    let in2 = run_halted(b",>,.<.", b"ab");
    assert_eq!(in1.output, in2.output);
    assert_eq!(in1.tape, in2.tape);
}

#[test]
fn comment_only_program_prints_only_newline() {
    let code = b"a comment with no ops at all; just words and spaces";
    let out = interpret(&code.to_vec(), &Vec::new(), FUEL).unwrap().unwrap();
    assert_eq!(out, vec![10u8]);
}

#[test]
fn unmatched_close_is_unbalanced() {
    assert_eq!(
        interpret(&b"]".to_vec(), &Vec::new(), FUEL),
        Err(BfError::UnbalancedLoop)
    );
    assert_eq!(
        interpret(&b"+]".to_vec(), &Vec::new(), FUEL),
        Err(BfError::UnbalancedLoop)
    );
    assert_eq!(
        interpret(&b"[]]".to_vec(), &Vec::new(), FUEL),
        Err(BfError::UnbalancedLoop)
    );
}

#[test]
fn trailing_open_is_unbalanced() {
    assert_eq!(
        interpret(&b"[".to_vec(), &Vec::new(), FUEL),
        Err(BfError::UnbalancedLoop)
    );
    assert_eq!(
        interpret(&b"[][".to_vec(), &Vec::new(), FUEL),
        Err(BfError::UnbalancedLoop)
    );
}

#[test]
fn comma_reads_one_byte_per_instruction() {
    let m = run_halted(b",.>,.", b"AB");
    assert_eq!(m.output, vec![b'A', b'B']);
    assert_eq!(m.consumed, 2);
}

#[test]
fn comma_at_end_of_stream_stores_zero() {
    let m = run_halted(b"+,.", b"");
    assert_eq!(m.tape[0], 0);
    assert_eq!(m.output, vec![0u8]);
    assert_eq!(m.consumed, 0);
}

#[test]
fn jump_table_is_an_involution_on_brackets() {
    let code = b"[[]][]".to_vec();
    let table = build_jump_table(&code).unwrap();
    assert_eq!(table, vec![3, 2, 1, 0, 5, 4]);
    for p in 0..code.len() {
        assert_eq!(table[table[p]], p);
    }
}

#[test]
fn jump_table_keeps_sentinel_on_non_brackets() {
    let table = build_jump_table(&b"a[]".to_vec()).unwrap();
    assert_eq!(table, vec![0, 2, 1]);
}

#[test]
fn jump_table_rejects_unbalanced() {
    assert_eq!(build_jump_table(&b"][".to_vec()), Err(BfError::UnbalancedLoop));
    assert_eq!(build_jump_table(&b"[[]".to_vec()), Err(BfError::UnbalancedLoop));
}

#[test]
fn nonhalting_program_runs_out_of_fuel() {
    match execute(&b"+[]".to_vec(), &Vec::new(), 100) {
        Ok(RunOutcome::OutOfFuel(m)) => {
            assert_eq!(m.tape[0], 1);
            assert_eq!(m.output, Vec::<u8>::new());
        },
        _ => panic!("expected the step budget to run out"),
    }
    assert_eq!(interpret(&b"+[]".to_vec(), &Vec::new(), 100), Ok(None));
}

#[test]
fn empty_program_halts_with_zero_fuel() {
    match execute(&Vec::new(), &Vec::new(), 0) {
        Ok(RunOutcome::Halted(m)) => {
            assert_eq!(m.pc, 0);
            assert_eq!(m.output, Vec::<u8>::new());
        },
        _ => panic!("expected an immediate halt"),
    }
}

#[test]
fn skipped_loop_jumps_past_matching_bracket() {
    // cell 0 is zero, so the whole loop body (which would print) is skipped
    let m = run_halted(b"[.]+", b"");
    assert_eq!(m.output, Vec::<u8>::new());
    assert_eq!(m.tape[0], 1);
}

#[test]
fn nested_loops_transfer_value() {
    // 2 * 3 computed with a nested loop: cell2 = 6
    let m = run_halted(b"++[>+++<-]>.", b"");
    assert_eq!(m.output, vec![6u8]);
}
