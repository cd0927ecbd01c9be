//! The execution engine: the fetch-execute loop that drives a program
//! against the tape, proved to follow the small-step semantics of
//! `semantics::step` exactly, step for step.

use vstd::prelude::*;
use crate::errors::BfError;
use crate::resolver::{balanced, build_jump_table, jump_table};
use crate::semantics::{
    init_state, is_instruction, step, steps, wf_table, State, OP_CLOSE, OP_DEC, OP_IN, OP_INC,
    OP_LEFT, OP_OPEN, OP_OUT, OP_RIGHT, TAPE_LEN,
};

verus! {

/// The newline byte the engine appends when a run completes.
pub const NEWLINE: u8 = 10;

/// The machine after `n` steps of `code` on a fresh tape, reading `input`
/// and using the jump table the resolver builds for `code`.
pub open spec fn machine_after(code: Seq<u8>, input: Seq<u8>, n: nat) -> State {
    steps(code, jump_table(code), input, init_state(), n)
}

/// Whether the run of `code` on `input` has halted after exactly `n` steps:
/// the instruction pointer stands at the end of the program.
pub open spec fn halts_at(code: Seq<u8>, input: Seq<u8>, n: nat) -> bool {
    machine_after(code, input, n).pc == code.len()
}

/// The observable machine a run ends in: the tape, the data pointer, how
/// much input was consumed, and everything written so far.
pub struct Machine {
    /// The byte cells, exactly `TAPE_LEN` of them.
    pub tape: Vec<u8>,
    /// The data pointer.
    pub needle: usize,
    /// The instruction pointer where the run stopped.
    pub pc: usize,
    /// How many bytes of the input were consumed.
    pub consumed: usize,
    /// Every byte the program emitted, in order.
    pub output: Vec<u8>,
}

impl Machine {
    /// This machine shows exactly the abstract state `st`.
    pub open spec fn corresponds(self, st: State) -> bool {
        &&& self.tape@ == st.tape
        &&& self.needle as nat == st.needle
        &&& self.pc as nat == st.pc
        &&& self.consumed as nat == st.in_pos
        &&& self.output@ == st.output
    }
}

/// How a run that got past the resolver ended.
pub enum RunOutcome {
    /// The instruction pointer reached the end of the program within the
    /// step budget.
    Halted(Machine),
    /// The step budget ran out first; the machine is the state at that
    /// point of the still-running computation.
    OutOfFuel(Machine),
}

/// Run `code` against a fresh zeroed tape, reading from `input`, for at
/// most `fuel` instruction steps.
///
/// Fails exactly on unbalanced programs. A `Halted` machine is the state of
/// the first halt of the small-step semantics, reached within the budget; an
/// `OutOfFuel` machine is the state after exactly `fuel` steps of a run that
/// never halts within the budget.
pub fn execute(code: &Vec<u8>, input: &Vec<u8>, fuel: u64) -> (r: Result<RunOutcome, BfError>)
    ensures
        r is Err <==> !balanced(code@),
        r matches Err(e) ==> e == BfError::UnbalancedLoop,
        r matches Ok(RunOutcome::Halted(m)) ==> exists|k: nat|
            k <= fuel && #[trigger] halts_at(code@, input@, k) && m.corresponds(
                machine_after(code@, input@, k),
            ),
        r matches Ok(RunOutcome::OutOfFuel(m)) ==> (forall|k: nat|
            k <= fuel ==> !halts_at(code@, input@, k)) && m.corresponds(
            machine_after(code@, input@, fuel as nat),
        ),
{
    let table = match build_jump_table(code) {
        Ok(t) => t,
        Err(e) => {
            return Err(e);
        },
    };
    let code_len: usize = code.len();
    let mut tape: Vec<u8> = vec![0u8; TAPE_LEN];
    let mut needle: usize = 0;
    let mut pc: usize = 0;
    let mut in_pos: usize = 0;
    let mut output: Vec<u8> = Vec::new();
    let mut used: u64 = 0;
    let ghost mut n: nat = 0;
    proof {
        assert(tape@ =~= init_state().tape);
        assert(output@ =~= init_state().output);
        assert(machine_after(code@, input@, 0) == (State {
            tape: tape@,
            needle: needle as nat,
            pc: pc as nat,
            in_pos: in_pos as nat,
            output: output@,
        }));
    }
    while pc != code_len && used < fuel
        invariant
            code_len == code@.len(),
            balanced(code@),
            table@ == jump_table(code@),
            wf_table(code@, table@),
            tape@.len() == TAPE_LEN,
            needle < TAPE_LEN,
            pc <= code_len,
            in_pos <= input@.len(),
            n == used,
            used <= fuel,
            machine_after(code@, input@, n) == (State {
                tape: tape@,
                needle: needle as nat,
                pc: pc as nat,
                in_pos: in_pos as nat,
                output: output@,
            }),
            forall|k: nat| k < n ==> !halts_at(code@, input@, k),
        decreases fuel - used,
    {
        let ghost st0 = State {
            tape: tape@,
            needle: needle as nat,
            pc: pc as nat,
            in_pos: in_pos as nat,
            output: output@,
        };
        let c: u8 = code[pc];
        if c == OP_RIGHT {
            needle = if needle == TAPE_LEN - 1 {
                0
            } else {
                needle + 1
            };
            pc += 1;
        } else if c == OP_LEFT {
            needle = if needle == 0 {
                TAPE_LEN - 1
            } else {
                needle - 1
            };
            pc += 1;
        } else if c == OP_INC {
            let v: u8 = tape[needle];
            tape[needle] = if v == 255 {
                0
            } else {
                v + 1
            };
            pc += 1;
        } else if c == OP_DEC {
            let v: u8 = tape[needle];
            tape[needle] = if v == 0 {
                255
            } else {
                v - 1
            };
            pc += 1;
        } else if c == OP_OUT {
            let v: u8 = tape[needle];
            output.push(v);
            pc += 1;
        } else if c == OP_IN {
            let v: u8;
            if in_pos < input.len() {
                v = input[in_pos];
                in_pos += 1;
            } else {
                v = 0;
            }
            tape[needle] = v;
            pc += 1;
        } else if c == OP_OPEN {
            if tape[needle] == 0 {
                pc = table[pc] + 1;
            } else {
                pc += 1;
            }
        } else if c == OP_CLOSE {
            if tape[needle] != 0 {
                pc = table[pc] + 1;
            } else {
                pc += 1;
            }
        } else {
            pc += 1;
        }
        used += 1;
        proof {
            assert(step(code@, table@, input@, st0) == (State {
                tape: tape@,
                needle: needle as nat,
                pc: pc as nat,
                in_pos: in_pos as nat,
                output: output@,
            }));
            assert(machine_after(code@, input@, n + 1) == step(
                code@,
                table@,
                input@,
                machine_after(code@, input@, n),
            ));
            n = n + 1;
        }
    }
    let m = Machine { tape, needle, pc, consumed: in_pos, output };
    if pc == code_len {
        proof {
            assert(halts_at(code@, input@, n));
            assert(m.corresponds(machine_after(code@, input@, n)));
        }
        Ok(RunOutcome::Halted(m))
    } else {
        proof {
            assert(n == fuel);
            assert forall|k: nat| k <= fuel implies !halts_at(code@, input@, k) by {
                if k == n {
                    assert(machine_after(code@, input@, n).pc == pc);
                }
            };
        }
        Ok(RunOutcome::OutOfFuel(m))
    }
}

/// Run `code` as `interpret` does and return what the run prints: every
/// byte the program emitted, then the engine's own trailing newline.
///
/// `Ok(Some(out))` is a completed run; `Ok(None)` means the step budget ran
/// out before the program halted; `Err(UnbalancedLoop)` exactly when the
/// brackets do not pair up.
pub fn interpret(code: &Vec<u8>, input: &Vec<u8>, fuel: u64) -> (r: Result<Option<Vec<u8>>, BfError>)
    ensures
        r is Err <==> !balanced(code@),
        r matches Err(e) ==> e == BfError::UnbalancedLoop,
        r matches Ok(o) ==> (o is Some <==> exists|k: nat|
            k <= fuel && #[trigger] halts_at(code@, input@, k)),
        r matches Ok(o) ==> (o matches Some(out) ==> exists|k: nat|
            k <= fuel && #[trigger] halts_at(code@, input@, k) && out@ == machine_after(
                code@,
                input@,
                k,
            ).output.push(NEWLINE)),
{
    match execute(code, input, fuel) {
        Err(e) => Err(e),
        Ok(RunOutcome::OutOfFuel(_)) => Ok(None),
        Ok(RunOutcome::Halted(m)) => {
            let mut out = m.output;
            out.push(NEWLINE);
            Ok(Some(out))
        },
    }
}

/// Law: a run is deterministic. If the machine halts after `n1` steps and
/// after `n2` steps, the two halted states are one and the same, tape,
/// pointers and output alike: identical program text and identical input
/// contents admit exactly one halted state.
pub proof fn lemma_run_deterministic(code: Seq<u8>, input: Seq<u8>, n1: nat, n2: nat)
    requires
        halts_at(code, input, n1),
        halts_at(code, input, n2),
    ensures
        machine_after(code, input, n1) == machine_after(code, input, n2),
{
    if n1 <= n2 {
        lemma_halted_run_stable(code, input, n1, n2);
    } else {
        lemma_halted_run_stable(code, input, n2, n1);
    }
}

/// Once a run has halted it stays in that exact state for all further steps.
proof fn lemma_halted_run_stable(code: Seq<u8>, input: Seq<u8>, a: nat, b: nat)
    requires
        a <= b,
        halts_at(code, input, a),
    ensures
        machine_after(code, input, b) == machine_after(code, input, a),
{
    crate::semantics::lemma_steps_add(
        code,
        jump_table(code),
        input,
        init_state(),
        a,
        (b - a) as nat,
    );
    crate::semantics::lemma_halted_stable(
        code,
        jump_table(code),
        input,
        machine_after(code, input, a),
        (b - a) as nat,
    );
}

/// After `n` steps of a program with no instruction characters the machine
/// has only moved the instruction pointer: `n` positions, nothing else.
proof fn lemma_comment_prefix(code: Seq<u8>, input: Seq<u8>, n: nat)
    requires
        n <= code.len(),
        forall|p: int| 0 <= p < code.len() ==> !is_instruction(#[trigger] code[p]),
    ensures
        machine_after(code, input, n) == (State { pc: n, ..init_state() }),
    decreases n,
{
    if n > 0 {
        lemma_comment_prefix(code, input, (n - 1) as nat);
    }
}

/// All bracket counts of a program with no instruction characters are zero.
proof fn lemma_comment_counts(code: Seq<u8>, i: int)
    requires
        i <= code.len(),
        forall|p: int| 0 <= p < code.len() ==> !is_instruction(#[trigger] code[p]),
    ensures
        crate::resolver::opens(code, i) == 0,
        crate::resolver::closes(code, i) == 0,
    decreases i,
{
    if i > 0 {
        lemma_comment_counts(code, i - 1);
    }
}

/// Law: a program of only non-instruction characters is balanced, runs for
/// exactly one step per character without ever touching tape, input or
/// output, and halts with an empty output: all such a run prints is the
/// engine's trailing newline.
pub proof fn lemma_comment_only_program(code: Seq<u8>, input: Seq<u8>)
    requires
        forall|p: int| 0 <= p < code.len() ==> !is_instruction(#[trigger] code[p]),
    ensures
        balanced(code),
        halts_at(code, input, code.len()),
        machine_after(code, input, code.len()).output == Seq::<u8>::empty(),
        machine_after(code, input, code.len()).tape == init_state().tape,
        forall|k: nat| k < code.len() ==> !halts_at(code, input, k),
{
    assert forall|j: int| 0 <= j <= code.len() implies #[trigger] crate::resolver::closes(code, j)
        <= crate::resolver::opens(code, j) by {
        lemma_comment_counts(code, j);
    };
    lemma_comment_counts(code, code.len() as int);
    lemma_comment_prefix(code, input, code.len());
    assert forall|k: nat| k < code.len() implies !halts_at(code, input, k) by {
        lemma_comment_prefix(code, input, k);
    };
}

} // verus!
