//! The mathematical model of the machine: one tape, two pointers, and a
//! small-step transition function over program text, jump table and the
//! input stream read so far.

use vstd::prelude::*;

verus! {

/// Number of cells on the tape.
pub const TAPE_LEN: usize = 30000;

/// Instruction byte `>`.
pub const OP_RIGHT: u8 = 62;

/// Instruction byte `<`.
pub const OP_LEFT: u8 = 60;

/// Instruction byte `+`.
pub const OP_INC: u8 = 43;

/// Instruction byte `-`.
pub const OP_DEC: u8 = 45;

/// Instruction byte `.`.
pub const OP_OUT: u8 = 46;

/// Instruction byte `,`.
pub const OP_IN: u8 = 44;

/// Instruction byte `[`.
pub const OP_OPEN: u8 = 91;

/// Instruction byte `]`.
pub const OP_CLOSE: u8 = 93;

/// The whole machine state at one instant of a run.
pub ghost struct State {
    /// The byte cells, always exactly `TAPE_LEN` of them.
    pub tape: Seq<u8>,
    /// The data pointer: an index into `tape`.
    pub needle: nat,
    /// The instruction pointer: an index into the program text.
    pub pc: nat,
    /// How many bytes of the input stream have been consumed.
    pub in_pos: nat,
    /// Every byte emitted so far, in order.
    pub output: Seq<u8>,
}

/// The state every run starts from: zeroed tape, both pointers at 0,
/// nothing read, nothing written.
pub open spec fn init_state() -> State {
    State {
        tape: Seq::new(TAPE_LEN as nat, |i: int| 0u8),
        needle: 0,
        pc: 0,
        in_pos: 0,
        output: Seq::empty(),
    }
}

/// A state whose tape has the fixed length and whose needle is on the tape.
pub open spec fn wf_state(st: State) -> bool {
    &&& st.tape.len() == TAPE_LEN
    &&& st.needle < TAPE_LEN
}

/// A jump table fit for `code`: one entry per program position, every entry
/// a program position.
pub open spec fn wf_table(code: Seq<u8>, table: Seq<usize>) -> bool {
    &&& table.len() == code.len()
    &&& forall|p: int| 0 <= p < table.len() ==> (#[trigger] table[p]) < code.len()
}

/// Whether byte `c` is one of the eight instruction characters.
pub open spec fn is_instruction(c: u8) -> bool {
    c == OP_RIGHT || c == OP_LEFT || c == OP_INC || c == OP_DEC || c == OP_OUT || c == OP_IN
        || c == OP_OPEN || c == OP_CLOSE
}

/// The data pointer after `>`: forward, wrapping past the last cell to 0.
pub open spec fn next_needle(n0: nat) -> nat {
    if n0 + 1 == TAPE_LEN {
        0
    } else {
        n0 + 1
    }
}

/// The data pointer after `<`: backward, wrapping past 0 to the last cell.
pub open spec fn prev_needle(n0: nat) -> nat {
    if n0 == 0 {
        (TAPE_LEN - 1) as nat
    } else {
        (n0 - 1) as nat
    }
}

/// A cell after `+`: increment modulo 256.
pub open spec fn cell_inc(v: u8) -> u8 {
    if v == 255 {
        0
    } else {
        (v + 1) as u8
    }
}

/// A cell after `-`: decrement modulo 256.
pub open spec fn cell_dec(v: u8) -> u8 {
    if v == 0 {
        255
    } else {
        (v - 1) as u8
    }
}

/// The byte a `,` stores: the next unread input byte, or 0 once the
/// stream is exhausted.
pub open spec fn input_byte(input: Seq<u8>, in_pos: nat) -> u8 {
    if in_pos < input.len() {
        input[in_pos as int]
    } else {
        0u8
    }
}

/// One step of the machine. When the instruction pointer has reached the end
/// of the program the state is a fixpoint; otherwise the instruction at `pc`
/// is executed and `pc` advances (for `[` and `]`, possibly through the jump
/// table, resuming just past the matching bracket).
pub open spec fn step(code: Seq<u8>, table: Seq<usize>, input: Seq<u8>, st: State) -> State {
    if st.pc >= code.len() {
        st
    } else {
        let c = code[st.pc as int];
        if c == OP_RIGHT {
            State { needle: next_needle(st.needle), pc: st.pc + 1, ..st }
        } else if c == OP_LEFT {
            State { needle: prev_needle(st.needle), pc: st.pc + 1, ..st }
        } else if c == OP_INC {
            State {
                tape: st.tape.update(st.needle as int, cell_inc(st.tape[st.needle as int])),
                pc: st.pc + 1,
                ..st
            }
        } else if c == OP_DEC {
            State {
                tape: st.tape.update(st.needle as int, cell_dec(st.tape[st.needle as int])),
                pc: st.pc + 1,
                ..st
            }
        } else if c == OP_OUT {
            State { output: st.output.push(st.tape[st.needle as int]), pc: st.pc + 1, ..st }
        } else if c == OP_IN {
            State {
                tape: st.tape.update(st.needle as int, input_byte(input, st.in_pos)),
                in_pos: if st.in_pos < input.len() {
                    st.in_pos + 1
                } else {
                    st.in_pos
                },
                pc: st.pc + 1,
                ..st
            }
        } else if c == OP_OPEN {
            if st.tape[st.needle as int] == 0 {
                State { pc: (table[st.pc as int] + 1) as nat, ..st }
            } else {
                State { pc: st.pc + 1, ..st }
            }
        } else if c == OP_CLOSE {
            if st.tape[st.needle as int] != 0 {
                State { pc: (table[st.pc as int] + 1) as nat, ..st }
            } else {
                State { pc: st.pc + 1, ..st }
            }
        } else {
            State { pc: st.pc + 1, ..st }
        }
    }
}

/// The state after `n` steps from `st`.
pub open spec fn steps(code: Seq<u8>, table: Seq<usize>, input: Seq<u8>, st: State, n: nat) -> State
    decreases n,
{
    if n == 0 {
        st
    } else {
        step(code, table, input, steps(code, table, input, st, (n - 1) as nat))
    }
}

/// Stepping distributes over addition: `a + b` steps are `a` steps then `b`.
pub proof fn lemma_steps_add(
    code: Seq<u8>,
    table: Seq<usize>,
    input: Seq<u8>,
    st: State,
    a: nat,
    b: nat,
)
    ensures
        steps(code, table, input, st, a + b) == steps(
            code,
            table,
            input,
            steps(code, table, input, st, a),
            b,
        ),
    decreases b,
{
    if b > 0 {
        lemma_steps_add(code, table, input, st, a, (b - 1) as nat);
    }
}

/// A halted state (instruction pointer at the end of the program) never
/// changes again, however many further steps are taken.
pub proof fn lemma_halted_stable(
    code: Seq<u8>,
    table: Seq<usize>,
    input: Seq<u8>,
    st: State,
    n: nat,
)
    requires
        st.pc >= code.len(),
    ensures
        steps(code, table, input, st, n) == st,
    decreases n,
{
    if n > 0 {
        lemma_halted_stable(code, table, input, st, (n - 1) as nat);
    }
}

/// Pointer wraparound: with the needle at 0 a `<` moves it to the last cell,
/// and with the needle at the last cell a `>` moves it to 0.
pub proof fn lemma_pointer_wraparound(code: Seq<u8>, table: Seq<usize>, input: Seq<u8>, st: State)
    requires
        wf_state(st),
        st.pc < code.len(),
    ensures
        code[st.pc as int] == OP_LEFT && st.needle == 0 ==> step(code, table, input, st).needle
            == TAPE_LEN - 1,
        code[st.pc as int] == OP_RIGHT && st.needle == TAPE_LEN - 1 ==> step(
            code,
            table,
            input,
            st,
        ).needle == 0,
{
}

/// Cell wraparound: a `+` on a cell holding 255 yields 0, and a `-` on a
/// cell holding 0 yields 255.
pub proof fn lemma_cell_wraparound(code: Seq<u8>, table: Seq<usize>, input: Seq<u8>, st: State)
    requires
        wf_state(st),
        st.pc < code.len(),
    ensures
        code[st.pc as int] == OP_INC && st.tape[st.needle as int] == 255 ==> step(
            code,
            table,
            input,
            st,
        ).tape[st.needle as int] == 0,
        code[st.pc as int] == OP_DEC && st.tape[st.needle as int] == 0 ==> step(
            code,
            table,
            input,
            st,
        ).tape[st.needle as int] == 255,
{
}

} // verus!
