//! The tape machine: a fixed-size byte tape and a cursor into it, mutated by
//! an operation sequence. Pointer moves and cell arithmetic wrap silently;
//! reading past the end of the input faults.

use vstd::arithmetic::div_mod::{
    lemma_add_mod_noop, lemma_mod_add_multiples_vanish, lemma_sub_mod_noop,
    lemma_sub_mod_noop_right,
};
use vstd::prelude::*;

use crate::ir::{is_loop_token, Error, IntermRep, Operation, Token};

verus! {

/// Number of cells on the tape.
pub const MAX_MEMORY: usize = 30000;

/// The abstract machine state between two executed operations: the
/// instruction cursor, the tape and the cell cursor, how much of the input
/// stream was consumed, the output emitted so far, and whether a read
/// faulted on exhausted input.
#[verifier::ext_equal]
pub struct MachineState {
    pub op_index: nat,
    pub cell_index: nat,
    pub tape: Seq<u8>,
    pub consumed: nat,
    pub output: Seq<u8>,
    pub failed: bool,
}

/// Execution stops at a fault or when the instruction cursor runs past the
/// end of the operation sequence.
pub open spec fn is_terminal(ops: Seq<Operation>, s: MachineState) -> bool {
    s.failed || s.op_index >= ops.len()
}

/// A cell after adding a run of increments, wrapping modulo the cell width.
pub open spec fn wrap_add_cell(c: u8, n: u32) -> u8 {
    (((c + n) % 256) as u8)
}

/// A cell after subtracting a run of decrements, wrapping modulo the cell
/// width.
pub open spec fn wrap_sub_cell(c: u8, n: u32) -> u8 {
    (((c - n) % 256) as u8)
}

/// One execution step. A terminal state steps to itself.
pub open spec fn machine_step(ops: Seq<Operation>, input: Seq<u8>, s: MachineState) -> MachineState {
    if is_terminal(ops, s) {
        s
    } else {
        let op = ops[s.op_index as int];
        let cell = s.tape[s.cell_index as int];
        match op.token {
            Token::INC => MachineState {
                op_index: s.op_index + 1,
                tape: s.tape.update(s.cell_index as int, wrap_add_cell(cell, op.count)),
                ..s
            },
            Token::DEC => MachineState {
                op_index: s.op_index + 1,
                tape: s.tape.update(s.cell_index as int, wrap_sub_cell(cell, op.count)),
                ..s
            },
            Token::LEFT => MachineState {
                op_index: s.op_index + 1,
                cell_index: (((s.cell_index - op.count) % (MAX_MEMORY as int)) as nat),
                ..s
            },
            Token::RIGHT => MachineState {
                op_index: s.op_index + 1,
                cell_index: (((s.cell_index + op.count) % (MAX_MEMORY as int)) as nat),
                ..s
            },
            Token::LOOP => MachineState {
                op_index: if cell == 0 {
                    op.match_addr as nat
                } else {
                    s.op_index + 1
                },
                ..s
            },
            Token::POOL => MachineState {
                op_index: if cell != 0 {
                    op.match_addr as nat
                } else {
                    s.op_index + 1
                },
                ..s
            },
            Token::OUTPUT => MachineState {
                op_index: s.op_index + 1,
                output: s.output + Seq::new(op.count as nat, |k: int| cell),
                ..s
            },
            Token::INPUT => {
                if op.count == 0 {
                    MachineState { op_index: s.op_index + 1, ..s }
                } else if s.consumed + op.count <= input.len() {
                    MachineState {
                        op_index: s.op_index + 1,
                        tape: s.tape.update(
                            s.cell_index as int,
                            input[s.consumed + op.count - 1],
                        ),
                        consumed: (s.consumed + op.count) as nat,
                        ..s
                    }
                } else {
                    MachineState { failed: true, ..s }
                }
            },
        }
    }
}

/// The state after `k` execution steps.
pub open spec fn machine_steps(
    ops: Seq<Operation>,
    input: Seq<u8>,
    s: MachineState,
    k: nat,
) -> MachineState
    decreases k,
{
    if k == 0 {
        s
    } else {
        machine_step(ops, input, machine_steps(ops, input, s, (k - 1) as nat))
    }
}

/// The effect of executing one operation of the given token and count on
/// its own, with the instruction cursor put back where it was: run-length
/// compression only shortens programs, so only the cursor is excused from
/// the comparison.
pub open spec fn op_apply(t: Token, n: u32, input: Seq<u8>, s: MachineState) -> MachineState {
    let stepped = machine_step(
        seq![Operation { token: t, count: n, match_addr: 0 }],
        input,
        MachineState { op_index: 0, ..s },
    );
    MachineState { op_index: s.op_index, ..stepped }
}

/// The effect of executing `k` run-length-one operations of the same token,
/// one after the other.
pub open spec fn unit_applies(t: Token, k: nat, input: Seq<u8>, s: MachineState) -> MachineState
    decreases k,
{
    if k == 0 {
        s
    } else {
        op_apply(t, 1, input, unit_applies(t, (k - 1) as nat, input, s))
    }
}

proof fn lemma_compose_inc(n: u32, input: Seq<u8>, s: MachineState)
    requires
        n >= 1,
        !s.failed,
        s.cell_index < s.tape.len(),
    ensures
        op_apply(Token::INC, n, input, s) =~= op_apply(
            Token::INC,
            1,
            input,
            op_apply(Token::INC, (n - 1) as u32, input, s),
        ),
{
    let c = s.tape[s.cell_index as int];
    let prev = op_apply(Token::INC, (n - 1) as u32, input, s);
    assert(prev.tape[s.cell_index as int] == wrap_add_cell(c, (n - 1) as u32));
    assert((((c + n - 1) % 256) + 1) % 256 == (c + n) % 256) by {
        lemma_add_mod_noop((c + n - 1) as int, 1, 256);
    }
    assert(prev.tape.update(s.cell_index as int, wrap_add_cell(c, n)) =~= s.tape.update(
        s.cell_index as int,
        wrap_add_cell(c, n),
    ));
}

proof fn lemma_compose_dec(n: u32, input: Seq<u8>, s: MachineState)
    requires
        n >= 1,
        !s.failed,
        s.cell_index < s.tape.len(),
    ensures
        op_apply(Token::DEC, n, input, s) =~= op_apply(
            Token::DEC,
            1,
            input,
            op_apply(Token::DEC, (n - 1) as u32, input, s),
        ),
{
    let c = s.tape[s.cell_index as int];
    let prev = op_apply(Token::DEC, (n - 1) as u32, input, s);
    assert(prev.tape[s.cell_index as int] == wrap_sub_cell(c, (n - 1) as u32));
    assert((((c - n + 1) % 256) - 1) % 256 == (c - n) % 256) by {
        lemma_sub_mod_noop((c - n + 1) as int, 1, 256);
    }
    assert(prev.tape.update(s.cell_index as int, wrap_sub_cell(c, n)) =~= s.tape.update(
        s.cell_index as int,
        wrap_sub_cell(c, n),
    ));
}

proof fn lemma_compose_left(n: u32, input: Seq<u8>, s: MachineState)
    requires
        n >= 1,
        !s.failed,
        s.cell_index < s.tape.len(),
    ensures
        op_apply(Token::LEFT, n, input, s) =~= op_apply(
            Token::LEFT,
            1,
            input,
            op_apply(Token::LEFT, (n - 1) as u32, input, s),
        ),
{
    let m = MAX_MEMORY as int;
    assert((((s.cell_index - n + 1) % m) - 1) % m == (s.cell_index - n) % m) by {
        lemma_sub_mod_noop((s.cell_index - n + 1) as int, 1, m);
    }
}

proof fn lemma_compose_right(n: u32, input: Seq<u8>, s: MachineState)
    requires
        n >= 1,
        !s.failed,
        s.cell_index < s.tape.len(),
    ensures
        op_apply(Token::RIGHT, n, input, s) =~= op_apply(
            Token::RIGHT,
            1,
            input,
            op_apply(Token::RIGHT, (n - 1) as u32, input, s),
        ),
{
    let m = MAX_MEMORY as int;
    assert((((s.cell_index + n - 1) % m) + 1) % m == (s.cell_index + n) % m) by {
        lemma_add_mod_noop((s.cell_index + n - 1) as int, 1, m);
    }
}

proof fn lemma_compose_output(n: u32, input: Seq<u8>, s: MachineState)
    requires
        n >= 1,
        !s.failed,
        s.cell_index < s.tape.len(),
    ensures
        op_apply(Token::OUTPUT, n, input, s) =~= op_apply(
            Token::OUTPUT,
            1,
            input,
            op_apply(Token::OUTPUT, (n - 1) as u32, input, s),
        ),
{
    let c = s.tape[s.cell_index as int];
    let prev = op_apply(Token::OUTPUT, (n - 1) as u32, input, s);
    assert(prev.output + Seq::new(1, |k: int| c) =~= s.output + Seq::new(n as nat, |k: int| c));
}

proof fn lemma_compose_input(n: u32, input: Seq<u8>, s: MachineState)
    requires
        n >= 1,
        !s.failed,
        s.cell_index < s.tape.len(),
        s.consumed + n <= input.len(),
    ensures
        op_apply(Token::INPUT, n, input, s) =~= op_apply(
            Token::INPUT,
            1,
            input,
            op_apply(Token::INPUT, (n - 1) as u32, input, s),
        ),
{
    let prev = op_apply(Token::INPUT, (n - 1) as u32, input, s);
    assert(prev.tape.update(s.cell_index as int, input[s.consumed + n - 1]) =~= s.tape.update(
        s.cell_index as int,
        input[s.consumed + n - 1],
    ));
}

/// An operation with run length `n` behaves as `n` copies of the same
/// operation with run length one: identically when it goes through, and
/// with the same observable output when a read faults partway.
proof fn lemma_op_apply_units(t: Token, n: u32, input: Seq<u8>, s: MachineState)
    requires
        !is_loop_token(t),
        !s.failed,
        s.tape.len() == MAX_MEMORY,
        s.cell_index < s.tape.len(),
        s.consumed <= input.len(),
    ensures
        ({
            let compound = op_apply(t, n, input, s);
            let units = unit_applies(t, n as nat, input, s);
            &&& (!compound.failed ==> units =~= compound)
            &&& (compound.failed ==> units.failed && units.output == compound.output)
        }),
    decreases n,
{
    let compound = op_apply(t, n, input, s);
    if n == 0 {
        assert(compound =~= s) by {
            if t == Token::INC || t == Token::DEC {
                assert(s.tape.update(s.cell_index as int, s.tape[s.cell_index as int]) =~= s.tape);
            }
            if t == Token::OUTPUT {
                assert(s.output + Seq::new(0, |k: int| s.tape[s.cell_index as int]) =~= s.output);
            }
        }
    } else {
        lemma_op_apply_units(t, (n - 1) as u32, input, s);
        let prev = op_apply(t, (n - 1) as u32, input, s);
        let units_prev = unit_applies(t, (n - 1) as nat, input, s);
        assert(unit_applies(t, n as nat, input, s) == op_apply(t, 1, input, units_prev));
        match t {
            Token::INC => lemma_compose_inc(n, input, s),
            Token::DEC => lemma_compose_dec(n, input, s),
            Token::LEFT => lemma_compose_left(n, input, s),
            Token::RIGHT => lemma_compose_right(n, input, s),
            Token::OUTPUT => lemma_compose_output(n, input, s),
            Token::INPUT => {
                if s.consumed + n <= input.len() {
                    lemma_compose_input(n, input, s);
                } else if s.consumed + n - 1 <= input.len() {
                    // the last unit read is the one that faults
                    assert(op_apply(t, 1, input, prev).failed);
                    assert(op_apply(t, 1, input, prev).output == s.output);
                } else {
                    // an earlier unit read already faulted, and a faulted
                    // state absorbs further operations
                    assert(prev.failed);
                    assert(op_apply(t, 1, input, units_prev) == units_prev);
                }
            },
            Token::LOOP => {
                assert(false);
            },
            Token::POOL => {
                assert(false);
            },
        }
    }
}

/// Run-length equivalence: one step on a non-loop operation of run length
/// `n` leaves everything but the instruction cursor exactly as `n` unit
/// operations of the same token would; if the step faults on exhausted
/// input, the unit chain faults too, with the same output.
pub proof fn lemma_rle_equivalence(ops: Seq<Operation>, input: Seq<u8>, s: MachineState)
    requires
        !s.failed,
        s.op_index < ops.len(),
        !is_loop_token(ops[s.op_index as int].token),
        s.tape.len() == MAX_MEMORY,
        s.cell_index < s.tape.len(),
        s.consumed <= input.len(),
    ensures
        ({
            let op = ops[s.op_index as int];
            let after = machine_step(ops, input, s);
            let units = unit_applies(op.token, op.count as nat, input, s);
            &&& (!after.failed ==> after =~= MachineState {
                op_index: (s.op_index + 1) as nat,
                ..units
            })
            &&& (after.failed ==> units.failed && units.output == after.output)
        }),
{
    let op = ops[s.op_index as int];
    lemma_op_apply_units(op.token, op.count, input, s);
    let after = machine_step(ops, input, s);
    let compound = op_apply(op.token, op.count, input, s);
    assert(!after.failed ==> after =~= MachineState {
        op_index: (s.op_index + 1) as nat,
        ..compound
    });
    assert(after.failed ==> compound.failed && compound.output == after.output);
}

/// How a bounded execution ended: the machine halted on its own, faulted on
/// exhausted input, or was still running when the step budget ran out. The
/// carried bytes are the output emitted so far.
pub enum RunOutcome {
    Halted(Vec<u8>),
    Fault(Error),
    Running(Vec<u8>),
}

/// Executes an operation sequence against a fresh zeroed tape.
pub struct Interpreter {
    ir: IntermRep,
    memory: Vec<u8>,
    pointer: usize,
}

impl Interpreter {
    /// The operation sequence under execution.
    pub closed spec fn program(&self) -> Seq<Operation> {
        self.ir@
    }

    /// The tape contents.
    pub closed spec fn tape(&self) -> Seq<u8> {
        self.memory@
    }

    /// The cell the tape cursor rests on.
    pub closed spec fn cursor(&self) -> nat {
        self.pointer as nat
    }

    /// The tape has its fixed capacity and the cursor stays on it.
    pub open spec fn wf(&self) -> bool {
        self.tape().len() == MAX_MEMORY && self.cursor() < MAX_MEMORY
    }

    /// Where every execution of this machine begins.
    pub open spec fn start_state(&self) -> MachineState {
        MachineState {
            op_index: 0,
            cell_index: self.cursor(),
            tape: self.tape(),
            consumed: 0,
            output: Seq::empty(),
            failed: false,
        }
    }

    pub fn new(ir: IntermRep) -> (r: Interpreter)
        ensures
            r.wf(),
            r.program() == ir@,
            r.cursor() == 0,
            r.tape() == Seq::new(MAX_MEMORY as nat, |i: int| 0u8),
    {
        Interpreter { ir, memory: vec![0u8; MAX_MEMORY], pointer: 0 }
    }

    /// What a finished call left behind: after `k` steps the machine is in
    /// state `fin`; the tape and cursor carry over into the interpreter, and
    /// the outcome reports the output or the fault.
    pub open spec fn outcome_matches(
        pre: Interpreter,
        input: Seq<u8>,
        k: nat,
        post: Interpreter,
        r: RunOutcome,
    ) -> bool {
        let fin = machine_steps(pre.program(), input, pre.start_state(), k);
        &&& post.program() == pre.program()
        &&& post.tape() == fin.tape
        &&& post.cursor() == fin.cell_index
        &&& match r {
            RunOutcome::Halted(out) => !fin.failed && fin.op_index >= pre.program().len() && out@
                == fin.output,
            RunOutcome::Fault(e) => fin.failed && e == Error::InputExhausted,
            RunOutcome::Running(out) => !is_terminal(pre.program(), fin) && out@ == fin.output,
        }
    }

    /// Execute the program for at most `fuel` steps against the given input
    /// stream. Each step is one operation, however long its run length. A
    /// `Running` outcome says the budget — never the program — ended the
    /// call, after exactly `fuel` steps.
    pub fn run(&mut self, input: &[u8], fuel: u64) -> (r: RunOutcome)
        requires
            old(self).wf(),
        ensures
            final(self).wf(),
            exists|k: nat|
                k <= fuel && #[trigger] Self::outcome_matches(
                    *old(self),
                    input@,
                    k,
                    *final(self),
                    r,
                ),
            r is Running ==> Self::outcome_matches(
                *old(self),
                input@,
                fuel as nat,
                *final(self),
                r,
            ),
    {
        let ops_len = self.ir.operations.len();
        let mut op_pointer: usize = 0;
        let mut out: Vec<u8> = Vec::new();
        let mut in_pos: usize = 0;
        let mut steps: u64 = 0;
        while steps < fuel && op_pointer < ops_len
            invariant
                self.wf(),
                self.program() == old(self).program(),
                ops_len == self.program().len(),
                steps <= fuel,
                in_pos <= input@.len(),
                machine_steps(old(self).program(), input@, old(self).start_state(), steps as nat)
                    =~= (MachineState {
                    op_index: op_pointer as nat,
                    cell_index: self.cursor(),
                    tape: self.tape(),
                    consumed: in_pos as nat,
                    output: out@,
                    failed: false,
                }),
            decreases fuel - steps,
        {
            let ghost st = MachineState {
                op_index: op_pointer as nat,
                cell_index: self.cursor(),
                tape: self.tape(),
                consumed: in_pos as nat,
                output: out@,
                failed: false,
            };
            let op = self.ir.operations[op_pointer];
            match op.token {
                Token::INC => {
                    let cell = self.memory[self.pointer];
                    let v = ((cell as u64) + (op.count as u64)) % 256;
                    self.memory[self.pointer] = v as u8;
                    op_pointer = op_pointer + 1;
                },
                Token::DEC => {
                    let cell = self.memory[self.pointer];
                    let d = (op.count as u64) % 256;
                    let v = ((cell as u64) + 256 - d) % 256;
                    self.memory[self.pointer] = v as u8;
                    proof {
                        lemma_sub_mod_noop_right(cell as int, op.count as int, 256);
                        lemma_mod_add_multiples_vanish(cell - (op.count as int) % 256, 256);
                        assert(v as u8 == wrap_sub_cell(cell, op.count));
                    }
                    op_pointer = op_pointer + 1;
                },
                Token::LEFT => {
                    let d = (op.count as u64) % (MAX_MEMORY as u64);
                    let p = ((self.pointer as u64) + (MAX_MEMORY as u64) - d) % (MAX_MEMORY
                        as u64);
                    proof {
                        lemma_sub_mod_noop_right(
                            self.pointer as int,
                            op.count as int,
                            MAX_MEMORY as int,
                        );
                        lemma_mod_add_multiples_vanish(
                            self.pointer - (op.count as int) % (MAX_MEMORY as int),
                            MAX_MEMORY as int,
                        );
                    }
                    self.pointer = p as usize;
                    op_pointer = op_pointer + 1;
                },
                Token::RIGHT => {
                    let p = ((self.pointer as u64) + (op.count as u64)) % (MAX_MEMORY as u64);
                    self.pointer = p as usize;
                    op_pointer = op_pointer + 1;
                },
                Token::LOOP => {
                    if self.memory[self.pointer] == 0 {
                        op_pointer = op.match_addr as usize;
                    } else {
                        op_pointer = op_pointer + 1;
                    }
                },
                Token::POOL => {
                    if self.memory[self.pointer] != 0 {
                        op_pointer = op.match_addr as usize;
                    } else {
                        op_pointer = op_pointer + 1;
                    }
                },
                Token::OUTPUT => {
                    let cell = self.memory[self.pointer];
                    let ghost out0 = out@;
                    let mut emitted: u32 = 0;
                    while emitted < op.count
                        invariant
                            emitted <= op.count,
                            out@ == out0 + Seq::new(emitted as nat, |k: int| cell),
                        decreases op.count - emitted,
                    {
                        out.push(cell);
                        emitted = emitted + 1;
                        proof {
                            assert(out@ =~= out0 + Seq::new(emitted as nat, |k: int| cell));
                        }
                    }
                    op_pointer = op_pointer + 1;
                },
                Token::INPUT => {
                    if op.count > 0 {
                        let cnt = op.count as usize;
                        if cnt <= input.len() - in_pos {
                            in_pos = in_pos + cnt;
                            self.memory[self.pointer] = input[in_pos - 1];
                        } else {
                            proof {
                                let fin = machine_steps(
                                    old(self).program(),
                                    input@,
                                    old(self).start_state(),
                                    (steps + 1) as nat,
                                );
                                assert(fin =~= MachineState { failed: true, ..st });
                                assert(Self::outcome_matches(
                                    *old(self),
                                    input@,
                                    (steps + 1) as nat,
                                    *self,
                                    RunOutcome::Fault(Error::InputExhausted),
                                ));
                            }
                            return RunOutcome::Fault(Error::InputExhausted);
                        }
                    }
                    op_pointer = op_pointer + 1;
                },
            }
            steps = steps + 1;
            proof {
                assert(machine_steps(
                    old(self).program(),
                    input@,
                    old(self).start_state(),
                    steps as nat,
                ) =~= (MachineState {
                    op_index: op_pointer as nat,
                    cell_index: self.cursor(),
                    tape: self.tape(),
                    consumed: in_pos as nat,
                    output: out@,
                    failed: false,
                }));
            }
        }
        if op_pointer < ops_len {
            assert(Self::outcome_matches(
                *old(self),
                input@,
                fuel as nat,
                *self,
                RunOutcome::Running(out),
            ));
            RunOutcome::Running(out)
        } else {
            assert(Self::outcome_matches(
                *old(self),
                input@,
                steps as nat,
                *self,
                RunOutcome::Halted(out),
            ));
            RunOutcome::Halted(out)
        }
    }
}

} // verus!
