use crate::instructions::{Instruction, Item};
use crate::program::{is_close, is_open, Program};
use vstd::pervasive::VecAdditionalExecFns;
use vstd::prelude::*;

verus! {

/// Number of byte cells on the tape: the full range of a 16-bit offset.
pub const TAPE_LEN: usize = 65536;

/// A runtime failure; execution aborts at the first one.
#[derive(Debug, PartialEq, Eq, Copy, Clone)]
pub enum RunError {
    /// The data pointer would have left the tape, at instruction `pc`.
    TapeBoundsViolation { pc: usize },
    /// An input instruction ran at `pc` with the input stream exhausted.
    InputExhausted { pc: usize },
}

/// The whole execution state, as the specification sees it: the next
/// instruction's position, the tape, the data pointer, the input still to be
/// read, and the output written so far.
#[verifier::ext_equal]
pub struct AbsState {
    pub pc: int,
    pub cells: Seq<u8>,
    pub ptr: int,
    pub input: Seq<u8>,
    pub output: Seq<u8>,
}

/// What one instruction does: a successor state, or a runtime failure.
pub enum StepResult {
    Next(AbsState),
    Fail(RunError),
}

/// What a bounded run reaches: the final state of a program that halted, a
/// runtime failure, or the state it is still in when the bound runs out.
pub enum RunResult {
    Done(AbsState),
    Fail(RunError),
    Running(AbsState),
}

/// A byte incremented modulo 256.
pub open spec fn wrap_inc(b: u8) -> u8 {
    if b == 255 {
        0
    } else {
        (b + 1) as u8
    }
}

/// A byte decremented modulo 256.
pub open spec fn wrap_dec(b: u8) -> u8 {
    if b == 0 {
        255
    } else {
        (b - 1) as u8
    }
}

/// One instruction of the execution semantics, at `s.pc`, which must lie
/// inside the program. Brackets move through the partner table `jumps`: an
/// open whose cell is zero moves to its partner close (whose zero cell then
/// falls through), a close whose cell is not zero moves to just after its
/// partner open, re-entering the loop body.
pub open spec fn spec_step(prog: Seq<Instruction>, jumps: Seq<usize>, s: AbsState) -> StepResult {
    match prog[s.pc].item {
        Item::MoveRight => if s.ptr + 1 < TAPE_LEN {
            StepResult::Next(AbsState { pc: s.pc + 1, ptr: s.ptr + 1, ..s })
        } else {
            StepResult::Fail(RunError::TapeBoundsViolation { pc: s.pc as usize })
        },
        Item::MoveLeft => if s.ptr >= 1 {
            StepResult::Next(AbsState { pc: s.pc + 1, ptr: s.ptr - 1, ..s })
        } else {
            StepResult::Fail(RunError::TapeBoundsViolation { pc: s.pc as usize })
        },
        Item::Increment => StepResult::Next(
            AbsState { pc: s.pc + 1, cells: s.cells.update(s.ptr, wrap_inc(s.cells[s.ptr])), ..s },
        ),
        Item::Decrement => StepResult::Next(
            AbsState { pc: s.pc + 1, cells: s.cells.update(s.ptr, wrap_dec(s.cells[s.ptr])), ..s },
        ),
        Item::Output => StepResult::Next(
            AbsState { pc: s.pc + 1, output: s.output.push(s.cells[s.ptr]), ..s },
        ),
        Item::Input => if s.input.len() > 0 {
            StepResult::Next(
                AbsState {
                    pc: s.pc + 1,
                    cells: s.cells.update(s.ptr, s.input[0]),
                    input: s.input.drop_first(),
                    ..s
                },
            )
        } else {
            StepResult::Fail(RunError::InputExhausted { pc: s.pc as usize })
        },
        Item::Open(_) => StepResult::Next(
            AbsState {
                pc: if s.cells[s.ptr] == 0 {
                    jumps[s.pc] as int
                } else {
                    s.pc + 1
                },
                ..s
            },
        ),
        Item::Close(_) => StepResult::Next(
            AbsState {
                pc: if s.cells[s.ptr] != 0 {
                    jumps[s.pc] as int + 1
                } else {
                    s.pc + 1
                },
                ..s
            },
        ),
    }
}

/// Run up to `fuel` instructions from `s`: the semantics of a whole
/// execution, one bound at a time. A program that never halts is `Running`
/// for every bound.
pub open spec fn spec_run(
    prog: Seq<Instruction>,
    jumps: Seq<usize>,
    s: AbsState,
    fuel: nat,
) -> RunResult
    decreases fuel,
{
    if s.pc >= prog.len() {
        RunResult::Done(s)
    } else if fuel == 0 {
        RunResult::Running(s)
    } else {
        match spec_step(prog, jumps, s) {
            StepResult::Next(s2) => spec_run(prog, jumps, s2, (fuel - 1) as nat),
            StepResult::Fail(e) => RunResult::Fail(e),
        }
    }
}

/// The state a fresh run starts from: a zeroed tape, pointer and program
/// counter at 0, all of `input` pending, nothing written.
pub open spec fn init_state(input: Seq<u8>) -> AbsState {
    AbsState {
        pc: 0,
        cells: Seq::new(TAPE_LEN as nat, |i: int| 0u8),
        ptr: 0,
        input,
        output: Seq::empty(),
    }
}

/// A step prefixed to a bounded run: running `fuel + 1` instructions from
/// `s` is one step to `s2`, then `fuel` instructions from there.
pub proof fn lemma_run_unfold(
    prog: Seq<Instruction>,
    jumps: Seq<usize>,
    s: AbsState,
    s2: AbsState,
    fuel: nat,
)
    requires
        s.pc < prog.len(),
        spec_step(prog, jumps, s) == StepResult::Next(s2),
    ensures
        spec_run(prog, jumps, s, fuel + 1) == spec_run(prog, jumps, s2, fuel),
{
}

/// Extending a still-running bounded run by one successful step.
pub proof fn lemma_run_extend_next(
    prog: Seq<Instruction>,
    jumps: Seq<usize>,
    s0: AbsState,
    fuel: nat,
    s: AbsState,
    s2: AbsState,
)
    requires
        spec_run(prog, jumps, s0, fuel) == RunResult::Running(s),
        spec_step(prog, jumps, s) == StepResult::Next(s2),
    ensures
        spec_run(prog, jumps, s0, fuel + 1) == if s2.pc >= prog.len() {
            RunResult::Done(s2)
        } else {
            RunResult::Running(s2)
        },
    decreases fuel,
{
    if s0.pc >= prog.len() {
        assert(false);
    } else if fuel == 0 {
        assert(s == s0);
        lemma_run_unfold(prog, jumps, s0, s2, 0);
    } else {
        match spec_step(prog, jumps, s0) {
            StepResult::Next(m) => {
                assert(spec_run(prog, jumps, m, (fuel - 1) as nat) == RunResult::Running(s));
                lemma_run_extend_next(prog, jumps, m, (fuel - 1) as nat, s, s2);
                lemma_run_unfold(prog, jumps, s0, m, fuel);
            },
            StepResult::Fail(_) => {
                assert(false);
            },
        }
    }
}

/// Extending a still-running bounded run by one failing step.
pub proof fn lemma_run_extend_fail(
    prog: Seq<Instruction>,
    jumps: Seq<usize>,
    s0: AbsState,
    fuel: nat,
    s: AbsState,
    e: RunError,
)
    requires
        spec_run(prog, jumps, s0, fuel) == RunResult::Running(s),
        spec_step(prog, jumps, s) == StepResult::Fail(e),
    ensures
        spec_run(prog, jumps, s0, fuel + 1) == RunResult::Fail(e),
    decreases fuel,
{
    if s0.pc >= prog.len() {
        assert(false);
    } else if fuel == 0 {
        assert(s == s0);
    } else {
        match spec_step(prog, jumps, s0) {
            StepResult::Next(m) => {
                assert(spec_run(prog, jumps, m, (fuel - 1) as nat) == RunResult::Running(s));
                lemma_run_extend_fail(prog, jumps, m, (fuel - 1) as nat, s, e);
                lemma_run_unfold(prog, jumps, s0, m, fuel);
            },
            StepResult::Fail(_) => {
                assert(false);
            },
        }
    }
}

/// Execution is deterministic: once a run has settled — halted or failed —
/// every large enough bound settles it the same way.
pub proof fn lemma_run_deterministic(
    prog: Seq<Instruction>,
    jumps: Seq<usize>,
    s: AbsState,
    f1: nat,
    f2: nat,
)
    requires
        !(spec_run(prog, jumps, s, f1) is Running),
        !(spec_run(prog, jumps, s, f2) is Running),
    ensures
        spec_run(prog, jumps, s, f1) == spec_run(prog, jumps, s, f2),
    decreases f1,
{
    if s.pc >= prog.len() {
    } else {
        match spec_step(prog, jumps, s) {
            StepResult::Next(m) => {
                lemma_run_deterministic(prog, jumps, m, (f1 - 1) as nat, (f2 - 1) as nat);
            },
            StepResult::Fail(_) => {},
        }
    }
}

/// The executable state of one run: tape, data pointer, program counter,
/// input with a cursor for how much is consumed, and the collected output.
pub struct Machine {
    pub cells: Vec<u8>,
    pub pointer: usize,
    pub pc: usize,
    pub input: Vec<u8>,
    pub in_pos: usize,
    pub output: Vec<u8>,
}

impl Machine {
    /// The tape has its fixed size, and pointer and input cursor are in range.
    pub open spec fn wf(self) -> bool {
        &&& self.cells@.len() == TAPE_LEN
        &&& self.pointer < TAPE_LEN
        &&& self.in_pos <= self.input@.len()
    }

    /// The state as the specification sees it.
    pub open spec fn abs(self) -> AbsState {
        AbsState {
            pc: self.pc as int,
            cells: self.cells@,
            ptr: self.pointer as int,
            input: self.input@.skip(self.in_pos as int),
            output: self.output@,
        }
    }

    /// A fresh machine: zeroed tape, everything at the start, `input` pending.
    pub fn new(input: Vec<u8>) -> (m: Machine)
        ensures
            m.wf(),
            m.abs() == init_state(input@),
    {
        let mut cells: Vec<u8> = Vec::new();
        while cells.len() < TAPE_LEN
            invariant
                cells@.len() <= TAPE_LEN,
                forall|i: int| 0 <= i < cells@.len() ==> cells@[i] == 0,
            decreases TAPE_LEN - cells@.len(),
        {
            cells.push(0);
        }
        let m = Machine { cells, pointer: 0, pc: 0, input, in_pos: 0, output: Vec::new() };
        proof {
            assert(m.abs().cells =~= init_state(m.input@).cells);
            assert(m.abs().input =~= m.input@);
            assert(m.abs() =~= init_state(m.input@));
        }
        m
    }

    /// Execute the single instruction at `pc`. `Ok(true)` means one step was
    /// taken, `Ok(false)` that the program has already halted; an error
    /// leaves the machine untouched.
    pub fn step(&mut self, prog: &Program) -> (r: Result<bool, RunError>)
        requires
            prog.wf(),
            old(self).wf(),
            old(self).pc <= prog.instructions@.len(),
        ensures
            final(self).wf(),
            final(self).pc <= prog.instructions@.len(),
            (match r {
                Ok(true) => old(self).pc < prog.instructions@.len() && spec_step(
                    prog.instructions@,
                    prog.jumps@,
                    old(self).abs(),
                ) == StepResult::Next(final(self).abs()),
                Ok(false) => old(self).pc == prog.instructions@.len() && *final(self) == *old(self),
                Err(e) => old(self).pc < prog.instructions@.len() && spec_step(
                    prog.instructions@,
                    prog.jumps@,
                    old(self).abs(),
                ) == StepResult::Fail(e) && *final(self) == *old(self),
            }),
    {
        let n = prog.instructions.len();
        if self.pc >= n {
            return Ok(false);
        }
        let ins = prog.instructions[self.pc];
        match ins.item {
            Item::MoveRight => {
                if self.pointer + 1 < TAPE_LEN {
                    self.pointer = self.pointer + 1;
                    self.pc = self.pc + 1;
                    Ok(true)
                } else {
                    Err(RunError::TapeBoundsViolation { pc: self.pc })
                }
            },
            Item::MoveLeft => {
                if self.pointer >= 1 {
                    self.pointer = self.pointer - 1;
                    self.pc = self.pc + 1;
                    Ok(true)
                } else {
                    Err(RunError::TapeBoundsViolation { pc: self.pc })
                }
            },
            Item::Increment => {
                let v = self.cells[self.pointer];
                self.cells.set(self.pointer, v.wrapping_add(1));
                self.pc = self.pc + 1;
                proof {
                    assert(v.wrapping_add(1) == wrap_inc(v));
                }
                Ok(true)
            },
            Item::Decrement => {
                let v = self.cells[self.pointer];
                self.cells.set(self.pointer, v.wrapping_sub(1));
                self.pc = self.pc + 1;
                proof {
                    assert(v.wrapping_sub(1) == wrap_dec(v));
                }
                Ok(true)
            },
            Item::Output => {
                let v = self.cells[self.pointer];
                self.output.push(v);
                self.pc = self.pc + 1;
                Ok(true)
            },
            Item::Input => {
                if self.in_pos < self.input.len() {
                    let b = self.input[self.in_pos];
                    self.cells.set(self.pointer, b);
                    self.in_pos = self.in_pos + 1;
                    self.pc = self.pc + 1;
                    proof {
                        assert(old(self).abs().input[0] == b);
                        assert(self.input@.skip(self.in_pos as int) =~= old(
                            self,
                        ).abs().input.drop_first());
                    }
                    Ok(true)
                } else {
                    proof {
                        assert(old(self).abs().input.len() == 0);
                    }
                    Err(RunError::InputExhausted { pc: self.pc })
                }
            },
            Item::Open(_) => {
                proof {
                    assert(is_open(prog.instructions@[self.pc as int]));
                }
                if self.cells[self.pointer] == 0 {
                    self.pc = prog.jumps[self.pc];
                } else {
                    self.pc = self.pc + 1;
                }
                Ok(true)
            },
            Item::Close(_) => {
                proof {
                    assert(is_close(prog.instructions@[self.pc as int]));
                }
                if self.cells[self.pointer] != 0 {
                    self.pc = prog.jumps[self.pc] + 1;
                } else {
                    self.pc = self.pc + 1;
                }
                Ok(true)
            },
        }
    }

    /// Run until the program halts, a runtime error aborts it, or `budget`
    /// instructions have been executed. `Ok(true)` means the program halted,
    /// `Ok(false)` that the budget ran out first; a caller that wants the
    /// language's unbounded semantics calls again with the same machine.
    /// The result is exactly what the semantics says a `budget`-bounded run
    /// reaches from the starting state.
    pub fn run(&mut self, prog: &Program, budget: u64) -> (r: Result<bool, RunError>)
        requires
            prog.wf(),
            old(self).wf(),
            old(self).pc <= prog.instructions@.len(),
        ensures
            final(self).wf(),
            final(self).pc <= prog.instructions@.len(),
            (match r {
                Ok(true) => final(self).pc == prog.instructions@.len() && spec_run(
                    prog.instructions@,
                    prog.jumps@,
                    old(self).abs(),
                    budget as nat,
                ) == RunResult::Done(final(self).abs()),
                Ok(false) => final(self).pc < prog.instructions@.len() && spec_run(
                    prog.instructions@,
                    prog.jumps@,
                    old(self).abs(),
                    budget as nat,
                ) == RunResult::Running(final(self).abs()),
                Err(e) => spec_run(
                    prog.instructions@,
                    prog.jumps@,
                    old(self).abs(),
                    budget as nat,
                ) == RunResult::Fail(e),
            }),
    {
        let ghost ps = prog.instructions@;
        let ghost js = prog.jumps@;
        let ghost s0 = old(self).abs();
        let n = prog.instructions.len();
        let mut k: u64 = 0;
        while k < budget
            invariant
                prog.wf(),
                self.wf(),
                self.pc <= n,
                n == ps.len(),
                ps == prog.instructions@,
                js == prog.jumps@,
                s0 == old(self).abs(),
                k <= budget,
                spec_run(ps, js, s0, k as nat) == if self.pc < ps.len() {
                    RunResult::Running(self.abs())
                } else {
                    RunResult::Done(self.abs())
                },
            decreases budget - k,
        {
            let ghost pre = self.abs();
            match self.step(prog) {
                Ok(false) => {
                    proof {
                        lemma_run_absorbs(ps, js, s0, k as nat, budget as nat);
                    }
                    return Ok(true);
                },
                Ok(true) => {
                    proof {
                        lemma_run_extend_next(ps, js, s0, k as nat, pre, self.abs());
                    }
                    k = k + 1;
                },
                Err(e) => {
                    proof {
                        lemma_run_extend_fail(ps, js, s0, k as nat, pre, e);
                        lemma_run_absorbs(ps, js, s0, k as nat + 1, budget as nat);
                    }
                    return Err(e);
                },
            }
        }
        if self.pc == n {
            Ok(true)
        } else {
            Ok(false)
        }
    }
}

/// A settled run stays settled: once a bound reaches a halt or a failure,
/// every larger bound reaches the same one.
pub proof fn lemma_run_absorbs(
    prog: Seq<Instruction>,
    jumps: Seq<usize>,
    s0: AbsState,
    f1: nat,
    f2: nat,
)
    requires
        f1 <= f2,
        !(spec_run(prog, jumps, s0, f1) is Running),
    ensures
        spec_run(prog, jumps, s0, f2) == spec_run(prog, jumps, s0, f1),
    decreases f1,
{
    if s0.pc >= prog.len() {
    } else {
        match spec_step(prog, jumps, s0) {
            StepResult::Next(m) => {
                lemma_run_absorbs(prog, jumps, m, (f1 - 1) as nat, (f2 - 1) as nat);
            },
            StepResult::Fail(_) => {},
        }
    }
}

/// Run `prog` on a fresh machine fed `input`, for at most `budget`
/// instructions: the final machine of a halted run, the machine a run out of
/// budget stopped in, or the first runtime error.
pub fn execute(prog: &Program, input: Vec<u8>, budget: u64) -> (r: Result<
    (Machine, bool),
    RunError,
>)
    requires
        prog.wf(),
    ensures
        (match r {
            Ok((m, halted)) => m.wf() && spec_run(
                prog.instructions@,
                prog.jumps@,
                init_state(input@),
                budget as nat,
            ) == (if halted {
                RunResult::Done(m.abs())
            } else {
                RunResult::Running(m.abs())
            }) && (halted <==> m.abs().pc == prog.instructions@.len()),
            Err(e) => spec_run(prog.instructions@, prog.jumps@, init_state(input@), budget as nat)
                == RunResult::Fail(e),
        }),
{
    let mut m = Machine::new(input);
    match m.run(prog, budget) {
        Ok(halted) => Ok((m, halted)),
        Err(e) => Err(e),
    }
}

} // verus!
