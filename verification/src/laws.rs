use crate::instructions::{Instruction, Item};
use crate::machine::{
    lemma_run_unfold, spec_run, spec_step, wrap_dec, wrap_inc, AbsState, RunResult, StepResult,
};
use crate::program::{is_close, is_match, is_open};
use vstd::arithmetic::div_mod::lemma_add_mod_noop_right;
use vstd::prelude::*;

verus! {

/// A zero-guarded loop never runs its body: from an open bracket whose cell
/// is zero, one step moves to the matching close and one more falls through
/// it, so execution resumes exactly at the instruction after the matching
/// close, with tape, pointer, input and output untouched.
pub proof fn lemma_zero_guard_skips(prog: Seq<Instruction>, jumps: Seq<usize>, s: AbsState)
    requires
        0 <= s.pc < prog.len(),
        is_open(prog[s.pc]),
        jumps.len() == prog.len(),
        is_match(prog, s.pc, jumps[s.pc] as int),
        0 <= s.ptr < s.cells.len(),
        s.cells[s.ptr] == 0,
    ensures
        spec_step(prog, jumps, s) == StepResult::Next(AbsState { pc: jumps[s.pc] as int, ..s }),
        spec_step(prog, jumps, AbsState { pc: jumps[s.pc] as int, ..s }) == StepResult::Next(
            AbsState { pc: jumps[s.pc] as int + 1, ..s },
        ),
{
    let s1 = AbsState { pc: jumps[s.pc] as int, ..s };
    assert(is_close(prog[s1.pc]));
}

/// The clearing loop: the three-instruction program `[ - ]` decrements the
/// current cell from any starting value `v` down to zero — running its body
/// `v` times — then halts just past the close, touching nothing else.
pub proof fn lemma_clear_loop(prog: Seq<Instruction>, jumps: Seq<usize>, s: AbsState, v: u8)
    requires
        prog.len() == 3,
        is_open(prog[0]),
        prog[1].item == Item::Decrement,
        is_close(prog[2]),
        jumps.len() == 3,
        jumps[0] == 2,
        jumps[2] == 0,
        s.pc == 0,
        0 <= s.ptr < s.cells.len(),
        s.cells[s.ptr] == v,
    ensures
        exists|fuel: nat|
            spec_run(prog, jumps, s, fuel) == RunResult::Done(
                AbsState { pc: 3, cells: s.cells.update(s.ptr, 0u8), ..s },
            ),
{
    let target = AbsState { pc: 3, cells: s.cells.update(s.ptr, 0u8), ..s };
    if v == 0 {
        let s1 = AbsState { pc: 2, ..s };
        let s2 = AbsState { pc: 3, ..s };
        assert(spec_step(prog, jumps, s) == StepResult::Next(s1));
        assert(spec_step(prog, jumps, s1) == StepResult::Next(s2));
        lemma_run_unfold(prog, jumps, s, s1, 1);
        lemma_run_unfold(prog, jumps, s1, s2, 0);
        assert(spec_run(prog, jumps, s, 2) == RunResult::Done(s2));
        assert(s.cells.update(s.ptr, 0u8) =~= s.cells);
        assert(target =~= s2);
    } else {
        let s1 = AbsState { pc: 1, ..s };
        assert(spec_step(prog, jumps, s) == StepResult::Next(s1));
        lemma_clear_loop_body(prog, jumps, s1, v);
        let f = choose|fuel: nat|
            spec_run(prog, jumps, s1, fuel) == RunResult::Done(
                AbsState { pc: 3, cells: s1.cells.update(s1.ptr, 0u8), ..s1 },
            );
        assert(spec_run(prog, jumps, s1, f) == RunResult::Done(
            AbsState { pc: 3, cells: s1.cells.update(s1.ptr, 0u8), ..s1 },
        ));
        lemma_run_unfold(prog, jumps, s, s1, f);
        assert(AbsState { pc: 3, cells: s1.cells.update(s1.ptr, 0u8), ..s1 } =~= target);
        assert(spec_run(prog, jumps, s, f + 1) == RunResult::Done(target));
    }
}

/// Inside the clearing loop, from the decrement with the cell at `w >= 1`:
/// the loop body runs `w` more times and leaves the cell at zero.
proof fn lemma_clear_loop_body(prog: Seq<Instruction>, jumps: Seq<usize>, s: AbsState, w: u8)
    requires
        prog.len() == 3,
        is_open(prog[0]),
        prog[1].item == Item::Decrement,
        is_close(prog[2]),
        jumps.len() == 3,
        jumps[0] == 2,
        jumps[2] == 0,
        s.pc == 1,
        0 <= s.ptr < s.cells.len(),
        s.cells[s.ptr] == w,
        w >= 1,
    ensures
        exists|fuel: nat|
            spec_run(prog, jumps, s, fuel) == RunResult::Done(
                AbsState { pc: 3, cells: s.cells.update(s.ptr, 0u8), ..s },
            ),
    decreases w,
{
    let target = AbsState { pc: 3, cells: s.cells.update(s.ptr, 0u8), ..s };
    let c1 = s.cells.update(s.ptr, wrap_dec(w));
    assert(wrap_dec(w) == (w - 1) as u8);
    let s1 = AbsState { pc: 2, cells: c1, ..s };
    assert(spec_step(prog, jumps, s) == StepResult::Next(s1));
    if w == 1 {
        let s2 = AbsState { pc: 3, cells: c1, ..s };
        assert(spec_step(prog, jumps, s1) == StepResult::Next(s2));
        lemma_run_unfold(prog, jumps, s, s1, 1);
        lemma_run_unfold(prog, jumps, s1, s2, 0);
        assert(spec_run(prog, jumps, s, 2) == RunResult::Done(s2));
        assert(c1 =~= s.cells.update(s.ptr, 0u8));
        assert(target =~= s2);
    } else {
        let s2 = AbsState { pc: 1, cells: c1, ..s };
        assert(spec_step(prog, jumps, s1) == StepResult::Next(s2));
        lemma_clear_loop_body(prog, jumps, s2, (w - 1) as u8);
        let f = choose|fuel: nat|
            spec_run(prog, jumps, s2, fuel) == RunResult::Done(
                AbsState { pc: 3, cells: s2.cells.update(s2.ptr, 0u8), ..s2 },
            );
        assert(spec_run(prog, jumps, s2, f) == RunResult::Done(
            AbsState { pc: 3, cells: s2.cells.update(s2.ptr, 0u8), ..s2 },
        ));
        lemma_run_unfold(prog, jumps, s1, s2, f);
        lemma_run_unfold(prog, jumps, s, s1, f + 1);
        assert(s2.cells.update(s2.ptr, 0u8) =~= s.cells.update(s.ptr, 0u8));
        assert(AbsState { pc: 3, cells: s2.cells.update(s2.ptr, 0u8), ..s2 } =~= target);
        assert(spec_run(prog, jumps, s, f + 2) == RunResult::Done(target));
    }
}

/// The state a block of `k` increments leaves behind: the program counter
/// advanced by `k` and the current cell raised by `k`, modulo 256.
spec fn inc_target(s: AbsState, k: nat) -> AbsState {
    AbsState { pc: s.pc + k, cells: s.cells.update(s.ptr, ((s.cells[s.ptr] + k) % 256) as u8), ..s }
}

/// A block of `k` increments in a row: running them advances the program
/// counter by `k` and adds `k` to the current cell, modulo 256.
proof fn lemma_inc_block(prog: Seq<Instruction>, jumps: Seq<usize>, s: AbsState, k: nat)
    requires
        0 <= s.pc,
        s.pc + k <= prog.len(),
        forall|i: int| s.pc <= i < s.pc + k ==> #[trigger] prog[i].item == Item::Increment,
        0 <= s.ptr < s.cells.len(),
    ensures
        forall|fuel: nat| #[trigger]
            spec_run(prog, jumps, inc_target(s, k), fuel) == spec_run(prog, jumps, s, k + fuel),
    decreases k,
{
    let c = s.cells[s.ptr];
    let target = inc_target(s, k);
    if k == 0 {
        assert((c + 0) % 256 == c);
        assert(target.cells =~= s.cells);
        assert(target =~= s);
    } else {
        let s1 = AbsState { pc: s.pc + 1, cells: s.cells.update(s.ptr, wrap_inc(c)), ..s };
        assert(spec_step(prog, jumps, s) == StepResult::Next(s1));
        lemma_inc_block(prog, jumps, s1, (k - 1) as nat);
        let target1 = inc_target(s1, (k - 1) as nat);
        assert(wrap_inc(c) as int == (c + 1) % 256);
        lemma_add_mod_noop_right(k - 1, c + 1, 256);
        assert((wrap_inc(c) + (k - 1)) % 256 == (c + k) % 256);
        assert(target1.cells =~= target.cells);
        assert(target1 =~= target);
        assert forall|fuel: nat| #[trigger]
            spec_run(prog, jumps, inc_target(s, k), fuel) == spec_run(
            prog,
            jumps,
            s,
            k + fuel,
        ) by {
            assert(spec_run(prog, jumps, target1, fuel) == spec_run(
                prog,
                jumps,
                s1,
                (k - 1) as nat + fuel,
            ));
            lemma_run_unfold(prog, jumps, s, s1, ((k - 1) as nat + fuel) as nat);
        }
    }
}

/// A program of `n` increments followed by one output, run with the current
/// cell at zero, halts with that cell holding `n % 256` and with exactly the
/// byte `n % 256` appended to the output.
pub proof fn lemma_increments_then_output(
    prog: Seq<Instruction>,
    jumps: Seq<usize>,
    s: AbsState,
    n: nat,
)
    requires
        prog.len() == n + 1,
        forall|i: int| 0 <= i < n ==> #[trigger] prog[i].item == Item::Increment,
        prog[n as int].item == Item::Output,
        s.pc == 0,
        0 <= s.ptr < s.cells.len(),
        s.cells[s.ptr] == 0,
    ensures
        exists|fuel: nat|
            spec_run(prog, jumps, s, fuel) == RunResult::Done(
                AbsState {
                    pc: s.pc + n + 1,
                    cells: s.cells.update(s.ptr, (n % 256) as u8),
                    output: s.output.push((n % 256) as u8),
                    ..s
                },
            ),
{
    lemma_inc_block(prog, jumps, s, n);
    let sn = inc_target(s, n);
    assert(spec_run(prog, jumps, sn, 1) == spec_run(prog, jumps, s, n + 1));
    assert(sn.cells[s.ptr] == (n % 256) as u8);
    let sout = AbsState {
        pc: s.pc + n + 1,
        cells: sn.cells,
        output: s.output.push((n % 256) as u8),
        ..s
    };
    assert(spec_step(prog, jumps, sn) == StepResult::Next(sout));
    lemma_run_unfold(prog, jumps, sn, sout, 0);
    assert(spec_run(prog, jumps, sout, 0) == RunResult::Done(sout));
    assert(spec_run(prog, jumps, s, n + 1) == RunResult::Done(sout));
}

} // verus!
