use crate::instructions::{is_op, spec_decode, Instruction, Item};
use crate::lexer::{filter_ops, lemma_filter_ops_recognized};
use crate::parser::{depth_at, loop_id_at, parse, parse_post, ParseError};
use vstd::pervasive::VecAdditionalExecFns;
use vstd::prelude::*;

verus! {

/// The instruction is an opening bracket.
pub open spec fn is_open(ins: Instruction) -> bool {
    ins.item is Open
}

/// The instruction is a closing bracket.
pub open spec fn is_close(ins: Instruction) -> bool {
    ins.item is Close
}

/// Bracket nesting depth just before instruction `i`.
pub open spec fn idepth_at(prog: Seq<Instruction>, i: int) -> int
    decreases i,
{
    if i <= 0 {
        0
    } else {
        idepth_at(prog, i - 1) + if is_open(prog[i - 1]) {
            1
        } else if is_close(prog[i - 1]) {
            -1
        } else {
            0
        }
    }
}

/// Every closing bracket among `prog[0..upto]` stands at positive depth.
pub open spec fn icloses_matched(prog: Seq<Instruction>, upto: int) -> bool {
    forall|j: int| 0 <= j < upto && is_close(#[trigger] prog[j]) ==> idepth_at(prog, j) > 0
}

/// Brackets pair up completely: no close without an open, none left open.
pub open spec fn ibalanced(prog: Seq<Instruction>) -> bool {
    icloses_matched(prog, prog.len() as int) && idepth_at(prog, prog.len() as int) == 0
}

/// `j` is the matching close of the open at `i`: the first position after
/// `i` where the nesting depth returns to its level from before the open.
pub open spec fn is_match(prog: Seq<Instruction>, i: int, j: int) -> bool {
    &&& 0 <= i < j < prog.len()
    &&& is_open(prog[i])
    &&& is_close(prog[j])
    &&& idepth_at(prog, j) == idepth_at(prog, i) + 1
    &&& forall|k: int| i < k <= j ==> idepth_at(prog, k) > idepth_at(prog, i)
}

/// The open at `p` has not seen its matching close anywhere up to `upto`.
pub open spec fn open_unclosed(prog: Seq<Instruction>, p: int, upto: int) -> bool {
    forall|m: int| p < m <= upto ==> idepth_at(prog, m) > idepth_at(prog, p)
}

/// While no close has gone unmatched, the depth never falls below zero.
pub proof fn lemma_idepth_nonneg(prog: Seq<Instruction>, i: int)
    requires
        0 <= i <= prog.len(),
        icloses_matched(prog, i),
    ensures
        idepth_at(prog, i) >= 0,
    decreases i,
{
    if i > 0 {
        lemma_idepth_nonneg(prog, i - 1);
    }
}

/// A program with the partner position of every bracket precomputed, so the
/// executor can skip or re-enter a loop body in one move.
pub struct Program {
    pub instructions: Vec<Instruction>,
    pub jumps: Vec<usize>,
}

impl Program {
    /// The partner table is total and consistent: every bracket points at
    /// its matching partner and the partner points back.
    pub open spec fn wf(self) -> bool {
        &&& self.jumps@.len() == self.instructions@.len()
        &&& forall|p: int|
            0 <= p < self.instructions@.len() && is_open(#[trigger] self.instructions@[p])
                ==> is_match(self.instructions@, p, self.jumps@[p] as int)
                && self.jumps@[self.jumps@[p] as int] == p
        &&& forall|p: int|
            0 <= p < self.instructions@.len() && is_close(#[trigger] self.instructions@[p])
                ==> is_match(self.instructions@, self.jumps@[p] as int, p)
                && self.jumps@[self.jumps@[p] as int] == p
    }

    /// Decode `src` and precompute each bracket's partner position.
    pub fn new(src: &str) -> (r: Result<Program, ParseError>)
        ensures
            (match r {
                Ok(p) => p.wf() && parse_post(filter_ops(src@), Ok(p.instructions@)),
                Err(e) => parse_post(filter_ops(src@), Err(e)),
            }),
    {
        match parse(src) {
            Ok(instructions) => {
                proof {
                    let ops = filter_ops(src@);
                    lemma_filter_ops_recognized(src@);
                    assert forall|i: int| 0 <= i <= ops.len() implies idepth_at(instructions@, i)
                        == depth_at(ops, i) by {
                        lemma_depth_transfer(ops, instructions@, i);
                    }
                    assert forall|j: int|
                        0 <= j < instructions@.len() && is_close(
                            #[trigger] instructions@[j],
                        ) implies idepth_at(instructions@, j) > 0 by {
                        assert(instructions@[j] == spec_decode(
                            ops[j],
                            loop_id_at(ops, j) as usize,
                            j as usize,
                        ));
                        assert(ops[j] == ']');
                    }
                    assert(ibalanced(instructions@));
                }
                let jumps = build_jumps(&instructions);
                Ok(Program { instructions, jumps })
            },
            Err(e) => Err(e),
        }
    }
}

/// The decoder's per-character depth carries over to the decoded program.
pub proof fn lemma_depth_transfer(ops: Seq<char>, instrs: Seq<Instruction>, i: int)
    requires
        0 <= i <= ops.len(),
        instrs.len() == ops.len(),
        forall|j: int| 0 <= j < ops.len() ==> is_op(#[trigger] ops[j]),
        forall|j: int|
            0 <= j < ops.len() ==> instrs[j] == spec_decode(
                ops[j],
                loop_id_at(ops, j) as usize,
                j as usize,
            ),
    ensures
        idepth_at(instrs, i) == depth_at(ops, i),
    decreases i,
{
    if i > 0 {
        lemma_depth_transfer(ops, instrs, i - 1);
        assert(instrs[i - 1] == spec_decode(
            ops[i - 1],
            loop_id_at(ops, i - 1) as usize,
            (i - 1) as usize,
        ));
        assert(is_open(instrs[i - 1]) <==> ops[i - 1] == '[');
        assert(is_close(instrs[i - 1]) <==> ops[i - 1] == ']');
    }
}

/// Pair every bracket with its partner by a single scan that keeps a stack
/// of the opens still waiting for their close. `jumps[i]` is the partner of
/// the bracket at `i`; at every other position it is meaningless.
pub fn build_jumps(instructions: &Vec<Instruction>) -> (jumps: Vec<usize>)
    requires
        ibalanced(instructions@),
    ensures
        jumps@.len() == instructions@.len(),
        forall|p: int|
            0 <= p < instructions@.len() && is_open(#[trigger] instructions@[p]) ==> is_match(
                instructions@,
                p,
                jumps@[p] as int,
            ) && jumps@[jumps@[p] as int] == p,
        forall|p: int|
            0 <= p < instructions@.len() && is_close(#[trigger] instructions@[p]) ==> is_match(
                instructions@,
                jumps@[p] as int,
                p,
            ) && jumps@[jumps@[p] as int] == p,
{
    let ghost progs = instructions@;
    let n = instructions.len();
    let mut jumps: Vec<usize> = Vec::new();
    while jumps.len() < n
        invariant
            jumps@.len() <= n,
        decreases n - jumps@.len(),
    {
        jumps.push(0);
    }
    let mut stack: Vec<usize> = Vec::new();
    let mut i: usize = 0;
    while i < n
        invariant
            progs == instructions@,
            n == progs.len(),
            jumps@.len() == n,
            i <= n,
            ibalanced(progs),
            stack@.len() == idepth_at(progs, i as int),
            forall|k: int|
                0 <= k < stack@.len() ==> (#[trigger] stack@[k]) < i && is_open(
                    progs[stack@[k] as int],
                ) && idepth_at(progs, stack@[k] as int) == k && open_unclosed(
                    progs,
                    stack@[k] as int,
                    i as int,
                ),
            forall|p: int|
                0 <= p < i && is_open(#[trigger] progs[p]) && !open_unclosed(progs, p, i as int)
                    ==> is_match(progs, p, jumps@[p] as int) && jumps@[p] < i
                    && jumps@[jumps@[p] as int] == p,
            forall|p: int|
                0 <= p < i && is_close(#[trigger] progs[p]) ==> is_match(progs, jumps@[p] as int, p)
                    && jumps@[jumps@[p] as int] == p,
        decreases n - i,
    {
        let ghost d = idepth_at(progs, i as int);
        proof {
            assert(idepth_at(progs, i as int + 1) == d + if is_open(progs[i as int]) {
                1
            } else if is_close(progs[i as int]) {
                -1
            } else {
                0
            });
            lemma_idepth_nonneg(progs, i as int);
        }
        let ins = instructions[i];
        match ins.item {
            Item::Open(_) => {
                let ghost old_stack = stack@;
                stack.push(i);
                proof {
                    assert(stack@ == old_stack.push(i));
                    assert forall|k: int| 0 <= k < stack@.len() implies (#[trigger] stack@[k]) < i
                        + 1 && is_open(progs[stack@[k] as int]) && idepth_at(
                        progs,
                        stack@[k] as int,
                    ) == k && open_unclosed(progs, stack@[k] as int, i as int + 1) by {
                        if k < old_stack.len() {
                            assert(stack@[k] == old_stack[k]);
                            assert(open_unclosed(progs, old_stack[k] as int, i as int));
                            assert(idepth_at(progs, i as int + 1) == d + 1);
                        } else {
                            assert(stack@[k] == i);
                            assert(idepth_at(progs, i as int + 1) == d + 1);
                        }
                    }
                    assert forall|p: int|
                        0 <= p < i + 1 && is_open(#[trigger] progs[p]) && !open_unclosed(
                            progs,
                            p,
                            i as int + 1,
                        ) implies is_match(progs, p, jumps@[p] as int) && jumps@[p] < i + 1
                        && jumps@[jumps@[p] as int] == p by {
                        if p == i as int {
                            assert(open_unclosed(progs, p, i as int + 1));
                        } else {
                            if open_unclosed(progs, p, i as int) {
                                assert(idepth_at(progs, i as int) > idepth_at(progs, p));
                                assert(open_unclosed(progs, p, i as int + 1));
                            }
                        }
                    }
                }
            },
            Item::Close(_) => {
                proof {
                    assert(is_close(progs[i as int]));
                    assert(d > 0);
                }
                let ghost old_stack = stack@;
                let p = stack.pop().unwrap();
                proof {
                    assert(p == old_stack[old_stack.len() - 1]);
                    assert(stack@ == old_stack.subrange(0, old_stack.len() - 1));
                    assert(is_open(progs[p as int]));
                    assert(idepth_at(progs, p as int) == d - 1);
                    assert(open_unclosed(progs, p as int, i as int));
                    assert(is_match(progs, p as int, i as int));
                }
                let ghost old_jumps = jumps@;
                jumps.set(p, i);
                jumps.set(i, p);
                proof {
                    assert(jumps@ == old_jumps.update(p as int, i as usize).update(
                        i as int,
                        p as usize,
                    ));
                    assert(jumps@[p as int] == i);
                    assert(jumps@[i as int] == p);
                    assert(idepth_at(progs, i as int + 1) == d - 1);
                    assert forall|k: int| 0 <= k < stack@.len() implies (#[trigger] stack@[k]) < i
                        + 1 && is_open(progs[stack@[k] as int]) && idepth_at(
                        progs,
                        stack@[k] as int,
                    ) == k && open_unclosed(progs, stack@[k] as int, i as int + 1) by {
                        assert(stack@[k] == old_stack[k]);
                        assert(open_unclosed(progs, old_stack[k] as int, i as int));
                        assert(idepth_at(progs, i as int + 1) == d - 1 > k);
                    }
                    assert forall|p2: int|
                        0 <= p2 < i + 1 && is_open(#[trigger] progs[p2]) && !open_unclosed(
                            progs,
                            p2,
                            i as int + 1,
                        ) implies is_match(progs, p2, jumps@[p2] as int) && jumps@[p2] < i + 1
                        && jumps@[jumps@[p2] as int] == p2 by {
                        if p2 == p as int {
                            assert(is_match(progs, p2, i as int));
                        } else if p2 == i as int {
                            assert(false);
                        } else {
                            if !open_unclosed(progs, p2, i as int) {
                                let j2 = old_jumps[p2] as int;
                                assert(is_match(progs, p2, j2));
                                assert(is_close(progs[j2]));
                                assert(j2 != p as int);
                                assert(j2 < i);
                                assert(jumps@[p2] == old_jumps[p2]);
                                assert(jumps@[j2] == old_jumps[j2]);
                            } else {
                                let m = choose|m: int|
                                    p2 < m <= i + 1 && idepth_at(progs, m) <= idepth_at(progs, p2);
                                assert(p2 < m <= i + 1 && idepth_at(progs, m) <= idepth_at(
                                    progs,
                                    p2,
                                ));
                                if m <= i {
                                    assert(idepth_at(progs, m) > idepth_at(progs, p2));
                                    assert(false);
                                }
                                assert(idepth_at(progs, i as int) > idepth_at(progs, p2));
                                assert(idepth_at(progs, p2) == d - 1);
                                if p2 < p as int {
                                    assert(idepth_at(progs, p as int) > idepth_at(progs, p2));
                                    assert(false);
                                } else {
                                    assert(idepth_at(progs, p2) > idepth_at(progs, p as int));
                                    assert(false);
                                }
                            }
                        }
                    }
                    assert forall|p2: int|
                        0 <= p2 < i + 1 && is_close(#[trigger] progs[p2]) implies is_match(
                        progs,
                        jumps@[p2] as int,
                        p2,
                    ) && jumps@[jumps@[p2] as int] == p2 by {
                        if p2 == i as int {
                            assert(jumps@[p2] == p);
                            assert(is_match(progs, p as int, i as int));
                        } else {
                            let o2 = old_jumps[p2] as int;
                            assert(is_match(progs, o2, p2));
                            assert(o2 < p2 < i);
                            if o2 == p as int {
                                assert(idepth_at(progs, p2 + 1) == idepth_at(progs, p2) - 1);
                                assert(idepth_at(progs, p2 + 1) > idepth_at(progs, p as int));
                                assert(false);
                            }
                            assert(jumps@[p2] == old_jumps[p2]);
                            assert(jumps@[o2] == old_jumps[o2]);
                        }
                    }
                }
            },
            _ => {
                proof {
                    assert forall|k: int| 0 <= k < stack@.len() implies (#[trigger] stack@[k]) < i
                        + 1 && is_open(progs[stack@[k] as int]) && idepth_at(
                        progs,
                        stack@[k] as int,
                    ) == k && open_unclosed(progs, stack@[k] as int, i as int + 1) by {}
                    assert forall|p: int|
                        0 <= p < i + 1 && is_open(#[trigger] progs[p]) && !open_unclosed(
                            progs,
                            p,
                            i as int + 1,
                        ) implies is_match(progs, p, jumps@[p] as int) && jumps@[p] < i + 1
                        && jumps@[jumps@[p] as int] == p by {
                        if p < i as int && open_unclosed(progs, p, i as int) {
                            assert(idepth_at(progs, i as int) > idepth_at(progs, p));
                            assert(open_unclosed(progs, p, i as int + 1));
                        }
                    }
                }
            },
        }
        i = i + 1;
    }
    proof {
        assert forall|p: int| 0 <= p < n && is_open(#[trigger] progs[p]) implies !open_unclosed(
            progs,
            p,
            n as int,
        ) by {
            lemma_idepth_nonneg(progs, p);
            assert(idepth_at(progs, n as int) == 0);
        }
    }
    jumps
}

} // verus!
