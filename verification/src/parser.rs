use crate::instructions::{is_op, spec_decode, Instruction};
use crate::lexer::{filter_ops, lemma_filter_ops_recognized, lex};
use vstd::prelude::*;

verus! {

/// A failure of bracket matching, reported by `parse`.
#[derive(Debug, PartialEq, Eq, Copy, Clone)]
pub enum ParseError {
    /// A closing bracket with no open partner, at position `pos` of the
    /// filtered token stream.
    UnmatchedClose { pos: usize },
    /// At least one opening bracket never closed; noticed only once the whole
    /// text has been consumed, so it carries no position.
    UnmatchedOpen,
}

/// Bracket nesting depth just before position `i` of the filtered stream:
/// opening brackets minus closing brackets among `ops[0..i]`.
pub open spec fn depth_at(ops: Seq<char>, i: int) -> int
    decreases i,
{
    if i <= 0 {
        0
    } else {
        depth_at(ops, i - 1) + if ops[i - 1] == '[' {
            1
        } else if ops[i - 1] == ']' {
            -1
        } else {
            0
        }
    }
}

/// Every closing bracket among `ops[0..upto]` stands at positive depth:
/// no prefix of that region holds more closes than opens.
pub open spec fn closes_matched(ops: Seq<char>, upto: int) -> bool {
    forall|j: int| 0 <= j < upto && ops[j] == ']' ==> depth_at(ops, j) > 0
}

/// Equal opens and closes, and never more closes than opens in any prefix.
pub open spec fn balanced(ops: Seq<char>) -> bool {
    closes_matched(ops, ops.len() as int) && depth_at(ops, ops.len() as int) == 0
}

/// The loop identifier the decoder assigns at position `i`: the nesting
/// depth shared by a bracket pair, and 0 for every other instruction.
pub open spec fn loop_id_at(ops: Seq<char>, i: int) -> int {
    if ops[i] == '[' {
        depth_at(ops, i)
    } else if ops[i] == ']' {
        depth_at(ops, i) - 1
    } else {
        0
    }
}

/// The depth can never exceed the number of characters read.
pub proof fn lemma_depth_le(ops: Seq<char>, i: int)
    requires
        0 <= i,
    ensures
        depth_at(ops, i) <= i,
    decreases i,
{
    if i > 0 {
        lemma_depth_le(ops, i - 1);
    }
}

/// Everything `parse` promises of its result, stated over the filtered
/// stream `ops`. The three cases are mutually exclusive, so the contract
/// also says exactly when each error is returned.
pub open spec fn parse_post(ops: Seq<char>, r: Result<Seq<Instruction>, ParseError>) -> bool {
    match r {
        Ok(instrs) => {
            &&& balanced(ops)
            &&& instrs.len() == ops.len()
            &&& forall|i: int|
                0 <= i < ops.len() ==> instrs[i] == spec_decode(
                    ops[i],
                    loop_id_at(ops, i) as usize,
                    i as usize,
                )
        },
        Err(ParseError::UnmatchedClose { pos }) => {
            &&& pos < ops.len()
            &&& ops[pos as int] == ']'
            &&& depth_at(ops, pos as int) == 0
            &&& closes_matched(ops, pos as int)
        },
        Err(ParseError::UnmatchedOpen) => {
            &&& closes_matched(ops, ops.len() as int)
            &&& depth_at(ops, ops.len() as int) > 0
        },
    }
}

/// The instruction vector of a parse result, as the specification sees it.
pub open spec fn result_view(r: Result<Vec<Instruction>, ParseError>) -> Result<
    Seq<Instruction>,
    ParseError,
> {
    match r {
        Ok(v) => Ok(v@),
        Err(e) => Err(e),
    }
}

/// Filter the source text and decode it into one instruction per recognized
/// character, preserving order and position. Bracket pairs share their
/// nesting depth as loop identifier; a close below depth 1 or an open left
/// unclosed at the end of the text is a parse error.
pub fn parse(src: &str) -> (r: Result<Vec<Instruction>, ParseError>)
    ensures
        parse_post(filter_ops(src@), result_view(r)),
{
    let ops = lex(src);
    proof {
        lemma_filter_ops_recognized(src@);
    }
    let n = ops.len();
    let mut instructions: Vec<Instruction> = Vec::new();
    let mut loop_count: usize = 0;
    let mut op_num: usize = 0;
    while op_num < n
        invariant
            n == ops@.len(),
            ops@ == filter_ops(src@),
            forall|j: int| 0 <= j < n ==> is_op(#[trigger] ops@[j]),
            op_num <= n,
            loop_count as int == depth_at(ops@, op_num as int),
            closes_matched(ops@, op_num as int),
            instructions@.len() == op_num,
            forall|i: int|
                0 <= i < op_num ==> instructions@[i] == spec_decode(
                    ops@[i],
                    loop_id_at(ops@, i) as usize,
                    i as usize,
                ),
        decreases n - op_num,
    {
        let op = ops[op_num];
        proof {
            let i = op_num as int;
            assert(depth_at(ops@, i + 1) == depth_at(ops@, i) + if ops@[i] == '[' {
                1
            } else if ops@[i] == ']' {
                -1
            } else {
                0
            });
            lemma_depth_le(ops@, i);
        }
        if op == '[' {
            instructions.push(Instruction::decode(op, loop_count, op_num));
            loop_count = loop_count + 1;
        } else if op == ']' {
            if loop_count == 0 {
                return Err(ParseError::UnmatchedClose { pos: op_num });
            }
            loop_count = loop_count - 1;
            instructions.push(Instruction::decode(op, loop_count, op_num));
        } else {
            instructions.push(Instruction::decode(op, 0, op_num));
        }
        op_num = op_num + 1;
    }
    if loop_count > 0 {
        return Err(ParseError::UnmatchedOpen);
    }
    Ok(instructions)
}

/// Source text with no bracket characters always decodes, into one
/// instruction per recognized character.
pub proof fn lemma_no_brackets_parses(src: Seq<char>, r: Result<Seq<Instruction>, ParseError>)
    requires
        forall|i: int| 0 <= i < src.len() ==> src[i] != '[' && src[i] != ']',
        parse_post(filter_ops(src), r),
    ensures
        (match r {
            Ok(instrs) => instrs.len() == filter_ops(src).len(),
            Err(_) => false,
        }),
{
    let ops = filter_ops(src);
    crate::lexer::lemma_filter_ops_excludes(src, '[');
    crate::lexer::lemma_filter_ops_excludes(src, ']');
    lemma_depth_constant_without_brackets(ops, ops.len() as int);
}

/// Without brackets the depth stays at zero.
proof fn lemma_depth_constant_without_brackets(ops: Seq<char>, i: int)
    requires
        0 <= i <= ops.len(),
        forall|j: int| 0 <= j < ops.len() ==> #[trigger] ops[j] != '[' && ops[j] != ']',
    ensures
        depth_at(ops, i) == 0,
    decreases i,
{
    if i > 0 {
        lemma_depth_constant_without_brackets(ops, i - 1);
    }
}

/// Balanced bracket text always decodes.
pub proof fn lemma_balanced_parses(ops: Seq<char>, r: Result<Seq<Instruction>, ParseError>)
    requires
        balanced(ops),
        parse_post(ops, r),
    ensures
        r is Ok,
{
}

/// When the closes first outnumber the opens at position `pos`, decoding
/// fails with `UnmatchedClose` at exactly that position.
pub proof fn lemma_unmatched_close(
    ops: Seq<char>,
    r: Result<Seq<Instruction>, ParseError>,
    pos: int,
)
    requires
        parse_post(ops, r),
        0 <= pos < ops.len(),
        ops[pos] == ']',
        depth_at(ops, pos) == 0,
        closes_matched(ops, pos),
    ensures
        r == Err::<Seq<Instruction>, ParseError>(
            ParseError::UnmatchedClose { pos: pos as usize },
        ),
{
    match r {
        Ok(_) => {
            assert(depth_at(ops, pos) > 0);
        },
        Err(ParseError::UnmatchedClose { pos: p }) => {
            if (p as int) < pos {
                assert(depth_at(ops, p as int) > 0);
            } else if (p as int) > pos {
                assert(depth_at(ops, pos) > 0);
            }
        },
        Err(ParseError::UnmatchedOpen) => {
            assert(depth_at(ops, pos) > 0);
        },
    }
}

/// When every close is matched but opens are left over, decoding fails with
/// `UnmatchedOpen`.
pub proof fn lemma_unmatched_open(ops: Seq<char>, r: Result<Seq<Instruction>, ParseError>)
    requires
        parse_post(ops, r),
        closes_matched(ops, ops.len() as int),
        depth_at(ops, ops.len() as int) > 0,
    ensures
        r == Err::<Seq<Instruction>, ParseError>(ParseError::UnmatchedOpen),
{
    match r {
        Err(ParseError::UnmatchedClose { pos }) => {
            assert(depth_at(ops, pos as int) > 0);
        },
        _ => {},
    }
}

} // verus!
