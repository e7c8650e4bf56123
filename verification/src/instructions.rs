use vstd::prelude::*;

verus! {

/// One operation of the language. `Open` and `Close` carry the loop
/// identifier the decoder assigns to them: the nesting depth of the bracket
/// pair. Every other operation carries no payload.
#[derive(Debug, PartialEq, Eq, Copy, Clone)]
pub enum Item {
    MoveLeft,
    MoveRight,
    Increment,
    Decrement,
    Input,
    Output,
    Open(usize),
    Close(usize),
}

/// A decoded operation together with its index in the filtered token stream.
#[derive(Debug, PartialEq, Eq, Copy, Clone)]
pub struct Instruction {
    pub item: Item,
    pub index: usize,
}

/// The eight characters of the instruction alphabet; every other character
/// in a source text is a comment.
pub open spec fn is_op(c: char) -> bool {
    c == '<' || c == '>' || c == '+' || c == '-' || c == '.' || c == ',' || c == '[' || c == ']'
}

/// What `Instruction::decode` returns for a recognized character.
pub open spec fn spec_decode(op: char, loop_count: usize, index: usize) -> Instruction {
    let item = if op == '<' {
        Item::MoveLeft
    } else if op == '>' {
        Item::MoveRight
    } else if op == '+' {
        Item::Increment
    } else if op == '-' {
        Item::Decrement
    } else if op == '.' {
        Item::Output
    } else if op == ',' {
        Item::Input
    } else if op == '[' {
        Item::Open(loop_count)
    } else {
        Item::Close(loop_count)
    };
    Instruction { item, index }
}

impl Instruction {
    /// Decode one recognized character into the instruction standing at
    /// `index` of the token stream; brackets take `loop_count` as their loop
    /// identifier, every other instruction ignores it.
    pub fn decode(op: char, loop_count: usize, index: usize) -> (r: Self)
        requires
            is_op(op),
        ensures
            r == spec_decode(op, loop_count, index),
    {
        let item: Item = match op {
            '<' => Item::MoveLeft,
            '>' => Item::MoveRight,
            '+' => Item::Increment,
            '-' => Item::Decrement,
            '.' => Item::Output,
            ',' => Item::Input,
            '[' => Item::Open(loop_count),
            _ => Item::Close(loop_count),
        };
        Self { item, index }
    }
}

} // verus!
