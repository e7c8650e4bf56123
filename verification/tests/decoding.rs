use tapelang::instructions::{Instruction, Item};
use tapelang::parser::{parse, ParseError};
use tapelang::program::Program;

#[test]
fn decode_each_operation() {
    assert_eq!(Instruction::decode('<', 0, 0), Instruction { item: Item::MoveLeft, index: 0 });
    assert_eq!(Instruction::decode('>', 0, 1), Instruction { item: Item::MoveRight, index: 1 });
    assert_eq!(Instruction::decode('+', 0, 2), Instruction { item: Item::Increment, index: 2 });
    assert_eq!(Instruction::decode('-', 0, 3), Instruction { item: Item::Decrement, index: 3 });
    assert_eq!(Instruction::decode('.', 0, 4), Instruction { item: Item::Output, index: 4 });
    assert_eq!(Instruction::decode(',', 0, 5), Instruction { item: Item::Input, index: 5 });
    assert_eq!(Instruction::decode('[', 7, 6), Instruction { item: Item::Open(7), index: 6 });
    assert_eq!(Instruction::decode(']', 7, 8), Instruction { item: Item::Close(7), index: 8 });
}

#[test]
fn parse_without_brackets_always_succeeds() {
    let instructions = parse("+-<>.,").expect("bracket-free text must parse");
    assert_eq!(instructions.len(), 6);
    let items: Vec<Item> = instructions.iter().map(|i| i.item).collect();
    assert_eq!(
        items,
        vec![
            Item::Increment,
            Item::Decrement,
            Item::MoveLeft,
            Item::MoveRight,
            Item::Output,
            Item::Input,
        ]
    );
}

#[test]
fn parse_discards_comment_characters() {
    let instructions = parse("say + then - done").expect("comments never break a parse");
    assert_eq!(instructions.len(), 2);
    assert_eq!(instructions[0].item, Item::Increment);
    assert_eq!(instructions[0].index, 0);
    assert_eq!(instructions[1].item, Item::Decrement);
    assert_eq!(instructions[1].index, 1);
}

#[test]
fn parse_empty_text() {
    let instructions = parse("").expect("empty text parses");
    assert_eq!(instructions.len(), 0);
}

#[test]
fn parse_assigns_depth_as_loop_id() {
    let instructions = parse("[[]]").expect("balanced text parses");
    let items: Vec<Item> = instructions.iter().map(|i| i.item).collect();
    assert_eq!(
        items,
        vec![Item::Open(0), Item::Open(1), Item::Close(1), Item::Close(0)]
    );
}

#[test]
fn sibling_loops_share_a_loop_id() {
    let instructions = parse("[][]").expect("balanced text parses");
    let items: Vec<Item> = instructions.iter().map(|i| i.item).collect();
    assert_eq!(
        items,
        vec![Item::Open(0), Item::Close(0), Item::Open(0), Item::Close(0)]
    );
}

#[test]
fn parse_preserves_filtered_positions() {
    let instructions = parse("+[x-]").expect("balanced text parses");
    let indices: Vec<usize> = instructions.iter().map(|i| i.index).collect();
    assert_eq!(indices, vec![0, 1, 2, 3]);
}

#[test]
fn unmatched_close_is_reported_at_its_position() {
    assert_eq!(parse("]"), Err(ParseError::UnmatchedClose { pos: 0 }));
    assert_eq!(parse("++]"), Err(ParseError::UnmatchedClose { pos: 2 }));
    assert_eq!(parse("[]]["), Err(ParseError::UnmatchedClose { pos: 2 }));
}

#[test]
fn unmatched_close_position_counts_only_recognized_characters() {
    assert_eq!(parse("comment ] here"), Err(ParseError::UnmatchedClose { pos: 0 }));
}

#[test]
fn unmatched_open_is_reported_at_end_of_input() {
    assert_eq!(parse("["), Err(ParseError::UnmatchedOpen));
    assert_eq!(parse("[[]"), Err(ParseError::UnmatchedOpen));
    assert_eq!(parse("+[->"), Err(ParseError::UnmatchedOpen));
}

#[test]
fn jump_table_pairs_nested_brackets() {
    let program = Program::new("[[]]").expect("balanced text parses");
    assert_eq!(program.jumps, vec![3, 2, 1, 0]);
}

#[test]
fn jump_table_separates_sibling_loops() {
    let program = Program::new("[][]").expect("balanced text parses");
    assert_eq!(program.jumps, vec![1, 0, 3, 2]);
}

#[test]
fn jump_table_skips_other_instructions() {
    let program = Program::new("+[>-<]").expect("balanced text parses");
    assert_eq!(program.jumps[1], 5);
    assert_eq!(program.jumps[5], 1);
}
