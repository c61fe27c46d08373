use brainfuck::parser::Instruction::{
    Add, Clear, In, JumpIfNotZero, JumpIfZero, Move, MoveUntilZero, Multiply, Out,
};
use brainfuck::parser::UnbalancedBrackets;

#[test]
fn display_add_positive() {
    assert_eq!(Add(10).to_string(), "++++++++++");
}

#[test]
fn display_add_negative() {
    assert_eq!(Add(5u8.wrapping_neg()).to_string(), "-----");
}

#[test]
fn display_move_positive() {
    assert_eq!(Move(12).to_string(), ">>>>>>>>>>>>");
}

#[test]
fn display_move_negative() {
    assert_eq!(Move(-7).to_string(), "<<<<<<<");
}

#[test]
fn display_in() {
    assert_eq!(In.to_string(), ",");
}

#[test]
fn display_out() {
    assert_eq!(Out.to_string(), ".");
}

#[test]
fn display_jz() {
    assert_eq!(JumpIfZero(81).to_string(), "[");
}

#[test]
fn display_jne() {
    assert_eq!(JumpIfNotZero(1).to_string(), "]");
}

#[test]
fn display_clear() {
    assert_eq!(Clear.to_string(), "[-]");
}

#[test]
fn display_multiply_positive_positive() {
    assert_eq!(Multiply(5, 5).to_string(), "[->>>>>+++++<<<<<]");
}

#[test]
fn display_multiply_positive_negative() {
    assert_eq!(Multiply(2, 3u8.wrapping_neg()).to_string(), "[->>---<<]");
}

#[test]
fn display_multiply_negative_positive() {
    assert_eq!(Multiply(-7, 2).to_string(), "[-<<<<<<<++>>>>>>>]");
}

#[test]
fn display_multiply_negative_negative() {
    assert_eq!(Multiply(-1, 4u8.wrapping_neg()).to_string(), "[-<---->]");
}

#[test]
fn display_move_until_zero_positive() {
    assert_eq!(MoveUntilZero(3).to_string(), "[>>>]");
}

#[test]
fn display_move_until_zero_negative() {
    assert_eq!(MoveUntilZero(-9).to_string(), "[<<<<<<<<<]");
}

#[test]
fn display_add_extremes() {
    assert_eq!(Add(0).to_string(), "");
    assert_eq!(Add(127).to_string(), "+".repeat(127));
    assert_eq!(Add(128).to_string(), "-".repeat(128));
    assert_eq!(Add(255).to_string(), "-");
    assert_eq!(Move(0).to_string(), "");
}

#[test]
fn display_unclosed_bracket() {
    assert_eq!(
        UnbalancedBrackets::UnclosedBracket(7).to_string(),
        "expected ']' to close '[' at position 7, got EOF"
    );
    assert_eq!(
        UnbalancedBrackets::UnclosedBracket(0).to_string(),
        "expected ']' to close '[' at position 0, got EOF"
    );
}

#[test]
fn display_unopened_bracket() {
    assert_eq!(
        UnbalancedBrackets::UnopenedBracket(1234567890).to_string(),
        "unexpected ']' at position 1234567890"
    );
    assert_eq!(
        UnbalancedBrackets::UnopenedBracket(10).to_string(),
        "unexpected ']' at position 10"
    );
    assert_eq!(
        UnbalancedBrackets::UnopenedBracket(usize::MAX).to_string(),
        format!("unexpected ']' at position {}", usize::MAX)
    );
}
