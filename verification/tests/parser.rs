use brainfuck::parser::Instruction::{
    self, Add, Clear, JumpIfNotZero, JumpIfZero, Move, MoveUntilZero, Multiply,
};
use brainfuck::parser::{OptimizationOptions, Parser, UnbalancedBrackets};

fn parse(input: &[u8], opts: OptimizationOptions) -> Vec<Instruction> {
    Parser::new(input).parse(opts).expect("failed to parse")
}

#[test]
fn parse_empty() {
    assert_eq!(parse(b"", OptimizationOptions::new()), vec![]);
}

#[test]
fn parse_add() {
    assert_eq!(
        parse(b"+++-+--++++----+++----+++--", OptimizationOptions::new().with_contract()),
        vec![Add(1)]
    );
}

#[test]
fn parse_zero_add() {
    assert_eq!(
        parse(b"+++--+++--+-++--+---", OptimizationOptions::new().with_contract()),
        vec![]
    );
}

#[test]
fn parse_move() {
    assert_eq!(
        parse(
            b"<<<>>><><<><>>>><><><<<><><><>>><<<>><><>>>>>><>><<<<>",
            OptimizationOptions::new().with_contract()
        ),
        vec![Move(4)]
    );
}

#[test]
fn parse_zero_move() {
    assert_eq!(
        parse(b">>><<>>><<><>><<><<<", OptimizationOptions::new().with_contract()),
        vec![]
    );
}

#[test]
fn parse_in() {
    assert_eq!(parse(b",,,,,,,,,,", OptimizationOptions::new()), [Instruction::In].repeat(10));
}

#[test]
fn parse_out() {
    assert_eq!(parse(b"..........", OptimizationOptions::new()), [Instruction::Out].repeat(10));
}

#[test]
fn parse_jz_jnz() {
    assert_eq!(
        parse(b"[[[[][]][[[]]]][[]]]", OptimizationOptions::new()),
        vec![
            JumpIfZero(19),
            JumpIfZero(14),
            JumpIfZero(7),
            JumpIfZero(4),
            JumpIfNotZero(3),
            JumpIfZero(6),
            JumpIfNotZero(5),
            JumpIfNotZero(2),
            JumpIfZero(13),
            JumpIfZero(12),
            JumpIfZero(11),
            JumpIfNotZero(10),
            JumpIfNotZero(9),
            JumpIfNotZero(8),
            JumpIfNotZero(1),
            JumpIfZero(18),
            JumpIfZero(17),
            JumpIfNotZero(16),
            JumpIfNotZero(15),
            JumpIfNotZero(0)
        ]
    );
}

#[test]
fn parse_fail_jz_unbalanced() {
    let result = Parser::new(b"[[+-++>><><><[++[[<<[>>>>[[+><><>>>]]<><>]")
        .parse(OptimizationOptions::new());
    assert_eq!(result, Err(UnbalancedBrackets::UnclosedBracket(0)));
}

#[test]
fn parse_fail_jnz_unbalanced() {
    let result = Parser::new(b"[+++[<.,>>++<<<<>++--+]]]").parse(OptimizationOptions::new());
    assert_eq!(result, Err(UnbalancedBrackets::UnopenedBracket(24)));
}

#[test]
fn parse_clear() {
    assert_eq!(
        parse(b"[-][+++][--][+>+++-]", OptimizationOptions::new().with_contract().with_clear()),
        vec![
            Clear,
            Clear,
            JumpIfZero(4),
            Add(2u8.wrapping_neg()),
            JumpIfNotZero(2),
            JumpIfZero(9),
            Add(1),
            Move(1),
            Add(2),
            JumpIfNotZero(5)
        ]
    );
}

#[test]
fn parse_multiply_1() {
    assert_eq!(
        parse(b"[->>>+<<<]", OptimizationOptions::new().with_contract().with_multiply()),
        vec![Multiply(3, 1)]
    );
}

#[test]
fn parse_multiply_1_opposite() {
    assert_eq!(
        parse(b"[-<<<+>>>]", OptimizationOptions::new().with_contract().with_multiply()),
        vec![Multiply(-3, 1)]
    );
}

#[test]
fn parse_move_until_zero() {
    assert_eq!(
        parse(
            b"[>>>][>][><><>>>>><>][>>>+<[>]]",
            OptimizationOptions::new().with_contract().with_move_until_zero()
        ),
        vec![
            MoveUntilZero(3),
            MoveUntilZero(1),
            MoveUntilZero(5),
            JumpIfZero(8),
            Move(3),
            Add(1),
            Move(-1),
            MoveUntilZero(1),
            JumpIfNotZero(3)
        ]
    );
}

#[test]
fn parse_lone_open_bracket_is_unclosed_at_zero() {
    assert_eq!(
        Parser::new(b"[").parse(OptimizationOptions::new()),
        Err(UnbalancedBrackets::UnclosedBracket(0))
    );
    assert_eq!(
        Parser::new(b"[").parse(OptimizationOptions::all()),
        Err(UnbalancedBrackets::UnclosedBracket(0))
    );
}

#[test]
fn parse_lone_close_bracket_is_unopened_at_zero() {
    assert_eq!(
        Parser::new(b"]").parse(OptimizationOptions::new()),
        Err(UnbalancedBrackets::UnopenedBracket(0))
    );
    assert_eq!(
        Parser::new(b"]").parse(OptimizationOptions::all()),
        Err(UnbalancedBrackets::UnopenedBracket(0))
    );
}

#[test]
fn parse_contracts_run_to_net_sum() {
    let opts = OptimizationOptions::new().with_contract();
    assert_eq!(parse(b"+++-+--", opts), vec![Add(1)]);
    assert_eq!(parse(b"+++--", opts), vec![Add(1)]);
    assert_eq!(parse(b"++--", opts), vec![]);
    assert_eq!(parse(b"---", opts), vec![Add(253)]);
}

#[test]
fn parse_contract_wraps_add_modulo_256() {
    let opts = OptimizationOptions::new().with_contract();
    let plus = vec![b'+'; 257];
    assert_eq!(parse(&plus, opts), vec![Add(1)]);
    let full = vec![b'-'; 256];
    assert_eq!(parse(&full, opts), vec![]);
}

#[test]
fn parse_without_options_gives_one_instruction_per_command() {
    assert_eq!(
        parse(b"+-><,.[-]", OptimizationOptions::new()),
        vec![
            Add(1),
            Add(255),
            Move(1),
            Move(-1),
            Instruction::In,
            Instruction::Out,
            JumpIfZero(8),
            Add(255),
            JumpIfNotZero(6)
        ]
    );
}

#[test]
fn parse_skips_comments() {
    assert_eq!(
        parse(b"add one + then two ++\n", OptimizationOptions::new()),
        vec![Add(1), Add(1), Add(1)]
    );
    assert_eq!(
        parse(b"+ a + b - c > d", OptimizationOptions::new().with_contract()),
        vec![Add(1), Move(1)]
    );
}

#[test]
fn parse_reports_position_of_unopened_bracket() {
    assert_eq!(
        Parser::new(b"+[-]x]").parse(OptimizationOptions::new()),
        Err(UnbalancedBrackets::UnopenedBracket(5))
    );
    assert_eq!(
        Parser::new(b"++++]").parse(OptimizationOptions::all()),
        Err(UnbalancedBrackets::UnopenedBracket(4))
    );
}

#[test]
fn parse_reports_outermost_unclosed_bracket() {
    assert_eq!(
        Parser::new(b"+[>[-]").parse(OptimizationOptions::new()),
        Err(UnbalancedBrackets::UnclosedBracket(1))
    );
    assert_eq!(
        Parser::new(b"..[+[+[").parse(OptimizationOptions::all()),
        Err(UnbalancedBrackets::UnclosedBracket(2))
    );
}

#[test]
fn parse_clear_needs_odd_amount() {
    let opts = OptimizationOptions::new().with_contract().with_clear();
    assert_eq!(parse(b"[+]", opts), vec![Clear]);
    assert_eq!(parse(b"[---]", opts), vec![Clear]);
    assert_eq!(parse(b"[++]", opts), vec![JumpIfZero(2), Add(2), JumpIfNotZero(0)]);
}

#[test]
fn parse_multiply_needs_opposite_moves() {
    let opts = OptimizationOptions::new().with_contract().with_multiply();
    assert_eq!(parse(b"[->>+++<<]", opts), vec![Multiply(2, 3)]);
    assert_eq!(
        parse(b"[->>+>>]", opts),
        vec![JumpIfZero(5), Add(255), Move(2), Add(1), Move(2), JumpIfNotZero(0)]
    );
    assert_eq!(
        parse(b"[->>+<]", opts),
        vec![JumpIfZero(5), Add(255), Move(2), Add(1), Move(-1), JumpIfNotZero(0)]
    );
}

#[test]
fn parse_fuses_nothing_unless_asked() {
    assert_eq!(
        parse(b"[-]", OptimizationOptions::new().with_contract()),
        vec![JumpIfZero(2), Add(255), JumpIfNotZero(0)]
    );
    assert_eq!(
        parse(b"[>]", OptimizationOptions::new().with_clear().with_multiply()),
        vec![JumpIfZero(2), Move(1), JumpIfNotZero(0)]
    );
    assert_eq!(
        parse(b"[-]", OptimizationOptions::new().with_clear()),
        vec![Clear]
    );
    assert_eq!(
        parse(b"[>]", OptimizationOptions::new().with_move_until_zero()),
        vec![MoveUntilZero(1)]
    );
}

#[test]
fn parse_jumps_are_mutual() {
    let programs: [&[u8]; 4] = [b"[[[[][]][[[]]]][[]]]", b"+[>+[-]<[->+<]]", b"[][][]", b",[.,]"];
    for program in programs {
        for opts in [OptimizationOptions::new(), OptimizationOptions::all()] {
            let ir = parse(program, opts);
            let mut heads = 0;
            let mut tails = 0;
            for (i, instruction) in ir.iter().enumerate() {
                match *instruction {
                    JumpIfZero(t) => {
                        heads += 1;
                        assert!(i < t);
                        assert_eq!(ir[t], JumpIfNotZero(i));
                    }
                    JumpIfNotZero(t) => {
                        tails += 1;
                        assert!(t < i);
                        assert_eq!(ir[t], JumpIfZero(i));
                    }
                    _ => {}
                }
            }
            assert_eq!(heads, tails);
        }
    }
}

#[test]
fn options_default_to_none() {
    let none = OptimizationOptions::new();
    assert!(!none.contract && !none.clear && !none.multiply && !none.move_until_zero);
    assert_eq!(none, OptimizationOptions::default());
    let all = OptimizationOptions::all();
    assert!(all.contract && all.clear && all.multiply && all.move_until_zero);
    assert_eq!(
        none.with_contract().with_clear().with_multiply().with_move_until_zero(),
        all
    );
    let one = none.with_multiply();
    assert!(!one.contract && !one.clear && one.multiply && !one.move_until_zero);
}
