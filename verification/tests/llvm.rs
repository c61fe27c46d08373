use brainfuck::interpreter::machine::Stop;
use brainfuck::interpreter::Interpreter;
use brainfuck::llvm::{offset, Block, BlockKind, Cli, Compiler, Delivery, Emit, Op, Terminator};
use brainfuck::parser::pairing::LoopError;
use brainfuck::parser::{Instruction, OptimizationOptions, Parser};

const N: u64 = 30_000;

fn parse(program: &[u8], opts: OptimizationOptions) -> Vec<Instruction> {
    Parser::new(program).parse(opts).expect("failed to parse")
}

fn all_options() -> Vec<OptimizationOptions> {
    let mut all = Vec::new();
    for bits in 0..16u8 {
        all.push(OptimizationOptions {
            contract: bits & 1 != 0,
            clear: bits & 2 != 0,
            multiply: bits & 4 != 0,
            move_until_zero: bits & 8 != 0,
        });
    }
    all
}

fn config() -> Cli {
    Cli {
        source: None,
        output: None,
        target: None,
        features: None,
        run: false,
        emit: Emit::Object,
        optimize: false,
    }
}

fn execute(blocks: &[Block], length: u64, input: &[u8]) -> (Vec<u8>, Vec<u8>, bool) {
    let mut tape = vec![0u8; length as usize];
    let mut pointer: u64 = 0;
    let mut output = Vec::new();
    let mut consumed = 0;
    let mut at = 0;
    let mut steps = 0u64;
    loop {
        steps += 1;
        assert!(steps < 50_000_000);
        let block = &blocks[at];
        for op in &block.ops {
            let cell = pointer as usize;
            match *op {
                Op::AddCell(n) => tape[cell] = tape[cell].wrapping_add(n),
                Op::MovePointer(by) => pointer = (pointer + by) % length,
                Op::ReadCell => {
                    if consumed == input.len() {
                        return (output, tape, false);
                    }
                    tape[cell] = input[consumed];
                    consumed += 1;
                }
                Op::WriteCell => output.push(tape[cell]),
                Op::ClearCell => tape[cell] = 0,
                Op::MultiplyInto(by, factor) => {
                    let to = ((pointer + by) % length) as usize;
                    tape[to] = tape[to].wrapping_add(tape[cell].wrapping_mul(factor));
                    tape[cell] = 0;
                }
            }
        }
        match block.terminator {
            Terminator::Return => return (output, tape, true),
            Terminator::Branch(to) => at = to,
            Terminator::BranchOnCell(nonzero, zero) => {
                at = if tape[pointer as usize] != 0 { nonzero } else { zero };
            }
        }
    }
}

#[test]
fn emit_extension_names_the_artifact() {
    assert_eq!(Emit::Object.extension(), "o");
    assert_eq!(Emit::LLVMIr.extension(), "ll");
    assert_eq!(Emit::Assembly.extension(), "as");
    assert_eq!(Emit::default(), Emit::Object);
}

#[test]
fn delivery_runs_or_writes() {
    let mut cli = config();
    cli.emit = Emit::Assembly;
    assert_eq!(cli.delivery(), Delivery::Write(Emit::Assembly));
    cli.run = true;
    assert_eq!(cli.delivery(), Delivery::Run);
}

#[test]
fn compile_empty_program_is_one_returning_block() {
    let module = Compiler::<N>::new(vec![]).compile(&config()).unwrap();
    assert_eq!(module.tape_length, 30_000);
    assert_eq!(
        module.blocks,
        vec![Block { kind: BlockKind::Entry, ops: vec![], terminator: Terminator::Return }]
    );
    assert!(!module.optimize);
    assert_eq!(module.delivery, Delivery::Write(Emit::Object));
}

#[test]
fn compile_carries_the_configuration() {
    let mut cli = config();
    cli.optimize = true;
    cli.run = true;
    let module = Compiler::<N>::new(vec![]).compile(&cli).unwrap();
    assert!(module.optimize);
    assert_eq!(module.delivery, Delivery::Run);
}

#[test]
fn compile_loop_makes_start_body_and_end() {
    let module = Compiler::<N>::new(parse(b"+[-].", OptimizationOptions::new()))
        .compile(&config())
        .unwrap();
    assert_eq!(
        module.blocks,
        vec![
            Block {
                kind: BlockKind::Entry,
                ops: vec![Op::AddCell(1)],
                terminator: Terminator::Branch(1)
            },
            Block {
                kind: BlockKind::LoopStart,
                ops: vec![],
                terminator: Terminator::BranchOnCell(2, 3)
            },
            Block {
                kind: BlockKind::LoopBody,
                ops: vec![Op::AddCell(255)],
                terminator: Terminator::Branch(1)
            },
            Block {
                kind: BlockKind::LoopEnd,
                ops: vec![Op::WriteCell],
                terminator: Terminator::Return
            },
        ]
    );
}

#[test]
fn compile_moves_by_the_remainder() {
    let module = Compiler::<N>::new(vec![
        Instruction::Move(-1),
        Instruction::Move(30_001),
        Instruction::Multiply(-3, 2),
        Instruction::Clear,
        Instruction::In,
    ])
    .compile(&config())
    .unwrap();
    assert_eq!(
        module.blocks[0].ops,
        vec![
            Op::MovePointer(29_999),
            Op::MovePointer(1),
            Op::MultiplyInto(29_997, 2),
            Op::ClearCell,
            Op::ReadCell
        ]
    );
}

#[test]
fn offset_is_the_euclidean_remainder() {
    assert_eq!(offset(0, N), 0);
    assert_eq!(offset(-1, N), 29_999);
    assert_eq!(offset(30_000, N), 0);
    assert_eq!(offset(-60_001, N), 29_999);
    assert_eq!(offset(isize::MIN, 7), (isize::MIN).rem_euclid(7) as u64);
    assert_eq!(offset(isize::MAX, 7), (isize::MAX).rem_euclid(7) as u64);
}

#[test]
fn compile_scan_is_a_loop_of_one_move() {
    let module =
        Compiler::<N>::new(vec![Instruction::MoveUntilZero(-2)]).compile(&config()).unwrap();
    assert_eq!(
        module.blocks,
        vec![
            Block { kind: BlockKind::Entry, ops: vec![], terminator: Terminator::Branch(1) },
            Block {
                kind: BlockKind::LoopStart,
                ops: vec![],
                terminator: Terminator::BranchOnCell(2, 3)
            },
            Block {
                kind: BlockKind::LoopBody,
                ops: vec![Op::MovePointer(29_998)],
                terminator: Terminator::Branch(1)
            },
            Block { kind: BlockKind::LoopEnd, ops: vec![], terminator: Terminator::Return },
        ]
    );
}

#[test]
fn compile_rejects_loops_that_do_not_nest() {
    assert_eq!(
        Compiler::<N>::new(vec![Instruction::JumpIfNotZero(0)]).compile(&config()).err(),
        Some(LoopError::EndWithoutHead(0))
    );
    assert_eq!(
        Compiler::<N>::new(vec![Instruction::JumpIfZero(0), Instruction::JumpIfZero(0), Instruction::JumpIfNotZero(0)])
            .compile(&config())
            .err(),
        Some(LoopError::HeadWithoutEnd)
    );
}

#[test]
fn compile_makes_three_blocks_for_each_loop_with_targets_in_range() {
    for opts in all_options() {
        let ir = parse(b"+[>+[-]<[->+<]>[>]<<][[][[]]]>[>>]", opts);
        let loops = ir
            .iter()
            .filter(|i| matches!(i, Instruction::JumpIfZero(_) | Instruction::MoveUntilZero(_)))
            .count();
        let module = Compiler::<N>::new(ir).compile(&config()).unwrap();
        assert_eq!(module.blocks.len(), 1 + 3 * loops);
        for block in &module.blocks {
            match block.terminator {
                Terminator::Return => {}
                Terminator::Branch(to) => assert!(to < module.blocks.len()),
                Terminator::BranchOnCell(nonzero, zero) => {
                    assert!(nonzero < module.blocks.len());
                    assert!(zero < module.blocks.len());
                }
            }
        }
    }
}

#[test]
fn blocks_behave_as_the_interpreter() {
    let programs: [&[u8]; 7] = [
        b"++++++++[>++++[>++>+++>+++>+<<<<-]>+>+>->>+[<]<-]>>.>---.+++++++..+++.>>.<-.<.+++.------.--------.>>+.>++.",
        b",>,<[->+<]>.",
        b"+++[>+++[>+<-]<-]>>[-]+<<[>]",
        b",[>+>+<<-]>>[-<<+>>]<<[-]>[<+>-]<.",
        b"<+<+<+>>>[<]<<<[-<++>]<.",
        b"--[-->+<]>+.[<+>->+<]",
        b",[.,]",
    ];
    for program in programs {
        for opts in all_options() {
            let ir = parse(program, opts);
            let mut interpreter = Interpreter::<30_000>::new(ir.clone());
            let report = interpreter.run(b"\x05\x03", 10_000_000);
            assert!(report.stop != Stop::StepLimit);
            let module = Compiler::<N>::new(ir).compile(&config()).unwrap();
            let (output, tape, finished) = execute(&module.blocks, N, b"\x05\x03");
            assert_eq!(output, report.output);
            assert_eq!(finished, report.stop == Stop::Finished);
            assert_eq!(&tape[..], &interpreter.memory()[..]);
        }
    }
}

struct Lcg(u64);

impl Lcg {
    fn next(&mut self, bound: u64) -> u64 {
        self.0 = self.0.wrapping_mul(6364136223846793005).wrapping_add(1442695040888963407);
        (self.0 >> 33) % bound
    }
}

fn random_program(rng: &mut Lcg, length: usize) -> Vec<u8> {
    let mut program = Vec::new();
    let mut open = 0;
    while program.len() < length {
        match rng.next(12) {
            0 | 1 => program.push(b'+'),
            2 | 3 => program.push(b'-'),
            4 => program.push(b'>'),
            5 => program.push(b'<'),
            6 => program.push(b'.'),
            7 => program.push(b','),
            8 | 9 => {
                program.push(b'[');
                open += 1;
            }
            10 => {
                if open > 0 {
                    program.push(b']');
                    open -= 1;
                }
            }
            _ => program.push(b'#'),
        }
    }
    while open > 0 {
        program.push(b']');
        open -= 1;
    }
    program
}

#[test]
fn random_blocks_behave_as_the_interpreter() {
    let mut rng = Lcg(13);
    let mut finished = 0;
    for round in 0..300 {
        let program = random_program(&mut rng, 10 + round % 50);
        for opts in [OptimizationOptions::new(), OptimizationOptions::all()] {
            let ir = parse(&program, opts);
            let mut interpreter = Interpreter::<5>::new(ir.clone());
            let report = interpreter.run(b"\x02\x00\x07\x01", 20_000);
            if report.stop == Stop::StepLimit {
                continue;
            }
            finished += 1;
            let module = Compiler::<5>::new(ir).compile(&config()).unwrap();
            let (output, tape, ended) = execute(&module.blocks, 5, b"\x02\x00\x07\x01");
            assert_eq!(output, report.output);
            assert_eq!(ended, report.stop == Stop::Finished);
            assert_eq!(&tape[..], &interpreter.memory()[..]);
        }
    }
    assert!(finished > 100);
}
