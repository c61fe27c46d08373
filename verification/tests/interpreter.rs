use brainfuck::interpreter::machine::{Effect, Stop};
use brainfuck::interpreter::{wrap_offset, Interpreter};
use brainfuck::parser::{Instruction, OptimizationOptions, Parser};

fn all_options() -> Vec<OptimizationOptions> {
    let mut all = Vec::new();
    for bits in 0..16u8 {
        all.push(OptimizationOptions {
            contract: bits & 1 != 0,
            clear: bits & 2 != 0,
            multiply: bits & 4 != 0,
            move_until_zero: bits & 8 != 0,
        });
    }
    all
}

fn parse(program: &[u8], opts: OptimizationOptions) -> Vec<Instruction> {
    Parser::new(program).parse(opts).expect("failed to parse")
}

#[test]
fn echo_until_end_of_input() {
    for opts in all_options() {
        let mut interpreter = Interpreter::<30_000>::new(parse(b",[.,]", opts));
        let report = interpreter.run(b"ab", 1_000);
        assert_eq!(report.output, b"ab");
        assert_eq!(report.consumed, 2);
        assert_eq!(report.stop, Stop::InputExhausted);
    }
}

#[test]
fn clear_loop_zeroes_only_the_current_cell() {
    for opts in all_options() {
        for start in [1usize, 2, 5, 128, 255] {
            let mut program = vec![b'>', b'+', b'>'];
            program.extend(vec![b'+'; start]);
            program.extend(b">++<[-]");
            let mut interpreter = Interpreter::<30_000>::new(parse(&program, opts));
            let report = interpreter.run(b"", 100_000);
            assert_eq!(report.stop, Stop::Finished);
            assert_eq!(interpreter.pointer(), 2);
            let memory = interpreter.memory();
            assert_eq!(memory[2], 0);
            assert_eq!(memory[1], 1);
            assert_eq!(memory[3], 2);
            assert!(memory[4..].iter().all(|cell| *cell == 0));
            assert_eq!(memory[0], 0);
        }
    }
}

#[test]
fn transfer_loop_adds_into_the_target_cell() {
    for opts in all_options() {
        let mut interpreter =
            Interpreter::<30_000>::new(parse(b">>>++<<<+++++[->>>+<<<]", opts));
        let report = interpreter.run(b"", 100_000);
        assert_eq!(report.stop, Stop::Finished);
        assert_eq!(interpreter.pointer(), 0);
        assert_eq!(interpreter.memory()[0], 0);
        assert_eq!(interpreter.memory()[3], 7);
    }
}

#[test]
fn scan_loop_advances_in_strides_to_a_zero_cell() {
    for opts in all_options() {
        let mut interpreter =
            Interpreter::<30_000>::new(parse(b"+>>>+>>>+>+<<<<<<<[>>>]", opts));
        let report = interpreter.run(b"", 100_000);
        assert_eq!(report.stop, Stop::Finished);
        assert_eq!(interpreter.pointer(), 9);
    }
}

#[test]
fn scan_loop_wraps_round_the_tape() {
    for opts in all_options() {
        let mut interpreter = Interpreter::<10>::new(parse(b"+>>>+>>>+>>>+<<<<<<<<<[>>>]", opts));
        let report = interpreter.run(b"", 100_000);
        assert_eq!(report.stop, Stop::Finished);
        assert_eq!(interpreter.pointer(), 2);
    }
}

#[test]
fn cell_arithmetic_wraps_modulo_256() {
    let mut interpreter = Interpreter::<8>::new(vec![Instruction::Add(255), Instruction::Add(3)]);
    assert_eq!(interpreter.step(), Effect::Stepped);
    assert_eq!(interpreter.memory()[0], 255);
    assert_eq!(interpreter.step(), Effect::Stepped);
    assert_eq!(interpreter.memory()[0], 2);
    assert_eq!(interpreter.step(), Effect::Halted);
}

#[test]
fn pointer_wraps_in_both_directions() {
    let mut interpreter = Interpreter::<30_000>::new(vec![
        Instruction::Move(-1),
        Instruction::Move(1),
        Instruction::Move(-30_001),
        Instruction::Move(60_002),
    ]);
    interpreter.step();
    assert_eq!(interpreter.pointer(), 29_999);
    interpreter.step();
    assert_eq!(interpreter.pointer(), 0);
    interpreter.step();
    assert_eq!(interpreter.pointer(), 29_999);
    interpreter.step();
    assert_eq!(interpreter.pointer(), 1);
}

#[test]
fn wrap_offset_is_the_euclidean_remainder() {
    assert_eq!(wrap_offset(0, 30_000), 0);
    assert_eq!(wrap_offset(5, 30_000), 5);
    assert_eq!(wrap_offset(30_000, 30_000), 0);
    assert_eq!(wrap_offset(-1, 30_000), 29_999);
    assert_eq!(wrap_offset(-30_000, 30_000), 0);
    assert_eq!(wrap_offset(-30_001, 30_000), 29_999);
    assert_eq!(wrap_offset(isize::MIN, 7), (isize::MIN).rem_euclid(7) as usize);
    assert_eq!(wrap_offset(isize::MAX, 7), (isize::MAX).rem_euclid(7) as usize);
}

#[test]
fn multiply_scales_and_clears() {
    let mut interpreter = Interpreter::<16>::new(vec![
        Instruction::Add(7),
        Instruction::Move(2),
        Instruction::Add(1),
        Instruction::Move(-2),
        Instruction::Multiply(2, 3),
        Instruction::Multiply(-1, 250),
    ]);
    let report = interpreter.run(b"", 100);
    assert_eq!(report.stop, Stop::Finished);
    assert_eq!(interpreter.memory()[0], 0);
    assert_eq!(interpreter.memory()[2], 22);
    assert_eq!(interpreter.memory()[15], 0);
    assert_eq!(interpreter.pointer(), 0);
}

#[test]
fn multiply_wraps_product_and_offset() {
    let mut interpreter = Interpreter::<4>::new(vec![
        Instruction::Add(100),
        Instruction::Multiply(-1, 3),
    ]);
    interpreter.run(b"", 100);
    assert_eq!(interpreter.memory()[3], 44);
    assert_eq!(interpreter.memory()[0], 0);
}

#[test]
fn step_asks_for_input_and_receive_supplies_it() {
    let mut interpreter =
        Interpreter::<8>::new(vec![Instruction::In, Instruction::Out, Instruction::Add(1)]);
    assert_eq!(interpreter.pending(), Effect::NeedsInput);
    assert_eq!(interpreter.step(), Effect::NeedsInput);
    assert_eq!(interpreter.cursor(), 0);
    assert!(interpreter.receive(b'x'));
    assert_eq!(interpreter.cursor(), 1);
    assert_eq!(interpreter.memory()[0], b'x');
    assert!(!interpreter.receive(b'y'));
    assert_eq!(interpreter.step(), Effect::Output(b'x'));
    assert_eq!(interpreter.step(), Effect::Stepped);
    assert_eq!(interpreter.step(), Effect::Halted);
    assert!(!interpreter.receive(b'z'));
    assert_eq!(interpreter.memory()[0], b'y' - 0);
}

#[test]
fn run_stops_at_the_step_limit() {
    let mut interpreter = Interpreter::<8>::new(parse(b"+[]", OptimizationOptions::new()));
    let report = interpreter.run(b"", 1_000);
    assert_eq!(report.stop, Stop::StepLimit);
    assert_eq!(report.output, b"");
    let mut interpreter = Interpreter::<8>::new(parse(b"+++", OptimizationOptions::new()));
    let report = interpreter.run(b"", 2);
    assert_eq!(report.stop, Stop::StepLimit);
    assert_eq!(interpreter.memory()[0], 2);
    let report = interpreter.run(b"", 1);
    assert_eq!(report.stop, Stop::Finished);
    assert_eq!(interpreter.memory()[0], 3);
}

#[test]
fn jump_past_the_end_halts() {
    let mut interpreter = Interpreter::<8>::new(vec![
        Instruction::JumpIfZero(usize::MAX),
        Instruction::Add(1),
    ]);
    let report = interpreter.run(b"", 10);
    assert_eq!(report.stop, Stop::Finished);
    assert_eq!(interpreter.memory()[0], 0);
    assert_eq!(interpreter.cursor(), 2);
}

#[test]
fn hello_prints_the_same_under_every_option() {
    let program = b"++++++++[>++++[>++>+++>+++>+<<<<-]>+>+>->>+[<]<-]>>.>---.+++++++..+++.>>.<-.<.+++.------.--------.>>+.>++.";
    let mut outputs = Vec::new();
    for opts in all_options() {
        let mut interpreter = Interpreter::<30_000>::new(parse(program, opts));
        let report = interpreter.run(b"", 1_000_000);
        assert_eq!(report.stop, Stop::Finished);
        outputs.push((report.output, interpreter.memory().to_vec(), interpreter.pointer()));
    }
    assert_eq!(outputs[0].0, b"Hello World!\n");
    for other in &outputs[1..] {
        assert_eq!(other, &outputs[0]);
    }
}

#[test]
fn optimized_and_plain_programs_agree() {
    let programs: [&[u8]; 6] = [
        b",>,<[->+<]>.",
        b"+++[>+++[>+<-]<-]>>[-]+<<[>]",
        b",[>+>+<<-]>>[-<<+>>]<<[-]>[<+>-]<.",
        b"+>+>+>+>+<<<<[>]<[<]>[-]>[+++]",
        b"--[-->+<]>+.[<+>->+<]",
        b",+[-.,+]",
    ];
    for program in programs {
        let mut plain = Interpreter::<300>::new(parse(program, OptimizationOptions::new()));
        let expected = plain.run(b"\x05\x03", 1_000_000);
        assert!(expected.stop != Stop::StepLimit);
        for opts in all_options() {
            let mut fused = Interpreter::<300>::new(parse(program, opts));
            let report = fused.run(b"\x05\x03", 1_000_000);
            assert_eq!(report.output, expected.output);
            assert_eq!(report.consumed, expected.consumed);
            assert_eq!(report.stop, expected.stop);
            assert_eq!(fused.memory(), plain.memory());
            assert_eq!(fused.pointer(), plain.pointer());
        }
    }
}

#[test]
fn new_interpreter_starts_on_a_zero_tape() {
    let interpreter = Interpreter::<30_000>::new(vec![Instruction::Add(1)]);
    assert_eq!(interpreter.pointer(), 0);
    assert_eq!(interpreter.cursor(), 0);
    assert!(interpreter.memory().iter().all(|cell| *cell == 0));
    assert_eq!(interpreter.pending(), Effect::Stepped);
    let copy = interpreter.clone();
    assert_eq!(copy.pointer(), 0);
}

#[test]
fn transfer_onto_its_own_cell_ends_only_when_fused() {
    let program = b"+[->>>>+<<<<]";
    let mut plain = Interpreter::<4>::new(parse(program, OptimizationOptions::new()));
    assert_eq!(plain.run(b"", 100_000).stop, Stop::StepLimit);
    let fused_ir = parse(program, OptimizationOptions::new().with_contract().with_multiply());
    assert_eq!(fused_ir, vec![Instruction::Add(1), Instruction::Multiply(4, 1)]);
    let mut fused = Interpreter::<4>::new(fused_ir);
    assert_eq!(fused.run(b"", 100_000).stop, Stop::Finished);
    assert_eq!(fused.memory(), &[0, 0, 0, 0]);
}

struct Lcg(u64);

impl Lcg {
    fn next(&mut self, bound: u64) -> u64 {
        self.0 = self.0.wrapping_mul(6364136223846793005).wrapping_add(1442695040888963407);
        (self.0 >> 33) % bound
    }
}

fn random_program(rng: &mut Lcg, length: usize) -> Vec<u8> {
    let mut program = Vec::new();
    let mut open = 0;
    while program.len() < length {
        match rng.next(12) {
            0 | 1 => program.push(b'+'),
            2 | 3 => program.push(b'-'),
            4 => program.push(b'>'),
            5 => program.push(b'<'),
            6 => program.push(b'.'),
            7 => program.push(b','),
            8 | 9 => {
                program.push(b'[');
                open += 1;
            }
            10 => {
                if open > 0 {
                    program.push(b']');
                    open -= 1;
                }
            }
            _ => program.push(b'#'),
        }
    }
    while open > 0 {
        program.push(b']');
        open -= 1;
    }
    program
}

#[test]
fn random_programs_behave_alike_under_every_option() {
    let mut rng = Lcg(7);
    let mut finished = 0;
    for round in 0..400 {
        let program = random_program(&mut rng, 10 + round % 50);
        let mut plain = Interpreter::<5>::new(parse(&program, OptimizationOptions::new()));
        let expected = plain.run(b"\x02\x00\x07\x01", 20_000);
        if expected.stop == Stop::StepLimit {
            continue;
        }
        finished += 1;
        for opts in all_options() {
            let mut fused = Interpreter::<5>::new(parse(&program, opts));
            let report = fused.run(b"\x02\x00\x07\x01", 20_000);
            assert_eq!(report, expected);
            assert_eq!(fused.memory(), plain.memory());
            assert_eq!(fused.pointer(), plain.pointer());
        }
    }
    assert!(finished > 100);
}
