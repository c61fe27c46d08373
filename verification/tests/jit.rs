use std::collections::HashMap;

use brainfuck::interpreter::machine::Stop;
use brainfuck::interpreter::Interpreter;
use brainfuck::jit::{reduce, Asm, Compiler, Reg};
use brainfuck::parser::pairing::LoopError;
use brainfuck::parser::{Instruction, OptimizationOptions, Parser};

const N: u32 = 30_000;

fn parse(program: &[u8], opts: OptimizationOptions) -> Vec<Instruction> {
    Parser::new(program).parse(opts).expect("failed to parse")
}

fn all_options() -> Vec<OptimizationOptions> {
    let mut all = Vec::new();
    for bits in 0..16u8 {
        all.push(OptimizationOptions {
            contract: bits & 1 != 0,
            clear: bits & 2 != 0,
            multiply: bits & 4 != 0,
            move_until_zero: bits & 8 != 0,
        });
    }
    all
}

struct Registers {
    rax: u64,
    rcx: u64,
    r13: u64,
    less: bool,
    negative: bool,
}

impl Registers {
    fn get(&self, reg: Reg) -> u64 {
        match reg {
            Reg::Eax => self.rax,
            Reg::Ecx => self.rcx,
            Reg::Pointer => self.r13,
        }
    }

    fn set32(&mut self, reg: Reg, value: u32) {
        match reg {
            Reg::Eax => self.rax = value as u64,
            Reg::Ecx => self.rcx = value as u64,
            Reg::Pointer => self.r13 = value as u64,
        }
    }
}

fn execute(listing: &[Asm], tape: &mut [u8], input: &[u8]) -> (Vec<u8>, bool) {
    let mut labels = HashMap::new();
    for (at, entry) in listing.iter().enumerate() {
        if let Asm::Label(id) = entry {
            assert!(labels.insert(*id, at).is_none(), "label {} bound twice", id);
        }
    }
    let mut regs = Registers { rax: 7, rcx: 7, r13: 7, less: false, negative: false };
    let mut output = Vec::new();
    let mut consumed = 0;
    let mut at = 0;
    let mut steps = 0u64;
    loop {
        steps += 1;
        assert!(steps < 50_000_000);
        let cell = regs.r13 as usize;
        match listing[at] {
            Asm::Enter => regs.r13 = 0,
            Asm::Leave => return (output, true),
            Asm::AddCell(n) => tape[cell] = tape[cell].wrapping_add(n),
            Asm::ClearCell => tape[cell] = 0,
            Asm::Lea(dst, disp) => {
                let sum = regs.r13.wrapping_add(disp as i64 as u64);
                regs.set32(dst, sum as u32);
            }
            Asm::Compare(reg, imm) => regs.less = (regs.get(reg) as u32 as i32) < imm,
            Asm::Test(reg) => regs.negative = (regs.get(reg) as u32 as i32) < 0,
            Asm::MoveIfLess(dst, src) => {
                let value = if regs.less { regs.get(src) } else { regs.get(dst) };
                regs.set32(dst, value as u32);
            }
            Asm::MoveIfNotNegative(dst, src) => {
                let value = if !regs.negative { regs.get(src) } else { regs.get(dst) };
                regs.set32(dst, value as u32);
            }
            Asm::LoadCell => regs.rcx = tape[cell] as u64,
            Asm::Scale(factor) => {
                let product = (regs.rcx as u32 as i32).wrapping_mul(factor as i32);
                regs.rcx = product as u32 as u64;
            }
            Asm::AddToTarget => {
                let target = regs.rax as usize;
                tape[target] = tape[target].wrapping_add(regs.rcx as u8);
            }
            Asm::CallRead => {
                if consumed == input.len() {
                    return (output, false);
                }
                tape[cell] = input[consumed];
                consumed += 1;
                regs.rax = 0;
                regs.rcx = 0xdead_beef;
            }
            Asm::CallWrite => {
                output.push(tape[cell]);
                regs.rax = 0;
                regs.rcx = 0xdead_beef;
            }
            Asm::Label(_) => {}
            Asm::JumpIfZero(label) => {
                if tape[cell] == 0 {
                    at = labels[&label];
                }
            }
            Asm::JumpIfNotZero(label) => {
                if tape[cell] != 0 {
                    at = labels[&label];
                }
            }
            Asm::Jump(label) => at = labels[&label],
        }
        at += 1;
    }
}

#[test]
fn assemble_frames_the_listing() {
    let listing = Compiler::<N>::new(vec![]).assemble().unwrap();
    assert_eq!(listing, vec![Asm::Enter, Asm::Leave]);
    let listing = Compiler::<N>::new(vec![Instruction::Add(3), Instruction::Clear])
        .assemble()
        .unwrap();
    assert_eq!(listing, vec![Asm::Enter, Asm::AddCell(3), Asm::ClearCell, Asm::Leave]);
}

#[test]
fn assemble_move_right_subtracts_the_length_unless_less() {
    let listing = Compiler::<N>::new(vec![Instruction::Move(5)]).assemble().unwrap();
    assert_eq!(
        listing,
        vec![
            Asm::Enter,
            Asm::Lea(Reg::Eax, 5),
            Asm::Lea(Reg::Pointer, 5 - 30_000),
            Asm::Compare(Reg::Eax, 30_000),
            Asm::MoveIfLess(Reg::Pointer, Reg::Eax),
            Asm::Leave
        ]
    );
}

#[test]
fn assemble_move_left_adds_the_length_unless_not_negative() {
    let listing = Compiler::<N>::new(vec![Instruction::Move(-5)]).assemble().unwrap();
    assert_eq!(
        listing,
        vec![
            Asm::Enter,
            Asm::Lea(Reg::Eax, -5),
            Asm::Lea(Reg::Pointer, 30_000 - 5),
            Asm::Test(Reg::Eax),
            Asm::MoveIfNotNegative(Reg::Pointer, Reg::Eax),
            Asm::Leave
        ]
    );
}

#[test]
fn assemble_reduces_displacements_to_less_than_a_turn() {
    assert_eq!(reduce(30_001, N), 1);
    assert_eq!(reduce(-30_001, N), -1);
    assert_eq!(reduce(30_000, N), 0);
    assert_eq!(reduce(-30_000, N), 0);
    assert_eq!(reduce(29_999, N), 29_999);
    assert_eq!(reduce(-29_999, N), -29_999);
    assert_eq!(reduce(isize::MIN, N), -(((isize::MIN as i128).unsigned_abs() % 30_000) as i32));
    assert_eq!(reduce(isize::MAX, N), (isize::MAX % 30_000) as i32);
    let listing = Compiler::<N>::new(vec![Instruction::Move(60_000)]).assemble().unwrap();
    assert_eq!(listing, vec![Asm::Enter, Asm::Leave]);
}

#[test]
fn assemble_loop_binds_two_labels() {
    let listing =
        Compiler::<N>::new(parse(b"[-]", OptimizationOptions::new())).assemble().unwrap();
    assert_eq!(
        listing,
        vec![
            Asm::Enter,
            Asm::JumpIfZero(5),
            Asm::Label(2),
            Asm::AddCell(255),
            Asm::JumpIfNotZero(2),
            Asm::Label(5),
            Asm::Leave
        ]
    );
}

#[test]
fn assemble_multiply_leaves_the_pointer() {
    let listing = Compiler::<N>::new(vec![Instruction::Multiply(-2, 3)]).assemble().unwrap();
    assert_eq!(
        listing,
        vec![
            Asm::Enter,
            Asm::Lea(Reg::Ecx, -2),
            Asm::Lea(Reg::Eax, 29_998),
            Asm::Test(Reg::Ecx),
            Asm::MoveIfNotNegative(Reg::Eax, Reg::Ecx),
            Asm::LoadCell,
            Asm::Scale(3),
            Asm::AddToTarget,
            Asm::ClearCell,
            Asm::Leave
        ]
    );
    let listing = Compiler::<N>::new(vec![Instruction::Multiply(30_000, 1)]).assemble().unwrap();
    assert_eq!(
        listing,
        vec![
            Asm::Enter,
            Asm::Lea(Reg::Eax, 0),
            Asm::LoadCell,
            Asm::Scale(1),
            Asm::AddToTarget,
            Asm::ClearCell,
            Asm::Leave
        ]
    );
}

#[test]
fn assemble_scan_loops_on_itself() {
    let listing = Compiler::<N>::new(vec![Instruction::MoveUntilZero(3)]).assemble().unwrap();
    assert_eq!(
        listing,
        vec![
            Asm::Enter,
            Asm::Label(1),
            Asm::JumpIfZero(8),
            Asm::Lea(Reg::Eax, 3),
            Asm::Lea(Reg::Pointer, 3 - 30_000),
            Asm::Compare(Reg::Eax, 30_000),
            Asm::MoveIfLess(Reg::Pointer, Reg::Eax),
            Asm::Jump(1),
            Asm::Label(8),
            Asm::Leave
        ]
    );
}

#[test]
fn assemble_rejects_loops_that_do_not_nest() {
    assert_eq!(
        Compiler::<N>::new(vec![Instruction::Add(1), Instruction::JumpIfNotZero(0)]).assemble(),
        Err(LoopError::EndWithoutHead(1))
    );
    assert_eq!(
        Compiler::<N>::new(vec![Instruction::JumpIfZero(0), Instruction::Add(1)]).assemble(),
        Err(LoopError::HeadWithoutEnd)
    );
    assert_eq!(
        Compiler::<N>::new(vec![
            Instruction::JumpIfZero(1),
            Instruction::JumpIfNotZero(0),
            Instruction::JumpIfNotZero(0),
            Instruction::JumpIfZero(0)
        ])
        .assemble(),
        Err(LoopError::EndWithoutHead(2))
    );
}

#[test]
fn assemble_accepts_every_parsed_program() {
    for opts in all_options() {
        let ir = parse(b"+[>+[-]<[->+<]>[>]<<]", opts);
        assert!(Compiler::<N>::new(ir).assemble().is_ok());
    }
}

#[test]
fn assemble_labels_name_their_index_and_all_jumps_resolve() {
    for opts in all_options() {
        let ir = parse(b"+[>+[-]<[->+<]>[>]<<][[][[]]]>[>>]", opts);
        let listing = Compiler::<N>::new(ir).assemble().unwrap();
        for (at, entry) in listing.iter().enumerate() {
            match entry {
                Asm::Label(id) => assert_eq!(*id, at),
                Asm::JumpIfZero(id) | Asm::JumpIfNotZero(id) | Asm::Jump(id) => {
                    assert_eq!(listing[*id], Asm::Label(*id));
                }
                _ => {}
            }
        }
    }
}

#[test]
fn assemble_nested_loops_point_heads_behind_their_ends() {
    let listing =
        Compiler::<N>::new(parse(b"[[]]", OptimizationOptions::new())).assemble().unwrap();
    assert_eq!(
        listing,
        vec![
            Asm::Enter,
            Asm::JumpIfZero(8),
            Asm::Label(2),
            Asm::JumpIfZero(6),
            Asm::Label(4),
            Asm::JumpIfNotZero(4),
            Asm::Label(6),
            Asm::JumpIfNotZero(2),
            Asm::Label(8),
            Asm::Leave
        ]
    );
}

#[test]
fn listing_behaves_as_the_interpreter() {
    let programs: [&[u8]; 7] = [
        b"++++++++[>++++[>++>+++>+++>+<<<<-]>+>+>->>+[<]<-]>>.>---.+++++++..+++.>>.<-.<.+++.------.--------.>>+.>++.",
        b",>,<[->+<]>.",
        b"+++[>+++[>+<-]<-]>>[-]+<<[>]",
        b",[>+>+<<-]>>[-<<+>>]<<[-]>[<+>-]<.",
        b"<+<+<+>>>[<]<<<[-<++>]<.",
        b"--[-->+<]>+.[<+>->+<]",
        b",[.,]",
    ];
    for program in programs {
        for opts in all_options() {
            let ir = parse(program, opts);
            let mut interpreter = Interpreter::<30_000>::new(ir.clone());
            let report = interpreter.run(b"\x05\x03", 10_000_000);
            assert!(report.stop != Stop::StepLimit);
            let listing = Compiler::<N>::new(ir).assemble().unwrap();
            let mut tape = vec![0u8; 30_000];
            let (output, finished) = execute(&listing, &mut tape, b"\x05\x03");
            assert_eq!(output, report.output);
            assert_eq!(finished, report.stop == Stop::Finished);
            assert_eq!(&tape[..], &interpreter.memory()[..]);
        }
    }
}

struct Lcg(u64);

impl Lcg {
    fn next(&mut self, bound: u64) -> u64 {
        self.0 = self.0.wrapping_mul(6364136223846793005).wrapping_add(1442695040888963407);
        (self.0 >> 33) % bound
    }
}

fn random_program(rng: &mut Lcg, length: usize) -> Vec<u8> {
    let mut program = Vec::new();
    let mut open = 0;
    while program.len() < length {
        match rng.next(12) {
            0 | 1 => program.push(b'+'),
            2 | 3 => program.push(b'-'),
            4 => program.push(b'>'),
            5 => program.push(b'<'),
            6 => program.push(b'.'),
            7 => program.push(b','),
            8 | 9 => {
                program.push(b'[');
                open += 1;
            }
            10 => {
                if open > 0 {
                    program.push(b']');
                    open -= 1;
                }
            }
            _ => program.push(b'#'),
        }
    }
    while open > 0 {
        program.push(b']');
        open -= 1;
    }
    program
}

#[test]
fn random_listings_behave_as_the_interpreter() {
    let mut rng = Lcg(11);
    let mut finished = 0;
    for round in 0..300 {
        let program = random_program(&mut rng, 10 + round % 50);
        for opts in [OptimizationOptions::new(), OptimizationOptions::all()] {
            let ir = parse(&program, opts);
            let mut interpreter = Interpreter::<5>::new(ir.clone());
            let report = interpreter.run(b"\x02\x00\x07\x01", 20_000);
            if report.stop == Stop::StepLimit {
                continue;
            }
            finished += 1;
            let listing = Compiler::<5>::new(ir).assemble().unwrap();
            let mut tape = vec![0u8; 5];
            let (output, ended) = execute(&listing, &mut tape, b"\x02\x00\x07\x01");
            assert_eq!(output, report.output);
            assert_eq!(ended, report.stop == Stop::Finished);
            assert_eq!(&tape[..], &interpreter.memory()[..]);
        }
    }
    assert!(finished > 100);
}
