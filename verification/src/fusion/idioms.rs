//! Four small programs as texts: what `[-]`, `[->>>+<<<]`, `[>>>]` and
//! `,[.,]` do under every choice of rewrites.

use vstd::prelude::*;
use vstd::arithmetic::div_mod::{lemma_add_mod_noop, lemma_mod_bound, lemma_small_mod};
use crate::interpreter::machine::{wrap, Machine, Session, Stop};
use crate::parser::error::UnbalancedBrackets;
use crate::parser::grammar::{
    parse_from, parse_spec, CLOSE, COMMA, DOT, LEFT, MINUS, OPEN, PLUS, RIGHT,
};
use crate::parser::instruction::Instruction;
use crate::parser::opt::OptimizationOptions;
use super::runs::lemma_run_split;
use super::straight::{act, act_prefix, is_plain, lemma_run_straight, on_tape, straight};
use super::units::plainly;
use super::{fresh_session, lemma_rewrites_are_transparent};

verus! {

/// The text `[-]`.
pub open spec fn clear_text() -> Seq<u8> {
    seq![OPEN, MINUS, CLOSE]
}

/// The text `[>>>]`.
pub open spec fn scan_text() -> Seq<u8> {
    seq![OPEN, RIGHT, RIGHT, RIGHT, CLOSE]
}

/// What `[-]` parses to without rewrites.
pub open spec fn clear_plain() -> Seq<Instruction> {
    seq![Instruction::JumpIfZero(2), Instruction::Add(255), Instruction::JumpIfNotZero(0)]
}

/// What `[>>>]` parses to without rewrites.
pub open spec fn scan_plain() -> Seq<Instruction> {
    seq![
        Instruction::JumpIfZero(4),
        Instruction::Move(1),
        Instruction::Move(1),
        Instruction::Move(1),
        Instruction::JumpIfNotZero(0),
    ]
}

/// The two texts parse without rewrites to the two programs.
proof fn lemma_plain_parses()
    ensures
        parse_spec(clear_text(), plainly()) == Ok::<Seq<Instruction>, UnbalancedBrackets>(
            clear_plain(),
        ),
        parse_spec(scan_text(), plainly()) == Ok::<Seq<Instruction>, UnbalancedBrackets>(
            scan_plain(),
        ),
{
    reveal_with_fuel(parse_from, 7);
    let clear = parse_spec(clear_text(), plainly());
    assert(clear is Ok);
    assert(clear->Ok_0 =~= clear_plain());
    let scan = parse_spec(scan_text(), plainly());
    assert(scan is Ok);
    assert(scan->Ok_0 =~= scan_plain());
}

/// Inside the loop of the plain `[-]`: from the decrement on, the program
/// ends with the cell at zero and nothing else changed.
proof fn lemma_clear_counts_down(s: Session, input: Seq<u8>) -> (steps: nat)
    requires
        on_tape(s.machine),
        s.machine.cursor == 1,
        s.machine.cell() != 0,
    ensures
        s.run(clear_plain(), input, steps) == (Session {
            machine: Machine { cursor: 3, ..s.machine.store(0) },
            ..s
        }),
    decreases s.machine.cell(),
{
    let ir = clear_plain();
    reveal_with_fuel(Session::run, 3);
    let s1 = s.step(ir, input);
    let s2 = s1.step(ir, input);
    assert(s.run(ir, input, 2) == s2);
    if s1.machine.cell() == 0 {
        assert(s2.machine.tape =~= s.machine.store(0).tape);
        2
    } else {
        let more = lemma_clear_counts_down(s2, input);
        lemma_run_split(s, ir, input, 2, more);
        assert(s2.machine.store(0).tape =~= s.machine.store(0).tape);
        2 + more
    }
}

/// The plain `[-]` ends with the cell at zero and nothing else changed.
proof fn lemma_clear_plain_ends(start: Machine, input: Seq<u8>) -> (steps: nat)
    requires
        on_tape(start),
        start.cursor == 0,
    ensures
        fresh_session(start).run(clear_plain(), input, steps) == (Session {
            machine: Machine { cursor: 3, ..start.store(0) },
            ..fresh_session(start)
        }),
{
    let ir = clear_plain();
    let s = fresh_session(start);
    reveal_with_fuel(Session::run, 2);
    let s1 = s.step(ir, input);
    assert(s.run(ir, input, 1) == s1);
    if start.cell() == 0 {
        assert(s1.machine.tape =~= start.store(0).tape);
        1
    } else {
        let more = lemma_clear_counts_down(s1, input);
        lemma_run_split(s, ir, input, 1, more);
        1 + more
    }
}

/// The loop `[-]` leaves the current cell at zero and changes no other
/// cell. Under every choice of rewrites, on every tape with the pointer on
/// it and whatever the current cell holds, the program that `[-]` parses to
/// ends within the number of steps returned, with the current cell at zero,
/// every other cell and the pointer as they were, and nothing read or
/// written.
pub proof fn lemma_clear_loop_zeroes_the_cell(
    opts: OptimizationOptions,
    input: Seq<u8>,
    start: Machine,
) -> (steps: nat)
    requires
        on_tape(start),
        start.cursor == 0,
    ensures
        parse_spec(clear_text(), opts) is Ok,
        ({
            let ir = parse_spec(clear_text(), opts)->Ok_0;
            let end = fresh_session(start).run(ir, input, steps);
            &&& end.at_rest(ir, input)
            &&& end.stop(ir, input) == Stop::Finished
            &&& end.machine.tape == start.tape.update(start.pointer, 0)
            &&& end.machine.pointer == start.pointer
            &&& end.consumed == 0
            &&& end.output == Seq::<u8>::empty()
        }),
{
    lemma_plain_parses();
    let plain = lemma_clear_plain_ends(start, input);
    lemma_rewrites_are_transparent(clear_text(), opts, input, start, plain)
}

/// The cell that `turns` strides of 3 from the pointer lead to.
pub open spec fn landing(m: Machine, turns: int) -> int {
    wrap(m.pointer, 3 * turns, m.tape.len() as int)
}

/// A stride of three single moves, and one more stride after some.
proof fn lemma_strides(pointer: int, turns: int, len: int)
    requires
        0 <= pointer < len,
    ensures
        wrap(wrap(wrap(pointer, 1, len), 1, len), 1, len) == wrap(pointer, 3, len),
        wrap(wrap(pointer, 3, len), 3 * turns, len) == wrap(pointer, 3 * (turns + 1), len),
        0 <= wrap(pointer, 3 * turns, len) < len,
        wrap(pointer, 0, len) == pointer,
{
    lemma_mod_bound(pointer + 1, len);
    lemma_mod_bound(pointer + 2, len);
    lemma_mod_bound(pointer + 3, len);
    lemma_mod_bound(pointer + 3 * turns, len);
    lemma_small_mod(pointer as nat, len as nat);
    lemma_small_mod(((pointer + 1) % len) as nat, len as nat);
    lemma_small_mod(((pointer + 2) % len) as nat, len as nat);
    lemma_small_mod(((pointer + 3) % len) as nat, len as nat);
    lemma_add_mod_noop(pointer + 1, 1, len);
    lemma_add_mod_noop(pointer + 2, 1, len);
    lemma_add_mod_noop(pointer + 3, 3 * turns, len);
    lemma_mod_bound(1, len);
    lemma_mod_bound(3 * turns, len);
    lemma_add_mod_noop((pointer + 1) % len, 1, len);
    lemma_add_mod_noop((pointer + 2) % len, 1, len);
    lemma_add_mod_noop((pointer + 3) % len, 3 * turns, len);
}

/// Inside the loop of the plain `[>>>]`: from the first move on, the
/// program ends on the first zero cell that strides of 3 lead to.
proof fn lemma_scan_strides(s: Session, input: Seq<u8>, turns: nat) -> (steps: nat)
    requires
        on_tape(s.machine),
        s.machine.cursor == 1,
        turns >= 1,
        forall|j: int| 1 <= j < turns ==> s.machine.tape[#[trigger] landing(s.machine, j)] != 0,
        s.machine.tape[landing(s.machine, turns as int)] == 0,
    ensures
        s.run(scan_plain(), input, steps) == (Session {
            machine: Machine {
                cursor: 5,
                pointer: landing(s.machine, turns as int),
                ..s.machine
            },
            ..s
        }),
    decreases turns,
{
    let ir = scan_plain();
    let len = s.machine.tape.len() as int;
    reveal_with_fuel(Session::run, 5);
    lemma_strides(s.machine.pointer, 0, len);
    lemma_strides(s.machine.pointer, 1, len);
    lemma_mod_bound(s.machine.pointer + 1, len);
    lemma_mod_bound((s.machine.pointer + 1) % len + 1, len);
    let s1 = s.step(ir, input);
    let s2 = s1.step(ir, input);
    let s3 = s2.step(ir, input);
    let s4 = s3.step(ir, input);
    assert(s3.machine.pointer == landing(s.machine, 1));
    assert(s.run(ir, input, 4) == s4);
    if turns == 1 {
        4
    } else {
        assert(s.machine.tape[landing(s.machine, 1)] != 0);
        assert forall|j: int| 1 <= j < turns - 1 implies s4.machine.tape[#[trigger] landing(
            s4.machine,
            j,
        )] != 0 by {
            lemma_strides(s.machine.pointer, j, len);
            assert(landing(s4.machine, j) == landing(s.machine, j + 1));
        }
        lemma_strides(s.machine.pointer, turns - 1, len);
        let more = lemma_scan_strides(s4, input, (turns - 1) as nat);
        lemma_run_split(s, ir, input, 4, more);
        4 + more
    }
}

/// The loop `[>>>]` moves the pointer in strides of 3 to a zero cell. Take
/// any choice of rewrites and a tape with the pointer on it, on which the
/// cells that fewer than `turns` strides of 3 lead to, round the end of the
/// tape where they pass it, are not zero, and the cell that `turns` strides
/// lead to is zero. The program that `[>>>]` parses to ends within the
/// number of steps returned, with the pointer on that zero cell, the tape as
/// it was, and nothing read or written.
pub proof fn lemma_scan_loop_stops_at_zero(
    opts: OptimizationOptions,
    input: Seq<u8>,
    start: Machine,
    turns: nat,
) -> (steps: nat)
    requires
        on_tape(start),
        start.cursor == 0,
        forall|j: int| 0 <= j < turns ==> start.tape[#[trigger] landing(start, j)] != 0,
        start.tape[landing(start, turns as int)] == 0,
    ensures
        parse_spec(scan_text(), opts) is Ok,
        ({
            let ir = parse_spec(scan_text(), opts)->Ok_0;
            let end = fresh_session(start).run(ir, input, steps);
            &&& end.at_rest(ir, input)
            &&& end.stop(ir, input) == Stop::Finished
            &&& end.machine.tape == start.tape
            &&& end.machine.pointer == (start.pointer + 3 * turns) % (start.tape.len() as int)
            &&& end.consumed == 0
            &&& end.output == Seq::<u8>::empty()
        }),
{
    lemma_plain_parses();
    let ir = scan_plain();
    let s = fresh_session(start);
    lemma_strides(start.pointer, 0, start.tape.len() as int);
    reveal_with_fuel(Session::run, 2);
    let s1 = s.step(ir, input);
    assert(s.run(ir, input, 1) == s1);
    let plain = if turns == 0 {
        1nat
    } else {
        assert(start.tape[landing(start, 0)] != 0);
        assert forall|j: int| 1 <= j < turns implies s1.machine.tape[#[trigger] landing(
            s1.machine,
            j,
        )] != 0 by {
            assert(landing(s1.machine, j) == landing(start, j));
        }
        assert(landing(s1.machine, turns as int) == landing(start, turns as int));
        let more = lemma_scan_strides(s1, input, turns);
        lemma_run_split(s, ir, input, 1, more);
        1 + more
    };
    lemma_rewrites_are_transparent(scan_text(), opts, input, start, plain)
}

/// The text `[->>>+<<<]`.
pub open spec fn transfer_text() -> Seq<u8> {
    seq![OPEN, MINUS, RIGHT, RIGHT, RIGHT, PLUS, LEFT, LEFT, LEFT, CLOSE]
}

/// What `[->>>+<<<]` parses to without rewrites.
pub open spec fn transfer_plain() -> Seq<Instruction> {
    seq![
        Instruction::JumpIfZero(9),
        Instruction::Add(255),
        Instruction::Move(1),
        Instruction::Move(1),
        Instruction::Move(1),
        Instruction::Add(1),
        Instruction::Move(-1isize),
        Instruction::Move(-1isize),
        Instruction::Move(-1isize),
        Instruction::JumpIfNotZero(0),
    ]
}

/// The text parses without rewrites to the program.
#[verifier::rlimit(40)]
proof fn lemma_transfer_parses()
    ensures
        parse_spec(transfer_text(), plainly()) == Ok::<Seq<Instruction>, UnbalancedBrackets>(
            transfer_plain(),
        ),
{
    reveal_with_fuel(parse_from, 12);
    let parsed = parse_spec(transfer_text(), plainly());
    assert(parsed is Ok);
    assert(parsed->Ok_0 =~= transfer_plain());
}

/// Three moves right and three moves left lead back, and three moves
/// right lead to another cell unless the tape has one cell or three.
proof fn lemma_there_and_back(pointer: int, len: int)
    requires
        0 <= pointer < len,
    ensures
        ({
            let a = wrap(pointer, 1, len);
            let b = wrap(a, 1, len);
            let c = wrap(b, 1, len);
            let d = wrap(c, -1, len);
            let e = wrap(d, -1, len);
            &&& 0 <= a < len && 0 <= b < len && 0 <= c < len && 0 <= d < len && 0 <= e < len
            &&& c == wrap(pointer, 3, len)
            &&& wrap(e, -1, len) == pointer
            &&& 3int % len != 0 ==> c != pointer
        }),
{
    let a = wrap(pointer, 1, len);
    let b = wrap(a, 1, len);
    let c = wrap(b, 1, len);
    let d = wrap(c, -1, len);
    let e = wrap(d, -1, len);
    lemma_strides(pointer, 0, len);
    lemma_mod_bound(pointer + 1, len);
    lemma_mod_bound(a + 1, len);
    lemma_mod_bound(b + 1, len);
    lemma_mod_bound(c - 1, len);
    lemma_mod_bound(d - 1, len);
    lemma_mod_bound(-1, len);
    lemma_small_mod(a as nat, len as nat);
    lemma_small_mod(b as nat, len as nat);
    lemma_small_mod(c as nat, len as nat);
    lemma_small_mod(d as nat, len as nat);
    lemma_small_mod(e as nat, len as nat);
    lemma_small_mod(pointer as nat, len as nat);
    lemma_add_mod_noop(pointer + 3, -1, len);
    lemma_add_mod_noop(pointer + 2, -1, len);
    lemma_add_mod_noop(pointer + 1, -1, len);
    lemma_add_mod_noop(c, -1, len);
    lemma_add_mod_noop(d, -1, len);
    lemma_add_mod_noop(e, -1, len);
    assert(d == (pointer + 2) % len);
    assert(e == (pointer + 1) % len);
    if 3int % len != 0 && c == pointer {
        lemma_add_mod_noop(pointer, 3, len);
        lemma_mod_bound(3, len);
        let r = 3int % len;
        assert((pointer + r) % len == pointer);
        if pointer + r < len {
            lemma_small_mod((pointer + r) as nat, len as nat);
        } else {
            vstd::arithmetic::div_mod::lemma_fundamental_div_mod_converse(
                pointer + r,
                len,
                1,
                pointer + r - len,
            );
        }
    }
}

/// What the body of the plain `[->>>+<<<]` leaves: one less in the cell,
/// one more in the cell three further on, and the pointer where it was.
proof fn lemma_transfer_body_acts(m: Machine)
    requires
        on_tape(m),
        3int % (m.tape.len() as int) != 0,
    ensures
        ({
            let to = wrap(m.pointer, 3, m.tape.len() as int);
            let after = act_prefix(transfer_plain().subrange(1, 9), 8, m);
            &&& 0 <= to < m.tape.len()
            &&& to != m.pointer
            &&& after.pointer == m.pointer
            &&& after.cursor == m.cursor + 8
            &&& after.tape == m.tape.update(m.pointer, m.cell().wrapping_add(255)).update(
                to,
                m.tape[to].wrapping_add(1),
            )
        }),
{
    let code = transfer_plain().subrange(1, 9);
    lemma_there_and_back(m.pointer, m.tape.len() as int);
    reveal_with_fuel(act_prefix, 9);
    let m1 = act(code[0], m);
    let m2 = act(code[1], m1);
    let m3 = act(code[2], m2);
    let m4 = act(code[3], m3);
    let m5 = act(code[4], m4);
    let m6 = act(code[5], m5);
    let m7 = act(code[6], m6);
    let m8 = act(code[7], m7);
    assert(act_prefix(code, 8, m) == m8);
}

/// Inside the loop of the plain `[->>>+<<<]`: from the decrement on, the
/// program ends with the cell added to the target and at zero.
proof fn lemma_transfer_counts_down(s: Session, input: Seq<u8>) -> (steps: nat)
    requires
        on_tape(s.machine),
        s.machine.cursor == 1,
        s.machine.cell() != 0,
        3int % (s.machine.tape.len() as int) != 0,
    ensures
        ({
            let to = wrap(s.machine.pointer, 3, s.machine.tape.len() as int);
            let sum = ((s.machine.tape[to] + s.machine.cell()) % 256) as u8;
            s.run(transfer_plain(), input, steps) == (Session {
                machine: Machine {
                    cursor: 10,
                    tape: s.machine.tape.update(to, sum).update(s.machine.pointer, 0),
                    ..s.machine
                },
                ..s
            })
        }),
    decreases s.machine.cell(),
{
    let ir = transfer_plain();
    let len = s.machine.tape.len() as int;
    let pointer = s.machine.pointer;
    let to = wrap(pointer, 3, len);
    let sum = ((s.machine.tape[to] + s.machine.cell()) % 256) as u8;
    let code = ir.subrange(1, 9);
    assert(straight(code)) by {
        assert forall|i: int| 0 <= i < code.len() implies is_plain(#[trigger] code[i]) by {
            assert(code[i] == ir[i + 1]);
        }
    }
    lemma_run_straight(s, ir, input, 1, 9, 8);
    lemma_transfer_body_acts(s.machine);
    let s8 = s.run(ir, input, 8);
    lemma_run_split(s, ir, input, 8, 1);
    let s9 = s8.step(ir, input);
    assert(s8.run(ir, input, 1) == s9) by {
        reveal_with_fuel(Session::run, 2);
    }
    let wanted = s.machine.tape.update(to, sum).update(pointer, 0);
    if s8.machine.cell() == 0 {
        assert(s9.machine.tape =~= wanted);
        9
    } else {
        let more = lemma_transfer_counts_down(s9, input);
        lemma_run_split(s, ir, input, 9, more);
        let later = ((s9.machine.tape[to] + s9.machine.cell()) % 256) as u8;
        assert(later == sum);
        assert(s9.machine.tape.update(to, later).update(pointer, 0) =~= wanted);
        9 + more
    }
}

/// The loop `[->>>+<<<]` adds the current cell to the cell three further
/// on and leaves the current cell at zero. Take any choice of rewrites and a
/// tape with the pointer on it that has neither one cell nor three, so that
/// the cell three further on is another cell. The program that `[->>>+<<<]`
/// parses to ends within the number of steps returned, with the sum modulo
/// 256 in the cell three further on, round the end of the tape where that
/// passes it, the current cell at zero, every other cell and the pointer as
/// they were, and nothing read or written.
pub proof fn lemma_transfer_loop_adds_the_cell(
    opts: OptimizationOptions,
    input: Seq<u8>,
    start: Machine,
) -> (steps: nat)
    requires
        on_tape(start),
        start.cursor == 0,
        3int % (start.tape.len() as int) != 0,
    ensures
        parse_spec(transfer_text(), opts) is Ok,
        ({
            let ir = parse_spec(transfer_text(), opts)->Ok_0;
            let end = fresh_session(start).run(ir, input, steps);
            let to = (start.pointer + 3) % (start.tape.len() as int);
            let sum = ((start.tape[to] + start.cell()) % 256) as u8;
            &&& end.at_rest(ir, input)
            &&& end.stop(ir, input) == Stop::Finished
            &&& end.machine.tape == start.tape.update(to, sum).update(start.pointer, 0)
            &&& end.machine.pointer == start.pointer
            &&& end.consumed == 0
            &&& end.output == Seq::<u8>::empty()
        }),
{
    lemma_transfer_parses();
    let ir = transfer_plain();
    let s = fresh_session(start);
    let len = start.tape.len() as int;
    let to = wrap(start.pointer, 3, len);
    lemma_there_and_back(start.pointer, len);
    reveal_with_fuel(Session::run, 2);
    let s1 = s.step(ir, input);
    assert(s.run(ir, input, 1) == s1);
    let plain = if start.cell() == 0 {
        lemma_small_mod(start.tape[to] as nat, 256);
        assert(s1.machine.tape =~= start.tape.update(to, start.tape[to]).update(
            start.pointer,
            0,
        ));
        1nat
    } else {
        let more = lemma_transfer_counts_down(s1, input);
        lemma_run_split(s, ir, input, 1, more);
        1 + more
    };
    lemma_rewrites_are_transparent(transfer_text(), opts, input, start, plain)
}

/// The text `,[.,]`.
pub open spec fn echo_text() -> Seq<u8> {
    seq![COMMA, OPEN, DOT, COMMA, CLOSE]
}

/// What `,[.,]` parses to without rewrites.
pub open spec fn echo_plain() -> Seq<Instruction> {
    seq![
        Instruction::In,
        Instruction::JumpIfZero(4),
        Instruction::Out,
        Instruction::In,
        Instruction::JumpIfNotZero(1),
    ]
}

/// The text parses without rewrites to the program.
proof fn lemma_echo_parses()
    ensures
        parse_spec(echo_text(), plainly()) == Ok::<Seq<Instruction>, UnbalancedBrackets>(
            echo_plain(),
        ),
{
    reveal_with_fuel(parse_from, 7);
    let parsed = parse_spec(echo_text(), plainly());
    assert(parsed is Ok);
    assert(parsed->Ok_0 =~= echo_plain());
}

/// Inside the loop of the plain `,[.,]`: with the byte read last in the
/// cell, the program writes it and goes on so until the input has no byte
/// left.
proof fn lemma_echo_goes_on(s: Session, input: Seq<u8>) -> (steps: nat)
    requires
        on_tape(s.machine),
        s.machine.cursor == 2,
        1 <= s.consumed <= input.len(),
        s.machine.cell() == input[s.consumed - 1],
        s.output == input.take(s.consumed - 1),
        forall|i: int| 0 <= i < input.len() ==> #[trigger] input[i] != 0,
    ensures
        s.run(echo_plain(), input, steps) == (Session {
            machine: Machine { cursor: 3, ..s.machine.store(input.last()) },
            consumed: input.len() as int,
            output: input,
        }),
    decreases input.len() - s.consumed,
{
    let ir = echo_plain();
    let s1 = s.step(ir, input);
    assert(s1.output =~= input.take(s.consumed));
    if s.consumed == input.len() {
        assert(s.run(ir, input, 1) == s1) by {
            reveal_with_fuel(Session::run, 2);
        }
        assert(s1.output =~= input);
        assert(s1.machine.tape =~= s.machine.store(input.last()).tape);
        1
    } else {
        let s2 = s1.step(ir, input);
        let s3 = s2.step(ir, input);
        assert(s.run(ir, input, 3) == s3) by {
            reveal_with_fuel(Session::run, 4);
        }
        let more = lemma_echo_goes_on(s3, input);
        lemma_run_split(s, ir, input, 3, more);
        assert(s3.machine.store(input.last()).tape =~= s.machine.store(input.last()).tape);
        3 + more
    }
}

/// The program `,[.,]` writes what it reads until the input has no byte
/// left. Take any choice of rewrites, a tape with the pointer on it, and an
/// input without a zero byte. The program that `,[.,]` parses to comes to
/// rest within the number of steps returned, at a read that finds no byte
/// left, with all of the input read and the input as its output.
pub proof fn lemma_echo_writes_the_input(
    opts: OptimizationOptions,
    input: Seq<u8>,
    start: Machine,
) -> (steps: nat)
    requires
        on_tape(start),
        start.cursor == 0,
        forall|i: int| 0 <= i < input.len() ==> #[trigger] input[i] != 0,
    ensures
        parse_spec(echo_text(), opts) is Ok,
        ({
            let ir = parse_spec(echo_text(), opts)->Ok_0;
            let end = fresh_session(start).run(ir, input, steps);
            &&& end.at_rest(ir, input)
            &&& end.stop(ir, input) == Stop::InputExhausted
            &&& end.output == input
            &&& end.consumed == input.len()
            &&& end.machine.pointer == start.pointer
        }),
{
    lemma_echo_parses();
    let ir = echo_plain();
    let s = fresh_session(start);
    let plain = if input.len() == 0 {
        assert(s.output =~= input);
        0nat
    } else {
        let s1 = s.step(ir, input);
        let s2 = s1.step(ir, input);
        assert(s.run(ir, input, 2) == s2) by {
            reveal_with_fuel(Session::run, 3);
        }
        assert(s2.output =~= input.take(0));
        let more = lemma_echo_goes_on(s2, input);
        lemma_run_split(s, ir, input, 2, more);
        2 + more
    };
    lemma_rewrites_are_transparent(echo_text(), opts, input, start, plain)
}

} // verus!
