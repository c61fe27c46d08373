//! The other direction: a run of the program with rewrites that comes to
//! rest is matched by a run of the plain program that comes to rest in the
//! same state, unless a `Multiply` has its own cell as its target.

use vstd::prelude::*;
use vstd::arithmetic::div_mod::{lemma_mod_bound, lemma_small_mod};
use crate::interpreter::machine::{wrap, Machine, Session};
use crate::parser::grammar::OpenLoop;
use crate::parser::instruction::Instruction;
use super::layout::{body_model, stretch_fits};
use super::runs::{lemma_run_split, same_data, with_machine};
use super::simulation::World;
use super::straight::{
    act, act_all, act_prefix, acts_as_nothing, acts_like, lemma_act_prefix_on_tape,
    lemma_run_straight, on_tape, same_cells,
};

verus! {

/// No `Multiply` of the program has, on a tape of `len` cells, the cell
/// that it drains as its target.
pub open spec fn no_idle_transfer(ir: Seq<Instruction>, len: int) -> bool {
    forall|i: int|
        0 <= i < ir.len() && (#[trigger] ir[i]) is Multiply ==> (ir[i]->Multiply_0 as int) % len
            != 0
}

/// The product of two numbers modulo 256.
pub open spec fn times(a: u32, b: u32) -> u32 {
    ((a * b) % 256) as u32
}

/// One round of the computation of the inverse of an odd number modulo
/// 256, which doubles the number of bits that are right.
pub open spec fn refine(a: u32, x: u32) -> u32 {
    times(x, ((514 - times(a, x)) % 256) as u32)
}

/// The inverse of an odd number modulo 256.
pub open spec fn inverse(a: u32) -> u32 {
    refine(a, refine(a, a))
}

/// How often an odd amount has to be added to a cell until the cell is
/// zero.
pub open spec fn turns(cell: u32, amount: u32) -> u32 {
    times(((256 - cell) % 256) as u32, inverse(amount))
}

/// The sum of two numbers modulo 256.
pub open spec fn plus(a: u32, b: u32) -> u32 {
    ((a + b) % 256) as u32
}

/// A cell that is not zero needs a turn, and each turn leaves one turn
/// less.
#[verifier::rlimit(50)]
proof fn lemma_turns(cell: u32, amount: u32)
    by (bit_vector)
    requires
        cell < 256,
        amount < 256,
        amount % 2 == 1,
        cell != 0,
    ensures
        1 <= turns(cell, amount) < 256,
        turns(plus(cell, amount), amount) == turns(cell, amount) - 1,
{
}

/// A transfer turn by turn adds up to the product.
proof fn lemma_transfer_adds_up(target: u32, factor: u32, cell: u32)
    by (bit_vector)
    requires
        target < 256,
        factor < 256,
        1 <= cell < 256,
    ensures
        plus(plus(target, factor), times((cell - 1) as u32, factor)) == plus(
            target,
            times(cell, factor),
        ),
{
}

/// Adding and multiplying bytes with wraparound is adding and multiplying
/// modulo 256.
proof fn lemma_wrapping(a: u8, b: u8)
    ensures
        a.wrapping_add(b) == plus(a as u32, b as u32),
        a.wrapping_mul(b) == times(a as u32, b as u32),
{
    let product = (a as int) * (b as int);
    assert(0 <= product <= 255 * 255) by (nonlinear_arith)
        requires
            product == (a as int) * (b as int),
            0 <= a as int <= 255,
            0 <= b as int <= 255,
    ;
    lemma_mod_bound(product, 256);
    assert((a as u32) * (b as u32) == product);
}

/// The plain program runs through a stretch that acts like `model`.
proof fn lemma_go_like(
    s: Session,
    ir: Seq<Instruction>,
    input: Seq<u8>,
    from: int,
    to: int,
    model: Seq<Instruction>,
) -> (mid: Session)
    requires
        0 <= from <= to <= ir.len(),
        acts_like(ir.subrange(from, to), model),
        on_tape(s.machine),
        s.machine.cursor == from,
    ensures
        mid == s.run(ir, input, (to - from) as nat),
        mid.machine.cursor == to,
        same_cells(mid.machine, act_all(model, s.machine)),
        mid.consumed == s.consumed,
        mid.output == s.output,
        on_tape(mid.machine),
        mid.machine.tape.len() == s.machine.tape.len(),
{
    let code = ir.subrange(from, to);
    lemma_run_straight(s, ir, input, from, to, to - from);
    lemma_act_prefix_on_tape(code, to - from, s.machine);
    assert(same_cells(act_all(code, s.machine), act_all(model, s.machine)));
    s.run(ir, input, (to - from) as nat)
}

/// The plain program runs through a stretch that does nothing.
proof fn lemma_go_by(s: Session, ir: Seq<Instruction>, input: Seq<u8>, from: int, to: int) -> (mid:
    Session)
    requires
        0 <= from <= to <= ir.len(),
        acts_as_nothing(ir.subrange(from, to)),
        on_tape(s.machine),
        s.machine.cursor == from,
    ensures
        mid == s.run(ir, input, (to - from) as nat),
        mid == with_machine(s, Machine { cursor: to, ..s.machine }),
{
    let mid = lemma_go_like(s, ir, input, from, to, Seq::empty());
    assert(mid.machine == Machine { cursor: to, ..s.machine });
    mid
}

/// One step at the end of a run.
proof fn lemma_go_on(s: Session, ir: Seq<Instruction>, input: Seq<u8>, steps: nat)
    requires
        !s.run(ir, input, steps).at_rest(ir, input),
    ensures
        s.run(ir, input, steps + 1) == s.run(ir, input, steps).step(ir, input),
{
    lemma_run_split(s, ir, input, steps, 1);
    let mid = s.run(ir, input, steps);
    assert(mid.run(ir, input, 1) == mid.step(ir, input).run(ir, input, 0));
}

/// A displacement that is no multiple of the tape length leads to another
/// cell.
proof fn lemma_moves_away(pointer: int, delta: int, len: int)
    requires
        0 <= pointer < len,
        delta % len != 0,
    ensures
        wrap(pointer, delta, len) != pointer,
        0 <= wrap(pointer, delta, len) < len,
{
    lemma_mod_bound(pointer + delta, len);
    if wrap(pointer, delta, len) == pointer {
        vstd::arithmetic::div_mod::lemma_fundamental_div_mod(pointer + delta, len);
        let q = (pointer + delta) / len;
        assert(delta == len * q);
        vstd::arithmetic::div_mod::lemma_mod_multiples_basic(q, len);
        assert(len * q == q * len) by (nonlinear_arith);
    }
}

/// A loop that a `Clear` stands for comes to its end: from the start of
/// its body with a cell that is not zero, the plain program gets behind the
/// loop with the cell at zero and nothing else changed.
proof fn lemma_clear_ends(w: World, i: int, s: Session) -> (taken: nat)
    requires
        w.sound(),
        0 <= i < w.fused.len(),
        w.fused[i] is Clear,
        on_tape(s.machine),
        s.machine.cursor == w.layout.heads[i] + 1,
        s.machine.cell() != 0,
    ensures
        s.run(w.plain, w.input, taken) == with_machine(
            s,
            Machine { cursor: w.layout.starts[i + 1], ..s.machine.store(0) },
        ),
    decreases
            turns(
                s.machine.cell() as u32,
                (choose|amount: u8|
                    amount % 2 == 1 && #[trigger] acts_like(
                        w.plain.subrange(w.layout.heads[i] + 1, w.layout.last_of(i)),
                        body_model(w.fused[i], amount),
                    )) as u32,
            ),
{
    let none = Seq::<OpenLoop>::empty();
    assert(stretch_fits(w.fused, none, w.plain, w.layout, i));
    let head = w.layout.heads[i];
    let last = w.layout.last_of(i);
    let body = w.plain.subrange(head + 1, last);
    let amount = choose|amount: u8|
        amount % 2 == 1 && #[trigger] acts_like(body, body_model(w.fused[i], amount));
    let model = seq![Instruction::Add(amount)];
    let mid = lemma_go_like(s, w.plain, w.input, head + 1, last, model);
    assert(act_all(model, s.machine) == act(Instruction::Add(amount), s.machine)) by {
        reveal_with_fuel(act_prefix, 2);
    }
    let through = (last - head - 1) as nat;
    lemma_go_on(s, w.plain, w.input, through);
    let out = mid.step(w.plain, w.input);
    lemma_turns(s.machine.cell() as u32, amount as u32);
    lemma_wrapping(s.machine.cell(), amount);
    if mid.machine.cell() != 0 {
        let more = lemma_clear_ends(w, i, out);
        lemma_run_split(s, w.plain, w.input, through + 1, more);
        assert(out.machine.store(0).tape =~= s.machine.store(0).tape);
        through + 1 + more
    } else {
        assert(out.machine.tape =~= s.machine.store(0).tape);
        through + 1
    }
}

/// A loop that a `Multiply` stands for comes to its end, where its target
/// is another cell: from the start of its body with a cell that is not zero,
/// the plain program gets behind the loop with the product added to the
/// target, the cell at zero, and nothing else changed.
proof fn lemma_transfer_ends(w: World, i: int, s: Session) -> (taken: nat)
    requires
        w.sound(),
        0 <= i < w.fused.len(),
        w.fused[i] is Multiply,
        on_tape(s.machine),
        s.machine.cursor == w.layout.heads[i] + 1,
        s.machine.cell() != 0,
        wrap(s.machine.pointer, w.fused[i]->Multiply_0 as int, s.machine.tape.len() as int)
            != s.machine.pointer,
    ensures
        ({
            let to = wrap(
                s.machine.pointer,
                w.fused[i]->Multiply_0 as int,
                s.machine.tape.len() as int,
            );
            let sum = s.machine.tape[to].wrapping_add(
                s.machine.cell().wrapping_mul(w.fused[i]->Multiply_1),
            );
            s.run(w.plain, w.input, taken) == with_machine(
                s,
                Machine {
                    cursor: w.layout.starts[i + 1],
                    tape: s.machine.tape.update(to, sum).update(s.machine.pointer, 0),
                    ..s.machine
                },
            )
        }),
    decreases s.machine.cell(),
{
    let none = Seq::<OpenLoop>::empty();
    assert(stretch_fits(w.fused, none, w.plain, w.layout, i));
    let head = w.layout.heads[i];
    let last = w.layout.last_of(i);
    let offset = w.fused[i]->Multiply_0;
    let factor = w.fused[i]->Multiply_1;
    let model = body_model(w.fused[i], 0);
    let len = s.machine.tape.len() as int;
    let pointer = s.machine.pointer;
    let to = wrap(pointer, offset as int, len);
    let cell = s.machine.cell();
    let target = s.machine.tape[to];
    let mid = lemma_go_like(s, w.plain, w.input, head + 1, last, model);
    super::simulation::lemma_transfer_body(s.machine, offset, factor);
    let through = (last - head - 1) as nat;
    lemma_go_on(s, w.plain, w.input, through);
    let out = mid.step(w.plain, w.input);
    lemma_transfer_adds_up(target as u32, factor as u32, cell as u32);
    lemma_wrapping(target, factor);
    lemma_wrapping(cell, factor);
    lemma_wrapping((cell - 1) as u8, factor);
    lemma_wrapping(target.wrapping_add(factor), ((cell - 1) as u8).wrapping_mul(factor));
    lemma_wrapping(target, cell.wrapping_mul(factor));
    assert(mid.machine.tape[pointer] == cell - 1);
    assert(mid.machine.tape[to] == target.wrapping_add(factor));
    let sum = target.wrapping_add(cell.wrapping_mul(factor));
    let wanted = s.machine.tape.update(to, sum).update(pointer, 0);
    if mid.machine.cell() != 0 {
        let more = lemma_transfer_ends(w, i, out);
        lemma_run_split(s, w.plain, w.input, through + 1, more);
        let later = out.machine.tape[to].wrapping_add(out.machine.cell().wrapping_mul(factor));
        assert(later == sum);
        assert(out.machine.tape.update(to, later).update(pointer, 0) =~= wanted);
        through + 1 + more
    } else {
        assert(cell == 1);
        assert(1 * (factor as int) == factor);
        lemma_small_mod(factor as nat, 256);
        assert(out.machine.tape =~= wanted);
        through + 1
    }
}

/// From the start of the same stretch: if the program with rewrites comes
/// to rest within `steps` steps, the plain program comes to rest within the
/// number of steps returned, in the same state.
pub(crate) proof fn lemma_reflect(
    w: World,
    with_rewrites: Session,
    without: Session,
    steps: nat,
) -> (matching: nat)
    requires
        w.sound(),
        w.paired(with_rewrites, without),
        no_idle_transfer(w.fused, with_rewrites.machine.tape.len() as int),
        with_rewrites.run(w.fused, w.input, steps).at_rest(w.fused, w.input),
    ensures
        w.agree(
            with_rewrites.run(w.fused, w.input, steps),
            without.run(w.plain, w.input, matching),
        ),
    decreases steps, 1int,
{
    let s1 = with_rewrites;
    let s0 = without;
    let i = s1.machine.cursor;
    let none = Seq::<OpenLoop>::empty();
    if i == w.fused.len() {
        if i > 0 {
            assert(stretch_fits(w.fused, none, w.plain, w.layout, i - 1));
        }
        let mid = lemma_go_by(s0, w.plain, w.input, w.layout.starts[i], w.plain.len() as int);
        return (w.plain.len() - w.layout.starts[i]) as nat;
    }
    assert(stretch_fits(w.fused, none, w.plain, w.layout, i));
    let from = w.layout.starts[i];
    let last = w.layout.last_of(i);
    let mid1 = s1.step(w.fused, w.input);
    match w.fused[i] {
        Instruction::Add(_) | Instruction::Move(_) => {
            let model = seq![w.fused[i]];
            let mid0 = lemma_go_like(s0, w.plain, w.input, from, last + 1, model);
            assert(act_all(model, s0.machine) == act(w.fused[i], s0.machine)) by {
                reveal_with_fuel(act_prefix, 2);
            }
            let more = lemma_reflect(w, mid1, mid0, (steps - 1) as nat);
            lemma_run_split(s0, w.plain, w.input, (last + 1 - from) as nat, more);
            (last + 1 - from) as nat + more
        },
        Instruction::In => {
            let mid0 = lemma_go_by(s0, w.plain, w.input, from, last);
            let through = (last - from) as nat;
            if s0.consumed < w.input.len() {
                lemma_go_on(s0, w.plain, w.input, through);
                let more = lemma_reflect(
                    w,
                    mid1,
                    mid0.step(w.plain, w.input),
                    (steps - 1) as nat,
                );
                lemma_run_split(s0, w.plain, w.input, through + 1, more);
                through + 1 + more
            } else {
                through
            }
        },
        Instruction::Out | Instruction::JumpIfZero(_) | Instruction::JumpIfNotZero(_) => {
            let mid0 = lemma_go_by(s0, w.plain, w.input, from, last);
            let through = (last - from) as nat;
            lemma_go_on(s0, w.plain, w.input, through);
            if w.fused[i] is JumpIfZero {
                assert(stretch_fits(
                    w.fused,
                    none,
                    w.plain,
                    w.layout,
                    w.fused[i]->JumpIfZero_0 as int,
                ));
            }
            if w.fused[i] is JumpIfNotZero {
                assert(stretch_fits(
                    w.fused,
                    none,
                    w.plain,
                    w.layout,
                    w.fused[i]->JumpIfNotZero_0 as int,
                ));
            }
            let more = lemma_reflect(w, mid1, mid0.step(w.plain, w.input), (steps - 1) as nat);
            lemma_run_split(s0, w.plain, w.input, through + 1, more);
            through + 1 + more
        },
        Instruction::Clear => {
            let head = w.layout.heads[i];
            let mid0 = lemma_go_by(s0, w.plain, w.input, from, head);
            let through = (head - from) as nat;
            lemma_go_on(s0, w.plain, w.input, through);
            let in0 = mid0.step(w.plain, w.input);
            if s0.machine.cell() == 0 {
                assert(mid1.machine.tape =~= s1.machine.tape);
                let more = lemma_reflect(w, mid1, in0, (steps - 1) as nat);
                lemma_run_split(s0, w.plain, w.input, through + 1, more);
                through + 1 + more
            } else {
                let loops = lemma_clear_ends(w, i, in0);
                lemma_run_split(s0, w.plain, w.input, through + 1, loops);
                let out0 = in0.run(w.plain, w.input, loops);
                let more = lemma_reflect(w, mid1, out0, (steps - 1) as nat);
                lemma_run_split(s0, w.plain, w.input, through + 1 + loops, more);
                through + 1 + loops + more
            }
        },
        Instruction::Multiply(offset, factor) => {
            let head = w.layout.heads[i];
            let mid0 = lemma_go_by(s0, w.plain, w.input, from, head);
            let through = (head - from) as nat;
            lemma_go_on(s0, w.plain, w.input, through);
            let in0 = mid0.step(w.plain, w.input);
            let len = s1.machine.tape.len() as int;
            lemma_moves_away(s1.machine.pointer, offset as int, len);
            if s0.machine.cell() == 0 {
                assert(mid1.machine.tape =~= s1.machine.tape) by {
                    let to = wrap(s1.machine.pointer, offset as int, len);
                    assert(0 * (factor as int) == 0);
                }
                let more = lemma_reflect(w, mid1, in0, (steps - 1) as nat);
                lemma_run_split(s0, w.plain, w.input, through + 1, more);
                through + 1 + more
            } else {
                let loops = lemma_transfer_ends(w, i, in0);
                lemma_run_split(s0, w.plain, w.input, through + 1, loops);
                let out0 = in0.run(w.plain, w.input, loops);
                let more = lemma_reflect(w, mid1, out0, (steps - 1) as nat);
                lemma_run_split(s0, w.plain, w.input, through + 1 + loops, more);
                through + 1 + loops + more
            }
        },
        Instruction::MoveUntilZero(stride) => {
            let head = w.layout.heads[i];
            let mid0 = lemma_go_by(s0, w.plain, w.input, from, head);
            let through = (head - from) as nat;
            lemma_go_on(s0, w.plain, w.input, through);
            let in0 = mid0.step(w.plain, w.input);
            if s0.machine.cell() == 0 {
                let more = lemma_reflect(w, mid1, in0, (steps - 1) as nat);
                lemma_run_split(s0, w.plain, w.input, through + 1, more);
                through + 1 + more
            } else {
                let model = seq![Instruction::Move(stride)];
                let at_end = lemma_go_like(in0, w.plain, w.input, head + 1, last, model);
                assert(act_all(model, in0.machine) == act(
                    Instruction::Move(stride),
                    in0.machine,
                )) by {
                    reveal_with_fuel(act_prefix, 2);
                }
                lemma_mod_bound(
                    s1.machine.pointer + stride,
                    s1.machine.tape.len() as int,
                );
                let body = (last - head - 1) as nat;
                lemma_run_split(s0, w.plain, w.input, through + 1, body);
                let more = lemma_reflect_scan(w, mid1, at_end, (steps - 1) as nat);
                lemma_run_split(s0, w.plain, w.input, through + 1 + body, more);
                through + 1 + body + more
            }
        },
    }
}

/// At the end of the body of a loop that a `MoveUntilZero` stands for.
proof fn lemma_reflect_scan(
    w: World,
    with_rewrites: Session,
    without: Session,
    steps: nat,
) -> (matching: nat)
    requires
        w.sound(),
        0 <= with_rewrites.machine.cursor < w.fused.len(),
        w.fused[with_rewrites.machine.cursor] is MoveUntilZero,
        without.machine.cursor == w.layout.last_of(with_rewrites.machine.cursor),
        same_data(with_rewrites, without),
        on_tape(with_rewrites.machine),
        no_idle_transfer(w.fused, with_rewrites.machine.tape.len() as int),
        with_rewrites.run(w.fused, w.input, steps).at_rest(w.fused, w.input),
    ensures
        w.agree(
            with_rewrites.run(w.fused, w.input, steps),
            without.run(w.plain, w.input, matching),
        ),
    decreases steps, 0int,
{
    let s1 = with_rewrites;
    let s0 = without;
    let i = s1.machine.cursor;
    let none = Seq::<OpenLoop>::empty();
    assert(stretch_fits(w.fused, none, w.plain, w.layout, i));
    let head = w.layout.heads[i];
    let last = w.layout.last_of(i);
    let stride = w.fused[i]->MoveUntilZero_0;
    let mid1 = s1.step(w.fused, w.input);
    let back = s0.step(w.plain, w.input);
    lemma_go_on(s0, w.plain, w.input, 0);
    if s0.machine.cell() == 0 {
        let more = lemma_reflect(w, mid1, back, (steps - 1) as nat);
        lemma_run_split(s0, w.plain, w.input, 1, more);
        1 + more
    } else {
        let model = seq![Instruction::Move(stride)];
        let at_end = lemma_go_like(back, w.plain, w.input, head + 1, last, model);
        assert(act_all(model, back.machine) == act(Instruction::Move(stride), back.machine)) by {
            reveal_with_fuel(act_prefix, 2);
        }
        lemma_mod_bound(s1.machine.pointer + stride, s1.machine.tape.len() as int);
        let body = (last - head - 1) as nat;
        lemma_run_split(s0, w.plain, w.input, 1, body);
        let more = lemma_reflect_scan(w, mid1, at_end, (steps - 1) as nat);
        lemma_run_split(s0, w.plain, w.input, 1 + body, more);
        1 + body + more
    }
}

} // verus!
