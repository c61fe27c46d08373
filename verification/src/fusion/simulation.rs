//! A run of the plain program that comes to rest is matched by a run of
//! the program with rewrites that comes to rest in the same state.

use vstd::prelude::*;
use vstd::arithmetic::div_mod::{
    lemma_add_mod_noop,
    lemma_mod_bound,
    lemma_mod_multiples_vanish,
    lemma_small_mod,
};
use crate::interpreter::machine::{wrap, Machine, Session};
use crate::parser::grammar::OpenLoop;
use crate::parser::instruction::Instruction;
use super::layout::{body_model, lies_in, stretch_fits, Layout};
use super::runs::{
    lemma_rest_stays,
    lemma_run_through,
    lemma_step_then_run,
    same_data,
    with_machine,
};
use super::straight::{
    act,
    act_all,
    act_prefix,
    acts_as_nothing,
    acts_like,
    lemma_act_prefix_on_tape,
    lemma_run_straight,
    on_tape,
    same_cells,
};

verus! {

/// Two programs from one text, how one lies in the other, and an input.
pub struct World {
    /// The program parsed with rewrites.
    pub fused: Seq<Instruction>,
    /// The program parsed without.
    pub plain: Seq<Instruction>,
    /// How the first lies in the second.
    pub layout: Layout,
    /// The bytes that an `In` reads.
    pub input: Seq<u8>,
}

impl World {
    /// Both programs are complete and the layout fits them.
    pub open spec fn sound(self) -> bool {
        lies_in(
            self.fused,
            Seq::<OpenLoop>::empty(),
            self.plain,
            Seq::<OpenLoop>::empty(),
            self.layout,
        )
    }

    /// The two sessions are at the start of the same stretch with the
    /// same tape, pointer and streams.
    pub open spec fn paired(self, with_rewrites: Session, without: Session) -> bool {
        &&& 0 <= with_rewrites.machine.cursor <= self.fused.len()
        &&& without.machine.cursor == self.layout.starts[with_rewrites.machine.cursor]
        &&& same_data(with_rewrites, without)
        &&& on_tape(with_rewrites.machine)
    }

    /// Both sessions are at rest for the same reason with the same tape,
    /// pointer and streams.
    pub open spec fn agree(self, with_rewrites: Session, without: Session) -> bool {
        &&& with_rewrites.at_rest(self.fused, self.input)
        &&& without.at_rest(self.plain, self.input)
        &&& same_data(with_rewrites, without)
        &&& with_rewrites.stop(self.fused, self.input) == without.stop(self.plain, self.input)
    }
}

/// A session that is not at rest but comes to rest takes its next step
/// first.
proof fn lemma_take_step(s: Session, ir: Seq<Instruction>, input: Seq<u8>, steps: nat)
    requires
        !s.at_rest(ir, input),
        s.run(ir, input, steps).at_rest(ir, input),
    ensures
        steps >= 1,
        s.run(ir, input, steps) == s.step(ir, input).run(ir, input, (steps - 1) as nat),
{
}

/// The plain program runs through a stretch that acts like `model`: it
/// ends behind the stretch with the cells that `model` leaves.
proof fn lemma_run_like(
    s: Session,
    ir: Seq<Instruction>,
    input: Seq<u8>,
    from: int,
    to: int,
    model: Seq<Instruction>,
    steps: nat,
) -> (mid: Session)
    requires
        0 <= from <= to <= ir.len(),
        acts_like(ir.subrange(from, to), model),
        on_tape(s.machine),
        s.machine.cursor == from,
        s.run(ir, input, steps).at_rest(ir, input),
    ensures
        to - from <= steps,
        mid == s.run(ir, input, (to - from) as nat),
        s.run(ir, input, steps) == mid.run(ir, input, (steps - (to - from)) as nat),
        mid.machine.cursor == to,
        same_cells(mid.machine, act_all(model, s.machine)),
        mid.consumed == s.consumed,
        mid.output == s.output,
        on_tape(mid.machine),
        mid.machine.tape.len() == s.machine.tape.len(),
{
    let code = ir.subrange(from, to);
    lemma_run_straight(s, ir, input, from, to, to - from);
    lemma_run_through(s, ir, input, (to - from) as nat, steps);
    lemma_act_prefix_on_tape(code, to - from, s.machine);
    assert(same_cells(act_all(code, s.machine), act_all(model, s.machine)));
    s.run(ir, input, (to - from) as nat)
}

/// The plain program runs through a stretch that does nothing: it ends
/// behind the stretch in the state it started in.
proof fn lemma_skip(
    s: Session,
    ir: Seq<Instruction>,
    input: Seq<u8>,
    from: int,
    to: int,
    steps: nat,
) -> (mid: Session)
    requires
        0 <= from <= to <= ir.len(),
        acts_as_nothing(ir.subrange(from, to)),
        on_tape(s.machine),
        s.machine.cursor == from,
        s.run(ir, input, steps).at_rest(ir, input),
    ensures
        to - from <= steps,
        s.run(ir, input, steps) == mid.run(ir, input, (steps - (to - from)) as nat),
        mid == with_machine(s, Machine { cursor: to, ..s.machine }),
{
    let mid = lemma_run_like(s, ir, input, from, to, Seq::empty(), steps);
    assert(mid.machine == Machine { cursor: to, ..s.machine });
    mid
}

/// Going by a displacement and then by its opposite leads back.
proof fn lemma_wrap_back(pointer: int, delta: int, len: int)
    requires
        0 <= pointer < len,
    ensures
        wrap(wrap(pointer, delta, len), -delta, len) == pointer,
        0 <= wrap(pointer, delta, len) < len,
{
    lemma_mod_bound(pointer + delta, len);
    lemma_add_mod_noop(pointer + delta, -delta, len);
    lemma_small_mod(pointer as nat, len as nat);
    lemma_mod_bound(-delta, len);
    lemma_add_mod_noop((pointer + delta) % len, -delta, len);
    lemma_mod_bound((pointer + delta) % len, len);
    lemma_small_mod(((pointer + delta) % len) as nat, len as nat);
}

/// One turn of a transfer loop keeps the sum that the target cell will
/// hold in the end.
proof fn lemma_transfer_turn(cell: u8, target: u8, factor: u8)
    ensures
        (target.wrapping_add(factor) + cell.wrapping_add(255) * factor) % 256 == (target + cell
            * factor) % 256,
{
    let c = cell as int;
    let t = target as int;
    let f = factor as int;
    let c1 = cell.wrapping_add(255) as int;
    let t1 = target.wrapping_add(factor) as int;
    assert(c1 == c - 1 || c1 == c + 255);
    assert(t1 == t + f || t1 == t + f - 256);
    if c1 == c - 1 {
        assert(t + f + c1 * f == t + c * f) by (nonlinear_arith)
            requires
                c1 == c - 1,
        ;
    } else {
        assert(t + f + c1 * f == 256 * f + (t + c * f)) by (nonlinear_arith)
            requires
                c1 == c + 255,
        ;
        lemma_mod_multiples_vanish(f, t + c * f, 256);
    }
    if t1 == t + f - 256 {
        assert(t1 + c1 * f == 256 * (-1) + (t + f + c1 * f));
        lemma_mod_multiples_vanish(-1, t + f + c1 * f, 256);
    }
}

/// What a `Multiply` adds to the target cell.
proof fn lemma_transfer_sum(cell: u8, target: u8, factor: u8)
    ensures
        target.wrapping_add(cell.wrapping_mul(factor)) == (target + cell * factor) % 256,
{
    let product = (cell as int) * (factor as int);
    assert(0 <= product) by (nonlinear_arith)
        requires
            product == (cell as int) * (factor as int),
            0 <= cell as int,
            0 <= factor as int,
    ;
    lemma_mod_bound(product, 256);
    let reduced = product % 256;
    assert(cell.wrapping_mul(factor) == reduced);
    lemma_add_mod_noop(target as int, product, 256);
    lemma_small_mod(target as nat, 256);
    lemma_mod_bound(target + reduced, 256);
    if target + reduced > 255 {
        assert(target + reduced == 256 * 1 + (target + reduced - 256));
        lemma_mod_multiples_vanish(1, target + reduced - 256, 256);
        lemma_small_mod((target + reduced - 256) as nat, 256);
    } else {
        lemma_small_mod((target + reduced) as nat, 256);
    }
}

/// What the body of a transfer loop leaves.
pub(crate) proof fn lemma_transfer_body(m: Machine, offset: isize, factor: u8)
    requires
        on_tape(m),
        offset > isize::MIN,
    ensures
        ({
            let len = m.tape.len() as int;
            let to = wrap(m.pointer, offset as int, len);
            let after = act_all(body_model(Instruction::Multiply(offset, factor), 0), m);
            let lowered = m.tape.update(m.pointer, m.cell().wrapping_add(255));
            &&& 0 <= to < len
            &&& after.pointer == m.pointer
            &&& after.tape == lowered.update(to, lowered[to].wrapping_add(factor))
        }),
{
    let len = m.tape.len() as int;
    let model = body_model(Instruction::Multiply(offset, factor), 0);
    reveal_with_fuel(act_prefix, 5);
    lemma_wrap_back(m.pointer, offset as int, len);
    let m1 = act(model[0], m);
    let m2 = act(model[1], m1);
    let m3 = act(model[2], m2);
    let m4 = act(model[3], m3);
    assert(act_all(model, m) == m4);
    assert((-offset) as isize == -(offset as int));
}

/// The tapes of the two sessions differ at most in the current cell.
pub open spec fn same_but_cell(with_rewrites: Session, without: Session) -> bool {
    &&& on_tape(with_rewrites.machine)
    &&& without.machine.pointer == with_rewrites.machine.pointer
    &&& without.consumed == with_rewrites.consumed
    &&& without.output == with_rewrites.output
    &&& without.machine.tape.len() == with_rewrites.machine.tape.len()
    &&& forall|j: int|
        0 <= j < without.machine.tape.len() && j != without.machine.pointer
            ==> without.machine.tape[j] == with_rewrites.machine.tape[j]
}

/// The tapes of the two sessions differ at most in the current cell and in
/// the target cell of a transfer, and the target cell will hold the same
/// sum in the end.
pub open spec fn same_but_transfer(
    with_rewrites: Session,
    without: Session,
    offset: isize,
    factor: u8,
) -> bool {
    let len = with_rewrites.machine.tape.len() as int;
    let pointer = with_rewrites.machine.pointer;
    let to = wrap(pointer, offset as int, len);
    &&& on_tape(with_rewrites.machine)
    &&& without.machine.pointer == pointer
    &&& without.consumed == with_rewrites.consumed
    &&& without.output == with_rewrites.output
    &&& without.machine.tape.len() == len
    &&& forall|j: int|
        0 <= j < len && j != pointer && j != to ==> without.machine.tape[j]
            == with_rewrites.machine.tape[j]
    &&& to != pointer ==> (without.machine.tape[to] + without.machine.tape[pointer] * factor)
        % 256 == (with_rewrites.machine.tape[to] + with_rewrites.machine.tape[pointer] * factor)
        % 256
}

/// From the start of the same stretch: if the plain program comes to rest
/// within `steps` steps, the program with rewrites comes to rest within the
/// number of steps returned, in the same state.
pub(crate) proof fn lemma_simulate(
    w: World,
    with_rewrites: Session,
    without: Session,
    steps: nat,
) -> (matching: nat)
    requires
        w.sound(),
        w.paired(with_rewrites, without),
        without.run(w.plain, w.input, steps).at_rest(w.plain, w.input),
    ensures
        w.agree(
            with_rewrites.run(w.fused, w.input, matching),
            without.run(w.plain, w.input, steps),
        ),
    decreases steps, 1int,
{
    let s1 = with_rewrites;
    let s0 = without;
    let i = s1.machine.cursor;
    let none = Seq::<OpenLoop>::empty();
    if i == w.fused.len() {
        if i > 0 {
            assert(stretch_fits(w.fused, none, w.plain, w.layout, i - 1));
        }
        let mid = lemma_skip(s0, w.plain, w.input, w.layout.starts[i], w.plain.len() as int, steps);
        lemma_rest_stays(
            mid,
            w.plain,
            w.input,
            (steps - (w.plain.len() - w.layout.starts[i])) as nat,
        );
        return 0;
    }
    assert(stretch_fits(w.fused, none, w.plain, w.layout, i));
    let from = w.layout.starts[i];
    let last = w.layout.last_of(i);
    let next0 = s1.step(w.fused, w.input);
    match w.fused[i] {
        Instruction::Add(_) | Instruction::Move(_) => {
            let model = seq![w.fused[i]];
            let mid0 = lemma_run_like(s0, w.plain, w.input, from, last + 1, model, steps);
            assert(act_all(model, s0.machine) == act(w.fused[i], s0.machine)) by {
                reveal_with_fuel(act_prefix, 2);
            }
            let mid1 = s1.step(w.fused, w.input);
            let rest = (steps - (last + 1 - from)) as nat;
            let more = lemma_simulate(w, mid1, mid0, rest);
            lemma_step_then_run(s1, w.fused, w.input, more);
            more + 1
        },
        Instruction::In => {
            let mid0 = lemma_skip(s0, w.plain, w.input, from, last, steps);
            let rest = (steps - (last - from)) as nat;
            if s0.consumed < w.input.len() {
                lemma_take_step(mid0, w.plain, w.input, rest);
                let mid1 = s1.step(w.fused, w.input);
                let more = lemma_simulate(
                    w,
                    mid1,
                    mid0.step(w.plain, w.input),
                    (rest - 1) as nat,
                );
                lemma_step_then_run(s1, w.fused, w.input, more);
                more + 1
            } else {
                lemma_rest_stays(mid0, w.plain, w.input, rest);
                0
            }
        },
        Instruction::Out => {
            let mid0 = lemma_skip(s0, w.plain, w.input, from, last, steps);
            let rest = (steps - (last - from)) as nat;
            lemma_take_step(mid0, w.plain, w.input, rest);
            let mid1 = s1.step(w.fused, w.input);
            let more = lemma_simulate(w, mid1, mid0.step(w.plain, w.input), (rest - 1) as nat);
            lemma_step_then_run(s1, w.fused, w.input, more);
            more + 1
        },
        Instruction::JumpIfZero(target) => {
            let mid0 = lemma_skip(s0, w.plain, w.input, from, last, steps);
            let rest = (steps - (last - from)) as nat;
            lemma_take_step(mid0, w.plain, w.input, rest);
            let mid1 = s1.step(w.fused, w.input);
            assert(stretch_fits(w.fused, none, w.plain, w.layout, target as int));
            let more = lemma_simulate(w, mid1, mid0.step(w.plain, w.input), (rest - 1) as nat);
            lemma_step_then_run(s1, w.fused, w.input, more);
            more + 1
        },
        Instruction::JumpIfNotZero(target) => {
            let mid0 = lemma_skip(s0, w.plain, w.input, from, last, steps);
            let rest = (steps - (last - from)) as nat;
            lemma_take_step(mid0, w.plain, w.input, rest);
            let mid1 = s1.step(w.fused, w.input);
            assert(stretch_fits(w.fused, none, w.plain, w.layout, target as int));
            let more = lemma_simulate(w, mid1, mid0.step(w.plain, w.input), (rest - 1) as nat);
            lemma_step_then_run(s1, w.fused, w.input, more);
            more + 1
        },
        Instruction::Clear => {
            let head = w.layout.heads[i];
            let mid0 = lemma_skip(s0, w.plain, w.input, from, head, steps);
            let rest = (steps - (head - from)) as nat;
            lemma_take_step(mid0, w.plain, w.input, rest);
            let in0 = mid0.step(w.plain, w.input);
            if s0.machine.cell() == 0 {
                let mid1 = s1.step(w.fused, w.input);
                assert(mid1.machine.tape =~= s1.machine.tape);
                let more = lemma_simulate(w, mid1, in0, (rest - 1) as nat);
                lemma_step_then_run(s1, w.fused, w.input, more);
                more + 1
            } else {
                lemma_simulate_clear(w, s1, in0, (rest - 1) as nat)
            }
        },
        Instruction::Multiply(offset, factor) => {
            let head = w.layout.heads[i];
            let mid0 = lemma_skip(s0, w.plain, w.input, from, head, steps);
            let rest = (steps - (head - from)) as nat;
            lemma_take_step(mid0, w.plain, w.input, rest);
            let in0 = mid0.step(w.plain, w.input);
            if s0.machine.cell() == 0 {
                let mid1 = s1.step(w.fused, w.input);
                lemma_wrap_back(s1.machine.pointer, offset as int, s1.machine.tape.len() as int);
                assert(mid1.machine.tape =~= s1.machine.tape) by {
                    let to = wrap(
                        s1.machine.pointer,
                        offset as int,
                        s1.machine.tape.len() as int,
                    );
                    lemma_transfer_sum(0, s1.machine.tape[to], factor);
                    assert(0 * (factor as int) == 0);
                    lemma_small_mod(s1.machine.tape[to] as nat, 256);
                }
                let more = lemma_simulate(w, mid1, in0, (rest - 1) as nat);
                lemma_step_then_run(s1, w.fused, w.input, more);
                more + 1
            } else {
                lemma_simulate_transfer(w, s1, in0, (rest - 1) as nat)
            }
        },
        Instruction::MoveUntilZero(_) => {
            let head = w.layout.heads[i];
            let mid0 = lemma_skip(s0, w.plain, w.input, from, head, steps);
            let rest = (steps - (head - from)) as nat;
            lemma_take_step(mid0, w.plain, w.input, rest);
            let in0 = mid0.step(w.plain, w.input);
            if s0.machine.cell() == 0 {
                let mid1 = s1.step(w.fused, w.input);
                let more = lemma_simulate(w, mid1, in0, (rest - 1) as nat);
                lemma_step_then_run(s1, w.fused, w.input, more);
                more + 1
            } else {
                lemma_simulate_scan(w, s1, in0, (rest - 1) as nat)
            }
        },
    }
}

/// Inside a loop that a `Clear` stands for.
proof fn lemma_simulate_clear(
    w: World,
    with_rewrites: Session,
    without: Session,
    steps: nat,
) -> (matching: nat)
    requires
        w.sound(),
        0 <= with_rewrites.machine.cursor < w.fused.len(),
        w.fused[with_rewrites.machine.cursor] is Clear,
        without.machine.cursor == w.layout.heads[with_rewrites.machine.cursor] + 1,
        same_but_cell(with_rewrites, without),
        without.run(w.plain, w.input, steps).at_rest(w.plain, w.input),
    ensures
        w.agree(
            with_rewrites.run(w.fused, w.input, matching),
            without.run(w.plain, w.input, steps),
        ),
    decreases steps, 0int,
{
    let s1 = with_rewrites;
    let s0 = without;
    let i = s1.machine.cursor;
    let none = Seq::<OpenLoop>::empty();
    assert(stretch_fits(w.fused, none, w.plain, w.layout, i));
    let head = w.layout.heads[i];
    let last = w.layout.last_of(i);
    let body = w.plain.subrange(head + 1, last);
    let amount = choose|amount: u8|
        amount % 2 == 1 && #[trigger] acts_like(body, body_model(w.fused[i], amount));
    let model = seq![Instruction::Add(amount)];
    let mid0 = lemma_run_like(s0, w.plain, w.input, head + 1, last, model, steps);
    assert(act_all(model, s0.machine) == act(Instruction::Add(amount), s0.machine)) by {
        reveal_with_fuel(act_prefix, 2);
    }
    let rest = (steps - (last - head - 1)) as nat;
    lemma_take_step(mid0, w.plain, w.input, rest);
    let out0 = mid0.step(w.plain, w.input);
    if mid0.machine.cell() != 0 {
        lemma_simulate_clear(w, s1, out0, (rest - 1) as nat)
    } else {
        let mid1 = s1.step(w.fused, w.input);
        assert(mid1.machine.tape =~= out0.machine.tape);
        let more = lemma_simulate(w, mid1, out0, (rest - 1) as nat);
        lemma_step_then_run(s1, w.fused, w.input, more);
        more + 1
    }
}

/// Inside a loop that a `Multiply` stands for.
proof fn lemma_simulate_transfer(
    w: World,
    with_rewrites: Session,
    without: Session,
    steps: nat,
) -> (matching: nat)
    requires
        w.sound(),
        0 <= with_rewrites.machine.cursor < w.fused.len(),
        w.fused[with_rewrites.machine.cursor] matches Instruction::Multiply(offset, factor)
            && same_but_transfer(with_rewrites, without, offset, factor),
        without.machine.cursor == w.layout.heads[with_rewrites.machine.cursor] + 1,
        without.run(w.plain, w.input, steps).at_rest(w.plain, w.input),
    ensures
        w.agree(
            with_rewrites.run(w.fused, w.input, matching),
            without.run(w.plain, w.input, steps),
        ),
    decreases steps, 0int,
{
    let s1 = with_rewrites;
    let s0 = without;
    let i = s1.machine.cursor;
    let none = Seq::<OpenLoop>::empty();
    assert(stretch_fits(w.fused, none, w.plain, w.layout, i));
    let head = w.layout.heads[i];
    let last = w.layout.last_of(i);
    let offset = w.fused[i]->Multiply_0;
    let factor = w.fused[i]->Multiply_1;
    let model = body_model(w.fused[i], 0);
    let len = s1.machine.tape.len() as int;
    let pointer = s1.machine.pointer;
    let to = wrap(pointer, offset as int, len);
    let mid0 = lemma_run_like(s0, w.plain, w.input, head + 1, last, model, steps);
    lemma_transfer_body(s0.machine, offset, factor);
    lemma_wrap_back(pointer, offset as int, len);
    let rest = (steps - (last - head - 1)) as nat;
    lemma_take_step(mid0, w.plain, w.input, rest);
    let out0 = mid0.step(w.plain, w.input);
    let cell = s0.machine.tape[pointer];
    let target = s0.machine.tape[to];
    if to != pointer {
        lemma_transfer_turn(cell, target, factor);
        assert(mid0.machine.tape[pointer] == cell.wrapping_add(255));
        assert(mid0.machine.tape[to] == target.wrapping_add(factor));
    }
    assert(same_but_transfer(s1, out0, offset, factor));
    if mid0.machine.cell() != 0 {
        lemma_simulate_transfer(w, s1, out0, (rest - 1) as nat)
    } else {
        let mid1 = s1.step(w.fused, w.input);
        lemma_transfer_sum(s1.machine.tape[pointer], s1.machine.tape[to], factor);
        if to != pointer {
            assert(0 * (factor as int) == 0);
            lemma_small_mod(out0.machine.tape[to] as nat, 256);
        }
        assert(mid1.machine.tape =~= out0.machine.tape);
        let more = lemma_simulate(w, mid1, out0, (rest - 1) as nat);
        lemma_step_then_run(s1, w.fused, w.input, more);
        more + 1
    }
}

/// Inside a loop that a `MoveUntilZero` stands for.
proof fn lemma_simulate_scan(
    w: World,
    with_rewrites: Session,
    without: Session,
    steps: nat,
) -> (matching: nat)
    requires
        w.sound(),
        0 <= with_rewrites.machine.cursor < w.fused.len(),
        w.fused[with_rewrites.machine.cursor] is MoveUntilZero,
        without.machine.cursor == w.layout.heads[with_rewrites.machine.cursor] + 1,
        same_data(with_rewrites, without),
        on_tape(with_rewrites.machine),
        with_rewrites.machine.cell() != 0,
        without.run(w.plain, w.input, steps).at_rest(w.plain, w.input),
    ensures
        w.agree(
            with_rewrites.run(w.fused, w.input, matching),
            without.run(w.plain, w.input, steps),
        ),
    decreases steps, 0int,
{
    let s1 = with_rewrites;
    let s0 = without;
    let i = s1.machine.cursor;
    let none = Seq::<OpenLoop>::empty();
    assert(stretch_fits(w.fused, none, w.plain, w.layout, i));
    let head = w.layout.heads[i];
    let last = w.layout.last_of(i);
    let stride = w.fused[i]->MoveUntilZero_0;
    let model = seq![Instruction::Move(stride)];
    let mid0 = lemma_run_like(s0, w.plain, w.input, head + 1, last, model, steps);
    assert(act_all(model, s0.machine) == act(Instruction::Move(stride), s0.machine)) by {
        reveal_with_fuel(act_prefix, 2);
    }
    let rest = (steps - (last - head - 1)) as nat;
    lemma_take_step(mid0, w.plain, w.input, rest);
    let out0 = mid0.step(w.plain, w.input);
    let mid1 = s1.step(w.fused, w.input);
    lemma_mod_bound(s1.machine.pointer + stride, s1.machine.tape.len() as int);
    if mid0.machine.cell() != 0 {
        let more = lemma_simulate_scan(w, mid1, out0, (rest - 1) as nat);
        lemma_step_then_run(s1, w.fused, w.input, more);
        more + 1
    } else {
        let end1 = mid1.step(w.fused, w.input);
        let more = lemma_simulate(w, end1, out0, (rest - 1) as nat);
        lemma_step_then_run(mid1, w.fused, w.input, more);
        lemma_step_then_run(s1, w.fused, w.input, more + 1);
        more + 2
    }
}

} // verus!
