//! Straight-line code: instructions that only change a cell or the
//! pointer, what a stretch of them does, and when two stretches do the same.

use vstd::prelude::*;
use vstd::arithmetic::div_mod::{lemma_add_mod_noop, lemma_mod_bound, lemma_small_mod};
use crate::interpreter::machine::{wrap, Machine, Session};
use crate::parser::instruction::Instruction;
use super::runs::{lemma_run_then_step, with_machine};

verus! {

/// The instruction only changes a cell or the pointer.
pub open spec fn is_plain(instruction: Instruction) -> bool {
    instruction is Add || instruction is Move
}

/// Every instruction of a stretch only changes a cell or the pointer.
pub open spec fn straight(code: Seq<Instruction>) -> bool {
    forall|i: int| 0 <= i < code.len() ==> is_plain(#[trigger] code[i])
}

/// The machine after an `Add` or a `Move`; other instructions only move
/// the cursor on.
pub open spec fn act(instruction: Instruction, m: Machine) -> Machine {
    match instruction {
        Instruction::Add(n) => m.store(m.cell().wrapping_add(n)).advance(),
        Instruction::Move(n) => Machine {
            pointer: wrap(m.pointer, n as int, m.tape.len() as int),
            ..m
        }.advance(),
        _ => m.advance(),
    }
}

/// The machine after the first `k` instructions of a stretch.
pub open spec fn act_prefix(code: Seq<Instruction>, k: int, m: Machine) -> Machine
    decreases k,
{
    if k <= 0 {
        m
    } else {
        act(code[k - 1], act_prefix(code, k - 1, m))
    }
}

/// The machine after a stretch.
pub open spec fn act_all(code: Seq<Instruction>, m: Machine) -> Machine {
    act_prefix(code, code.len() as int, m)
}

/// The machine has a tape and its pointer is on it.
pub open spec fn on_tape(m: Machine) -> bool {
    0 <= m.pointer < m.tape.len()
}

/// Two machines agree on the tape and the pointer.
pub open spec fn same_cells(a: Machine, b: Machine) -> bool {
    a.tape == b.tape && a.pointer == b.pointer
}

/// The stretch `code` is straight and leaves every tape and pointer as
/// the stretch `model` does.
pub open spec fn acts_like(code: Seq<Instruction>, model: Seq<Instruction>) -> bool {
    &&& straight(code)
    &&& forall|m: Machine|
        on_tape(m) ==> same_cells(#[trigger] act_all(code, m), act_all(model, m))
}

/// Two stretches leave every tape and pointer the same.
pub open spec fn same_effect(a: Seq<Instruction>, b: Seq<Instruction>) -> bool {
    forall|m: Machine| on_tape(m) ==> same_cells(#[trigger] act_all(a, m), act_all(b, m))
}

/// A stretch that acts like a model acts like every model with the same
/// effect.
pub(crate) proof fn lemma_acts_like_other(
    code: Seq<Instruction>,
    model: Seq<Instruction>,
    other: Seq<Instruction>,
)
    requires
        acts_like(code, model),
        same_effect(model, other),
    ensures
        acts_like(code, other),
{
    assert forall|m: Machine| on_tape(m) implies same_cells(
        #[trigger] act_all(code, m),
        act_all(other, m),
    ) by {
        assert(same_cells(act_all(code, m), act_all(model, m)));
        assert(same_cells(act_all(model, m), act_all(other, m)));
    }
}

/// Two `Add`s in a row are one `Add` of their sum modulo 256.
pub(crate) proof fn lemma_merge_adds(a: u8, b: u8)
    ensures
        same_effect(
            seq![Instruction::Add(a), Instruction::Add(b)],
            seq![Instruction::Add(a.wrapping_add(b))],
        ),
{
    let two = seq![Instruction::Add(a), Instruction::Add(b)];
    let one = seq![Instruction::Add(a.wrapping_add(b))];
    assert forall|m: Machine| on_tape(m) implies same_cells(
        #[trigger] act_all(two, m),
        act_all(one, m),
    ) by {
        reveal_with_fuel(act_prefix, 3);
        assert(act_all(two, m) == act(two[1], act(two[0], m)));
        assert(act_all(one, m) == act(one[0], m));
        assert(act_all(two, m).tape =~= act_all(one, m).tape);
    }
}

/// Two `Move`s in a row are one `Move` of their sum.
pub(crate) proof fn lemma_merge_moves(a: isize, b: isize)
    requires
        isize::MIN <= a + b <= isize::MAX,
    ensures
        same_effect(
            seq![Instruction::Move(a), Instruction::Move(b)],
            seq![Instruction::Move((a + b) as isize)],
        ),
{
    let two = seq![Instruction::Move(a), Instruction::Move(b)];
    let one = seq![Instruction::Move((a + b) as isize)];
    assert forall|m: Machine| on_tape(m) implies same_cells(
        #[trigger] act_all(two, m),
        act_all(one, m),
    ) by {
        reveal_with_fuel(act_prefix, 3);
        assert(act_all(two, m) == act(two[1], act(two[0], m)));
        assert(act_all(one, m) == act(one[0], m));
        let len = m.tape.len() as int;
        lemma_add_mod_noop(m.pointer + a, b as int, len);
        lemma_mod_bound(m.pointer + a, len);
        lemma_small_mod(((m.pointer + a) % len) as nat, len as nat);
        lemma_mod_bound(b as int, len);
        lemma_add_mod_noop((m.pointer + a) % len, b as int, len);
    }
}

/// An `Add` of nothing and a `Move` of nothing do nothing.
pub(crate) proof fn lemma_zero_is_nothing()
    ensures
        same_effect(seq![Instruction::Add(0)], Seq::empty()),
        same_effect(seq![Instruction::Move(0)], Seq::empty()),
        same_effect(Seq::empty(), seq![Instruction::Add(0)]),
        same_effect(Seq::empty(), seq![Instruction::Move(0)]),
{
    let add = seq![Instruction::Add(0)];
    let shift = seq![Instruction::Move(0)];
    let none = Seq::<Instruction>::empty();
    assert forall|m: Machine| on_tape(m) implies same_cells(
        #[trigger] act_all(add, m),
        act_all(none, m),
    ) by {
        reveal_with_fuel(act_prefix, 2);
        assert(act_all(add, m).tape =~= m.tape);
    }
    assert forall|m: Machine| on_tape(m) implies same_cells(
        #[trigger] act_all(shift, m),
        act_all(none, m),
    ) by {
        reveal_with_fuel(act_prefix, 2);
        lemma_small_mod(m.pointer as nat, m.tape.len());
    }
    assert forall|m: Machine| on_tape(m) implies same_cells(
        #[trigger] act_all(none, m),
        act_all(add, m),
    ) by {
        assert(same_cells(act_all(add, m), act_all(none, m)));
    }
    assert forall|m: Machine| on_tape(m) implies same_cells(
        #[trigger] act_all(none, m),
        act_all(shift, m),
    ) by {
        assert(same_cells(act_all(shift, m), act_all(none, m)));
    }
}

/// The stretch is straight and changes neither tape nor pointer.
pub open spec fn acts_as_nothing(code: Seq<Instruction>) -> bool {
    acts_like(code, Seq::empty())
}

/// A stretch keeps the pointer on the tape and the length of the tape, and
/// moves the cursor to its end.
pub(crate) proof fn lemma_act_prefix_on_tape(code: Seq<Instruction>, k: int, m: Machine)
    requires
        on_tape(m),
        0 <= k <= code.len(),
    ensures
        on_tape(act_prefix(code, k, m)),
        act_prefix(code, k, m).tape.len() == m.tape.len(),
        act_prefix(code, k, m).cursor == m.cursor + k,
    decreases k,
{
    if k > 0 {
        lemma_act_prefix_on_tape(code, k - 1, m);
        let before = act_prefix(code, k - 1, m);
        lemma_mod_bound(
            before.pointer + (code[k - 1]->Move_0 as int),
            before.tape.len() as int,
        );
    }
}

/// What a stretch does depends on the tape and the pointer only.
pub(crate) proof fn lemma_act_prefix_cells(code: Seq<Instruction>, k: int, a: Machine, b: Machine)
    requires
        same_cells(a, b),
        0 <= k <= code.len(),
    ensures
        same_cells(act_prefix(code, k, a), act_prefix(code, k, b)),
    decreases k,
{
    if k > 0 {
        lemma_act_prefix_cells(code, k - 1, a, b);
    }
}

/// Two stretches in a row do what the first does and then the second.
pub(crate) proof fn lemma_act_concat(first: Seq<Instruction>, second: Seq<Instruction>, k: int, m: Machine)
    requires
        0 <= k <= second.len(),
    ensures
        act_prefix(first + second, first.len() + k, m) == act_prefix(
            second,
            k,
            act_all(first, m),
        ),
    decreases k,
{
    let both = first + second;
    if k == 0 {
        lemma_act_prefix_agree(both, first, first.len() as int, m);
    } else {
        lemma_act_concat(first, second, k - 1, m);
        assert(both[first.len() + k - 1] == second[k - 1]);
    }
}

/// What the first `k` instructions do is the same in two stretches that
/// start with the same `k` instructions.
pub(crate) proof fn lemma_act_prefix_agree(a: Seq<Instruction>, b: Seq<Instruction>, k: int, m: Machine)
    requires
        0 <= k <= a.len(),
        k <= b.len(),
        forall|i: int| 0 <= i < k ==> a[i] == b[i],
    ensures
        act_prefix(a, k, m) == act_prefix(b, k, m),
    decreases k,
{
    if k > 0 {
        lemma_act_prefix_agree(a, b, k - 1, m);
    }
}

/// Stretches that act alike, one after the other, act like their models
/// one after the other.
pub(crate) proof fn lemma_acts_like_concat(
    code_a: Seq<Instruction>,
    model_a: Seq<Instruction>,
    code_b: Seq<Instruction>,
    model_b: Seq<Instruction>,
)
    requires
        acts_like(code_a, model_a),
        acts_like(code_b, model_b),
    ensures
        acts_like(code_a + code_b, model_a + model_b),
{
    let code = code_a + code_b;
    let model = model_a + model_b;
    assert forall|i: int| 0 <= i < code.len() implies is_plain(#[trigger] code[i]) by {
        if i < code_a.len() {
            assert(code[i] == code_a[i]);
        } else {
            assert(code[i] == code_b[i - code_a.len()]);
        }
    }
    assert forall|m: Machine| on_tape(m) implies same_cells(
        #[trigger] act_all(code, m),
        act_all(model, m),
    ) by {
        lemma_act_concat(code_a, code_b, code_b.len() as int, m);
        lemma_act_concat(model_a, model_b, model_b.len() as int, m);
        let mid_code = act_all(code_a, m);
        let mid_model = act_all(model_a, m);
        assert(same_cells(mid_code, mid_model));
        lemma_act_prefix_on_tape(code_a, code_a.len() as int, m);
        lemma_act_prefix_cells(code_b, code_b.len() as int, mid_code, mid_model);
        lemma_act_prefix_on_tape(model_a, model_a.len() as int, m);
        assert(same_cells(act_all(code_b, mid_model), act_all(model_b, mid_model)));
    }
}

/// A plain instruction acts like itself.
pub(crate) proof fn lemma_acts_like_self(instruction: Instruction)
    requires
        is_plain(instruction),
    ensures
        acts_like(seq![instruction], seq![instruction]),
{
}

/// A session runs a straight stretch of its program without coming to
/// rest, and ends behind it with the tape and the pointer that the stretch
/// leaves and the streams as they were.
pub(crate) proof fn lemma_run_straight(
    s: Session,
    ir: Seq<Instruction>,
    input: Seq<u8>,
    from: int,
    to: int,
    k: int,
)
    requires
        0 <= from <= to <= ir.len(),
        straight(ir.subrange(from, to)),
        on_tape(s.machine),
        s.machine.cursor == from,
        0 <= k <= to - from,
    ensures
        s.run(ir, input, k as nat) == with_machine(
            s,
            act_prefix(ir.subrange(from, to), k, s.machine),
        ),
        forall|j: nat| j < k ==> !(#[trigger] s.run(ir, input, j)).at_rest(ir, input),
    decreases k,
{
    let code = ir.subrange(from, to);
    if k > 0 {
        lemma_run_straight(s, ir, input, from, to, k - 1);
        let before = s.run(ir, input, (k - 1) as nat);
        lemma_act_prefix_on_tape(code, k - 1, s.machine);
        assert(before.machine.cursor == from + k - 1);
        assert(ir[from + k - 1] == code[k - 1]);
        assert(is_plain(code[k - 1]));
        assert(!before.at_rest(ir, input));
        lemma_run_then_step(s, ir, input, (k - 1) as nat);
        assert(before.step(ir, input) == with_machine(s, act(code[k - 1], before.machine)));
        assert forall|j: nat| j < k implies !(#[trigger] s.run(ir, input, j)).at_rest(
            ir,
            input,
        ) by {}
    }
}

} // verus!
