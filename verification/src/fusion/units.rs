//! Runs of `+` and `-`, and of `>` and `<`: what the plain parser makes of
//! them, and that it does what the one instruction does that the run is
//! folded into.

use vstd::prelude::*;
use crate::parser::grammar::{
    add_run_end, add_run_sum, ends_add_run, ends_move_run, lemma_add_run_end_bounds,
    lemma_move_run_end_bounds, move_run_end, move_run_sum, parse_from, OpenLoop, CLOSE, COMMA,
    DOT, LEFT, MINUS, OPEN, PLUS, RIGHT,
};
use crate::parser::instruction::Instruction;
use crate::parser::opt::OptimizationOptions;
use super::straight::{
    acts_like,
    is_plain,
    lemma_acts_like_concat,
    lemma_acts_like_other,
    lemma_acts_like_self,
    lemma_merge_adds,
    lemma_merge_moves,
    lemma_zero_is_nothing,
    straight,
};

verus! {

/// No rewrite.
pub open spec fn plainly() -> OptimizationOptions {
    OptimizationOptions { contract: false, clear: false, multiply: false, move_until_zero: false }
}

/// The instruction that the plain parser makes of a byte of a run, if any.
pub open spec fn unit_of(b: u8) -> Seq<Instruction> {
    if b == PLUS {
        seq![Instruction::Add(1)]
    } else if b == MINUS {
        seq![Instruction::Add(255)]
    } else if b == RIGHT {
        seq![Instruction::Move(1)]
    } else if b == LEFT {
        seq![Instruction::Move(-1isize)]
    } else {
        Seq::empty()
    }
}

/// The instructions that the plain parser makes of the bytes from `from`
/// up to `to`.
pub open spec fn units(bytes: Seq<u8>, from: int, to: int) -> Seq<Instruction>
    decreases to - from,
{
    if from >= to {
        Seq::empty()
    } else {
        unit_of(bytes[from]) + units(bytes, from + 1, to)
    }
}

/// The byte is a bracket or a transfer.
pub open spec fn ends_both(b: u8) -> bool {
    b == DOT || b == COMMA || b == OPEN || b == CLOSE
}

/// The units of a stretch of text are straight, and at most one for each
/// byte.
pub(crate) proof fn lemma_units_straight(bytes: Seq<u8>, from: int, to: int)
    requires
        0 <= from <= to <= bytes.len(),
    ensures
        straight(units(bytes, from, to)),
        units(bytes, from, to).len() <= to - from,
    decreases to - from,
{
    if from < to {
        lemma_units_straight(bytes, from + 1, to);
        let all = units(bytes, from, to);
        let head = unit_of(bytes[from]);
        let rest = units(bytes, from + 1, to);
        assert forall|i: int| 0 <= i < all.len() implies is_plain(#[trigger] all[i]) by {
            if i < head.len() {
                assert(all[i] == head[i]);
            } else {
                assert(all[i] == rest[i - head.len()]);
            }
        }
    }
}

/// The plain parser reads a stretch of text without brackets and
/// transfers by appending its units.
pub(crate) proof fn lemma_plain_parse_units(
    bytes: Seq<u8>,
    from: int,
    to: int,
    instrs: Seq<Instruction>,
    open_loops: Seq<OpenLoop>,
)
    requires
        0 <= from <= to <= bytes.len(),
        forall|j: int| from <= j < to ==> !ends_both(#[trigger] bytes[j]),
    ensures
        parse_from(bytes, plainly(), from, instrs, open_loops) == parse_from(
            bytes,
            plainly(),
            to,
            instrs + units(bytes, from, to),
            open_loops,
        ),
    decreases to - from,
{
    if from >= to {
        assert(instrs + units(bytes, from, to) =~= instrs);
    } else {
        let b = bytes[from];
        assert(!ends_both(b));
        let next = instrs + unit_of(b);
        lemma_plain_parse_units(bytes, from + 1, to, next, open_loops);
        assert(next + units(bytes, from + 1, to) =~= instrs + units(bytes, from, to));
        if b == PLUS {
            assert(next =~= instrs.push(Instruction::Add(1)));
        } else if b == MINUS {
            assert(next =~= instrs.push(Instruction::Add(255)));
        } else if b == RIGHT {
            assert(next =~= instrs.push(Instruction::Move(1)));
        } else if b == LEFT {
            assert(next =~= instrs.push(Instruction::Move(-1isize)));
        } else {
            assert(next =~= instrs);
        }
    }
}

/// The sum of a run on top of `acc` is `acc` plus the sum of the run,
/// modulo 256.
pub(crate) proof fn lemma_add_run_sum_from(bytes: Seq<u8>, pos: int, acc: u8)
    requires
        0 <= pos <= bytes.len(),
    ensures
        add_run_sum(bytes, pos, acc) == acc.wrapping_add(add_run_sum(bytes, pos, 0)),
    decreases bytes.len() - pos,
{
    if pos < bytes.len() && !ends_add_run(bytes[pos]) {
        if bytes[pos] == PLUS {
            lemma_add_run_sum_from(bytes, pos + 1, acc.wrapping_add(1));
            lemma_add_run_sum_from(bytes, pos + 1, 1);
        } else if bytes[pos] == MINUS {
            lemma_add_run_sum_from(bytes, pos + 1, acc.wrapping_sub(1));
            lemma_add_run_sum_from(bytes, pos + 1, 255);
        } else {
            lemma_add_run_sum_from(bytes, pos + 1, acc);
        }
    }
}

/// The units of a run of `+` and `-` do what one `Add` of the sum of the
/// run does, and the run holds neither bracket nor transfer.
pub(crate) proof fn lemma_add_run_units(bytes: Seq<u8>, pos: int)
    requires
        0 <= pos <= bytes.len(),
    ensures
        acts_like(
            units(bytes, pos, add_run_end(bytes, pos)),
            seq![Instruction::Add(add_run_sum(bytes, pos, 0))],
        ),
        forall|j: int| pos <= j < add_run_end(bytes, pos) ==> !ends_both(#[trigger] bytes[j]),
        pos <= add_run_end(bytes, pos) <= bytes.len(),
    decreases bytes.len() - pos,
{
    let end = add_run_end(bytes, pos);
    lemma_add_run_end_bounds(bytes, pos);
    lemma_zero_is_nothing();
    if pos >= bytes.len() || ends_add_run(bytes[pos]) {
        let none = Seq::<Instruction>::empty();
        assert(units(bytes, pos, end) =~= none);
        assert(acts_like(none, none));
        lemma_acts_like_other(none, none, seq![Instruction::Add(0)]);
    } else {
        lemma_add_run_units(bytes, pos + 1);
        let rest = units(bytes, pos + 1, end);
        let sum = add_run_sum(bytes, pos + 1, 0);
        let b = bytes[pos];
        assert forall|j: int| pos <= j < end implies !ends_both(#[trigger] bytes[j]) by {}
        if b == PLUS || b == MINUS {
            let first: u8 = if b == PLUS {
                1
            } else {
                255
            };
            let unit = seq![Instruction::Add(first)];
            assert(unit_of(b) =~= unit);
            lemma_acts_like_self(Instruction::Add(first));
            lemma_acts_like_concat(unit, unit, rest, seq![Instruction::Add(sum)]);
            assert(unit + seq![Instruction::Add(sum)] =~= seq![
                Instruction::Add(first),
                Instruction::Add(sum),
            ]);
            lemma_merge_adds(first, sum);
            lemma_acts_like_other(
                unit + rest,
                seq![Instruction::Add(first), Instruction::Add(sum)],
                seq![Instruction::Add(first.wrapping_add(sum))],
            );
            lemma_add_run_sum_from(bytes, pos + 1, first);
            if b == MINUS {
                assert((0u8).wrapping_sub(1) == 255);
            }
        } else {
            assert(unit_of(b) =~= Seq::<Instruction>::empty());
            assert(units(bytes, pos, end) =~= rest);
        }
    }
}

/// The displacement of a run of `>` and `<` as a number that is not
/// bounded.
pub open spec fn move_net(bytes: Seq<u8>, pos: int) -> int
    decreases bytes.len() - pos,
{
    if pos < 0 || pos >= bytes.len() || ends_move_run(bytes[pos]) {
        0
    } else if bytes[pos] == RIGHT {
        1 + move_net(bytes, pos + 1)
    } else if bytes[pos] == LEFT {
        move_net(bytes, pos + 1) - 1
    } else {
        move_net(bytes, pos + 1)
    }
}

/// A run displaces by no more than it is long.
pub(crate) proof fn lemma_move_net_bounds(bytes: Seq<u8>, pos: int)
    requires
        0 <= pos <= bytes.len(),
    ensures
        -(bytes.len() - pos) <= move_net(bytes, pos) <= bytes.len() - pos,
    decreases bytes.len() - pos,
{
    if pos < bytes.len() && !ends_move_run(bytes[pos]) {
        lemma_move_net_bounds(bytes, pos + 1);
    }
}

/// In a text that fits in memory the displacement of a run is computed
/// without wrapping.
pub(crate) proof fn lemma_move_run_sum_exact(bytes: Seq<u8>, pos: int, acc: isize)
    requires
        0 <= pos <= bytes.len(),
        isize::MIN <= acc - (bytes.len() - pos),
        acc + (bytes.len() - pos) <= isize::MAX,
    ensures
        move_run_sum(bytes, pos, acc) == acc + move_net(bytes, pos),
    decreases bytes.len() - pos,
{
    if pos < bytes.len() && !ends_move_run(bytes[pos]) {
        if bytes[pos] == RIGHT {
            lemma_move_run_sum_exact(bytes, pos + 1, acc.wrapping_add(1));
        } else if bytes[pos] == LEFT {
            lemma_move_run_sum_exact(bytes, pos + 1, acc.wrapping_sub(1));
        } else {
            lemma_move_run_sum_exact(bytes, pos + 1, acc);
        }
    }
}

/// The units of a run of `>` and `<` do what one `Move` of the displacement
/// of the run does, and the run holds neither bracket nor transfer.
pub(crate) proof fn lemma_move_run_units(bytes: Seq<u8>, pos: int)
    requires
        0 <= pos <= bytes.len(),
        bytes.len() <= isize::MAX,
    ensures
        acts_like(
            units(bytes, pos, move_run_end(bytes, pos)),
            seq![Instruction::Move(move_net(bytes, pos) as isize)],
        ),
        forall|j: int| pos <= j < move_run_end(bytes, pos) ==> !ends_both(#[trigger] bytes[j]),
        pos <= move_run_end(bytes, pos) <= bytes.len(),
    decreases bytes.len() - pos,
{
    let end = move_run_end(bytes, pos);
    lemma_move_run_end_bounds(bytes, pos);
    lemma_zero_is_nothing();
    lemma_move_net_bounds(bytes, pos);
    if pos >= bytes.len() || ends_move_run(bytes[pos]) {
        let none = Seq::<Instruction>::empty();
        assert(units(bytes, pos, end) =~= none);
        assert(acts_like(none, none));
        lemma_acts_like_other(none, none, seq![Instruction::Move(0)]);
    } else {
        lemma_move_run_units(bytes, pos + 1);
        lemma_move_net_bounds(bytes, pos + 1);
        let rest = units(bytes, pos + 1, end);
        let net = move_net(bytes, pos + 1) as isize;
        let b = bytes[pos];
        assert forall|j: int| pos <= j < end implies !ends_both(#[trigger] bytes[j]) by {}
        if b == RIGHT || b == LEFT {
            let first: isize = if b == RIGHT {
                1
            } else {
                -1isize
            };
            let unit = seq![Instruction::Move(first)];
            assert(unit_of(b) =~= unit);
            lemma_acts_like_self(Instruction::Move(first));
            lemma_acts_like_concat(unit, unit, rest, seq![Instruction::Move(net)]);
            assert(unit + seq![Instruction::Move(net)] =~= seq![
                Instruction::Move(first),
                Instruction::Move(net),
            ]);
            lemma_merge_moves(first, net);
            lemma_acts_like_other(
                unit + rest,
                seq![Instruction::Move(first), Instruction::Move(net)],
                seq![Instruction::Move((first + net) as isize)],
            );
        } else {
            assert(unit_of(b) =~= Seq::<Instruction>::empty());
            assert(units(bytes, pos, end) =~= rest);
        }
    }
}

} // verus!
