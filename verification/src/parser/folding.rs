//! What folding makes of a run: for a run of `+` and `-` the number of `+`
//! less the number of `-`, modulo 256, and for a run of `>` and `<` the
//! number of `>` less the number of `<`. A text of `+` and `-` alone parses
//! to one `Add`, or to nothing if the sum is zero.

use vstd::prelude::*;
use super::error::UnbalancedBrackets;
use vstd::arithmetic::div_mod::{lemma_add_mod_noop_right, lemma_mod_bound};
use super::grammar::{
    add_run_end, add_run_sum, emit, ends_add_run, ends_move_run, move_run_end, move_run_sum,
    parse_from, parse_spec, OpenLoop, LEFT, MINUS, PLUS, RIGHT,
};
use super::instruction::Instruction;
use super::opt::OptimizationOptions;

verus! {

/// How often the byte `b` stands in the text from `from` up to `to`.
pub open spec fn tally(bytes: Seq<u8>, from: int, to: int, b: u8) -> int
    decreases to - from,
{
    if from >= to {
        0
    } else if bytes[from] == b {
        tally(bytes, from + 1, to, b) + 1
    } else {
        tally(bytes, from + 1, to, b)
    }
}

/// A run of `+` and `-` that starts at `pos` ends at the first byte from
/// there on that is another command, or at the end of the text; comments do
/// not end it. Its sum on top of `acc` is `acc` plus the number of `+` less
/// the number of `-` in the run, modulo 256.
pub proof fn lemma_add_run(bytes: Seq<u8>, pos: int, acc: u8)
    requires
        0 <= pos <= bytes.len(),
    ensures
        ({
            let end = add_run_end(bytes, pos);
            let net = tally(bytes, pos, end, PLUS) - tally(bytes, pos, end, MINUS);
            &&& pos <= end <= bytes.len()
            &&& forall|j: int| pos <= j < end ==> !ends_add_run(#[trigger] bytes[j])
            &&& end < bytes.len() ==> ends_add_run(bytes[end])
            &&& add_run_sum(bytes, pos, acc) == (acc + net) % 256
            &&& add_run_sum(bytes, pos, acc) == acc.wrapping_add((net % 256) as u8)
        }),
    decreases bytes.len() - pos,
{
    let end = add_run_end(bytes, pos);
    let net = tally(bytes, pos, end, PLUS) - tally(bytes, pos, end, MINUS);
    if pos < bytes.len() && !ends_add_run(bytes[pos]) {
        let next: u8 = if bytes[pos] == PLUS {
            acc.wrapping_add(1)
        } else if bytes[pos] == MINUS {
            acc.wrapping_sub(1)
        } else {
            acc
        };
        lemma_add_run(bytes, pos + 1, next);
        assert forall|j: int| pos <= j < end implies !ends_add_run(#[trigger] bytes[j]) by {}
    }
    lemma_mod_bound(net, 256);
    lemma_add_mod_noop_right(acc as int, net, 256);
}

/// A run of `>` and `<` that starts at `pos` ends at the first byte from
/// there on that is another command, or at the end of the text; comments do
/// not end it. Its displacement on top of `acc` is `acc` plus the number of
/// `>` less the number of `<` in the run, where the bytes from `pos` on are
/// too few to take that out of range.
pub proof fn lemma_move_run(bytes: Seq<u8>, pos: int, acc: isize)
    requires
        0 <= pos <= bytes.len(),
    ensures
        ({
            let end = move_run_end(bytes, pos);
            let net = tally(bytes, pos, end, RIGHT) - tally(bytes, pos, end, LEFT);
            &&& pos <= end <= bytes.len()
            &&& forall|j: int| pos <= j < end ==> !ends_move_run(#[trigger] bytes[j])
            &&& end < bytes.len() ==> ends_move_run(bytes[end])
            &&& -(end - pos) <= net <= end - pos
            &&& isize::MIN <= acc - (bytes.len() - pos) && acc + (bytes.len() - pos)
                <= isize::MAX ==> move_run_sum(bytes, pos, acc) == acc + net
        }),
    decreases bytes.len() - pos,
{
    let end = move_run_end(bytes, pos);
    if pos < bytes.len() && !ends_move_run(bytes[pos]) {
        let next: isize = if bytes[pos] == RIGHT {
            acc.wrapping_add(1)
        } else if bytes[pos] == LEFT {
            acc.wrapping_sub(1)
        } else {
            acc
        };
        lemma_move_run(bytes, pos + 1, next);
        assert forall|j: int| pos <= j < end implies !ends_move_run(#[trigger] bytes[j]) by {}
    }
}

/// The number of `+` less the number of `-` from `from` on.
pub open spec fn add_net(bytes: Seq<u8>, from: int) -> int
    decreases bytes.len() - from,
{
    if from < 0 || from >= bytes.len() {
        0
    } else if bytes[from] == PLUS {
        add_net(bytes, from + 1) + 1
    } else if bytes[from] == MINUS {
        add_net(bytes, from + 1) - 1
    } else {
        add_net(bytes, from + 1)
    }
}

/// The text holds no command but `+` and `-`.
pub open spec fn only_adds(bytes: Seq<u8>) -> bool {
    forall|i: int| 0 <= i < bytes.len() ==> !ends_add_run(#[trigger] bytes[i])
}

/// In a text of `+` and `-` a run goes on to the end, and its sum is the
/// number of `+` less the number of `-`, modulo 256.
pub proof fn lemma_add_run_is_net(bytes: Seq<u8>, pos: int, acc: u8)
    requires
        only_adds(bytes),
        0 <= pos <= bytes.len(),
    ensures
        add_run_end(bytes, pos) == bytes.len(),
        add_run_sum(bytes, pos, acc) == (acc + add_net(bytes, pos)) % 256,
    decreases bytes.len() - pos,
{
    if pos < bytes.len() {
        assert(!ends_add_run(bytes[pos]));
        if bytes[pos] == PLUS {
            lemma_add_run_is_net(bytes, pos + 1, acc.wrapping_add(1));
        } else if bytes[pos] == MINUS {
            lemma_add_run_is_net(bytes, pos + 1, acc.wrapping_sub(1));
        } else {
            lemma_add_run_is_net(bytes, pos + 1, acc);
        }
    }
}

/// Reading a text of `+` and `-` with folding from `pos` on, with nothing
/// read before.
proof fn lemma_parse_adds_from(bytes: Seq<u8>, opts: OptimizationOptions, pos: int)
    requires
        only_adds(bytes),
        opts.contract,
        0 <= pos <= bytes.len(),
    ensures
        parse_from(bytes, opts, pos, Seq::empty(), Seq::empty()) == Ok::<
            Seq<Instruction>,
            UnbalancedBrackets,
        >(emit(Seq::empty(), Instruction::Add((add_net(bytes, pos) % 256) as u8))),
    decreases bytes.len() - pos,
{
    let none = Seq::<Instruction>::empty();
    let open_loops = Seq::<OpenLoop>::empty();
    if pos < bytes.len() {
        assert(!ends_add_run(bytes[pos]));
        if bytes[pos] == PLUS || bytes[pos] == MINUS {
            let first: u8 = if bytes[pos] == PLUS {
                1
            } else {
                255
            };
            lemma_add_run_is_net(bytes, pos + 1, first);
            let folded = emit(none, Instruction::Add(add_run_sum(bytes, pos + 1, first)));
            assert(parse_from(bytes, opts, bytes.len() as int, folded, open_loops) == Ok::<
                Seq<Instruction>,
                UnbalancedBrackets,
            >(folded));
            assert((first + add_net(bytes, pos + 1)) % 256 == add_net(bytes, pos) % 256);
        } else {
            lemma_parse_adds_from(bytes, opts, pos + 1);
        }
    }
}

/// With folding, a text that holds no command but `+` and `-` parses to a
/// single `Add` of the number of `+` less the number of `-`, modulo 256, and
/// to no instruction at all where that is zero.
pub proof fn lemma_parse_adds(bytes: Seq<u8>, opts: OptimizationOptions)
    requires
        only_adds(bytes),
        opts.contract,
    ensures
        ({
            let net = (add_net(bytes, 0) % 256) as u8;
            parse_spec(bytes, opts) == Ok::<Seq<Instruction>, UnbalancedBrackets>(
                if net == 0 {
                    Seq::empty()
                } else {
                    seq![Instruction::Add(net)]
                },
            )
        }),
{
    lemma_parse_adds_from(bytes, opts, 0);
    let net = (add_net(bytes, 0) % 256) as u8;
    assert(Seq::<Instruction>::empty().push(Instruction::Add(net)) =~= seq![
        Instruction::Add(net),
    ]);
}

} // verus!
