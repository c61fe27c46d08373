//! Loops in parsed programs do not cross, so that a backend which keeps its
//! own stack of open loops pairs the jumps as their targets do.

use vstd::prelude::*;
use super::grammar::{
    add_run_end, add_run_sum, clear_matches, close_loop, emit, lemma_add_run_end_bounds,
    lemma_move_run_end_bounds, move_run_end, move_run_sum, move_until_zero_matches,
    multiply_matches, parse_from, parse_spec, OpenLoop, CLOSE, COMMA, DOT, LEFT, MINUS, OPEN,
    PLUS, RIGHT,
};
use super::instruction::Instruction;
use super::opt::OptimizationOptions;
use super::pairing::{
    is_open, lemma_parsed_loops_pair, lemma_shape_close_loop, lemma_shape_emit, lemma_shape_open,
    lemma_shape_push_plain, lemma_tail_head_is_innermost, shape, targets_mutual,
};

verus! {

/// Of two loops, one lies wholly inside the other or wholly behind it.
#[verifier::opaque]
pub open spec fn loops_do_not_cross(ir: Seq<Instruction>) -> bool {
    forall|i: int, j: int|
        0 <= i < j < ir.len() && (#[trigger] ir[i]) is JumpIfZero && (#[trigger] ir[j])
            is JumpIfZero && j < ir[i]->JumpIfZero_0 ==> ir[j]->JumpIfZero_0
            < ir[i]->JumpIfZero_0
}

/// Every jump and its partner hold each other's index, and loops do not
/// cross.
#[verifier::opaque]
pub open spec fn loops_well_nested(ir: Seq<Instruction>) -> bool {
    ir.len() <= usize::MAX && targets_mutual(ir) && loops_do_not_cross(ir)
}

/// The partner of a loop head is a loop end behind it that points back.
pub(crate) proof fn lemma_head_pairs(ir: Seq<Instruction>, head: int)
    requires
        loops_well_nested(ir),
        0 <= head < ir.len(),
        ir[head] is JumpIfZero,
    ensures
        head < ir[head]->JumpIfZero_0 < ir.len(),
        ir[ir[head]->JumpIfZero_0 as int] == Instruction::JumpIfNotZero(head as usize),
        ir[ir[head]->JumpIfZero_0 as int]->JumpIfNotZero_0 == head,
{
    reveal(loops_well_nested);
}

/// The partner of a loop end is a loop head before it that points at it.
pub(crate) proof fn lemma_tail_pairs(ir: Seq<Instruction>, tail: int)
    requires
        loops_well_nested(ir),
        0 <= tail < ir.len(),
        ir[tail] is JumpIfNotZero,
    ensures
        0 <= ir[tail]->JumpIfNotZero_0 < tail,
        ir[ir[tail]->JumpIfNotZero_0 as int] == Instruction::JumpIfZero(tail as usize),
        ir[ir[tail]->JumpIfNotZero_0 as int]->JumpIfZero_0 == tail,
{
    reveal(loops_well_nested);
}

/// A loop that begins inside another ends inside it.
pub(crate) proof fn lemma_inner_ends_inside(ir: Seq<Instruction>, outer: int, inner: int)
    requires
        loops_well_nested(ir),
        0 <= outer < inner < ir.len(),
        ir[outer] is JumpIfZero,
        ir[inner] is JumpIfZero,
        inner < ir[outer]->JumpIfZero_0,
    ensures
        ir[inner]->JumpIfZero_0 < ir[outer]->JumpIfZero_0,
{
    reveal(loops_well_nested);
    reveal(loops_do_not_cross);
}

/// While a text is read: closed loops do not cross, and no open loop has
/// its head inside a closed one.
#[verifier::opaque]
pub open spec fn loops_apart(instrs: Seq<Instruction>, open_loops: Seq<OpenLoop>) -> bool {
    &&& forall|i: int, j: int|
        0 <= i < j < instrs.len() && (#[trigger] instrs[i]) is JumpIfZero && (
        #[trigger] instrs[j]) is JumpIfZero && !is_open(open_loops, i) && !is_open(open_loops, j)
            && j < instrs[i]->JumpIfZero_0 ==> instrs[j]->JumpIfZero_0 < instrs[i]->JumpIfZero_0
    &&& forall|i: int, j: int|
        0 <= i < instrs.len() && (#[trigger] instrs[i]) is JumpIfZero && !is_open(open_loops, i)
            && 0 <= j < open_loops.len() ==> !(i < (#[trigger] open_loops[j]).0
            < instrs[i]->JumpIfZero_0)
}

/// Appending an instruction that is no jump keeps loops apart.
proof fn lemma_apart_push_plain(
    instrs: Seq<Instruction>,
    open_loops: Seq<OpenLoop>,
    instruction: Instruction,
)
    requires
        shape(instrs, open_loops),
        loops_apart(instrs, open_loops),
        !(instruction is JumpIfZero),
    ensures
        loops_apart(instrs.push(instruction), open_loops),
{
    reveal(loops_apart);
    let after = instrs.push(instruction);
    assert forall|i: int, j: int|
        0 <= i < j < after.len() && (#[trigger] after[i]) is JumpIfZero && (#[trigger] after[j])
            is JumpIfZero && !is_open(open_loops, i) && !is_open(open_loops, j) && j
            < after[i]->JumpIfZero_0 implies after[j]->JumpIfZero_0 < after[i]->JumpIfZero_0 by {
        assert(after[i] == instrs[i]);
        assert(after[j] == instrs[j]);
    }
    assert forall|i: int, j: int|
        0 <= i < after.len() && (#[trigger] after[i]) is JumpIfZero && !is_open(open_loops, i)
            && 0 <= j < open_loops.len() implies !(i < (#[trigger] open_loops[j]).0
            < after[i]->JumpIfZero_0) by {
        assert(after[i] == instrs[i]);
    }
}

/// Appending what a run came to keeps loops apart.
proof fn lemma_apart_emit(
    instrs: Seq<Instruction>,
    open_loops: Seq<OpenLoop>,
    instruction: Instruction,
)
    requires
        shape(instrs, open_loops),
        loops_apart(instrs, open_loops),
        instruction is Add || instruction is Move,
    ensures
        loops_apart(emit(instrs, instruction), open_loops),
{
    if emit(instrs, instruction) != instrs {
        lemma_apart_push_plain(instrs, open_loops, instruction);
    }
}

/// Opening a loop keeps loops apart.
proof fn lemma_apart_open(instrs: Seq<Instruction>, open_loops: Seq<OpenLoop>, pos: usize)
    requires
        shape(instrs, open_loops),
        loops_apart(instrs, open_loops),
        instrs.len() < usize::MAX,
    ensures
        loops_apart(
            instrs.push(Instruction::JumpIfZero(0)),
            open_loops.push((instrs.len() as usize, pos)),
        ),
{
    reveal(loops_apart);
    let len = instrs.len() as int;
    let after = instrs.push(Instruction::JumpIfZero(0));
    let opened = open_loops.push((len as usize, pos));
    assert(opened[open_loops.len() as int].0 == len);
    assert(is_open(opened, len));
    assert forall|i: int| is_open(open_loops, i) implies is_open(opened, i) by {
        let j = choose|j: int| 0 <= j < open_loops.len() && (#[trigger] open_loops[j]).0 == i;
        assert(opened[j] == open_loops[j]);
    }
    assert forall|i: int| 0 <= i < len && is_open(opened, i) implies is_open(open_loops, i) by {
        let j = choose|j: int| 0 <= j < opened.len() && (#[trigger] opened[j]).0 == i;
        assert(opened[j] == open_loops[j]);
    }
    assert forall|i: int, j: int|
        0 <= i < j < after.len() && (#[trigger] after[i]) is JumpIfZero && (#[trigger] after[j])
            is JumpIfZero && !is_open(opened, i) && !is_open(opened, j) && j
            < after[i]->JumpIfZero_0 implies after[j]->JumpIfZero_0 < after[i]->JumpIfZero_0 by {
        assert(after[i] == instrs[i]);
        assert(after[j] == instrs[j]);
    }
    assert forall|i: int, j: int|
        0 <= i < after.len() && (#[trigger] after[i]) is JumpIfZero && !is_open(opened, i) && 0
            <= j < opened.len() implies !(i < (#[trigger] opened[j]).0
            < after[i]->JumpIfZero_0) by {
        assert(after[i] == instrs[i]);
        if j < open_loops.len() {
            assert(opened[j] == open_loops[j]);
        }
    }
}

/// Replacing the innermost open loop by one instruction keeps loops apart.
proof fn lemma_apart_fuse(
    instrs: Seq<Instruction>,
    open_loops: Seq<OpenLoop>,
    p: int,
    fused: Instruction,
)
    requires
        shape(instrs, open_loops),
        loops_apart(instrs, open_loops),
        open_loops.len() > 0,
        0 <= p < instrs.len(),
        instrs[p] is JumpIfZero,
        forall|i: int|
            p < i < instrs.len() ==> !((#[trigger] instrs[i]) is JumpIfZero) && !(instrs[i]
                is JumpIfNotZero),
        !(fused is JumpIfZero),
    ensures
        loops_apart(instrs.take(p).push(fused), open_loops.drop_last()),
{
    reveal(loops_apart);
    lemma_tail_head_is_innermost(instrs, open_loops, p);
    let after = instrs.take(p).push(fused);
    let rest = open_loops.drop_last();
    assert forall|i: int| 0 <= i < p && !is_open(rest, i) implies !is_open(open_loops, i) by {
        if is_open(open_loops, i) {
            let j = choose|j: int| 0 <= j < open_loops.len() && (#[trigger] open_loops[j]).0 == i;
            assert(rest[j] == open_loops[j]);
        }
    }
    assert forall|i: int, j: int|
        0 <= i < j < after.len() && (#[trigger] after[i]) is JumpIfZero && (#[trigger] after[j])
            is JumpIfZero && !is_open(rest, i) && !is_open(rest, j) && j
            < after[i]->JumpIfZero_0 implies after[j]->JumpIfZero_0 < after[i]->JumpIfZero_0 by {
        assert(after[i] == instrs[i]);
        assert(after[j] == instrs[j]);
    }
    assert forall|i: int, j: int|
        0 <= i < after.len() && (#[trigger] after[i]) is JumpIfZero && !is_open(rest, i) && 0
            <= j < rest.len() implies !(i < (#[trigger] rest[j]).0 < after[i]->JumpIfZero_0) by {
        assert(after[i] == instrs[i]);
        assert(rest[j] == open_loops[j]);
    }
}

/// Closing the innermost open loop by a `JumpIfNotZero` keeps loops apart.
proof fn lemma_apart_close(instrs: Seq<Instruction>, open_loops: Seq<OpenLoop>)
    requires
        shape(instrs, open_loops),
        loops_apart(instrs, open_loops),
        open_loops.len() > 0,
        instrs.len() < usize::MAX,
    ensures
        loops_apart(
            instrs.update(
                open_loops.last().0 as int,
                Instruction::JumpIfZero(instrs.len() as usize),
            ).push(Instruction::JumpIfNotZero(open_loops.last().0)),
            open_loops.drop_last(),
        ),
{
    reveal(loops_apart);
    let len = instrs.len() as int;
    let top = open_loops.len() - 1;
    let head = open_loops[top].0 as int;
    let after = instrs.update(head, Instruction::JumpIfZero(len as usize)).push(
        Instruction::JumpIfNotZero(head as usize),
    );
    let rest = open_loops.drop_last();
    assert(is_open(open_loops, head));
    assert forall|i: int| 0 <= i < len && i != head && !is_open(rest, i) implies !is_open(
        open_loops,
        i,
    ) by {
        if is_open(open_loops, i) {
            let j = choose|j: int| 0 <= j < open_loops.len() && (#[trigger] open_loops[j]).0 == i;
            assert(rest[j] == open_loops[j]);
        }
    }
    assert forall|i: int, j: int|
        0 <= i < j < after.len() && (#[trigger] after[i]) is JumpIfZero && (#[trigger] after[j])
            is JumpIfZero && !is_open(rest, i) && !is_open(rest, j) && j
            < after[i]->JumpIfZero_0 implies after[j]->JumpIfZero_0 < after[i]->JumpIfZero_0 by {
        if i == head {
            assert(after[j] == instrs[j]);
            assert(instrs[j] is JumpIfZero);
        } else if j == head {
            assert(after[i] == instrs[i]);
            assert(instrs[i] is JumpIfZero);
            assert(open_loops[top].0 == head);
        } else {
            assert(after[i] == instrs[i]);
            assert(after[j] == instrs[j]);
        }
    }
    assert forall|i: int, j: int|
        0 <= i < after.len() && (#[trigger] after[i]) is JumpIfZero && !is_open(rest, i) && 0
            <= j < rest.len() implies !(i < (#[trigger] rest[j]).0 < after[i]->JumpIfZero_0) by {
        assert(rest[j] == open_loops[j]);
        if i == head {
            assert(open_loops[j].0 < open_loops[top].0);
        } else {
            assert(after[i] == instrs[i]);
        }
    }
}

/// Closing the innermost open loop, by a rewrite or by a `JumpIfNotZero`,
/// keeps loops apart.
proof fn lemma_apart_close_loop(
    instrs: Seq<Instruction>,
    open_loops: Seq<OpenLoop>,
    opts: OptimizationOptions,
)
    requires
        shape(instrs, open_loops),
        loops_apart(instrs, open_loops),
        open_loops.len() > 0,
        instrs.len() < usize::MAX,
    ensures
        loops_apart(close_loop(instrs, open_loops.last().0, opts), open_loops.drop_last()),
{
    let len = instrs.len() as int;
    if opts.clear && clear_matches(instrs) {
        lemma_apart_fuse(instrs, open_loops, len - 2, Instruction::Clear);
    } else if opts.multiply && multiply_matches(instrs) {
        lemma_apart_fuse(
            instrs,
            open_loops,
            len - 5,
            Instruction::Multiply(instrs[len - 3]->Move_0, instrs[len - 2]->Add_0),
        );
    } else if opts.move_until_zero && move_until_zero_matches(instrs) {
        lemma_apart_fuse(
            instrs,
            open_loops,
            len - 2,
            Instruction::MoveUntilZero(instrs[len - 1]->Move_0),
        );
    } else {
        lemma_apart_close(instrs, open_loops);
    }
}

/// Reading on from a state in which loops are apart gives, if it gives a
/// program, one whose loops do not cross.
proof fn lemma_parse_from_apart(
    bytes: Seq<u8>,
    opts: OptimizationOptions,
    pos: int,
    instrs: Seq<Instruction>,
    open_loops: Seq<OpenLoop>,
)
    requires
        bytes.len() <= usize::MAX,
        0 <= pos <= bytes.len(),
        instrs.len() <= pos,
        shape(instrs, open_loops),
        loops_apart(instrs, open_loops),
    ensures
        parse_from(bytes, opts, pos, instrs, open_loops) matches Ok(ir) ==> loops_do_not_cross(ir),
    decreases bytes.len() - pos,
{
    if pos >= bytes.len() {
        if open_loops.len() == 0 {
            reveal(loops_apart);
            reveal(loops_do_not_cross);
            assert forall|i: int| 0 <= i < instrs.len() implies !is_open(open_loops, i) by {}
        }
    } else {
        let b = bytes[pos];
        lemma_add_run_end_bounds(bytes, pos + 1);
        lemma_move_run_end_bounds(bytes, pos + 1);
        if (b == PLUS || b == MINUS) && opts.contract {
            let first: u8 = if b == PLUS {
                1
            } else {
                255
            };
            let instruction = Instruction::Add(add_run_sum(bytes, pos + 1, first));
            lemma_shape_emit(instrs, open_loops, instruction);
            lemma_apart_emit(instrs, open_loops, instruction);
            lemma_parse_from_apart(
                bytes,
                opts,
                add_run_end(bytes, pos + 1),
                emit(instrs, instruction),
                open_loops,
            );
        } else if (b == RIGHT || b == LEFT) && opts.contract {
            let first: isize = if b == RIGHT {
                1
            } else {
                -1isize
            };
            let instruction = Instruction::Move(move_run_sum(bytes, pos + 1, first));
            lemma_shape_emit(instrs, open_loops, instruction);
            lemma_apart_emit(instrs, open_loops, instruction);
            lemma_parse_from_apart(
                bytes,
                opts,
                move_run_end(bytes, pos + 1),
                emit(instrs, instruction),
                open_loops,
            );
        } else if b == PLUS || b == MINUS || b == RIGHT || b == LEFT || b == COMMA || b == DOT {
            let instruction = if b == PLUS {
                Instruction::Add(1)
            } else if b == MINUS {
                Instruction::Add(255)
            } else if b == RIGHT {
                Instruction::Move(1)
            } else if b == LEFT {
                Instruction::Move(-1isize)
            } else if b == COMMA {
                Instruction::In
            } else {
                Instruction::Out
            };
            lemma_shape_push_plain(instrs, open_loops, instruction);
            lemma_apart_push_plain(instrs, open_loops, instruction);
            lemma_parse_from_apart(bytes, opts, pos + 1, instrs.push(instruction), open_loops);
        } else if b == OPEN {
            lemma_shape_open(instrs, open_loops, pos as usize);
            lemma_apart_open(instrs, open_loops, pos as usize);
            lemma_parse_from_apart(
                bytes,
                opts,
                pos + 1,
                instrs.push(Instruction::JumpIfZero(0)),
                open_loops.push((instrs.len() as usize, pos as usize)),
            );
        } else if b == CLOSE {
            if open_loops.len() > 0 {
                lemma_shape_close_loop(instrs, open_loops, opts);
                lemma_apart_close_loop(instrs, open_loops, opts);
                let closed = close_loop(instrs, open_loops.last().0, opts);
                assert(closed.len() <= instrs.len() + 1);
                lemma_parse_from_apart(bytes, opts, pos + 1, closed, open_loops.drop_last());
            }
        } else {
            lemma_parse_from_apart(bytes, opts, pos + 1, instrs, open_loops);
        }
    }
}

/// In every program that parsing gives, loops do not cross.
pub proof fn lemma_parsed_loops_do_not_cross(bytes: Seq<u8>, opts: OptimizationOptions)
    requires
        bytes.len() <= usize::MAX,
    ensures
        parse_spec(bytes, opts) matches Ok(ir) ==> loops_do_not_cross(ir),
{
    let none = Seq::<Instruction>::empty();
    let open_loops = Seq::<OpenLoop>::empty();
    assert(shape(none, open_loops));
    assert(loops_apart(none, open_loops)) by {
        reveal(loops_apart);
    }
    lemma_parse_from_apart(bytes, opts, 0, none, open_loops);
}

/// The indices of the loop heads among the first `k` instructions whose
/// loops a backend with its own stack has open, the innermost last.
pub open spec fn open_heads(ir: Seq<Instruction>, k: int) -> Seq<int>
    decreases k,
{
    if k <= 0 {
        Seq::empty()
    } else {
        let before = open_heads(ir, k - 1);
        match ir[k - 1] {
            Instruction::JumpIfZero(_) => before.push(k - 1),
            Instruction::JumpIfNotZero(_) => if before.len() > 0 {
                before.drop_last()
            } else {
                before
            },
            _ => before,
        }
    }
}

/// The loops that are open after `k` instructions are those that begin
/// before and end behind.
#[verifier::opaque]
pub open spec fn heads_span(ir: Seq<Instruction>, k: int) -> bool {
    let heads = open_heads(ir, k);
    &&& forall|j: int|
        0 <= j < heads.len() ==> 0 <= (#[trigger] heads[j]) < k && ir[heads[j]] is JumpIfZero
            && ir[heads[j]]->JumpIfZero_0 >= k
    &&& forall|j: int, l: int|
        0 <= j < l < heads.len() ==> (#[trigger] heads[j]) < (#[trigger] heads[l])
    &&& forall|i: int|
        0 <= i < k && (#[trigger] ir[i]) is JumpIfZero && ir[i]->JumpIfZero_0 >= k
            ==> heads.contains(i)
}

/// An open loop begins before and ends behind.
pub(crate) proof fn lemma_span_entry(ir: Seq<Instruction>, k: int, j: int)
    requires
        heads_span(ir, k),
        0 <= j < open_heads(ir, k).len(),
    ensures
        0 <= open_heads(ir, k)[j] < k,
        ir[open_heads(ir, k)[j]] is JumpIfZero,
        ir[open_heads(ir, k)[j]]->JumpIfZero_0 >= k,
{
    reveal(heads_span);
}

/// A loop opened later begins further on.
pub(crate) proof fn lemma_span_order(ir: Seq<Instruction>, k: int, j: int, l: int)
    requires
        heads_span(ir, k),
        0 <= j < l < open_heads(ir, k).len(),
    ensures
        open_heads(ir, k)[j] < open_heads(ir, k)[l],
{
    reveal(heads_span);
}

/// A loop that begins before and ends behind is open.
pub(crate) proof fn lemma_span_holds(ir: Seq<Instruction>, k: int, i: int) -> (j: int)
    requires
        heads_span(ir, k),
        0 <= i < k,
        ir[i] is JumpIfZero,
        ir[i]->JumpIfZero_0 >= k,
    ensures
        0 <= j < open_heads(ir, k).len(),
        open_heads(ir, k)[j] == i,
{
    reveal(heads_span);
    let heads = open_heads(ir, k);
    assert(heads.contains(i));
    choose|j: int| 0 <= j < heads.len() && heads[j] == i
}

/// The innermost open loop at a `JumpIfNotZero` is the one that the jump
/// points at.
pub(crate) proof fn lemma_innermost_is_target(ir: Seq<Instruction>, k: int)
    requires
        loops_well_nested(ir),
        0 <= k < ir.len(),
        ir[k] is JumpIfNotZero,
        heads_span(ir, k),
    ensures
        open_heads(ir, k).len() > 0,
        open_heads(ir, k).last() == ir[k]->JumpIfNotZero_0,
{
    let heads = open_heads(ir, k);
    let h = ir[k]->JumpIfNotZero_0 as int;
    lemma_tail_pairs(ir, k);
    let j = lemma_span_holds(ir, k, h);
    if j < heads.len() - 1 {
        let last = heads.len() - 1;
        let inner = heads[last];
        lemma_span_order(ir, k, j, last);
        lemma_span_entry(ir, k, last);
        lemma_head_pairs(ir, inner);
        lemma_inner_ends_inside(ir, h, inner);
    }
}

/// One more instruction keeps the open loops those that begin before and
/// end behind.
proof fn lemma_heads_span_step(ir: Seq<Instruction>, k: int)
    requires
        loops_well_nested(ir),
        0 < k <= ir.len(),
        heads_span(ir, k - 1),
    ensures
        heads_span(ir, k),
{
    let before = open_heads(ir, k - 1);
    let heads = open_heads(ir, k);
    if ir[k - 1] is JumpIfNotZero {
        lemma_innermost_is_target(ir, k - 1);
        lemma_tail_pairs(ir, k - 1);
    }
    assert forall|j: int| 0 <= j < heads.len() implies 0 <= (#[trigger] heads[j]) < k
        && ir[heads[j]] is JumpIfZero && ir[heads[j]]->JumpIfZero_0 >= k by {
        if j < before.len() {
            assert(heads[j] == before[j]);
            lemma_span_entry(ir, k - 1, j);
            let h = before[j];
            lemma_head_pairs(ir, h);
            if ir[k - 1] is JumpIfNotZero {
                lemma_span_order(ir, k - 1, j, before.len() - 1);
            }
        } else {
            lemma_head_pairs(ir, k - 1);
        }
    }
    assert forall|j: int, l: int| 0 <= j < l < heads.len() implies (#[trigger] heads[j]) < (
    #[trigger] heads[l]) by {
        assert(heads[j] == before[j]);
        lemma_span_entry(ir, k - 1, j);
        if l < before.len() {
            assert(heads[l] == before[l]);
            lemma_span_order(ir, k - 1, j, l);
        }
    }
    assert forall|i: int|
        0 <= i < k && (#[trigger] ir[i]) is JumpIfZero && ir[i]->JumpIfZero_0
            >= k implies heads.contains(i) by {
        if i < k - 1 {
            let j = lemma_span_holds(ir, k - 1, i);
            if ir[k - 1] is JumpIfNotZero && j == before.len() - 1 {
                assert(false);
            }
            assert(heads[j] == i);
        } else {
            assert(heads[before.len() as int] == i);
        }
    }
    assert(heads_span(ir, k)) by {
        reveal(heads_span);
    }
}

/// In a program whose loops are well nested, a stack of open loops holds
/// at every `JumpIfNotZero` the loop that the jump points at, and is empty
/// at the end.
pub(crate) proof fn lemma_open_heads(ir: Seq<Instruction>, k: int)
    requires
        loops_well_nested(ir),
        0 <= k <= ir.len(),
    ensures
        heads_span(ir, k),
        k < ir.len() && ir[k] is JumpIfNotZero ==> open_heads(ir, k).len() > 0 && open_heads(
            ir,
            k,
        ).last() == ir[k]->JumpIfNotZero_0,
        k == ir.len() ==> open_heads(ir, k).len() == 0,
    decreases k,
{
    if k > 0 {
        lemma_open_heads(ir, k - 1);
        lemma_heads_span_step(ir, k);
    } else {
        assert(heads_span(ir, 0)) by {
            reveal(heads_span);
        }
    }
    if k < ir.len() && ir[k] is JumpIfNotZero {
        lemma_innermost_is_target(ir, k);
    }
    if k == ir.len() && open_heads(ir, k).len() > 0 {
        lemma_span_entry(ir, k, 0);
        lemma_head_pairs(ir, open_heads(ir, k)[0]);
    }
}

/// In every program that parsing gives every jump and its partner hold
/// each other's index, and loops do not cross.
pub proof fn lemma_parsed_loops_well_nested(bytes: Seq<u8>, opts: OptimizationOptions)
    requires
        bytes.len() <= usize::MAX,
    ensures
        parse_spec(bytes, opts) matches Ok(ir) ==> loops_well_nested(ir),
{
    reveal(loops_well_nested);
    lemma_parsed_loops_do_not_cross(bytes, opts);
    lemma_parsed_loops_pair(bytes, opts);
}

} // verus!
