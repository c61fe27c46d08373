//! Loops in parsed programs: every loop head has one loop end, each holds
//! the index of the other, and loops nest.

use vstd::prelude::*;
use super::grammar::{
    add_run_end, add_run_sum, clear_matches, close_loop, emit, lemma_add_run_end_bounds,
    lemma_move_run_end_bounds, move_run_end, move_run_sum, move_until_zero_matches,
    multiply_matches, parse_from, parse_spec, OpenLoop, CLOSE, COMMA, DOT, LEFT, MINUS, OPEN,
    PLUS, RIGHT,
};
use super::heads_in_place;
use super::instruction::Instruction;
use super::opt::OptimizationOptions;

verus! {

/// How many of the first `k` instructions are loop heads.
pub open spec fn heads_before(ir: Seq<Instruction>, k: int) -> nat
    decreases k,
{
    if k <= 0 {
        0
    } else {
        heads_before(ir, k - 1) + if ir[k - 1] is JumpIfZero {
            1nat
        } else {
            0nat
        }
    }
}

/// How many of the first `k` instructions are loop ends.
pub open spec fn tails_before(ir: Seq<Instruction>, k: int) -> nat
    decreases k,
{
    if k <= 0 {
        0
    } else {
        tails_before(ir, k - 1) + if ir[k - 1] is JumpIfNotZero {
            1nat
        } else {
            0nat
        }
    }
}

/// The number of `JumpIfZero` in a program.
pub open spec fn count_jump_if_zero(ir: Seq<Instruction>) -> nat {
    heads_before(ir, ir.len() as int)
}

/// The number of `JumpIfNotZero` in a program.
pub open spec fn count_jump_if_not_zero(ir: Seq<Instruction>) -> nat {
    tails_before(ir, ir.len() as int)
}

/// Each jump holds the index of its partner, which holds its own, and the
/// `JumpIfZero` comes first.
pub open spec fn targets_mutual(ir: Seq<Instruction>) -> bool {
    &&& forall|i: int|
        0 <= i < ir.len() && (#[trigger] ir[i]) is JumpIfZero ==> {
            let t = ir[i]->JumpIfZero_0 as int;
            i < t < ir.len() && ir[t] == Instruction::JumpIfNotZero(i as usize)
        }
    &&& forall|i: int|
        0 <= i < ir.len() && (#[trigger] ir[i]) is JumpIfNotZero ==> {
            let t = ir[i]->JumpIfNotZero_0 as int;
            0 <= t < i && ir[t] == Instruction::JumpIfZero(i as usize)
        }
}

/// No prefix of the program has more loop ends than loop heads, and the
/// whole program has as many of one as of the other.
pub open spec fn loops_nested(ir: Seq<Instruction>) -> bool {
    &&& forall|k: int| 0 <= k <= ir.len() ==> tails_before(ir, k) <= #[trigger] heads_before(ir, k)
    &&& count_jump_if_zero(ir) == count_jump_if_not_zero(ir)
}

/// The loop with its head at `i` is among the open ones.
pub open spec fn is_open(open_loops: Seq<OpenLoop>, i: int) -> bool {
    exists|j: int| 0 <= j < open_loops.len() && (#[trigger] open_loops[j]).0 == i
}

/// What holds of the instructions and the open loops while a text is read.
pub open spec fn shape(instrs: Seq<Instruction>, open_loops: Seq<OpenLoop>) -> bool {
    &&& instrs.len() <= usize::MAX
    &&& heads_in_place(instrs, open_loops)
    &&& forall|i: int|
        0 <= i < instrs.len() && (#[trigger] instrs[i]) is JumpIfZero ==> is_open(open_loops, i)
            || {
            let t = instrs[i]->JumpIfZero_0 as int;
            i < t < instrs.len() && instrs[t] == Instruction::JumpIfNotZero(i as usize)
        }
    &&& forall|i: int|
        0 <= i < instrs.len() && (#[trigger] instrs[i]) is JumpIfNotZero ==> {
            let t = instrs[i]->JumpIfNotZero_0 as int;
            &&& 0 <= t < i
            &&& instrs[t] == Instruction::JumpIfZero(i as usize)
            &&& !is_open(open_loops, t)
        }
    &&& forall|k: int|
        0 <= k <= instrs.len() ==> tails_before(instrs, k) <= #[trigger] heads_before(instrs, k)
    &&& count_jump_if_zero(instrs) == count_jump_if_not_zero(instrs) + open_loops.len()
}

/// Two programs with jumps of the same kinds at the same places among their
/// first `k` instructions have the same counts there.
proof fn lemma_counts_agree(a: Seq<Instruction>, b: Seq<Instruction>, k: int)
    requires
        forall|i: int|
            0 <= i < k ==> ((#[trigger] a[i]) is JumpIfZero <==> b[i] is JumpIfZero) && (a[i]
                is JumpIfNotZero <==> b[i] is JumpIfNotZero),
    ensures
        heads_before(a, k) == heads_before(b, k),
        tails_before(a, k) == tails_before(b, k),
    decreases k,
{
    if k > 0 {
        lemma_counts_agree(a, b, k - 1);
        assert((a[k - 1]) is JumpIfZero <==> b[k - 1] is JumpIfZero);
    }
}

/// Instructions that are no jumps leave the counts as they are.
proof fn lemma_counts_skip(ir: Seq<Instruction>, from: int, to: int)
    requires
        0 <= from <= to,
        forall|i: int|
            from <= i < to ==> !((#[trigger] ir[i]) is JumpIfZero) && !(ir[i] is JumpIfNotZero),
    ensures
        heads_before(ir, to) == heads_before(ir, from),
        tails_before(ir, to) == tails_before(ir, from),
    decreases to - from,
{
    if from < to {
        lemma_counts_skip(ir, from, to - 1);
        assert(!(ir[to - 1] is JumpIfZero));
    }
}

/// Appending an instruction that is no jump keeps the shape.
pub(crate) proof fn lemma_shape_push_plain(
    instrs: Seq<Instruction>,
    open_loops: Seq<OpenLoop>,
    instruction: Instruction,
)
    requires
        shape(instrs, open_loops),
        instrs.len() < usize::MAX,
        !(instruction is JumpIfZero),
        !(instruction is JumpIfNotZero),
    ensures
        shape(instrs.push(instruction), open_loops),
{
    let after = instrs.push(instruction);
    let len = instrs.len() as int;
    assert forall|k: int| 0 <= k <= after.len() implies tails_before(after, k)
        <= #[trigger] heads_before(after, k) by {
        if k <= len {
            lemma_counts_agree(instrs, after, k);
        } else {
            lemma_counts_agree(instrs, after, len);
            assert(heads_before(instrs, len) >= tails_before(instrs, len));
        }
    }
    lemma_counts_agree(instrs, after, len);
    assert forall|i: int| 0 <= i < after.len() && (#[trigger] after[i]) is JumpIfZero implies
        is_open(open_loops, i) || {
        let t = after[i]->JumpIfZero_0 as int;
        i < t < after.len() && after[t] == Instruction::JumpIfNotZero(i as usize)
    } by {
        assert(after[i] == instrs[i]);
    }
    assert forall|i: int| 0 <= i < after.len() && (#[trigger] after[i]) is JumpIfNotZero implies {
        let t = after[i]->JumpIfNotZero_0 as int;
        &&& 0 <= t < i
        &&& after[t] == Instruction::JumpIfZero(i as usize)
        &&& !is_open(open_loops, t)
    } by {
        assert(after[i] == instrs[i]);
    }
}

/// Appending what a run of `+` and `-`, or of `>` and `<`, came to keeps
/// the shape.
pub(crate) proof fn lemma_shape_emit(
    instrs: Seq<Instruction>,
    open_loops: Seq<OpenLoop>,
    instruction: Instruction,
)
    requires
        shape(instrs, open_loops),
        instrs.len() < usize::MAX,
        instruction is Add || instruction is Move,
    ensures
        shape(emit(instrs, instruction), open_loops),
{
    if emit(instrs, instruction) != instrs {
        lemma_shape_push_plain(instrs, open_loops, instruction);
    }
}

/// Opening a loop keeps the shape.
pub(crate) proof fn lemma_shape_open(instrs: Seq<Instruction>, open_loops: Seq<OpenLoop>, pos: usize)
    requires
        shape(instrs, open_loops),
        instrs.len() < usize::MAX,
    ensures
        shape(
            instrs.push(Instruction::JumpIfZero(0)),
            open_loops.push((instrs.len() as usize, pos)),
        ),
{
    let len = instrs.len() as int;
    let after = instrs.push(Instruction::JumpIfZero(0));
    let opened = open_loops.push((len as usize, pos));
    assert forall|j: int| 0 <= j < opened.len() implies (#[trigger] opened[j]).0 < after.len()
        && after[opened[j].0 as int] is JumpIfZero by {
        if j < open_loops.len() {
            assert(opened[j] == open_loops[j]);
        }
    }
    assert forall|j: int, k: int| 0 <= j < k < opened.len() implies (#[trigger] opened[j]).0 < (
    #[trigger] opened[k]).0 by {
        assert(opened[j] == open_loops[j]);
        if k < open_loops.len() {
            assert(opened[k] == open_loops[k]);
        }
    }
    assert forall|i: int| 0 <= i < after.len() && (#[trigger] after[i]) is JumpIfZero implies
        is_open(opened, i) || {
        let t = after[i]->JumpIfZero_0 as int;
        i < t < after.len() && after[t] == Instruction::JumpIfNotZero(i as usize)
    } by {
        if i == len {
            assert(opened[open_loops.len() as int].0 == i);
        } else {
            assert(after[i] == instrs[i]);
            if is_open(open_loops, i) {
                let j = choose|j: int| 0 <= j < open_loops.len() && (#[trigger] open_loops[j]).0 == i;
                assert(opened[j] == open_loops[j]);
            }
        }
    }
    assert forall|i: int| 0 <= i < after.len() && (#[trigger] after[i]) is JumpIfNotZero implies {
        let t = after[i]->JumpIfNotZero_0 as int;
        &&& 0 <= t < i
        &&& after[t] == Instruction::JumpIfZero(i as usize)
        &&& !is_open(opened, t)
    } by {
        assert(after[i] == instrs[i]);
        let t = after[i]->JumpIfNotZero_0 as int;
        if is_open(opened, t) {
            let j = choose|j: int| 0 <= j < opened.len() && (#[trigger] opened[j]).0 == t;
            if j < open_loops.len() {
                assert(opened[j] == open_loops[j]);
                assert(is_open(open_loops, t));
            }
        }
    }
    assert forall|k: int| 0 <= k <= after.len() implies tails_before(after, k)
        <= #[trigger] heads_before(after, k) by {
        if k <= len {
            lemma_counts_agree(instrs, after, k);
        } else {
            lemma_counts_agree(instrs, after, len);
            assert(heads_before(instrs, len) >= tails_before(instrs, len));
        }
    }
    lemma_counts_agree(instrs, after, len);
}

/// The loop head that a rewrite removes is the head of the innermost open
/// loop.
pub(crate) proof fn lemma_tail_head_is_innermost(
    instrs: Seq<Instruction>,
    open_loops: Seq<OpenLoop>,
    p: int,
)
    requires
        shape(instrs, open_loops),
        open_loops.len() > 0,
        0 <= p < instrs.len(),
        instrs[p] is JumpIfZero,
        forall|i: int|
            p < i < instrs.len() ==> !((#[trigger] instrs[i]) is JumpIfZero) && !(instrs[i]
                is JumpIfNotZero),
    ensures
        open_loops.last().0 == p,
{
    let top = open_loops.last().0 as int;
    assert(open_loops[open_loops.len() - 1].0 < instrs.len());
    assert(instrs[top] is JumpIfZero);
    assert(top <= p);
    assert(is_open(open_loops, p)) by {
        if !is_open(open_loops, p) {
            let t = instrs[p]->JumpIfZero_0 as int;
            assert(instrs[t] is JumpIfNotZero);
        }
    }
    let j = choose|j: int| 0 <= j < open_loops.len() && (#[trigger] open_loops[j]).0 == p;
    if j < open_loops.len() - 1 {
        assert(open_loops[j].0 < open_loops[open_loops.len() - 1].0);
    }
}

/// Replacing the innermost open loop, which holds no jump, by one
/// instruction that is no jump keeps the shape.
pub(crate) proof fn lemma_shape_fuse(
    instrs: Seq<Instruction>,
    open_loops: Seq<OpenLoop>,
    p: int,
    fused: Instruction,
)
    requires
        shape(instrs, open_loops),
        open_loops.len() > 0,
        0 <= p < instrs.len(),
        instrs[p] is JumpIfZero,
        forall|i: int|
            p < i < instrs.len() ==> !((#[trigger] instrs[i]) is JumpIfZero) && !(instrs[i]
                is JumpIfNotZero),
        !(fused is JumpIfZero),
        !(fused is JumpIfNotZero),
    ensures
        shape(instrs.take(p).push(fused), open_loops.drop_last()),
{
    lemma_tail_head_is_innermost(instrs, open_loops, p);
    let kept = instrs.take(p);
    let rest = open_loops.drop_last();
    let len = instrs.len() as int;
    assert forall|j: int| 0 <= j < rest.len() implies (#[trigger] rest[j]).0 < kept.len()
        && kept[rest[j].0 as int] is JumpIfZero by {
        assert(rest[j] == open_loops[j]);
        assert(open_loops[j].0 < open_loops[open_loops.len() - 1].0);
    }
    assert forall|j: int, k: int| 0 <= j < k < rest.len() implies (#[trigger] rest[j]).0 < (
    #[trigger] rest[k]).0 by {
        assert(rest[j] == open_loops[j]);
        assert(rest[k] == open_loops[k]);
    }
    assert forall|i: int| 0 <= i < kept.len() && (#[trigger] kept[i]) is JumpIfZero implies
        is_open(rest, i) || {
        let t = kept[i]->JumpIfZero_0 as int;
        i < t < kept.len() && kept[t] == Instruction::JumpIfNotZero(i as usize)
    } by {
        assert(kept[i] == instrs[i]);
        if is_open(open_loops, i) {
            let j = choose|j: int| 0 <= j < open_loops.len() && (#[trigger] open_loops[j]).0 == i;
            assert(j < open_loops.len() - 1);
            assert(rest[j] == open_loops[j]);
        } else {
            let t = instrs[i]->JumpIfZero_0 as int;
            assert(instrs[t] is JumpIfNotZero);
            assert(t < p);
        }
    }
    assert forall|i: int| 0 <= i < kept.len() && (#[trigger] kept[i]) is JumpIfNotZero implies {
        let t = kept[i]->JumpIfNotZero_0 as int;
        &&& 0 <= t < i
        &&& kept[t] == Instruction::JumpIfZero(i as usize)
        &&& !is_open(rest, t)
    } by {
        assert(kept[i] == instrs[i]);
        let t = kept[i]->JumpIfNotZero_0 as int;
        if is_open(rest, t) {
            let j = choose|j: int| 0 <= j < rest.len() && (#[trigger] rest[j]).0 == t;
            assert(rest[j] == open_loops[j]);
            assert(is_open(open_loops, t));
        }
    }
    assert forall|k: int| 0 <= k <= kept.len() implies tails_before(kept, k)
        <= #[trigger] heads_before(kept, k) by {
        lemma_counts_agree(instrs, kept, k);
        assert(heads_before(instrs, k) >= tails_before(instrs, k));
    }
    lemma_counts_agree(instrs, kept, p);
    lemma_counts_skip(instrs, p + 1, len);
    assert(heads_before(instrs, p + 1) == heads_before(instrs, p) + 1);
    assert(tails_before(instrs, p + 1) == tails_before(instrs, p));
    assert(heads_before(kept, p) == tails_before(kept, p) + rest.len());
    assert(shape(kept, rest));
    lemma_shape_push_plain(kept, rest, fused);
}

/// Closing the innermost open loop by a `JumpIfNotZero` keeps the shape.
pub(crate) proof fn lemma_shape_close(instrs: Seq<Instruction>, open_loops: Seq<OpenLoop>)
    requires
        shape(instrs, open_loops),
        open_loops.len() > 0,
        instrs.len() < usize::MAX,
    ensures
        shape(
            instrs.update(
                open_loops.last().0 as int,
                Instruction::JumpIfZero(instrs.len() as usize),
            ).push(Instruction::JumpIfNotZero(open_loops.last().0)),
            open_loops.drop_last(),
        ),
{
    let len = instrs.len() as int;
    let head = open_loops.last().0 as int;
    let patched = instrs.update(head, Instruction::JumpIfZero(len as usize));
    let after = patched.push(Instruction::JumpIfNotZero(head as usize));
    let rest = open_loops.drop_last();
    assert(open_loops[open_loops.len() - 1].0 < instrs.len());
    assert(instrs[head] is JumpIfZero);
    assert forall|j: int| 0 <= j < rest.len() implies (#[trigger] rest[j]).0 < after.len()
        && after[rest[j].0 as int] is JumpIfZero by {
        assert(rest[j] == open_loops[j]);
        assert(open_loops[j].0 < open_loops[open_loops.len() - 1].0);
    }
    assert forall|j: int, k: int| 0 <= j < k < rest.len() implies (#[trigger] rest[j]).0 < (
    #[trigger] rest[k]).0 by {
        assert(rest[j] == open_loops[j]);
        assert(rest[k] == open_loops[k]);
    }
    assert forall|i: int| 0 <= i < after.len() && (#[trigger] after[i]) is JumpIfZero implies
        is_open(rest, i) || {
        let t = after[i]->JumpIfZero_0 as int;
        i < t < after.len() && after[t] == Instruction::JumpIfNotZero(i as usize)
    } by {
        if i != head {
            assert(after[i] == instrs[i]);
            if is_open(open_loops, i) {
                let j = choose|j: int|
                    0 <= j < open_loops.len() && (#[trigger] open_loops[j]).0 == i;
                assert(rest[j] == open_loops[j]);
            } else {
                let t = instrs[i]->JumpIfZero_0 as int;
                assert(instrs[t] is JumpIfNotZero);
                assert(after[t] == instrs[t]);
            }
        }
    }
    assert forall|i: int| 0 <= i < after.len() && (#[trigger] after[i]) is JumpIfNotZero implies {
        let t = after[i]->JumpIfNotZero_0 as int;
        &&& 0 <= t < i
        &&& after[t] == Instruction::JumpIfZero(i as usize)
        &&& !is_open(rest, t)
    } by {
        let t = after[i]->JumpIfNotZero_0 as int;
        if i == len {
            if is_open(rest, t) {
                let j = choose|j: int| 0 <= j < rest.len() && (#[trigger] rest[j]).0 == t;
                assert(rest[j] == open_loops[j]);
                assert(open_loops[j].0 < open_loops[open_loops.len() - 1].0);
            }
        } else {
            assert(after[i] == instrs[i]);
            assert(!is_open(open_loops, t));
            assert(t != head) by {
                assert(open_loops[open_loops.len() - 1].0 == head);
            }
            assert(after[t] == instrs[t]);
            if is_open(rest, t) {
                let j = choose|j: int| 0 <= j < rest.len() && (#[trigger] rest[j]).0 == t;
                assert(rest[j] == open_loops[j]);
            }
        }
    }
    assert forall|k: int| 0 <= k <= after.len() implies tails_before(after, k)
        <= #[trigger] heads_before(after, k) by {
        if k <= len {
            lemma_counts_agree(instrs, after, k);
            assert(heads_before(instrs, k) >= tails_before(instrs, k));
        } else {
            lemma_counts_agree(instrs, after, len);
        }
    }
    lemma_counts_agree(instrs, after, len);
}

/// Closing the innermost open loop, by a rewrite or by a `JumpIfNotZero`,
/// keeps the shape.
pub(crate) proof fn lemma_shape_close_loop(
    instrs: Seq<Instruction>,
    open_loops: Seq<OpenLoop>,
    opts: OptimizationOptions,
)
    requires
        shape(instrs, open_loops),
        open_loops.len() > 0,
        instrs.len() < usize::MAX,
    ensures
        shape(close_loop(instrs, open_loops.last().0, opts), open_loops.drop_last()),
{
    let len = instrs.len() as int;
    if opts.clear && clear_matches(instrs) {
        lemma_shape_fuse(instrs, open_loops, len - 2, Instruction::Clear);
    } else if opts.multiply && multiply_matches(instrs) {
        lemma_shape_fuse(
            instrs,
            open_loops,
            len - 5,
            Instruction::Multiply(instrs[len - 3]->Move_0, instrs[len - 2]->Add_0),
        );
    } else if opts.move_until_zero && move_until_zero_matches(instrs) {
        lemma_shape_fuse(
            instrs,
            open_loops,
            len - 2,
            Instruction::MoveUntilZero(instrs[len - 1]->Move_0),
        );
    } else {
        lemma_shape_close(instrs, open_loops);
    }
}

/// Reading on from a state of the right shape gives, if it gives a program,
/// one whose loops are paired and nested.
pub(crate) proof fn lemma_parse_from_pairs(
    bytes: Seq<u8>,
    opts: OptimizationOptions,
    pos: int,
    instrs: Seq<Instruction>,
    open_loops: Seq<OpenLoop>,
)
    requires
        bytes.len() <= usize::MAX,
        0 <= pos <= bytes.len(),
        instrs.len() <= pos,
        shape(instrs, open_loops),
    ensures
        parse_from(bytes, opts, pos, instrs, open_loops) matches Ok(ir) ==> targets_mutual(ir)
            && loops_nested(ir) && ir.len() <= usize::MAX,
    decreases bytes.len() - pos,
{
    if pos >= bytes.len() {
        if open_loops.len() == 0 {
            assert forall|i: int| 0 <= i < instrs.len() implies !is_open(open_loops, i) by {}
        }
    } else {
        let b = bytes[pos];
        lemma_add_run_end_bounds(bytes, pos + 1);
        lemma_move_run_end_bounds(bytes, pos + 1);
        if (b == PLUS || b == MINUS) && opts.contract {
            let first: u8 = if b == PLUS {
                1
            } else {
                255
            };
            let instruction = Instruction::Add(add_run_sum(bytes, pos + 1, first));
            lemma_shape_emit(instrs, open_loops, instruction);
            lemma_parse_from_pairs(
                bytes,
                opts,
                add_run_end(bytes, pos + 1),
                emit(instrs, instruction),
                open_loops,
            );
        } else if (b == RIGHT || b == LEFT) && opts.contract {
            let first: isize = if b == RIGHT {
                1
            } else {
                -1isize
            };
            let instruction = Instruction::Move(move_run_sum(bytes, pos + 1, first));
            lemma_shape_emit(instrs, open_loops, instruction);
            lemma_parse_from_pairs(
                bytes,
                opts,
                move_run_end(bytes, pos + 1),
                emit(instrs, instruction),
                open_loops,
            );
        } else if b == PLUS || b == MINUS || b == RIGHT || b == LEFT || b == COMMA || b == DOT {
            let instruction = if b == PLUS {
                Instruction::Add(1)
            } else if b == MINUS {
                Instruction::Add(255)
            } else if b == RIGHT {
                Instruction::Move(1)
            } else if b == LEFT {
                Instruction::Move(-1isize)
            } else if b == COMMA {
                Instruction::In
            } else {
                Instruction::Out
            };
            lemma_shape_push_plain(instrs, open_loops, instruction);
            lemma_parse_from_pairs(bytes, opts, pos + 1, instrs.push(instruction), open_loops);
        } else if b == OPEN {
            lemma_shape_open(instrs, open_loops, pos as usize);
            lemma_parse_from_pairs(
                bytes,
                opts,
                pos + 1,
                instrs.push(Instruction::JumpIfZero(0)),
                open_loops.push((instrs.len() as usize, pos as usize)),
            );
        } else if b == CLOSE {
            if open_loops.len() > 0 {
                lemma_shape_close_loop(instrs, open_loops, opts);
                let closed = close_loop(instrs, open_loops.last().0, opts);
                assert(closed.len() <= instrs.len() + 1);
                lemma_parse_from_pairs(bytes, opts, pos + 1, closed, open_loops.drop_last());
            }
        } else {
            lemma_parse_from_pairs(bytes, opts, pos + 1, instrs, open_loops);
        }
    }
}

/// In every program that parsing gives, each `JumpIfZero` and its
/// `JumpIfNotZero` hold each other's index, there are as many of one as of
/// the other, and loops nest.
pub proof fn lemma_parsed_loops_pair(bytes: Seq<u8>, opts: OptimizationOptions)
    requires
        bytes.len() <= usize::MAX,
    ensures
        parse_spec(bytes, opts) matches Ok(ir) ==> {
            &&& targets_mutual(ir)
            &&& count_jump_if_zero(ir) == count_jump_if_not_zero(ir)
            &&& loops_nested(ir)
            &&& ir.len() <= usize::MAX
        },
{
    let none = Seq::<Instruction>::empty();
    let open_loops = Seq::<OpenLoop>::empty();
    assert(shape(none, open_loops));
    lemma_parse_from_pairs(bytes, opts, 0, none, open_loops);
}

/// What is wrong with the loops of a program that does not come from the
/// parser.
#[derive(Debug, Clone, Copy, PartialEq, Eq, Structural)]
pub enum LoopError {
    /// The `JumpIfNotZero` at this index has no loop open before it.
    EndWithoutHead(usize),
    /// A `JumpIfZero` is never followed by its `JumpIfNotZero`.
    HeadWithoutEnd,
}

/// The first index among the first `k` instructions at which more loops
/// have ended than have begun, if there is one.
pub open spec fn first_end_without_head(ir: Seq<Instruction>, k: int) -> Option<int>
    decreases k,
{
    if k <= 0 {
        None
    } else {
        match first_end_without_head(ir, k - 1) {
            Some(i) => Some(i),
            None => if tails_before(ir, k) > heads_before(ir, k) {
                Some(k - 1)
            } else {
                None
            },
        }
    }
}

/// Whether the loops of a program nest, and if not, what is wrong first.
pub open spec fn check_loops(ir: Seq<Instruction>) -> Result<(), LoopError> {
    match first_end_without_head(ir, ir.len() as int) {
        Some(i) => Err(LoopError::EndWithoutHead(i as usize)),
        None => if count_jump_if_zero(ir) > count_jump_if_not_zero(ir) {
            Err(LoopError::HeadWithoutEnd)
        } else {
            Ok(())
        },
    }
}

/// No loop ends without a head among the first `k` instructions exactly if
/// no prefix of them has more loop ends than loop heads.
pub(crate) proof fn lemma_first_end_without_head(ir: Seq<Instruction>, k: int)
    ensures
        first_end_without_head(ir, k) is None <==> (forall|j: int|
            0 <= j <= k ==> tails_before(ir, j) <= #[trigger] heads_before(ir, j)),
        first_end_without_head(ir, k) matches Some(i) ==> 0 <= i < k,
    decreases k,
{
    if k > 0 {
        lemma_first_end_without_head(ir, k - 1);
        if first_end_without_head(ir, k - 1) is None {
            if tails_before(ir, k) <= heads_before(ir, k) {
                assert forall|j: int| 0 <= j <= k implies tails_before(ir, j)
                    <= #[trigger] heads_before(ir, j) by {
                    if j < k {
                        assert(tails_before(ir, j) <= heads_before(ir, j));
                    }
                }
            }
        } else {
            let j = choose|j: int|
                0 <= j <= k - 1 && !(tails_before(ir, j) <= #[trigger] heads_before(ir, j));
            assert(tails_before(ir, j) > heads_before(ir, j));
        }
    }
}

/// What is found among the first `k` instructions is found among more of
/// them.
pub(crate) proof fn lemma_first_end_without_head_stays(ir: Seq<Instruction>, k: int, more: int)
    requires
        k <= more,
        first_end_without_head(ir, k) is Some,
    ensures
        first_end_without_head(ir, more) == first_end_without_head(ir, k),
    decreases more - k,
{
    if k < more {
        lemma_first_end_without_head_stays(ir, k, more - 1);
    }
}

/// The check passes exactly on the programs whose loops nest.
pub proof fn lemma_check_loops(ir: Seq<Instruction>)
    ensures
        check_loops(ir) is Ok <==> loops_nested(ir),
{
    lemma_first_end_without_head(ir, ir.len() as int);
    if first_end_without_head(ir, ir.len() as int) is None {
        assert(tails_before(ir, ir.len() as int) <= heads_before(ir, ir.len() as int));
    }
}

/// Every program that parsing gives passes the check, so that the
/// backends lower it.
pub proof fn lemma_parsed_programs_pass(bytes: Seq<u8>, opts: OptimizationOptions)
    requires
        bytes.len() <= usize::MAX,
    ensures
        parse_spec(bytes, opts) matches Ok(ir) ==> check_loops(ir) is Ok,
{
    lemma_parsed_loops_pair(bytes, opts);
    if parse_spec(bytes, opts) is Ok {
        lemma_check_loops(parse_spec(bytes, opts)->Ok_0);
    }
}

} // verus!
