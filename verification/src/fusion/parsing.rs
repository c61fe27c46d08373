//! Parsing a text with rewrites and without gives the same error, or two
//! programs of which the first lies in the second.

use vstd::prelude::*;
use crate::parser::error::UnbalancedBrackets;
use crate::parser::grammar::{
    add_run_end,
    add_run_sum,
    clear_matches,
    close_loop,
    emit,
    move_run_end,
    move_run_sum,
    move_until_zero_matches,
    multiply_matches,
    parse_from,
    parse_spec,
    OpenLoop,
    CLOSE,
    COMMA,
    DOT,
    LEFT,
    MINUS,
    OPEN,
    PLUS,
    RIGHT,
};
use crate::parser::instruction::Instruction;
use crate::parser::opt::OptimizationOptions;
use crate::parser::pairing::{
    lemma_shape_close_loop, lemma_shape_emit, lemma_shape_open, lemma_shape_push_plain,
    lemma_tail_head_is_innermost, shape,
};
use super::keeping::{
    lemma_keep_close, lemma_keep_fuse, lemma_keep_nothing, lemma_keep_plain, lemma_keep_single,
    lemma_shape_append,
};
use super::layout::{body_model, lies_in, Layout};
use super::straight::{
    acts_like, lemma_acts_like_concat, lemma_acts_like_other, lemma_acts_like_self,
    lemma_merge_adds, lemma_merge_moves, lemma_zero_is_nothing,
};
use super::units::{
    ends_both, lemma_add_run_sum_from, lemma_add_run_units, lemma_move_net_bounds,
    lemma_move_run_sum_exact, lemma_move_run_units, lemma_plain_parse_units,
    lemma_units_straight, move_net, plainly, unit_of, units,
};

verus! {

/// The two parses fail alike, or both succeed and the first program lies
/// in the second as the layout says.
pub open spec fn same_outcome(
    with_rewrites: Result<Seq<Instruction>, UnbalancedBrackets>,
    without: Result<Seq<Instruction>, UnbalancedBrackets>,
    layout: Layout,
) -> bool {
    match (with_rewrites, without) {
        (Ok(fused), Ok(plain)) => lies_in(
            fused,
            Seq::<OpenLoop>::empty(),
            plain,
            Seq::<OpenLoop>::empty(),
            layout,
        ),
        (Err(a), Err(b)) => a == b,
        _ => false,
    }
}

/// Reading a run of `+` and `-` with folding and without.
proof fn lemma_read_add_run(
    bytes: Seq<u8>,
    pos: int,
    fused: Seq<Instruction>,
    open_loops: Seq<OpenLoop>,
    plain: Seq<Instruction>,
    plain_open_loops: Seq<OpenLoop>,
    layout: Layout,
) -> (found: (Layout, Seq<Instruction>))
    requires
        bytes.len() <= isize::MAX,
        0 <= pos < bytes.len(),
        bytes[pos] == PLUS || bytes[pos] == MINUS,
        fused.len() <= pos,
        plain.len() <= pos,
        shape(fused, open_loops),
        shape(plain, plain_open_loops),
        lies_in(fused, open_loops, plain, plain_open_loops, layout),
    ensures
        ({
            let first: u8 = if bytes[pos] == PLUS {
                1
            } else {
                255
            };
            let end = add_run_end(bytes, pos + 1);
            let amount = add_run_sum(bytes, pos + 1, first);
            let fused2 = emit(fused, Instruction::Add(amount));
            let plain2 = found.1;
            &&& pos < end <= bytes.len()
            &&& parse_from(bytes, plainly(), pos, plain, plain_open_loops) == parse_from(
                bytes,
                plainly(),
                end,
                plain2,
                plain_open_loops,
            )
            &&& fused2.len() <= end
            &&& plain2.len() <= end
            &&& shape(fused2, open_loops)
            &&& shape(plain2, plain_open_loops)
            &&& lies_in(fused2, open_loops, plain2, plain_open_loops, found.0)
        }),
{
    let b = bytes[pos];
    let first: u8 = if b == PLUS {
        1
    } else {
        255
    };
    let end = add_run_end(bytes, pos + 1);
    let amount = add_run_sum(bytes, pos + 1, first);
    let sum = add_run_sum(bytes, pos + 1, 0);
    lemma_add_run_units(bytes, pos + 1);
    lemma_add_run_sum_from(bytes, pos + 1, first);
    let extra = units(bytes, pos, end);
    let rest = units(bytes, pos + 1, end);
    let unit = seq![Instruction::Add(first)];
    assert(unit_of(b) =~= unit);
    assert(extra =~= unit + rest);
    assert forall|j: int| pos <= j < end implies !ends_both(#[trigger] bytes[j]) by {}
    lemma_plain_parse_units(bytes, pos, end, plain, plain_open_loops);
    lemma_units_straight(bytes, pos, end);
    lemma_acts_like_self(Instruction::Add(first));
    lemma_acts_like_concat(unit, unit, rest, seq![Instruction::Add(sum)]);
    assert(unit + seq![Instruction::Add(sum)] =~= seq![
        Instruction::Add(first),
        Instruction::Add(sum),
    ]);
    lemma_merge_adds(first, sum);
    lemma_acts_like_other(
        extra,
        seq![Instruction::Add(first), Instruction::Add(sum)],
        seq![Instruction::Add(amount)],
    );
    let plain2 = plain + extra;
    lemma_shape_append(plain, plain_open_loops, extra, extra.len() as int);
    assert(extra.take(extra.len() as int) =~= extra);
    lemma_shape_emit(fused, open_loops, Instruction::Add(amount));
    if amount == 0 {
        lemma_zero_is_nothing();
        lemma_acts_like_other(extra, seq![Instruction::Add(0)], Seq::empty());
        lemma_keep_nothing(fused, open_loops, plain, plain_open_loops, layout, extra);
        (layout, plain2)
    } else {
        let layout2 = lemma_keep_plain(
            fused,
            open_loops,
            plain,
            plain_open_loops,
            layout,
            Instruction::Add(amount),
            extra,
        );
        (layout2, plain2)
    }
}

/// Reading a run of `>` and `<` with folding and without.
proof fn lemma_read_move_run(
    bytes: Seq<u8>,
    pos: int,
    fused: Seq<Instruction>,
    open_loops: Seq<OpenLoop>,
    plain: Seq<Instruction>,
    plain_open_loops: Seq<OpenLoop>,
    layout: Layout,
) -> (found: (Layout, Seq<Instruction>))
    requires
        bytes.len() <= isize::MAX,
        0 <= pos < bytes.len(),
        bytes[pos] == RIGHT || bytes[pos] == LEFT,
        fused.len() <= pos,
        plain.len() <= pos,
        shape(fused, open_loops),
        shape(plain, plain_open_loops),
        lies_in(fused, open_loops, plain, plain_open_loops, layout),
    ensures
        ({
            let first: isize = if bytes[pos] == RIGHT {
                1
            } else {
                -1isize
            };
            let end = move_run_end(bytes, pos + 1);
            let amount = move_run_sum(bytes, pos + 1, first);
            let fused2 = emit(fused, Instruction::Move(amount));
            let plain2 = found.1;
            &&& pos < end <= bytes.len()
            &&& parse_from(bytes, plainly(), pos, plain, plain_open_loops) == parse_from(
                bytes,
                plainly(),
                end,
                plain2,
                plain_open_loops,
            )
            &&& fused2.len() <= end
            &&& plain2.len() <= end
            &&& shape(fused2, open_loops)
            &&& shape(plain2, plain_open_loops)
            &&& lies_in(fused2, open_loops, plain2, plain_open_loops, found.0)
        }),
{
    let b = bytes[pos];
    let first: isize = if b == RIGHT {
        1
    } else {
        -1isize
    };
    let end = move_run_end(bytes, pos + 1);
    let amount = move_run_sum(bytes, pos + 1, first);
    let net = move_net(bytes, pos + 1) as isize;
    lemma_move_run_units(bytes, pos + 1);
    lemma_move_net_bounds(bytes, pos + 1);
    lemma_move_run_sum_exact(bytes, pos + 1, first);
    let extra = units(bytes, pos, end);
    let rest = units(bytes, pos + 1, end);
    let unit = seq![Instruction::Move(first)];
    assert(unit_of(b) =~= unit);
    assert(extra =~= unit + rest);
    assert forall|j: int| pos <= j < end implies !ends_both(#[trigger] bytes[j]) by {}
    lemma_plain_parse_units(bytes, pos, end, plain, plain_open_loops);
    lemma_units_straight(bytes, pos, end);
    lemma_acts_like_self(Instruction::Move(first));
    lemma_acts_like_concat(unit, unit, rest, seq![Instruction::Move(net)]);
    assert(unit + seq![Instruction::Move(net)] =~= seq![
        Instruction::Move(first),
        Instruction::Move(net),
    ]);
    lemma_merge_moves(first, net);
    lemma_acts_like_other(
        extra,
        seq![Instruction::Move(first), Instruction::Move(net)],
        seq![Instruction::Move(amount)],
    );
    let plain2 = plain + extra;
    lemma_shape_append(plain, plain_open_loops, extra, extra.len() as int);
    assert(extra.take(extra.len() as int) =~= extra);
    lemma_shape_emit(fused, open_loops, Instruction::Move(amount));
    if amount == 0 {
        lemma_zero_is_nothing();
        lemma_acts_like_other(extra, seq![Instruction::Move(0)], Seq::empty());
        lemma_keep_nothing(fused, open_loops, plain, plain_open_loops, layout, extra);
        (layout, plain2)
    } else {
        let layout2 = lemma_keep_plain(
            fused,
            open_loops,
            plain,
            plain_open_loops,
            layout,
            Instruction::Move(amount),
            extra,
        );
        (layout2, plain2)
    }
}

/// Closing a loop with rewrites and without keeps the shape of both
/// programs.
proof fn lemma_read_close_shapes(
    opts: OptimizationOptions,
    fused: Seq<Instruction>,
    open_loops: Seq<OpenLoop>,
    plain: Seq<Instruction>,
    plain_open_loops: Seq<OpenLoop>,
)
    requires
        open_loops.len() > 0,
        plain_open_loops.len() > 0,
        fused.len() < usize::MAX,
        plain.len() < usize::MAX,
        shape(fused, open_loops),
        shape(plain, plain_open_loops),
    ensures
        shape(close_loop(fused, open_loops.last().0, opts), open_loops.drop_last()),
        shape(close_loop(plain, plain_open_loops.last().0, plainly()), plain_open_loops.drop_last()),
        close_loop(fused, open_loops.last().0, opts).len() <= fused.len() + 1,
        close_loop(plain, plain_open_loops.last().0, plainly()).len() == plain.len() + 1,
{
    lemma_shape_close_loop(fused, open_loops, opts);
    lemma_shape_close_loop(plain, plain_open_loops, plainly());
}

/// Closing a loop by a rewrite in one program and by a `JumpIfNotZero` in
/// the other.
proof fn lemma_read_close_fused(
    opts: OptimizationOptions,
    fused: Seq<Instruction>,
    open_loops: Seq<OpenLoop>,
    plain: Seq<Instruction>,
    plain_open_loops: Seq<OpenLoop>,
    layout: Layout,
) -> (layout2: Layout)
    requires
        open_loops.len() > 0,
        fused.len() < usize::MAX,
        plain.len() < usize::MAX,
        shape(fused, open_loops),
        lies_in(fused, open_loops, plain, plain_open_loops, layout),
        (opts.clear && clear_matches(fused)) || (opts.multiply && multiply_matches(fused)) || (
        opts.move_until_zero && move_until_zero_matches(fused)),
    ensures
        lies_in(
            close_loop(fused, open_loops.last().0, opts),
            open_loops.drop_last(),
            plain.update(
                plain_open_loops.last().0 as int,
                Instruction::JumpIfZero(plain.len() as usize),
            ).push(Instruction::JumpIfNotZero(plain_open_loops.last().0)),
            plain_open_loops.drop_last(),
            layout2,
        ),
{
    let len = fused.len() as int;
    if opts.clear && clear_matches(fused) {
        lemma_tail_head_is_innermost(fused, open_loops, len - 2);
        let amount = fused[len - 1]->Add_0;
        assert(fused.subrange(len - 1, len) =~= body_model(Instruction::Clear, amount));
        lemma_keep_fuse(fused, open_loops, plain, plain_open_loops, layout, Instruction::Clear)
    } else if opts.multiply && multiply_matches(fused) {
        lemma_tail_head_is_innermost(fused, open_loops, len - 5);
        let instruction = Instruction::Multiply(fused[len - 3]->Move_0, fused[len - 2]->Add_0);
        assert(fused.subrange(len - 4, len) =~= body_model(instruction, 0));
        lemma_keep_fuse(fused, open_loops, plain, plain_open_loops, layout, instruction)
    } else {
        lemma_tail_head_is_innermost(fused, open_loops, len - 2);
        let instruction = Instruction::MoveUntilZero(fused[len - 1]->Move_0);
        assert(fused.subrange(len - 1, len) =~= body_model(instruction, 0));
        lemma_keep_fuse(fused, open_loops, plain, plain_open_loops, layout, instruction)
    }
}

/// Closing a loop with rewrites and without.
proof fn lemma_read_close(
    opts: OptimizationOptions,
    fused: Seq<Instruction>,
    open_loops: Seq<OpenLoop>,
    plain: Seq<Instruction>,
    plain_open_loops: Seq<OpenLoop>,
    layout: Layout,
) -> (layout2: Layout)
    requires
        open_loops.len() > 0,
        fused.len() < usize::MAX,
        plain.len() < usize::MAX,
        shape(fused, open_loops),
        shape(plain, plain_open_loops),
        lies_in(fused, open_loops, plain, plain_open_loops, layout),
    ensures
        lies_in(
            close_loop(fused, open_loops.last().0, opts),
            open_loops.drop_last(),
            close_loop(plain, plain_open_loops.last().0, plainly()),
            plain_open_loops.drop_last(),
            layout2,
        ),
        shape(close_loop(fused, open_loops.last().0, opts), open_loops.drop_last()),
        shape(close_loop(plain, plain_open_loops.last().0, plainly()), plain_open_loops.drop_last()),
        close_loop(fused, open_loops.last().0, opts).len() <= fused.len() + 1,
        close_loop(plain, plain_open_loops.last().0, plainly()).len() == plain.len() + 1,
{
    lemma_read_close_shapes(opts, fused, open_loops, plain, plain_open_loops);
    if (opts.clear && clear_matches(fused)) || (opts.multiply && multiply_matches(fused)) || (
    opts.move_until_zero && move_until_zero_matches(fused)) {
        lemma_read_close_fused(opts, fused, open_loops, plain, plain_open_loops, layout)
    } else {
        lemma_keep_close(fused, open_loops, plain, plain_open_loops, layout)
    }
}

/// Reading on from the same position with rewrites and without, from
/// states of which the first lies in the second.
pub(crate) proof fn lemma_parse_from_lies_in(
    bytes: Seq<u8>,
    opts: OptimizationOptions,
    pos: int,
    fused: Seq<Instruction>,
    open_loops: Seq<OpenLoop>,
    plain: Seq<Instruction>,
    plain_open_loops: Seq<OpenLoop>,
    layout: Layout,
) -> (found: Layout)
    requires
        bytes.len() <= isize::MAX,
        0 <= pos <= bytes.len(),
        fused.len() <= pos,
        plain.len() <= pos,
        shape(fused, open_loops),
        shape(plain, plain_open_loops),
        lies_in(fused, open_loops, plain, plain_open_loops, layout),
    ensures
        same_outcome(
            parse_from(bytes, opts, pos, fused, open_loops),
            parse_from(bytes, plainly(), pos, plain, plain_open_loops),
            found,
        ),
    decreases bytes.len() - pos,
{
    if pos >= bytes.len() {
        if open_loops.len() == 0 {
            assert(open_loops =~= Seq::<OpenLoop>::empty());
            assert(plain_open_loops =~= Seq::<OpenLoop>::empty());
        } else {
            assert(plain_open_loops[0].1 == open_loops[0].1);
        }
        return layout;
    }
    let b = bytes[pos];
    if (b == PLUS || b == MINUS) && opts.contract {
        let first: u8 = if b == PLUS {
            1
        } else {
            255
        };
        let found = lemma_read_add_run(
            bytes,
            pos,
            fused,
            open_loops,
            plain,
            plain_open_loops,
            layout,
        );
        lemma_parse_from_lies_in(
            bytes,
            opts,
            add_run_end(bytes, pos + 1),
            emit(fused, Instruction::Add(add_run_sum(bytes, pos + 1, first))),
            open_loops,
            found.1,
            plain_open_loops,
            found.0,
        )
    } else if (b == RIGHT || b == LEFT) && opts.contract {
        let first: isize = if b == RIGHT {
            1
        } else {
            -1isize
        };
        let found = lemma_read_move_run(
            bytes,
            pos,
            fused,
            open_loops,
            plain,
            plain_open_loops,
            layout,
        );
        lemma_parse_from_lies_in(
            bytes,
            opts,
            move_run_end(bytes, pos + 1),
            emit(fused, Instruction::Move(move_run_sum(bytes, pos + 1, first))),
            open_loops,
            found.1,
            plain_open_loops,
            found.0,
        )
    } else if b == PLUS || b == MINUS || b == RIGHT || b == LEFT {
        let instruction = if b == PLUS {
            Instruction::Add(1)
        } else if b == MINUS {
            Instruction::Add(255)
        } else if b == RIGHT {
            Instruction::Move(1)
        } else {
            Instruction::Move(-1isize)
        };
        lemma_acts_like_self(instruction);
        let layout2 = lemma_keep_plain(
            fused,
            open_loops,
            plain,
            plain_open_loops,
            layout,
            instruction,
            seq![instruction],
        );
        assert(plain + seq![instruction] =~= plain.push(instruction));
        lemma_shape_push_plain(fused, open_loops, instruction);
        lemma_shape_push_plain(plain, plain_open_loops, instruction);
        lemma_parse_from_lies_in(
            bytes,
            opts,
            pos + 1,
            fused.push(instruction),
            open_loops,
            plain.push(instruction),
            plain_open_loops,
            layout2,
        )
    } else if b == COMMA || b == DOT {
        let instruction = if b == COMMA {
            Instruction::In
        } else {
            Instruction::Out
        };
        let layout2 = lemma_keep_single(
            fused,
            open_loops,
            plain,
            plain_open_loops,
            layout,
            instruction,
            0,
        );
        lemma_shape_push_plain(fused, open_loops, instruction);
        lemma_shape_push_plain(plain, plain_open_loops, instruction);
        lemma_parse_from_lies_in(
            bytes,
            opts,
            pos + 1,
            fused.push(instruction),
            open_loops,
            plain.push(instruction),
            plain_open_loops,
            layout2,
        )
    } else if b == OPEN {
        let instruction = Instruction::JumpIfZero(0);
        let layout2 = lemma_keep_single(
            fused,
            open_loops,
            plain,
            plain_open_loops,
            layout,
            instruction,
            pos as usize,
        );
        lemma_shape_open(fused, open_loops, pos as usize);
        lemma_shape_open(plain, plain_open_loops, pos as usize);
        lemma_parse_from_lies_in(
            bytes,
            opts,
            pos + 1,
            fused.push(instruction),
            open_loops.push((fused.len() as usize, pos as usize)),
            plain.push(instruction),
            plain_open_loops.push((plain.len() as usize, pos as usize)),
            layout2,
        )
    } else if b == CLOSE {
        if open_loops.len() == 0 {
            layout
        } else {
            let layout2 = lemma_read_close(
                opts,
                fused,
                open_loops,
                plain,
                plain_open_loops,
                layout,
            );
            lemma_parse_from_lies_in(
                bytes,
                opts,
                pos + 1,
                close_loop(fused, open_loops.last().0, opts),
                open_loops.drop_last(),
                close_loop(plain, plain_open_loops.last().0, plainly()),
                plain_open_loops.drop_last(),
                layout2,
            )
        }
    } else {
        lemma_parse_from_lies_in(
            bytes,
            opts,
            pos + 1,
            fused,
            open_loops,
            plain,
            plain_open_loops,
            layout,
        )
    }
}

/// Parsing a text with any choice of rewrites and parsing it without fail
/// with the same error, or give two programs of which the first lies in
/// the second.
pub(crate) proof fn lemma_parse_lies_in(bytes: Seq<u8>, opts: OptimizationOptions) -> (found: Layout)
    requires
        bytes.len() <= isize::MAX,
    ensures
        same_outcome(parse_spec(bytes, opts), parse_spec(bytes, plainly()), found),
{
    let none = Seq::<Instruction>::empty();
    let open_loops = Seq::<OpenLoop>::empty();
    let layout = Layout { starts: seq![0int], heads: Seq::empty() };
    assert(shape(none, open_loops));
    assert(none.subrange(0, 0) =~= none);
    assert(acts_like(none, none));
    assert(lies_in(none, open_loops, none, open_loops, layout));
    lemma_parse_from_lies_in(bytes, opts, 0, none, open_loops, none, open_loops, layout)
}

} // verus!
