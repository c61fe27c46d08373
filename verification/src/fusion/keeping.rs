//! Each step of the parser keeps the program with rewrites lying in the
//! plain program.

use vstd::prelude::*;
use crate::parser::grammar::OpenLoop;
use crate::parser::heads_in_place;
use crate::parser::instruction::Instruction;
use crate::parser::pairing::{is_open, lemma_shape_push_plain, shape};
use super::layout::{body_fits, body_model, lies_in, stretch_fits, Layout};
use super::straight::{acts_as_nothing, acts_like, is_plain, lemma_acts_like_concat, straight};

verus! {

/// Stretches follow each other, and none is empty.
pub(crate) proof fn lemma_starts_grow(
    fused: Seq<Instruction>,
    open_loops: Seq<OpenLoop>,
    plain: Seq<Instruction>,
    layout: Layout,
    i: int,
    j: int,
)
    requires
        forall|k: int|
            0 <= k < fused.len() ==> #[trigger] stretch_fits(fused, open_loops, plain, layout, k),
        0 <= i <= j <= fused.len(),
    ensures
        layout.starts[i] + (j - i) <= layout.starts[j],
    decreases j - i,
{
    if i < j {
        lemma_starts_grow(fused, open_loops, plain, layout, i, j - 1);
        assert(stretch_fits(fused, open_loops, plain, layout, j - 1));
    }
}

/// A stretch that is left alone still fits.
pub(crate) proof fn lemma_stretch_kept(
    fused: Seq<Instruction>,
    open_loops: Seq<OpenLoop>,
    plain: Seq<Instruction>,
    layout: Layout,
    fused2: Seq<Instruction>,
    open_loops2: Seq<OpenLoop>,
    plain2: Seq<Instruction>,
    layout2: Layout,
    i: int,
)
    requires
        0 <= i < fused.len(),
        i < fused2.len(),
        stretch_fits(fused, open_loops, plain, layout, i),
        fused2[i] == fused[i],
        layout2.starts[i] == layout.starts[i],
        layout2.starts[i + 1] == layout.starts[i + 1],
        layout2.heads[i] == layout.heads[i],
        layout.starts[i + 1] <= plain2.len(),
        forall|k: int| layout.starts[i] <= k < layout.starts[i + 1] ==> plain2[k] == plain[k],
        is_open(open_loops, i) ==> is_open(open_loops2, i),
        fused[i] is JumpIfZero && !is_open(open_loops, i) ==> fused[i]->JumpIfZero_0
            < fused2.len() && layout2.starts[fused[i]->JumpIfZero_0 + 1]
            == layout.starts[fused[i]->JumpIfZero_0 + 1],
        fused[i] is JumpIfNotZero ==> layout2.starts[fused[i]->JumpIfNotZero_0 + 1]
            == layout.starts[fused[i]->JumpIfNotZero_0 + 1],
    ensures
        stretch_fits(fused2, open_loops2, plain2, layout2, i),
{
    let from = layout.starts[i];
    let last = layout.last_of(i);
    let head = layout.heads[i];
    assert(plain2.subrange(from, last + 1) =~= plain.subrange(from, last + 1));
    assert(plain2.subrange(from, last) =~= plain.subrange(from, last));
    if from <= head < last {
        assert(plain2.subrange(from, head) =~= plain.subrange(from, head));
        assert(plain2.subrange(head + 1, last) =~= plain.subrange(head + 1, last));
    }
}

/// Appending straight code to a program keeps its shape.
pub(crate) proof fn lemma_shape_append(
    instrs: Seq<Instruction>,
    open_loops: Seq<OpenLoop>,
    extra: Seq<Instruction>,
    k: int,
)
    requires
        shape(instrs, open_loops),
        straight(extra),
        0 <= k <= extra.len(),
        instrs.len() + extra.len() <= usize::MAX,
    ensures
        shape(instrs + extra.take(k), open_loops),
    decreases k,
{
    if k == 0 {
        assert(instrs + extra.take(0) =~= instrs);
    } else {
        lemma_shape_append(instrs, open_loops, extra, k - 1);
        assert(is_plain(extra[k - 1]));
        lemma_shape_push_plain(instrs + extra.take(k - 1), open_loops, extra[k - 1]);
        assert((instrs + extra.take(k - 1)).push(extra[k - 1]) =~= instrs + extra.take(k));
    }
}

/// Straight code that does nothing, appended to the plain program, leaves
/// the program with rewrites lying in it.
pub(crate) proof fn lemma_keep_nothing(
    fused: Seq<Instruction>,
    open_loops: Seq<OpenLoop>,
    plain: Seq<Instruction>,
    plain_open_loops: Seq<OpenLoop>,
    layout: Layout,
    extra: Seq<Instruction>,
)
    requires
        lies_in(fused, open_loops, plain, plain_open_loops, layout),
        acts_as_nothing(extra),
        plain.len() + extra.len() <= usize::MAX,
    ensures
        lies_in(fused, open_loops, plain + extra, plain_open_loops, layout),
{
    let plain2 = plain + extra;
    let end = layout.starts[fused.len() as int];
    lemma_starts_grow(fused, open_loops, plain, layout, 0, fused.len() as int);
    assert forall|i: int| 0 <= i < fused.len() implies #[trigger] stretch_fits(
        fused,
        open_loops,
        plain2,
        layout,
        i,
    ) by {
        assert(stretch_fits(fused, open_loops, plain, layout, i));
        lemma_stretch_kept(fused, open_loops, plain, layout, fused, open_loops, plain2, layout, i);
    }
    lemma_acts_like_concat(
        plain.subrange(end, plain.len() as int),
        Seq::empty(),
        extra,
        Seq::empty(),
    );
    assert(plain2.subrange(end, plain2.len() as int) =~= plain.subrange(end, plain.len() as int)
        + extra);
    assert(Seq::<Instruction>::empty() + Seq::<Instruction>::empty() =~= Seq::<
        Instruction,
    >::empty());
}

/// One more `Add` or `Move` in the program with rewrites, and straight code
/// that does the same in the plain program.
pub(crate) proof fn lemma_keep_plain(
    fused: Seq<Instruction>,
    open_loops: Seq<OpenLoop>,
    plain: Seq<Instruction>,
    plain_open_loops: Seq<OpenLoop>,
    layout: Layout,
    instruction: Instruction,
    extra: Seq<Instruction>,
) -> (layout2: Layout)
    requires
        lies_in(fused, open_loops, plain, plain_open_loops, layout),
        is_plain(instruction),
        acts_like(extra, seq![instruction]),
        extra.len() >= 1,
        plain.len() + extra.len() <= usize::MAX,
    ensures
        lies_in(fused.push(instruction), open_loops, plain + extra, plain_open_loops, layout2),
{
    let fused2 = fused.push(instruction);
    let plain2 = plain + extra;
    let len = fused.len() as int;
    let end = layout.starts[len];
    let layout2 = Layout {
        starts: layout.starts.push(plain2.len() as int),
        heads: layout.heads.push(0),
    };
    assert forall|i: int| 0 <= i < fused2.len() implies #[trigger] stretch_fits(
        fused2,
        open_loops,
        plain2,
        layout2,
        i,
    ) by {
        if i < len {
            assert(stretch_fits(fused, open_loops, plain, layout, i));
            if fused[i] is JumpIfNotZero {
                let t = fused[i]->JumpIfNotZero_0 as int;
                assert(layout2.starts[t + 1] == layout.starts[t + 1]);
            }
            if fused[i] is JumpIfZero && !is_open(open_loops, i) {
                let t = fused[i]->JumpIfZero_0 as int;
                assert(layout2.starts[t + 1] == layout.starts[t + 1]);
            }
            lemma_stretch_kept(
                fused,
                open_loops,
                plain,
                layout,
                fused2,
                open_loops,
                plain2,
                layout2,
                i,
            );
        } else {
            if len > 0 {
                assert(stretch_fits(fused, open_loops, plain, layout, len - 1));
            }
            lemma_acts_like_concat(
                plain.subrange(end, plain.len() as int),
                Seq::empty(),
                extra,
                seq![instruction],
            );
            assert(plain2.subrange(end, plain2.len() as int) =~= plain.subrange(
                end,
                plain.len() as int,
            ) + extra);
            assert(Seq::<Instruction>::empty() + seq![instruction] =~= seq![instruction]);
        }
    }
    assert(plain2.subrange(plain2.len() as int, plain2.len() as int) =~= Seq::<
        Instruction,
    >::empty());
    assert(acts_as_nothing(Seq::<Instruction>::empty()));
    assert forall|j: int| 0 <= j < open_loops.len() implies {
        &&& 0 <= (#[trigger] open_loops[j]).0 < fused2.len()
        &&& plain_open_loops[j].0 == layout2.last_of(open_loops[j].0 as int)
        &&& plain_open_loops[j].1 == open_loops[j].1
    } by {
        let i = open_loops[j].0 as int;
        assert(layout2.starts[i + 1] == layout.starts[i + 1]);
    }
    layout2
}

/// One more instruction that is the same in both programs: an `In`, an
/// `Out`, or the head of a loop that is then open.
pub(crate) proof fn lemma_keep_single(
    fused: Seq<Instruction>,
    open_loops: Seq<OpenLoop>,
    plain: Seq<Instruction>,
    plain_open_loops: Seq<OpenLoop>,
    layout: Layout,
    instruction: Instruction,
    position: usize,
) -> (layout2: Layout)
    requires
        lies_in(fused, open_loops, plain, plain_open_loops, layout),
        heads_in_place(fused, open_loops),
        instruction is In || instruction is Out || instruction is JumpIfZero,
        plain.len() < usize::MAX,
        fused.len() < usize::MAX,
    ensures
        !(instruction is JumpIfZero) ==> lies_in(
            fused.push(instruction),
            open_loops,
            plain.push(instruction),
            plain_open_loops,
            layout2,
        ),
        instruction is JumpIfZero ==> lies_in(
            fused.push(instruction),
            open_loops.push((fused.len() as usize, position)),
            plain.push(instruction),
            plain_open_loops.push((plain.len() as usize, position)),
            layout2,
        ),
{
    let fused2 = fused.push(instruction);
    let plain2 = plain.push(instruction);
    let len = fused.len() as int;
    let end = layout.starts[len];
    let open2 = if instruction is JumpIfZero {
        open_loops.push((len as usize, position))
    } else {
        open_loops
    };
    let plain_open2 = if instruction is JumpIfZero {
        plain_open_loops.push((plain.len() as usize, position))
    } else {
        plain_open_loops
    };
    let layout2 = Layout {
        starts: layout.starts.push(plain2.len() as int),
        heads: layout.heads.push(0),
    };
    assert forall|i: int| 0 <= i < fused2.len() implies #[trigger] stretch_fits(
        fused2,
        open2,
        plain2,
        layout2,
        i,
    ) by {
        if i < len {
            assert(stretch_fits(fused, open_loops, plain, layout, i));
            if fused[i] is JumpIfNotZero {
                let t = fused[i]->JumpIfNotZero_0 as int;
                assert(layout2.starts[t + 1] == layout.starts[t + 1]);
            }
            if fused[i] is JumpIfZero && !is_open(open_loops, i) {
                let t = fused[i]->JumpIfZero_0 as int;
                assert(layout2.starts[t + 1] == layout.starts[t + 1]);
            }
            if is_open(open_loops, i) {
                let j = choose|j: int|
                    0 <= j < open_loops.len() && (#[trigger] open_loops[j]).0 == i;
                assert(open2[j] == open_loops[j]);
            }
            lemma_stretch_kept(
                fused,
                open_loops,
                plain,
                layout,
                fused2,
                open2,
                plain2,
                layout2,
                i,
            );
        } else {
            if len > 0 {
                assert(stretch_fits(fused, open_loops, plain, layout, len - 1));
            }
            assert(plain2.subrange(end, plain.len() as int) =~= plain.subrange(
                end,
                plain.len() as int,
            ));
            if instruction is JumpIfZero {
                assert(open2[open_loops.len() as int].0 == len);
            }
        }
    }
    assert(plain2.subrange(plain2.len() as int, plain2.len() as int) =~= Seq::<
        Instruction,
    >::empty());
    assert(acts_as_nothing(Seq::<Instruction>::empty()));
    assert forall|j: int| 0 <= j < open2.len() implies {
        &&& 0 <= (#[trigger] open2[j]).0 < fused2.len()
        &&& plain_open2[j].0 == layout2.last_of(open2[j].0 as int)
        &&& plain_open2[j].1 == open2[j].1
    } by {
        if j < open_loops.len() {
            assert(open2[j] == open_loops[j]);
            assert(plain_open2[j] == plain_open_loops[j]);
            let i = open_loops[j].0 as int;
            assert(layout2.starts[i + 1] == layout.starts[i + 1]);
        }
    }
    layout2
}

/// Closing the innermost open loop in both programs by a `JumpIfNotZero`.
pub(crate) proof fn lemma_keep_close(
    fused: Seq<Instruction>,
    open_loops: Seq<OpenLoop>,
    plain: Seq<Instruction>,
    plain_open_loops: Seq<OpenLoop>,
    layout: Layout,
) -> (layout2: Layout)
    requires
        lies_in(fused, open_loops, plain, plain_open_loops, layout),
        shape(fused, open_loops),
        open_loops.len() > 0,
        plain.len() < usize::MAX,
        fused.len() < usize::MAX,
    ensures
        lies_in(
            fused.update(
                open_loops.last().0 as int,
                Instruction::JumpIfZero(fused.len() as usize),
            ).push(Instruction::JumpIfNotZero(open_loops.last().0)),
            open_loops.drop_last(),
            plain.update(
                plain_open_loops.last().0 as int,
                Instruction::JumpIfZero(plain.len() as usize),
            ).push(Instruction::JumpIfNotZero(plain_open_loops.last().0)),
            plain_open_loops.drop_last(),
            layout2,
        ),
{
    let len = fused.len() as int;
    let plain_len = plain.len() as int;
    let top = open_loops.len() - 1;
    let head = open_loops[top].0 as int;
    let plain_head = plain_open_loops[top].0 as int;
    let fused2 = fused.update(head, Instruction::JumpIfZero(len as usize)).push(
        Instruction::JumpIfNotZero(head as usize),
    );
    let plain2 = plain.update(plain_head, Instruction::JumpIfZero(plain_len as usize)).push(
        Instruction::JumpIfNotZero(plain_head as usize),
    );
    let open2 = open_loops.drop_last();
    let plain_open2 = plain_open_loops.drop_last();
    let layout2 = Layout { starts: layout.starts.push(plain_len + 1), heads: layout.heads.push(0) };
    assert(plain_head == layout.last_of(head));
    assert(fused[head] is JumpIfZero);
    assert(stretch_fits(fused, open_loops, plain, layout, head));
    lemma_starts_grow(fused, open_loops, plain, layout, head + 1, len);
    assert forall|i: int| 0 <= i < fused2.len() implies #[trigger] stretch_fits(
        fused2,
        open2,
        plain2,
        layout2,
        i,
    ) by {
        if i < len && i != head {
            assert(stretch_fits(fused, open_loops, plain, layout, i));
            if i < head {
                lemma_starts_grow(fused, open_loops, plain, layout, i + 1, head);
            } else {
                lemma_starts_grow(fused, open_loops, plain, layout, head + 1, i);
            }
            if is_open(open_loops, i) {
                let j = choose|j: int|
                    0 <= j < open_loops.len() && (#[trigger] open_loops[j]).0 == i;
                assert(open2[j] == open_loops[j]);
            }
            lemma_stretch_kept(
                fused,
                open_loops,
                plain,
                layout,
                fused2,
                open2,
                plain2,
                layout2,
                i,
            );
        } else if i == head {
            let from = layout.starts[head];
            assert(plain2.subrange(from, plain_head) =~= plain.subrange(from, plain_head));
        } else {
            let from = layout.starts[len];
            assert(plain2.subrange(from, plain_len) =~= plain.subrange(from, plain_len));
        }
    }
    assert(plain2.subrange(plain2.len() as int, plain2.len() as int) =~= Seq::<
        Instruction,
    >::empty());
    assert(acts_as_nothing(Seq::<Instruction>::empty()));
    assert forall|j: int| 0 <= j < open2.len() implies {
        &&& 0 <= (#[trigger] open2[j]).0 < fused2.len()
        &&& plain_open2[j].0 == layout2.last_of(open2[j].0 as int)
        &&& plain_open2[j].1 == open2[j].1
    } by {
        assert(open2[j] == open_loops[j]);
        assert(plain_open2[j] == plain_open_loops[j]);
    }
    layout2
}

/// The plain code from the start of a stretch to the end of the program
/// does what the instructions from there on do, where those are straight.
pub(crate) proof fn lemma_tail_acts_like(
    fused: Seq<Instruction>,
    open_loops: Seq<OpenLoop>,
    plain: Seq<Instruction>,
    plain_open_loops: Seq<OpenLoop>,
    layout: Layout,
    from: int,
)
    requires
        lies_in(fused, open_loops, plain, plain_open_loops, layout),
        0 <= from <= fused.len(),
        forall|i: int| from <= i < fused.len() ==> is_plain(#[trigger] fused[i]),
    ensures
        acts_like(
            plain.subrange(layout.starts[from], plain.len() as int),
            fused.subrange(from, fused.len() as int),
        ),
    decreases fused.len() - from,
{
    let len = fused.len() as int;
    let plain_len = plain.len() as int;
    lemma_starts_grow(fused, open_loops, plain, layout, 0, from);
    lemma_starts_grow(fused, open_loops, plain, layout, from, len);
    if from == len {
        assert(fused.subrange(from, len) =~= Seq::<Instruction>::empty());
    } else {
        lemma_tail_acts_like(fused, open_loops, plain, plain_open_loops, layout, from + 1);
        assert(stretch_fits(fused, open_loops, plain, layout, from));
        assert(is_plain(fused[from]));
        let here = plain.subrange(layout.starts[from], layout.starts[from + 1]);
        let rest = plain.subrange(layout.starts[from + 1], plain_len);
        lemma_starts_grow(fused, open_loops, plain, layout, from + 1, len);
        lemma_acts_like_concat(here, seq![fused[from]], rest, fused.subrange(from + 1, len));
        assert(here + rest =~= plain.subrange(layout.starts[from], plain_len));
        assert(seq![fused[from]] + fused.subrange(from + 1, len) =~= fused.subrange(from, len));
    }
}

/// Closing the innermost open loop by an instruction that stands for it
/// in the program with rewrites, and by a `JumpIfNotZero` in the plain
/// program, where the loop holds straight code that the instruction fits.
pub(crate) proof fn lemma_keep_fuse(
    fused: Seq<Instruction>,
    open_loops: Seq<OpenLoop>,
    plain: Seq<Instruction>,
    plain_open_loops: Seq<OpenLoop>,
    layout: Layout,
    instruction: Instruction,
) -> (layout2: Layout)
    requires
        lies_in(fused, open_loops, plain, plain_open_loops, layout),
        shape(fused, open_loops),
        open_loops.len() > 0,
        plain.len() < usize::MAX,
        forall|i: int|
            open_loops.last().0 < i < fused.len() ==> is_plain(#[trigger] fused[i]),
        instruction is Clear || instruction is Multiply || instruction is MoveUntilZero,
        (instruction is Clear && exists|amount: u8|
            amount % 2 == 1 && fused.subrange(open_loops.last().0 + 1, fused.len() as int)
                == #[trigger] body_model(instruction, amount)) || (!(instruction is Clear) && (
        instruction is Multiply ==> instruction->Multiply_0 > isize::MIN) && fused.subrange(
            open_loops.last().0 + 1,
            fused.len() as int,
        ) == body_model(instruction, 0)),
    ensures
        lies_in(
            fused.take(open_loops.last().0 as int).push(instruction),
            open_loops.drop_last(),
            plain.update(
                plain_open_loops.last().0 as int,
                Instruction::JumpIfZero(plain.len() as usize),
            ).push(Instruction::JumpIfNotZero(plain_open_loops.last().0)),
            plain_open_loops.drop_last(),
            layout2,
        ),
{
    let len = fused.len() as int;
    let plain_len = plain.len() as int;
    let top = open_loops.len() - 1;
    let head = open_loops[top].0 as int;
    let plain_head = plain_open_loops[top].0 as int;
    let fused2 = fused.take(head).push(instruction);
    let plain2 = plain.update(plain_head, Instruction::JumpIfZero(plain_len as usize)).push(
        Instruction::JumpIfNotZero(plain_head as usize),
    );
    let open2 = open_loops.drop_last();
    let plain_open2 = plain_open_loops.drop_last();
    let layout2 = Layout {
        starts: layout.starts.take(head + 1).push(plain_len + 1),
        heads: layout.heads.take(head).push(plain_head),
    };
    assert(plain_head == layout.last_of(head));
    assert(fused[head] is JumpIfZero);
    assert(stretch_fits(fused, open_loops, plain, layout, head));
    lemma_starts_grow(fused, open_loops, plain, layout, head + 1, len);
    lemma_tail_acts_like(fused, open_loops, plain, plain_open_loops, layout, head + 1);
    let tail = fused.subrange(head + 1, len);
    let body = plain2.subrange(plain_head + 1, plain_len);
    assert(body =~= plain.subrange(layout.starts[head + 1], plain_len));
    assert(body_fits(instruction, body)) by {
        if instruction is Clear {
            let amount = choose|amount: u8|
                amount % 2 == 1 && tail == #[trigger] body_model(instruction, amount);
            assert(acts_like(body, body_model(instruction, amount)));
        }
    }
    assert forall|i: int| 0 <= i < fused2.len() implies #[trigger] stretch_fits(
        fused2,
        open2,
        plain2,
        layout2,
        i,
    ) by {
        if i < head {
            assert(stretch_fits(fused, open_loops, plain, layout, i));
            lemma_starts_grow(fused, open_loops, plain, layout, i + 1, head);
            if is_open(open_loops, i) {
                let j = choose|j: int|
                    0 <= j < open_loops.len() && (#[trigger] open_loops[j]).0 == i;
                assert(open2[j] == open_loops[j]);
            } else if fused[i] is JumpIfZero {
                let t = fused[i]->JumpIfZero_0 as int;
                assert(fused[t] is JumpIfNotZero);
                if t > head {
                    assert(is_plain(fused[t]));
                }
            }
            lemma_stretch_kept(
                fused,
                open_loops,
                plain,
                layout,
                fused2,
                open2,
                plain2,
                layout2,
                i,
            );
        } else {
            let from = layout.starts[head];
            assert(plain2.subrange(from, plain_head) =~= plain.subrange(from, plain_head));
        }
    }
    assert(plain2.subrange(plain2.len() as int, plain2.len() as int) =~= Seq::<
        Instruction,
    >::empty());
    assert(acts_as_nothing(Seq::<Instruction>::empty()));
    assert forall|j: int| 0 <= j < open2.len() implies {
        &&& 0 <= (#[trigger] open2[j]).0 < fused2.len()
        &&& plain_open2[j].0 == layout2.last_of(open2[j].0 as int)
        &&& plain_open2[j].1 == open2[j].1
    } by {
        assert(open2[j] == open_loops[j]);
        assert(plain_open2[j] == plain_open_loops[j]);
        assert(open_loops[j].0 < open_loops[top].0);
    }
    layout2
}

} // verus!
