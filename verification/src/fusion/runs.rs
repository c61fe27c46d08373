//! General facts about runs of a session.

use vstd::prelude::*;
use crate::interpreter::machine::{Machine, Session};
use crate::parser::instruction::Instruction;

verus! {

/// Two sessions agree on everything but the cursor.
pub open spec fn same_data(a: Session, b: Session) -> bool {
    &&& a.machine.tape == b.machine.tape
    &&& a.machine.pointer == b.machine.pointer
    &&& a.consumed == b.consumed
    &&& a.output == b.output
}

/// The session with another machine.
pub open spec fn with_machine(s: Session, machine: Machine) -> Session {
    Session { machine, ..s }
}

/// A session at rest stays as it is.
pub(crate) proof fn lemma_rest_stays(s: Session, ir: Seq<Instruction>, input: Seq<u8>, steps: nat)
    requires
        s.at_rest(ir, input),
    ensures
        s.run(ir, input, steps) == s,
{
}

/// Running on is the same as running in two parts.
pub(crate) proof fn lemma_run_split(
    s: Session,
    ir: Seq<Instruction>,
    input: Seq<u8>,
    first: nat,
    second: nat,
)
    ensures
        s.run(ir, input, first + second) == s.run(ir, input, first).run(ir, input, second),
    decreases first,
{
    if first == 0 {
    } else if s.at_rest(ir, input) {
        lemma_rest_stays(s, ir, input, second);
    } else {
        lemma_run_split(s.step(ir, input), ir, input, (first - 1) as nat, second);
    }
}

/// One more step at the end of a run that has not come to rest.
pub(crate) proof fn lemma_run_then_step(s: Session, ir: Seq<Instruction>, input: Seq<u8>, steps: nat)
    requires
        !s.run(ir, input, steps).at_rest(ir, input),
    ensures
        s.run(ir, input, steps + 1) == s.run(ir, input, steps).step(ir, input),
{
    lemma_run_split(s, ir, input, steps, 1);
    let mid = s.run(ir, input, steps);
    assert(mid.run(ir, input, 1) == mid.step(ir, input).run(ir, input, 0));
}

/// A run that comes to rest has passed every state that the session
/// reaches before it rests.
pub(crate) proof fn lemma_run_through(
    s: Session,
    ir: Seq<Instruction>,
    input: Seq<u8>,
    part: nat,
    steps: nat,
)
    requires
        s.run(ir, input, steps).at_rest(ir, input),
        forall|j: nat| j < part ==> !(#[trigger] s.run(ir, input, j)).at_rest(ir, input),
    ensures
        part <= steps,
        s.run(ir, input, steps) == s.run(ir, input, part).run(ir, input, (steps - part) as nat),
{
    if steps < part {
        assert(!s.run(ir, input, steps).at_rest(ir, input));
    }
    lemma_run_split(s, ir, input, part, (steps - part) as nat);
}

/// A step before a run.
pub(crate) proof fn lemma_step_then_run(s: Session, ir: Seq<Instruction>, input: Seq<u8>, steps: nat)
    requires
        !s.at_rest(ir, input),
    ensures
        s.run(ir, input, steps + 1) == s.step(ir, input).run(ir, input, steps),
{
}

/// A session comes to rest in one state only.
pub(crate) proof fn lemma_rest_unique(
    s: Session,
    ir: Seq<Instruction>,
    input: Seq<u8>,
    one: nat,
    other: nat,
)
    requires
        s.run(ir, input, one).at_rest(ir, input),
        s.run(ir, input, other).at_rest(ir, input),
    ensures
        s.run(ir, input, one) == s.run(ir, input, other),
{
    if one <= other {
        lemma_run_split(s, ir, input, one, (other - one) as nat);
        lemma_rest_stays(s.run(ir, input, one), ir, input, (other - one) as nat);
    } else {
        lemma_run_split(s, ir, input, other, (one - other) as nat);
        lemma_rest_stays(s.run(ir, input, other), ir, input, (one - other) as nat);
    }
}

} // verus!
