//! Why the rewrites of the parser are sound: a program parsed with any
//! choice of rewrites behaves as the same text parsed without.
//!
//! The proof has two halves. `parsing` shows that the program with
//! rewrites lies in the plain program: each of its instructions stands for
//! a stretch of plain instructions with the same effect. `simulation` shows
//! that of two such programs the first follows every run of the second that
//! comes to rest, and `reflection` that the second follows every run of the
//! first that comes to rest, unless a `Multiply` has its own cell as its
//! target.

pub mod idioms;
pub mod keeping;
pub mod layout;
pub mod parsing;
pub mod reflection;
pub mod runs;
pub mod simulation;
pub mod straight;
pub mod units;

use vstd::prelude::*;
use crate::interpreter::machine::{Machine, Session};
use crate::parser::grammar::parse_spec;
use crate::parser::opt::OptimizationOptions;
use parsing::lemma_parse_lies_in;
use reflection::{lemma_reflect, no_idle_transfer};
use runs::{lemma_rest_unique, same_data};
use simulation::{lemma_simulate, World};
use straight::on_tape;
use units::plainly;

verus! {

/// A session at the start of a program, with nothing read and nothing
/// written.
pub open spec fn fresh_session(machine: Machine) -> Session {
    Session { machine, consumed: 0, output: Seq::empty() }
}

/// Whether a text parses does not depend on the rewrites, nor does the
/// error.
pub proof fn lemma_rewrites_keep_errors(bytes: Seq<u8>, opts: OptimizationOptions)
    requires
        bytes.len() <= isize::MAX,
    ensures
        parse_spec(bytes, opts) is Ok <==> parse_spec(bytes, plainly()) is Ok,
        parse_spec(bytes, opts) matches Err(error) ==> parse_spec(bytes, plainly()) == Err::<
            Seq<crate::parser::instruction::Instruction>,
            crate::parser::error::UnbalancedBrackets,
        >(error),
{
    lemma_parse_lies_in(bytes, opts);
}

/// The rewrites are transparent. Take a text that parses, any choice of
/// rewrites, any tape with the pointer on it and any input. If the program
/// parsed without rewrites comes to rest within `steps` steps, because it
/// has ended or because it asks for input that is not there, then the
/// program parsed with the rewrites comes to rest within the number of
/// steps returned, for the same reason, with the same tape, the same
/// pointer, the same output, and as much input read.
pub proof fn lemma_rewrites_are_transparent(
    bytes: Seq<u8>,
    opts: OptimizationOptions,
    input: Seq<u8>,
    start: Machine,
    steps: nat,
) -> (matching: nat)
    requires
        bytes.len() <= isize::MAX,
        on_tape(start),
        start.cursor == 0,
        parse_spec(bytes, plainly()) matches Ok(plain) && fresh_session(start).run(
            plain,
            input,
            steps,
        ).at_rest(plain, input),
    ensures
        parse_spec(bytes, opts) is Ok,
        ({
            let fused = parse_spec(bytes, opts)->Ok_0;
            let plain = parse_spec(bytes, plainly())->Ok_0;
            let with_rewrites = fresh_session(start).run(fused, input, matching);
            let without = fresh_session(start).run(plain, input, steps);
            &&& with_rewrites.at_rest(fused, input)
            &&& with_rewrites.stop(fused, input) == without.stop(plain, input)
            &&& with_rewrites.machine.tape == without.machine.tape
            &&& with_rewrites.machine.pointer == without.machine.pointer
            &&& with_rewrites.output == without.output
            &&& with_rewrites.consumed == without.consumed
        }),
{
    let layout = lemma_parse_lies_in(bytes, opts);
    let fused = parse_spec(bytes, opts)->Ok_0;
    let plain = parse_spec(bytes, plainly())->Ok_0;
    let w = World { fused, plain, layout, input };
    lemma_simulate(w, fresh_session(start), fresh_session(start), steps)
}

/// Where both runs end they end alike. Take a text that parses, any choice
/// of rewrites, any tape with the pointer on it and any input. If the
/// program parsed with the rewrites comes to rest within `steps_with` steps
/// and the program parsed without comes to rest within `steps_without`
/// steps, then both have come to rest for the same reason, with the same
/// tape, the same pointer, the same output, and as much input read.
pub proof fn lemma_rewrites_end_alike(
    bytes: Seq<u8>,
    opts: OptimizationOptions,
    input: Seq<u8>,
    start: Machine,
    steps_with: nat,
    steps_without: nat,
)
    requires
        bytes.len() <= isize::MAX,
        on_tape(start),
        start.cursor == 0,
        parse_spec(bytes, opts) matches Ok(fused) && fresh_session(start).run(
            fused,
            input,
            steps_with,
        ).at_rest(fused, input),
        parse_spec(bytes, plainly()) matches Ok(plain) && fresh_session(start).run(
            plain,
            input,
            steps_without,
        ).at_rest(plain, input),
    ensures
        ({
            let fused = parse_spec(bytes, opts)->Ok_0;
            let plain = parse_spec(bytes, plainly())->Ok_0;
            let with_rewrites = fresh_session(start).run(fused, input, steps_with);
            let without = fresh_session(start).run(plain, input, steps_without);
            &&& with_rewrites.stop(fused, input) == without.stop(plain, input)
            &&& with_rewrites.machine.tape == without.machine.tape
            &&& with_rewrites.machine.pointer == without.machine.pointer
            &&& with_rewrites.output == without.output
            &&& with_rewrites.consumed == without.consumed
        }),
{
    let fused = parse_spec(bytes, opts)->Ok_0;
    let matching = lemma_rewrites_are_transparent(bytes, opts, input, start, steps_without);
    lemma_rest_unique(fresh_session(start), fused, input, matching, steps_with);
}

/// Two choices of rewrites give programs that come to rest alike: if the
/// program parsed without rewrites comes to rest, both come to rest in its
/// state.
pub proof fn lemma_rewrites_agree(
    bytes: Seq<u8>,
    one: OptimizationOptions,
    other: OptimizationOptions,
    input: Seq<u8>,
    start: Machine,
    steps: nat,
) -> (matching: (nat, nat))
    requires
        bytes.len() <= isize::MAX,
        on_tape(start),
        start.cursor == 0,
        parse_spec(bytes, plainly()) matches Ok(plain) && fresh_session(start).run(
            plain,
            input,
            steps,
        ).at_rest(plain, input),
    ensures
        parse_spec(bytes, one) is Ok,
        parse_spec(bytes, other) is Ok,
        ({
            let first = parse_spec(bytes, one)->Ok_0;
            let second = parse_spec(bytes, other)->Ok_0;
            let a = fresh_session(start).run(first, input, matching.0);
            let b = fresh_session(start).run(second, input, matching.1);
            &&& a.at_rest(first, input)
            &&& b.at_rest(second, input)
            &&& a.stop(first, input) == b.stop(second, input)
            &&& same_data(a, b)
        }),
{
    let a = lemma_rewrites_are_transparent(bytes, one, input, start, steps);
    let b = lemma_rewrites_are_transparent(bytes, other, input, start, steps);
    (a, b)
}

/// The rewrites add no behaviour, with one exception. Take a text that
/// parses, any choice of rewrites, any tape with the pointer on it and any
/// input, such that no `Multiply` of the program with rewrites has a
/// displacement that is a multiple of the tape length. If the program parsed
/// with the rewrites comes to rest within `steps` steps, then the program
/// parsed without comes to rest within the number of steps returned, for the
/// same reason, with the same tape, the same pointer, the same output, and
/// as much input read.
///
/// A `Multiply` whose displacement is a multiple of the tape length stands
/// for a loop that adds to the cell that it counts down, which may never
/// end, while the `Multiply` sets the cell to zero.
pub proof fn lemma_rewrites_add_nothing(
    bytes: Seq<u8>,
    opts: OptimizationOptions,
    input: Seq<u8>,
    start: Machine,
    steps: nat,
) -> (matching: nat)
    requires
        bytes.len() <= isize::MAX,
        on_tape(start),
        start.cursor == 0,
        parse_spec(bytes, opts) matches Ok(fused) && no_idle_transfer(
            fused,
            start.tape.len() as int,
        ) && fresh_session(start).run(fused, input, steps).at_rest(fused, input),
    ensures
        parse_spec(bytes, plainly()) is Ok,
        ({
            let fused = parse_spec(bytes, opts)->Ok_0;
            let plain = parse_spec(bytes, plainly())->Ok_0;
            let with_rewrites = fresh_session(start).run(fused, input, steps);
            let without = fresh_session(start).run(plain, input, matching);
            &&& without.at_rest(plain, input)
            &&& with_rewrites.stop(fused, input) == without.stop(plain, input)
            &&& with_rewrites.machine.tape == without.machine.tape
            &&& with_rewrites.machine.pointer == without.machine.pointer
            &&& with_rewrites.output == without.output
            &&& with_rewrites.consumed == without.consumed
        }),
{
    let layout = lemma_parse_lies_in(bytes, opts);
    let fused = parse_spec(bytes, opts)->Ok_0;
    let plain = parse_spec(bytes, plainly())->Ok_0;
    let w = World { fused, plain, layout, input };
    lemma_reflect(w, fresh_session(start), fresh_session(start), steps)
}

} // verus!
