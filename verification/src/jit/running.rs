//! How a listing runs: the meaning of its entries on the registers, the
//! tape and the streams.
//!
//! What an instruction does to a scratch register or to a flag that the
//! listing does not read again is not described: such values are taken from
//! `noise`, a function that may be any. A read that finds no byte left
//! fails and ends the run with its error; here the listing rests at that
//! read, as the interpreter does, and it rests at its return.

use vstd::prelude::*;
use crate::interpreter::machine::Stop;
use super::cpu::{low32, Cpu};
use super::listing::Asm;

verus! {

/// The state of a running listing.
pub struct Core {
    /// The registers and flags.
    pub cpu: Cpu,
    /// The cells.
    pub tape: Seq<u8>,
    /// The index of the entry to execute next.
    pub at: int,
    /// How many bytes of the input have been read.
    pub consumed: int,
    /// The bytes written so far.
    pub output: Seq<u8>,
}

/// The values that scratch registers and flags take where the meaning of
/// an entry leaves them open.
pub type Noise = spec_fn(Core) -> Cpu;

/// The entry only reads and writes registers and flags.
pub open spec fn on_registers(entry: Asm) -> bool {
    entry is Lea || entry is Compare || entry is Test || entry is MoveIfLess || entry
        is MoveIfNotNegative
}

/// The lowest byte of a number.
pub open spec fn low8(x: int) -> u8 {
    (x % 256) as u8
}

impl Core {
    /// The cell that the pointer register names.
    pub open spec fn cell(self) -> u8 {
        self.tape[self.cpu.pointer]
    }

    /// The same state with flags that may be any.
    pub open spec fn blur_flags(self, noise: Noise) -> Core {
        Core {
            cpu: Cpu { less: noise(self).less, negative: noise(self).negative, ..self.cpu },
            ..self
        }
    }

    /// The same state with scratch registers and flags that may be any;
    /// only the pointer is kept.
    pub open spec fn blur_scratch(self, noise: Noise) -> Core {
        Core { cpu: Cpu { pointer: self.cpu.pointer, ..noise(self) }, ..self }
    }

    /// The same state at the next entry.
    pub open spec fn next(self) -> Core {
        Core { at: self.at + 1, ..self }
    }

    /// The same state with another tape.
    pub open spec fn with_tape(self, tape: Seq<u8>) -> Core {
        Core { tape, ..self }
    }

    /// The listing can go no further: it returns, or it reads where the
    /// input has no byte left.
    pub open spec fn at_rest(self, listing: Seq<Asm>, input: Seq<u8>) -> bool {
        listing[self.at] is Leave || (listing[self.at] is CallRead && self.consumed
            >= input.len())
    }

    /// The entry to execute is one of the listing, and the cell that it
    /// reads or writes, if any, is one of the tape.
    pub open spec fn sound(self, listing: Seq<Asm>) -> bool {
        &&& 0 <= self.at < listing.len()
        &&& match listing[self.at] {
            Asm::AddCell(_)
            | Asm::ClearCell
            | Asm::LoadCell
            | Asm::CallRead
            | Asm::CallWrite
            | Asm::JumpIfZero(_)
            | Asm::JumpIfNotZero(_) => 0 <= self.cpu.pointer < self.tape.len(),
            Asm::AddToTarget => 0 <= self.cpu.eax < self.tape.len(),
            _ => true,
        }
    }

    /// The state after the entry that is next.
    pub open spec fn step(self, listing: Seq<Asm>, input: Seq<u8>, noise: Noise) -> Core {
        let pointer = self.cpu.pointer;
        match listing[self.at] {
            Asm::Enter => Core { cpu: Cpu { pointer: 0, ..noise(self) }, ..self }.next(),
            Asm::Leave => self,
            Asm::AddCell(n) => self.with_tape(
                self.tape.update(pointer, self.cell().wrapping_add(n)),
            ).blur_flags(noise).next(),
            Asm::ClearCell => self.with_tape(self.tape.update(pointer, 0)).next(),
            Asm::LoadCell => Core { cpu: Cpu { ecx: self.cell() as int, ..self.cpu }, ..self }.next(),
            Asm::Scale(factor) => Core {
                cpu: Cpu { ecx: low32(self.cpu.ecx * factor), ..self.cpu },
                ..self
            }.blur_flags(noise).next(),
            Asm::AddToTarget => self.with_tape(
                self.tape.update(
                    self.cpu.eax,
                    self.tape[self.cpu.eax].wrapping_add(low8(self.cpu.ecx)),
                ),
            ).blur_flags(noise).next(),
            Asm::CallRead => if self.consumed < input.len() {
                Core {
                    tape: self.tape.update(pointer, input[self.consumed]),
                    consumed: self.consumed + 1,
                    ..self
                }.blur_scratch(noise).next()
            } else {
                self
            },
            Asm::CallWrite => Core {
                output: self.output.push(self.cell()),
                ..self
            }.blur_scratch(noise).next(),
            Asm::Label(_) => self.next(),
            Asm::JumpIfZero(label) => if self.cell() == 0 {
                Core { at: label as int, ..self.blur_flags(noise) }
            } else {
                self.blur_flags(noise).next()
            },
            Asm::JumpIfNotZero(label) => if self.cell() != 0 {
                Core { at: label as int, ..self.blur_flags(noise) }
            } else {
                self.blur_flags(noise).next()
            },
            Asm::Jump(label) => Core { at: label as int, ..self },
            entry => Core { cpu: self.cpu.run(entry), ..self }.next(),
        }
    }

    /// The state after at most `steps` entries, fewer if the listing comes
    /// to rest before.
    pub open spec fn run(self, listing: Seq<Asm>, input: Seq<u8>, noise: Noise, steps: nat) -> Core
        decreases steps,
    {
        if steps == 0 || self.at_rest(listing, input) {
            self
        } else {
            self.step(listing, input, noise).run(listing, input, noise, (steps - 1) as nat)
        }
    }

    /// Why the listing does not go on, given that it stopped after a run
    /// with a step limit.
    pub open spec fn stop(self, listing: Seq<Asm>, input: Seq<u8>) -> Stop {
        if listing[self.at] is Leave {
            Stop::Finished
        } else if listing[self.at] is CallRead && self.consumed >= input.len() {
            Stop::InputExhausted
        } else {
            Stop::StepLimit
        }
    }

    /// Every state that one of the first `steps` steps of a run starts
    /// from is sound.
    pub open spec fn sound_for(
        self,
        listing: Seq<Asm>,
        input: Seq<u8>,
        noise: Noise,
        steps: nat,
    ) -> bool {
        forall|j: nat| j < steps ==> (#[trigger] self.run(listing, input, noise, j)).sound(listing)
    }
}

/// Running on is the same as running in two parts.
pub(crate) proof fn lemma_core_run_split(
    c: Core,
    listing: Seq<Asm>,
    input: Seq<u8>,
    noise: Noise,
    first: nat,
    second: nat,
)
    ensures
        c.run(listing, input, noise, first + second) == c.run(listing, input, noise, first).run(
            listing,
            input,
            noise,
            second,
        ),
    decreases first,
{
    if first == 0 {
    } else if c.at_rest(listing, input) {
    } else {
        lemma_core_run_split(
            c.step(listing, input, noise),
            listing,
            input,
            noise,
            (first - 1) as nat,
            second,
        );
    }
}

/// A run that is sound up to a state, and sound from there on, is sound
/// throughout.
pub(crate) proof fn lemma_sound_join(
    c: Core,
    listing: Seq<Asm>,
    input: Seq<u8>,
    noise: Noise,
    first: nat,
    second: nat,
)
    requires
        c.sound_for(listing, input, noise, first),
        c.run(listing, input, noise, first).sound_for(listing, input, noise, second),
    ensures
        c.sound_for(listing, input, noise, first + second),
{
    assert forall|j: nat| j < first + second implies (#[trigger] c.run(
        listing,
        input,
        noise,
        j,
    )).sound(listing) by {
        if j >= first {
            lemma_core_run_split(c, listing, input, noise, first, (j - first) as nat);
            assert(c.run(listing, input, noise, first).run(
                listing,
                input,
                noise,
                (j - first) as nat,
            ).sound(listing));
        }
    }
}

/// One step of a state that is sound and not at rest.
pub(crate) proof fn lemma_core_one_step(c: Core, listing: Seq<Asm>, input: Seq<u8>, noise: Noise)
    requires
        c.sound(listing),
        !c.at_rest(listing, input),
    ensures
        c.run(listing, input, noise, 1) == c.step(listing, input, noise),
        c.sound_for(listing, input, noise, 1),
{
    let next = c.step(listing, input, noise);
    assert(c.run(listing, input, noise, 1) == next.run(listing, input, noise, 0));
    assert forall|j: nat| j < 1 implies (#[trigger] c.run(listing, input, noise, j)).sound(
        listing,
    ) by {
        assert(j == 0);
    }
}

/// The listing runs through a stretch of entries that only use registers:
/// it ends behind the stretch with the registers that the stretch leaves,
/// and nothing else changed.
pub(crate) proof fn lemma_run_registers(
    c: Core,
    listing: Seq<Asm>,
    input: Seq<u8>,
    noise: Noise,
    entries: Seq<Asm>,
    k: int,
)
    requires
        0 <= c.at,
        c.at + entries.len() < listing.len(),
        listing.subrange(c.at, c.at + entries.len()) == entries,
        forall|j: int| 0 <= j < entries.len() ==> on_registers(#[trigger] entries[j]),
        0 <= k <= entries.len(),
    ensures
        c.run(listing, input, noise, k as nat) == (Core {
            cpu: c.cpu.run_prefix(entries, k),
            at: c.at + k,
            ..c
        }),
        c.sound_for(listing, input, noise, k as nat),
        forall|j: nat|
            j < k ==> !(#[trigger] c.run(listing, input, noise, j)).at_rest(listing, input),
    decreases k,
{
    if k == 0 {
    } else {
        lemma_run_registers(c, listing, input, noise, entries, k - 1);
        let before = c.run(listing, input, noise, (k - 1) as nat);
        assert(listing[c.at + k - 1] == entries[k - 1]);
        assert(on_registers(entries[k - 1]));
        lemma_core_run_split(c, listing, input, noise, (k - 1) as nat, 1);
        lemma_core_one_step(before, listing, input, noise);
        lemma_sound_join(c, listing, input, noise, (k - 1) as nat, 1);
        assert forall|j: nat| j < k implies !(#[trigger] c.run(listing, input, noise, j)).at_rest(
            listing,
            input,
        ) by {}
    }
}

/// A run that comes to rest has passed every state that the listing
/// reaches before it rests.
pub(crate) proof fn lemma_core_run_through(
    c: Core,
    listing: Seq<Asm>,
    input: Seq<u8>,
    noise: Noise,
    part: nat,
    steps: nat,
)
    requires
        c.run(listing, input, noise, steps).at_rest(listing, input),
        forall|j: nat|
            j < part ==> !(#[trigger] c.run(listing, input, noise, j)).at_rest(listing, input),
    ensures
        part <= steps,
        c.run(listing, input, noise, steps) == c.run(listing, input, noise, part).run(
            listing,
            input,
            noise,
            (steps - part) as nat,
        ),
{
    if steps < part {
        assert(!c.run(listing, input, noise, steps).at_rest(listing, input));
    }
    lemma_core_run_split(c, listing, input, noise, part, (steps - part) as nat);
}

/// A state that is not at rest but comes to rest takes its next step
/// first.
pub(crate) proof fn lemma_core_take_step(
    c: Core,
    listing: Seq<Asm>,
    input: Seq<u8>,
    noise: Noise,
    steps: nat,
)
    requires
        !c.at_rest(listing, input),
        c.run(listing, input, noise, steps).at_rest(listing, input),
    ensures
        steps >= 1,
        c.run(listing, input, noise, steps) == c.step(listing, input, noise).run(
            listing,
            input,
            noise,
            (steps - 1) as nat,
        ),
{
}

} // verus!
