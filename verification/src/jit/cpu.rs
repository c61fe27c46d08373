//! What the register instructions of a listing compute, and that the
//! sequences which displace the pointer keep it on the tape.

use vstd::prelude::*;
use vstd::arithmetic::div_mod::{
    lemma_fundamental_div_mod, lemma_fundamental_div_mod_converse, lemma_mod_bound,
    lemma_mod_multiples_vanish, lemma_small_mod,
};
use super::listing::{reduce, wrap_sequence, Asm, Reg};
use crate::interpreter::machine::wrap;

verus! {

/// The registers and flags that the pointer arithmetic of a listing uses.
/// A register holds its value as an unsigned number.
pub struct Cpu {
    /// `rax`.
    pub eax: int,
    /// `rcx`.
    pub ecx: int,
    /// `r13`.
    pub pointer: int,
    /// The last comparison found its left side less than its right side,
    /// as signed numbers.
    pub less: bool,
    /// The last test found a negative number.
    pub negative: bool,
}

/// The lower 32 bits of a number.
pub open spec fn low32(x: int) -> int {
    x % 0x1_0000_0000
}

/// The number that 32 bits stand for when read as signed.
pub open spec fn signed32(x: int) -> int {
    if low32(x) >= 0x8000_0000 {
        low32(x) - 0x1_0000_0000
    } else {
        low32(x)
    }
}

impl Cpu {
    /// What a register holds.
    pub open spec fn get(self, reg: Reg) -> int {
        match reg {
            Reg::Eax => self.eax,
            Reg::Ecx => self.ecx,
            Reg::Pointer => self.pointer,
        }
    }

    /// The registers after a 32-bit write, which clears the upper half of
    /// the register.
    pub open spec fn set(self, reg: Reg, value: int) -> Cpu {
        match reg {
            Reg::Eax => Cpu { eax: low32(value), ..self },
            Reg::Ecx => Cpu { ecx: low32(value), ..self },
            Reg::Pointer => Cpu { pointer: low32(value), ..self },
        }
    }

    /// The registers and flags after one entry of a listing. Entries that
    /// only touch the tape or transfer control leave them as they are.
    #[verifier::opaque]
    pub open spec fn run(self, entry: Asm) -> Cpu {
        match entry {
            Asm::Lea(dst, disp) => self.set(dst, self.pointer + disp),
            Asm::Compare(reg, imm) => Cpu { less: signed32(self.get(reg)) < imm, ..self },
            Asm::Test(reg) => Cpu { negative: signed32(self.get(reg)) < 0, ..self },
            Asm::MoveIfLess(dst, src) => if self.less {
                self.set(dst, self.get(src))
            } else {
                self.set(dst, self.get(dst))
            },
            Asm::MoveIfNotNegative(dst, src) => if !self.negative {
                self.set(dst, self.get(src))
            } else {
                self.set(dst, self.get(dst))
            },
            _ => self,
        }
    }

    /// The registers and flags after the first `k` entries of a listing
    /// without jumps.
    pub open spec fn run_prefix(self, entries: Seq<Asm>, k: int) -> Cpu
        decreases k,
    {
        if k <= 0 {
            self
        } else {
            self.run_prefix(entries, k - 1).run(entries[k - 1])
        }
    }

    /// The registers and flags after a listing without jumps.
    pub open spec fn run_all(self, entries: Seq<Asm>) -> Cpu {
        self.run_prefix(entries, entries.len() as int)
    }
}

/// The lower 32 bits of a number that fits in them, and of a negative
/// number above minus two to the 32.
pub(crate) proof fn lemma_low32(x: int)
    ensures
        0 <= x < 0x1_0000_0000 ==> low32(x) == x,
        -0x1_0000_0000 <= x < 0 ==> low32(x) == x + 0x1_0000_0000,
        0 <= low32(x) < 0x1_0000_0000,
{
    if 0 <= x < 0x1_0000_0000 {
        lemma_small_mod(x as nat, 0x1_0000_0000);
    }
    if -0x1_0000_0000 <= x < 0 {
        lemma_fundamental_div_mod_converse(x, 0x1_0000_0000, -1, x + 0x1_0000_0000);
    }
    lemma_mod_bound(x, 0x1_0000_0000);
}

/// Where a displacement of less than one turn leads.
pub(crate) proof fn lemma_wrap_once(pointer: int, delta: int, length: int)
    requires
        0 < length,
        0 <= pointer < length,
        -length < delta < length,
    ensures
        wrap(pointer, delta, length) == if pointer + delta >= length {
            pointer + delta - length
        } else if pointer + delta < 0 {
            pointer + delta + length
        } else {
            pointer + delta
        },
{
    if pointer + delta >= length {
        lemma_fundamental_div_mod_converse(pointer + delta, length, 1, pointer + delta - length);
    } else if pointer + delta < 0 {
        lemma_fundamental_div_mod_converse(
            pointer + delta,
            length,
            -1,
            pointer + delta + length,
        );
    } else {
        lemma_small_mod((pointer + delta) as nat, length as nat);
    }
}

/// A displacement reduced to less than one turn comes to the same cell.
pub proof fn lemma_reduce(pointer: int, delta: isize, length: u32)
    requires
        0 < length <= 0x4000_0000,
        0 <= pointer < length,
    ensures
        -(length as int) < reduce(delta, length) < length,
        delta >= 0 ==> reduce(delta, length) >= 0,
        delta < 0 ==> reduce(delta, length) <= 0,
        wrap(pointer, reduce(delta, length) as int, length as int) == wrap(
            pointer,
            delta as int,
            length as int,
        ),
{
    let l = length as int;
    let d = delta as int;
    if delta >= 0 {
        lemma_mod_bound(d, l);
        let r = d % l;
        assert(reduce(delta, length) == r);
        lemma_fundamental_div_mod(d, l);
        let q = d / l;
        assert(pointer + d == l * q + (pointer + r)) by (nonlinear_arith)
            requires
                d == l * q + r,
        ;
        lemma_mod_multiples_vanish(q, pointer + r, l);
    } else {
        lemma_mod_bound(-d, l);
        let r = (-d) % l;
        assert(reduce(delta, length) == -r);
        lemma_fundamental_div_mod(-d, l);
        let q = (-d) / l;
        assert(pointer + d == l * (-q) + (pointer - r)) by (nonlinear_arith)
            requires
                -d == l * q + r,
        ;
        lemma_mod_multiples_vanish(-q, pointer - r, l);
    }
}

/// The sequence for a displacement to the right.
proof fn lemma_wrap_forward(cpu: Cpu, dst: Reg, probe: Reg, delta: i32, length: u32)
    requires
        0 < length <= 0x4000_0000,
        0 <= cpu.pointer < length,
        0 < delta < length,
        probe != Reg::Pointer,
        dst != probe,
    ensures
        ({
            let after = cpu.run(Asm::Lea(probe, delta)).run(
                Asm::Lea(dst, (delta - length) as i32),
            ).run(Asm::Compare(probe, length as i32)).run(Asm::MoveIfLess(dst, probe));
            &&& after.get(dst) == wrap(cpu.pointer, delta as int, length as int)
            &&& dst != Reg::Pointer ==> after.pointer == cpu.pointer
        }),
{
    let l = length as int;
    let p = cpu.pointer;
    reveal(Cpu::run);
    lemma_wrap_once(p, delta as int, l);
    lemma_low32(p + delta);
    lemma_low32(p + delta - l);
    lemma_low32(low32(p + delta - l));
}

/// The sequence for a displacement to the left.
proof fn lemma_wrap_backward(cpu: Cpu, dst: Reg, probe: Reg, delta: i32, length: u32)
    requires
        0 < length <= 0x4000_0000,
        0 <= cpu.pointer < length,
        -(length as int) < delta < 0,
        probe != Reg::Pointer,
        dst != probe,
    ensures
        ({
            let after = cpu.run(Asm::Lea(probe, delta)).run(
                Asm::Lea(dst, (length + delta) as i32),
            ).run(Asm::Test(probe)).run(Asm::MoveIfNotNegative(dst, probe));
            &&& after.get(dst) == wrap(cpu.pointer, delta as int, length as int)
            &&& dst != Reg::Pointer ==> after.pointer == cpu.pointer
        }),
{
    let l = length as int;
    let p = cpu.pointer;
    reveal(Cpu::run);
    lemma_wrap_once(p, delta as int, l);
    lemma_low32(p + delta);
    lemma_low32(p + delta + l);
    lemma_low32(low32(p + delta));
}

/// The sequence for a displacement of less than one turn leaves in `dst`
/// the index of the cell that the interpreter moves to, which is on the
/// tape. A `dst` other than the pointer leaves the pointer where it is.
pub proof fn lemma_wrap_sequence(cpu: Cpu, dst: Reg, probe: Reg, delta: i32, length: u32)
    requires
        0 < length <= 0x4000_0000,
        0 <= cpu.pointer < length,
        -(length as int) < delta < length,
        probe != Reg::Pointer,
        dst != probe,
    ensures
        ({
            let after = cpu.run_all(wrap_sequence(dst, probe, delta, length));
            &&& after.get(dst) == wrap(cpu.pointer, delta as int, length as int)
            &&& 0 <= after.get(dst) < length
            &&& dst != Reg::Pointer ==> after.pointer == cpu.pointer
        }),
{
    let entries = wrap_sequence(dst, probe, delta, length);
    lemma_mod_bound(cpu.pointer + delta, length as int);
    reveal_with_fuel(Cpu::run_prefix, 5);
    if delta > 0 {
        lemma_wrap_forward(cpu, dst, probe, delta, length);
        assert(cpu.run_all(entries) == cpu.run(entries[0]).run(entries[1]).run(entries[2]).run(
            entries[3],
        ));
    } else if delta < 0 {
        lemma_wrap_backward(cpu, dst, probe, delta, length);
        assert(cpu.run_all(entries) == cpu.run(entries[0]).run(entries[1]).run(entries[2]).run(
            entries[3],
        ));
    } else {
        lemma_wrap_once(cpu.pointer, 0, length as int);
        lemma_low32(cpu.pointer);
        if dst != Reg::Pointer {
            assert(cpu.run_all(entries) == cpu.run(Asm::Lea(dst, 0)));
            assert(cpu.run(Asm::Lea(dst, 0)) == cpu.set(dst, cpu.pointer)) by {
                reveal(Cpu::run);
            }
        }
    }
}

} // verus!
