//! Turns program text into a resolved instruction sequence.

pub mod error;
pub mod folding;
pub mod grammar;
pub mod instruction;
pub mod nesting;
pub mod opt;
pub mod pairing;
pub mod text;

pub use error::UnbalancedBrackets;
pub use instruction::Instruction;
pub use opt::OptimizationOptions;

use vstd::prelude::*;
use folding::{lemma_add_run, lemma_move_run, tally};
use nesting::{lemma_parsed_loops_well_nested, loops_well_nested};
use pairing::{
    count_jump_if_not_zero, count_jump_if_zero, lemma_parsed_loops_pair, loops_nested,
    targets_mutual,
};
use grammar::{
    ends_add_run,
    ends_move_run,
    add_run_end,
    add_run_sum,
    clear_matches,
    close_loop,
    lemma_add_run_end_bounds,
    lemma_move_run_end_bounds,
    move_run_end,
    move_run_sum,
    move_until_zero_matches,
    multiply_matches,
    parse_from,
    parse_spec,
    OpenLoop,
    CLOSE,
    COMMA,
    DOT,
    LEFT,
    MINUS,
    OPEN,
    PLUS,
    RIGHT,
};

verus! {

/// A parser over one program text.
#[derive(Debug, Clone, PartialEq, Eq, Hash)]
pub struct Parser<'a> {
    contents: &'a [u8],
    idx: usize,
    instructions: Vec<Instruction>,
    jump_stack: Vec<OpenLoop>,
}

/// The outcome of `Parser::parse` with the instructions as a sequence.
pub open spec fn outcome(result: Result<Vec<Instruction>, UnbalancedBrackets>) -> Result<
    Seq<Instruction>,
    UnbalancedBrackets,
> {
    match result {
        Ok(instructions) => Ok(instructions@),
        Err(error) => Err(error),
    }
}

/// Every open loop has its head among the instructions, and a loop opened
/// later has its head further on.
pub open spec fn heads_in_place(instrs: Seq<Instruction>, open_loops: Seq<OpenLoop>) -> bool {
    &&& forall|j: int|
        0 <= j < open_loops.len() ==> (#[trigger] open_loops[j]).0 < instrs.len()
            && instrs[open_loops[j].0 as int] is JumpIfZero
    &&& forall|j: int, k: int|
        0 <= j < k < open_loops.len() ==> (#[trigger] open_loops[j]).0 < (
        #[trigger] open_loops[k]).0
}

impl<'a> Parser<'a> {
    /// The text that the parser reads.
    pub closed spec fn source(&self) -> Seq<u8> {
        self.contents@
    }

    /// Nothing has been read yet, and the text is no longer than a slice
    /// can be.
    pub closed spec fn fresh(&self) -> bool {
        &&& self.idx == 0
        &&& self.instructions@.len() == 0
        &&& self.jump_stack@.len() == 0
        &&& self.contents@.len() <= isize::MAX
    }

    spec fn inv(&self) -> bool {
        &&& self.idx <= self.contents@.len()
        &&& self.contents@.len() <= isize::MAX
        &&& heads_in_place(self.instructions@, self.jump_stack@)
    }

    /// A fresh parser reads a text of at most `isize::MAX` bytes.
    pub proof fn lemma_fresh_fits(&self)
        requires
            self.fresh(),
        ensures
            self.source().len() <= isize::MAX,
    {
    }

    /// A parser at the start of `contents`. A slice never holds more than
    /// `isize::MAX` bytes; the reading position counts on that.
    pub fn new(contents: &'a [u8]) -> (parser: Self)
        requires
            contents@.len() <= isize::MAX,
        ensures
            parser.source() == contents@,
            parser.fresh(),
    {
        Self { contents, idx: 0, instructions: Vec::new(), jump_stack: Vec::new() }
    }

    /// Reads the whole text and returns its instructions, or the first
    /// bracket error met.
    pub fn parse(self, opts: OptimizationOptions) -> (result: Result<
        Vec<Instruction>,
        UnbalancedBrackets,
    >)
        requires
            self.fresh(),
        ensures
            outcome(result) == parse_spec(self.source(), opts),
            self.source().len() <= isize::MAX,
            result matches Ok(instructions) ==> {
                &&& targets_mutual(instructions@)
                &&& count_jump_if_zero(instructions@) == count_jump_if_not_zero(instructions@)
                &&& loops_nested(instructions@)
                &&& loops_well_nested(instructions@)
            },
    {
        let mut parser = self;
        let ghost bytes = parser.contents@;
        let ghost goal = parse_spec(bytes, opts);
        assert(parser.instructions@ =~= Seq::empty());
        assert(parser.jump_stack@ =~= Seq::empty());
        loop
            invariant_except_break
                parser.inv(),
                parse_from(bytes, opts, parser.idx as int, parser.instructions@, parser.jump_stack@)
                    == goal,
            invariant
                bytes == self.source(),
                goal == parse_spec(bytes, opts),
                parser.contents@ == bytes,
            ensures
                parser.idx == bytes.len() + 1,
                bytes.len() <= isize::MAX,
                parse_from(bytes, opts, bytes.len() as int, parser.instructions@, parser.jump_stack@)
                    == goal,
            decreases bytes.len() + 1 - parser.idx,
        {
            let ghost pos = parser.idx as int;
            let ghost before = parser.instructions@;
            let ghost open_before = parser.jump_stack@;
            let byte = match parser.next() {
                Some(byte) => byte,
                None => {
                    break ;
                },
            };
            let instruction = if byte == PLUS {
                if opts.contract {
                    parser.parse_add(1)
                } else {
                    Instruction::Add(1)
                }
            } else if byte == MINUS {
                if opts.contract {
                    parser.parse_add(255)
                } else {
                    Instruction::Add(255)
                }
            } else if byte == RIGHT {
                if opts.contract {
                    parser.parse_move(1)
                } else {
                    Instruction::Move(1)
                }
            } else if byte == LEFT {
                if opts.contract {
                    parser.parse_move(-1)
                } else {
                    Instruction::Move(-1)
                }
            } else if byte == COMMA {
                Instruction::In
            } else if byte == DOT {
                Instruction::Out
            } else if byte == OPEN {
                parser.jump_stack.push((parser.instructions.len(), parser.idx - 1));
                Instruction::JumpIfZero(0)
            } else if byte == CLOSE {
                match parser.jump_stack.pop() {
                    Some((head, _)) => {
                        assert(parser.jump_stack@ == open_before.drop_last());
                        assert(open_before.last().0 == head);
                        assert(heads_in_place(before, parser.jump_stack@));
                        if let Some(clear) = parser.try_parse_clear(opts.clear) {
                            clear
                        } else if let Some(multiply) = parser.try_parse_multiply(opts.multiply) {
                            multiply
                        } else if let Some(move_until) = parser.try_parse_move_until_zero(
                            opts.move_until_zero,
                        ) {
                            move_until
                        } else {
                            let len = parser.instructions.len();
                            parser.instructions.set(head, Instruction::JumpIfZero(len));
                            Instruction::JumpIfNotZero(head)
                        }
                    },
                    None => {
                        assert(open_before.len() == 0);
                        assert(parse_from(bytes, opts, pos, before, open_before) == Err::<
                            Seq<Instruction>,
                            UnbalancedBrackets,
                        >(UnbalancedBrackets::UnopenedBracket(pos as usize)));
                        return Err(UnbalancedBrackets::UnopenedBracket(parser.idx - 1));
                    },
                }
            } else {
                continue ;
            };
            match instruction {
                Instruction::Add(0) | Instruction::Move(0) => {},
                _ => {
                    parser.instructions.push(instruction);
                },
            }
            proof {
                if byte == CLOSE {
                    assert(parser.instructions@ =~= close_loop(before, open_before.last().0, opts));
                }
                lemma_add_run_end_bounds(bytes, pos + 1);
                lemma_move_run_end_bounds(bytes, pos + 1);
            }
        }
        if parser.jump_stack.len() > 0 {
            return Err(UnbalancedBrackets::UnclosedBracket(parser.jump_stack[0].1));
        }
        proof {
            lemma_parsed_loops_pair(bytes, opts);
            lemma_parsed_loops_well_nested(bytes, opts);
        }
        Ok(parser.instructions)
    }

    /// Reads on to the end of a run of `+` and `-` and returns the `Add` of
    /// the whole run, `acc` included.
    fn parse_add(&mut self, acc: u8) -> (instruction: Instruction)
        requires
            old(self).inv(),
        ensures
            final(self).inv(),
            final(self).contents == old(self).contents,
            final(self).instructions == old(self).instructions,
            final(self).jump_stack == old(self).jump_stack,
            final(self).idx == add_run_end(old(self).contents@, old(self).idx as int),
            instruction == Instruction::Add(
                add_run_sum(old(self).contents@, old(self).idx as int, acc),
            ),
            ({
                let bytes = old(self).contents@;
                let from = old(self).idx as int;
                let to = final(self).idx as int;
                let net = tally(bytes, from, to, PLUS) - tally(bytes, from, to, MINUS);
                &&& from <= to <= bytes.len()
                &&& forall|j: int| from <= j < to ==> !ends_add_run(#[trigger] bytes[j])
                &&& to < bytes.len() ==> ends_add_run(bytes[to])
                &&& instruction == Instruction::Add(acc.wrapping_add((net % 256) as u8))
            }),
    {
        proof {
            lemma_add_run(self.contents@, self.idx as int, acc);
        }
        let ghost bytes = self.contents@;
        let ghost start = self.idx as int;
        let mut acc = acc;
        let ghost acc0 = acc;
        loop
            invariant
                self.inv(),
                self.contents == old(self).contents,
                self.contents@ == bytes,
                self.instructions == old(self).instructions,
                self.jump_stack == old(self).jump_stack,
                add_run_end(bytes, self.idx as int) == add_run_end(bytes, start),
                add_run_sum(bytes, self.idx as int, acc) == add_run_sum(bytes, start, acc0),
            ensures
                self.inv(),
                self.contents == old(self).contents,
                self.instructions == old(self).instructions,
                self.jump_stack == old(self).jump_stack,
                self.idx == add_run_end(bytes, start),
                acc == add_run_sum(bytes, start, acc0),
            decreases bytes.len() - self.idx,
        {
            let byte = match self.peek() {
                Some(byte) => byte,
                None => {
                    break ;
                },
            };
            if byte == PLUS {
                acc = acc.wrapping_add(1);
            } else if byte == MINUS {
                acc = acc.wrapping_sub(1);
            } else if byte == RIGHT || byte == LEFT || byte == DOT || byte == COMMA || byte == OPEN
                || byte == CLOSE {
                break ;
            }
            self.idx += 1;
        }
        Instruction::Add(acc)
    }

    /// Reads on to the end of a run of `>` and `<` and returns the `Move` of
    /// the whole run, `acc` included.
    fn parse_move(&mut self, acc: isize) -> (instruction: Instruction)
        requires
            old(self).inv(),
        ensures
            final(self).inv(),
            final(self).contents == old(self).contents,
            final(self).instructions == old(self).instructions,
            final(self).jump_stack == old(self).jump_stack,
            final(self).idx == move_run_end(old(self).contents@, old(self).idx as int),
            instruction == Instruction::Move(
                move_run_sum(old(self).contents@, old(self).idx as int, acc),
            ),
            ({
                let bytes = old(self).contents@;
                let from = old(self).idx as int;
                let to = final(self).idx as int;
                let net = tally(bytes, from, to, RIGHT) - tally(bytes, from, to, LEFT);
                &&& from <= to <= bytes.len()
                &&& forall|j: int| from <= j < to ==> !ends_move_run(#[trigger] bytes[j])
                &&& to < bytes.len() ==> ends_move_run(bytes[to])
                &&& -from <= acc <= from ==> instruction == Instruction::Move((acc + net) as isize)
            }),
    {
        proof {
            lemma_move_run(self.contents@, self.idx as int, acc);
        }
        let ghost bytes = self.contents@;
        let ghost start = self.idx as int;
        let mut acc = acc;
        let ghost acc0 = acc;
        loop
            invariant
                self.inv(),
                self.contents == old(self).contents,
                self.contents@ == bytes,
                self.instructions == old(self).instructions,
                self.jump_stack == old(self).jump_stack,
                move_run_end(bytes, self.idx as int) == move_run_end(bytes, start),
                move_run_sum(bytes, self.idx as int, acc) == move_run_sum(bytes, start, acc0),
            ensures
                self.inv(),
                self.contents == old(self).contents,
                self.instructions == old(self).instructions,
                self.jump_stack == old(self).jump_stack,
                self.idx == move_run_end(bytes, start),
                acc == move_run_sum(bytes, start, acc0),
            decreases bytes.len() - self.idx,
        {
            let byte = match self.peek() {
                Some(byte) => byte,
                None => {
                    break ;
                },
            };
            if byte == RIGHT {
                acc = acc.wrapping_add(1);
            } else if byte == LEFT {
                acc = acc.wrapping_sub(1);
            } else if byte == PLUS || byte == MINUS || byte == DOT || byte == COMMA || byte == OPEN
                || byte == CLOSE {
                break ;
            }
            self.idx += 1;
        }
        Instruction::Move(acc)
    }

    /// Replaces a loop head and an odd `Add` at the end of the instructions
    /// by nothing and returns `Clear`, if the rewrite is on and they are there.
    fn try_parse_clear(&mut self, opt: bool) -> (fused: Option<Instruction>)
        requires
            old(self).inv(),
        ensures
            final(self).contents == old(self).contents,
            final(self).idx == old(self).idx,
            final(self).jump_stack == old(self).jump_stack,
            opt && clear_matches(old(self).instructions@) ==> fused == Some(Instruction::Clear)
                && final(self).instructions@ == old(self).instructions@.take(
                old(self).instructions@.len() - 2,
            ),
            !(opt && clear_matches(old(self).instructions@)) ==> fused.is_none() && final(self).instructions == old(self).instructions,
    {
        if !opt {
            return None;
        }
        let len = self.instructions.len();
        if len < 2 {
            return None;
        }
        match (self.instructions[len - 2], self.instructions[len - 1]) {
            (Instruction::JumpIfZero(_), Instruction::Add(n)) => {
                if n % 2 == 1 {
                    self.remove_n(2);
                    Some(Instruction::Clear)
                } else {
                    None
                }
            },
            _ => None,
        }
    }

    /// Replaces a loop head, a decrement, a move, an `Add` and the opposite
    /// move at the end of the instructions by nothing and returns the
    /// `Multiply`, if the rewrite is on and they are there.
    fn try_parse_multiply(&mut self, opt: bool) -> (fused: Option<Instruction>)
        requires
            old(self).inv(),
        ensures
            final(self).contents == old(self).contents,
            final(self).idx == old(self).idx,
            final(self).jump_stack == old(self).jump_stack,
            opt && multiply_matches(old(self).instructions@) ==> {
                let before = old(self).instructions@;
                &&& fused == Some(
                    Instruction::Multiply(
                        before[before.len() - 3]->Move_0,
                        before[before.len() - 2]->Add_0,
                    ),
                )
                &&& final(self).instructions@ == before.take(before.len() - 5)
            },
            !(opt && multiply_matches(old(self).instructions@)) ==> fused.is_none() && final(self).instructions == old(self).instructions,
    {
        if !opt {
            return None;
        }
        let len = self.instructions.len();
        if len < 5 {
            return None;
        }
        match (
            self.instructions[len - 5],
            self.instructions[len - 4],
            self.instructions[len - 3],
            self.instructions[len - 2],
            self.instructions[len - 1],
        ) {
            (
                Instruction::JumpIfZero(_),
                Instruction::Add(255),
                Instruction::Move(x),
                Instruction::Add(n),
                Instruction::Move(y),
            ) => {
                if y != isize::MIN && x == -y {
                    self.remove_n(5);
                    Some(Instruction::Multiply(x, n))
                } else {
                    None
                }
            },
            _ => None,
        }
    }

    /// Replaces a loop head and a `Move` at the end of the instructions by
    /// nothing and returns the `MoveUntilZero`, if the rewrite is on and they
    /// are there.
    fn try_parse_move_until_zero(&mut self, opt: bool) -> (fused: Option<Instruction>)
        requires
            old(self).inv(),
        ensures
            final(self).contents == old(self).contents,
            final(self).idx == old(self).idx,
            final(self).jump_stack == old(self).jump_stack,
            opt && move_until_zero_matches(old(self).instructions@) ==> {
                let before = old(self).instructions@;
                &&& fused == Some(Instruction::MoveUntilZero(before[before.len() - 1]->Move_0))
                &&& final(self).instructions@ == before.take(before.len() - 2)
            },
            !(opt && move_until_zero_matches(old(self).instructions@)) ==> fused.is_none()
                && final(self).instructions == old(self).instructions,
    {
        if !opt {
            return None;
        }
        let len = self.instructions.len();
        if len < 2 {
            return None;
        }
        match (self.instructions[len - 2], self.instructions[len - 1]) {
            (Instruction::JumpIfZero(_), Instruction::Move(n)) => {
                self.remove_n(2);
                Some(Instruction::MoveUntilZero(n))
            },
            _ => None,
        }
    }

    /// Drops the last `count` instructions.
    fn remove_n(&mut self, count: usize)
        requires
            count <= old(self).instructions@.len(),
        ensures
            final(self).contents == old(self).contents,
            final(self).idx == old(self).idx,
            final(self).jump_stack == old(self).jump_stack,
            final(self).instructions@ == old(self).instructions@.take(
                old(self).instructions@.len() - count,
            ),
    {
        let keep = self.instructions.len() - count;
        self.instructions.truncate(keep);
        assert(self.instructions@ =~= old(self).instructions@.take(keep as int));
    }

    /// The byte at the reading position, `None` at the end of the text or
    /// behind it. The reading position moves on by one in either case.
    fn next(&mut self) -> (byte: Option<u8>)
        requires
            old(self).idx < usize::MAX,
        ensures
            final(self).contents == old(self).contents,
            final(self).instructions == old(self).instructions,
            final(self).jump_stack == old(self).jump_stack,
            final(self).idx == old(self).idx + 1,
            old(self).idx < old(self).contents@.len() ==> byte == Some(
                old(self).contents@[old(self).idx as int],
            ),
            old(self).idx >= old(self).contents@.len() ==> byte.is_none(),
    {
        let byte = self.peek();
        self.idx += 1;

        byte
    }

    /// The byte at the reading position; `None` at the end of the text.
    fn peek(&self) -> (byte: Option<u8>)
        ensures
            self.contents@.len() <= usize::MAX,
            self.idx < self.contents@.len() ==> byte == Some(self.contents@[self.idx as int]),
            self.idx >= self.contents@.len() ==> byte.is_none(),
    {
        if self.idx < self.contents.len() {
            Some(self.contents[self.idx])
        } else {
            None
        }
    }
}

} // verus!
