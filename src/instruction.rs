use vstd::prelude::*;

verus! {

/// One executable instruction.
///
/// Run lengths of `Increment` and `Decrement` are kept modulo 256, the width of
/// a cell: a run of `k` identical tokens is stored as `k % 256`, which has the
/// same effect on a wrapping 8-bit cell as applying the token `k` times.
/// The payload of `LoopStart` and `LoopEnd` is the jump target; it is 0 until
/// the bracket resolver patches it.
#[derive(PartialEq, Eq, Structural, Debug, Clone, Copy)]
pub enum Instruction {
    MoveRight(usize),
    MoveLeft(usize),
    Increment(u8),
    Decrement(u8),
    Clear,
    LoopStart(usize),
    LoopEnd(usize),
    Read,
    Write,
}

/// Why a source text could not be loaded.
#[derive(PartialEq, Eq, Structural, Debug, Clone, Copy)]
pub enum LoadError {
    /// A loop bracket has no partner, or brackets cross.
    UnbalancedLoops,
    /// A character outside the eight instruction characters reached the loader.
    UnknownToken,
}

/// Why execution stopped before the program ended.
#[derive(PartialEq, Eq, Structural, Debug, Clone, Copy)]
pub enum RuntimeError {
    /// A `Read` was executed with no input byte available.
    InputExhausted,
}

/// The eight characters that carry meaning in a source text.
pub open spec fn is_token(c: char) -> bool {
    c == '>' || c == '<' || c == '+' || c == '-' || c == '[' || c == ']' || c == ','
        || c == '.'
}

/// Characters whose consecutive repetitions may be coalesced into one instruction.
pub open spec fn is_run_token(c: char) -> bool {
    c == '>' || c == '<' || c == '+' || c == '-'
}

pub open spec fn all_tokens(s: Seq<char>) -> bool {
    forall|i: int| 0 <= i < s.len() ==> is_token(#[trigger] s[i])
}

/// The instruction for a run of `k` copies of the run token `c`.
pub open spec fn run_instruction(c: char, k: nat) -> Instruction {
    if c == '>' {
        Instruction::MoveRight(k as usize)
    } else if c == '<' {
        Instruction::MoveLeft(k as usize)
    } else if c == '+' {
        Instruction::Increment((k % 256) as u8)
    } else {
        Instruction::Decrement((k % 256) as u8)
    }
}

/// The instruction for a single token, with loop targets unresolved.
pub open spec fn token_instruction(c: char) -> Instruction {
    if is_run_token(c) {
        run_instruction(c, 1)
    } else if c == '[' {
        Instruction::LoopStart(0)
    } else if c == ']' {
        Instruction::LoopEnd(0)
    } else if c == ',' {
        Instruction::Read
    } else {
        Instruction::Write
    }
}

/// Whether the token is a valid instruction character.
pub fn is_token_char(c: char) -> (r: bool)
    ensures
        r == is_token(c),
{
    c == '>' || c == '<' || c == '+' || c == '-' || c == '[' || c == ']' || c == ','
        || c == '.'
}

} // verus!
