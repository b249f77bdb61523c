//! Encoding of filtered source characters into instructions.
use vstd::prelude::*;
use crate::instruction::{
    Instruction, is_token, is_run_token, all_tokens, run_instruction, token_instruction,
};

verus! {

/// Number of leading copies of `c` in `s`.
pub open spec fn leading(s: Seq<char>, c: char) -> nat
    decreases s.len(),
{
    if s.len() > 0 && s[0] == c {
        1 + leading(s.drop_first(), c)
    } else {
        0
    }
}

/// One instruction per token, loop targets unresolved.
pub open spec fn encode_plain(s: Seq<char>) -> Seq<Instruction> {
    Seq::new(s.len(), |i: int| token_instruction(s[i]))
}

/// Left-to-right encoding that merges each maximal run of a motion or
/// arithmetic token into one instruction and turns the three characters
/// `[-]` into `Clear`.
pub open spec fn encode_optimised(s: Seq<char>) -> Seq<Instruction>
    decreases s.len(),
    via encode_optimised_decreases
{
    if s.len() == 0 {
        seq![]
    } else if is_run_token(s[0]) {
        let k = leading(s, s[0]);
        seq![run_instruction(s[0], k)] + encode_optimised(s.skip(k as int))
    } else if s[0] == '[' && s.len() >= 3 && s[1] == '-' && s[2] == ']' {
        seq![Instruction::Clear] + encode_optimised(s.skip(3))
    } else {
        seq![token_instruction(s[0])] + encode_optimised(s.skip(1))
    }
}

#[via_fn]
proof fn encode_optimised_decreases(s: Seq<char>) {
    if s.len() > 0 && is_run_token(s[0]) {
        lemma_leading_bound(s.drop_first(), s[0]);
    }
}

/// The program a source text loads to, before bracket resolution.
pub open spec fn encode(s: Seq<char>, optimise: bool) -> Seq<Instruction> {
    if optimise {
        encode_optimised(s)
    } else {
        encode_plain(s)
    }
}

pub proof fn lemma_leading_bound(s: Seq<char>, c: char)
    ensures
        leading(s, c) <= s.len(),
    decreases s.len(),
{
    if s.len() > 0 && s[0] == c {
        lemma_leading_bound(s.drop_first(), c);
    }
}

/// A run of exactly `k` copies of `c` stands at the front of `s`.
proof fn lemma_leading_exact(s: Seq<char>, c: char, k: nat)
    requires
        k <= s.len(),
        forall|i: int| 0 <= i < k ==> s[i] == c,
        k == s.len() || s[k as int] != c,
    ensures
        leading(s, c) == k,
    decreases k,
{
    if k > 0 {
        lemma_leading_exact(s.drop_first(), c, (k - 1) as nat);
    }
}

/// Whether every character is one of the eight instruction characters.
pub fn check_tokens(raw_program: &Vec<char>) -> (r: bool)
    ensures
        r == all_tokens(raw_program@),
{
    let mut i: usize = 0;
    while i < raw_program.len()
        invariant
            i <= raw_program@.len(),
            forall|j: int| 0 <= j < i ==> is_token(#[trigger] raw_program@[j]),
        decreases raw_program@.len() - i,
    {
        if !crate::instruction::is_token_char(raw_program[i]) {
            return false;
        }
        i = i + 1;
    }
    true
}

/// The instruction for a single token.
pub fn token_to_instruction(c: char) -> (r: Instruction)
    requires
        is_token(c),
    ensures
        r == token_instruction(c),
{
    match c {
        '>' => Instruction::MoveRight(1),
        '<' => Instruction::MoveLeft(1),
        '+' => Instruction::Increment(1),
        '-' => Instruction::Decrement(1),
        '[' => Instruction::LoopStart(0),
        ']' => Instruction::LoopEnd(0),
        ',' => Instruction::Read,
        _ => Instruction::Write,
    }
}

/// One instruction per character, without coalescing.
pub fn load_unoptimised(raw_program: &Vec<char>) -> (r: Vec<Instruction>)
    requires
        all_tokens(raw_program@),
    ensures
        r@ == encode_plain(raw_program@),
{
    let mut program: Vec<Instruction> = Vec::new();
    let mut i: usize = 0;
    while i < raw_program.len()
        invariant
            i <= raw_program@.len(),
            all_tokens(raw_program@),
            program@ =~= encode_plain(raw_program@).take(i as int),
        decreases raw_program@.len() - i,
    {
        let ins = token_to_instruction(raw_program[i]);
        program.push(ins);
        i = i + 1;
    }
    assert(program@ =~= encode_plain(raw_program@));
    program
}

/// Encodes with run-coalescing and `[-]` recognition, scanning once from
/// left to right.
pub fn load_optimised(raw_program: &Vec<char>) -> (r: Vec<Instruction>)
    requires
        all_tokens(raw_program@),
    ensures
        r@ == encode_optimised(raw_program@),
{
    let ghost s = raw_program@;
    let len = raw_program.len();
    let mut program: Vec<Instruction> = Vec::new();
    let mut idx: usize = 0;
    assert(s.skip(0) =~= s);
    while idx < len
        invariant
            s == raw_program@,
            len == s.len(),
            idx <= len,
            all_tokens(s),
            encode_optimised(s) == program@ + encode_optimised(s.skip(idx as int)),
        decreases len - idx,
    {
        let ghost rest = s.skip(idx as int);
        let ghost start = idx as int;
        let token = raw_program[idx];
        assert(rest[0] == token);
        if token == '>' || token == '<' || token == '+' || token == '-' {
            let mut amount: usize = 1;
            while idx + 1 < len && raw_program[idx + 1] == token
                invariant
                    s == raw_program@,
                    len == s.len(),
                    0 <= start <= idx < len,
                    amount == idx - start + 1,
                    forall|k: int| start <= k <= idx ==> #[trigger] s[k] == token,
                decreases len - idx,
            {
                idx = idx + 1;
                amount = amount + 1;
            }
            proof {
                lemma_leading_exact(rest, token, amount as nat);
            }
            let instruction = if token == '>' {
                Instruction::MoveRight(amount)
            } else if token == '<' {
                Instruction::MoveLeft(amount)
            } else if token == '+' {
                Instruction::Increment((amount % 256) as u8)
            } else {
                Instruction::Decrement((amount % 256) as u8)
            };
            assert(instruction == run_instruction(token, amount as nat));
            assert(rest.skip(amount as int) =~= s.skip(idx + 1));
            program.push(instruction);
        } else if token == '[' && len - idx > 2 && raw_program[idx + 1] == '-' && raw_program[idx
            + 2] == ']' {
            assert(rest.skip(3) =~= s.skip(idx + 3));
            idx = idx + 2;
            program.push(Instruction::Clear);
        } else {
            assert(rest.skip(1) =~= s.skip(idx + 1));
            program.push(token_to_instruction(token));
        }
        idx = idx + 1;
    }
    assert(s.skip(len as int) =~= Seq::<char>::empty());
    assert(program@ + encode_optimised(Seq::<char>::empty()) =~= program@);
    program
}

} // verus!
