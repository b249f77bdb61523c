//! The execution engine: a program, a wrapping tape of byte cells and two
//! pointers, advanced one instruction at a time.
use vstd::prelude::*;
use vstd::arithmetic::div_mod::{
    lemma_small_mod, lemma_add_mod_noop, lemma_sub_mod_noop, lemma_mod_add_multiples_vanish,
    lemma_mod_sub_multiples_vanish,
};
use crate::instruction::{Instruction, LoadError, RuntimeError, all_tokens};
use crate::brackets::{balanced, resolution_of, process_loops, lemma_resolution_idempotent};
use crate::loader::{encode, check_tokens, load_optimised, load_unoptimised};

verus! {

/// The mutable state of a machine: tape contents and the two pointers.
pub struct Config {
    pub tape: Seq<u8>,
    pub ip: int,
    pub dp: int,
}

/// The program has run off its end.
pub open spec fn ended(p: Seq<Instruction>, c: Config) -> bool {
    c.ip >= p.len()
}

/// The next instruction is a `Read`.
pub open spec fn needs_input(p: Seq<Instruction>, c: Config) -> bool {
    0 <= c.ip < p.len() && p[c.ip] is Read
}

/// The state after executing the instruction at `c.ip`; `input` is the byte a
/// `Read` stores.
pub open spec fn next_config(p: Seq<Instruction>, c: Config, input: u8) -> Config {
    let n = c.tape.len() as int;
    let cell = c.tape[c.dp];
    let advance = c.ip + 1;
    match p[c.ip] {
        Instruction::MoveRight(k) => Config { tape: c.tape, ip: advance, dp: (c.dp + k) % n },
        Instruction::MoveLeft(k) => Config { tape: c.tape, ip: advance, dp: (c.dp - k) % n },
        Instruction::Increment(k) => Config {
            tape: c.tape.update(c.dp, ((cell + k) % 256) as u8),
            ip: advance,
            dp: c.dp,
        },
        Instruction::Decrement(k) => Config {
            tape: c.tape.update(c.dp, ((cell - k) % 256) as u8),
            ip: advance,
            dp: c.dp,
        },
        Instruction::Clear => Config { tape: c.tape.update(c.dp, 0u8), ip: advance, dp: c.dp },
        Instruction::LoopStart(t) => Config {
            tape: c.tape,
            ip: if cell == 0 { t as int } else { advance },
            dp: c.dp,
        },
        Instruction::LoopEnd(t) => Config {
            tape: c.tape,
            ip: if cell != 0 { t as int } else { advance },
            dp: c.dp,
        },
        Instruction::Read => Config { tape: c.tape.update(c.dp, input), ip: advance, dp: c.dp },
        Instruction::Write => Config { tape: c.tape, ip: advance, dp: c.dp },
    }
}

/// The bytes written by executing the instruction at `c.ip`.
pub open spec fn step_output(p: Seq<Instruction>, c: Config) -> Seq<u8> {
    if p[c.ip] is Write {
        seq![c.tape[c.dp]]
    } else {
        seq![]
    }
}

/// What a bounded run produces: the final state, the bytes written and the
/// error that stopped it, if any.
pub struct Trace {
    pub config: Config,
    pub output: Seq<u8>,
    pub error: Option<RuntimeError>,
}

impl Trace {
    /// The same trace with the instruction pointer of its final state replaced.
    pub open spec fn with_ip(self, ip: int) -> Trace {
        Trace { config: Config { ip, ..self.config }, ..self }
    }
}

/// Executes at most `fuel` instructions of `p` from `c`, reading bytes from
/// the front of `input`; stops early when the program ends or a `Read` finds
/// no input.
pub open spec fn run_trace(p: Seq<Instruction>, c: Config, input: Seq<u8>, fuel: nat) -> Trace
    decreases fuel,
{
    if fuel == 0 || ended(p, c) {
        Trace { config: c, output: seq![], error: None }
    } else if needs_input(p, c) && input.len() == 0 {
        Trace { config: c, output: seq![], error: Some(RuntimeError::InputExhausted) }
    } else {
        let reads = needs_input(p, c);
        let byte = if reads { input[0] } else { 0u8 };
        let rest = run_trace(
            p,
            next_config(p, c, byte),
            if reads { input.drop_first() } else { input },
            (fuel - 1) as nat,
        );
        Trace { config: rest.config, output: step_output(p, c) + rest.output, error: rest.error }
    }
}

/// The byte a step hands to a `Read`.
pub open spec fn input_byte(input: Option<u8>) -> u8 {
    match input {
        Some(b) => b,
        None => 0,
    }
}

/// What one step returns: the byte a `Write` emits, or the error of a `Read`
/// that finds no input.
pub open spec fn step_result(p: Seq<Instruction>, c: Config, input: Option<u8>) -> Result<
    Option<u8>,
    RuntimeError,
> {
    if needs_input(p, c) && input is None {
        Err(RuntimeError::InputExhausted)
    } else if p[c.ip] is Write {
        Ok(Some(c.tape[c.dp]))
    } else {
        Ok(None)
    }
}

/// The state after one step; a `Read` without input leaves it unchanged.
pub open spec fn step_config(p: Seq<Instruction>, c: Config, input: Option<u8>) -> Config {
    if needs_input(p, c) && input is None {
        c
    } else {
        next_config(p, c, input_byte(input))
    }
}

/// A program, a tape of byte cells, an instruction pointer and a data pointer.
pub struct Machine {
    program: Vec<Instruction>,
    data: Vec<u8>,
    instruction_pointer: usize,
    data_pointer: usize,
}

impl Machine {
    /// The loaded program.
    pub closed spec fn program_view(&self) -> Seq<Instruction> {
        self.program@
    }

    /// Tape and pointers.
    pub closed spec fn config(&self) -> Config {
        Config {
            tape: self.data@,
            ip: self.instruction_pointer as int,
            dp: self.data_pointer as int,
        }
    }

    /// The tape is non-empty, the data pointer lies on it, and the program's
    /// brackets are balanced and resolved.
    pub open spec fn wf(&self) -> bool {
        &&& self.config().tape.len() >= 1
        &&& 0 <= self.config().dp < self.config().tape.len()
        &&& 0 <= self.config().ip
        &&& balanced(self.program_view())
        &&& resolution_of(self.program_view(), self.program_view())
    }

    /// A machine with no program and a tape of `size` zeroed cells.
    pub fn new(size: usize) -> (r: Machine)
        requires
            size >= 1,
        ensures
            r.wf(),
            r.program_view().len() == 0,
            r.config() == (Config { tape: Seq::new(size as nat, |i: int| 0u8), ip: 0, dp: 0 }),
    {
        let mut data: Vec<u8> = Vec::new();
        let mut i: usize = 0;
        while i < size
            invariant
                i <= size,
                data@ =~= Seq::new(i as nat, |j: int| 0u8),
            decreases size - i,
        {
            data.push(0);
            i = i + 1;
        }
        let r = Machine { program: Vec::new(), data, instruction_pointer: 0, data_pointer: 0 };
        assert(r.config().tape =~= Seq::new(size as nat, |j: int| 0u8));
        r
    }

    /// Encodes `raw_program` (coalescing runs when `optimise` is set), resolves
    /// its brackets and installs it with the instruction pointer at 0. The tape
    /// and data pointer are kept. On failure nothing changes: `UnknownToken`
    /// when a character is not an instruction character, else `UnbalancedLoops`
    /// when the brackets do not nest.
    pub fn load_program(&mut self, raw_program: Vec<char>, optimise: bool) -> (r: Result<
        (),
        LoadError,
    >)
        requires
            old(self).wf(),
        ensures
            final(self).wf(),
            !all_tokens(raw_program@) ==> r == Err::<(), LoadError>(LoadError::UnknownToken),
            all_tokens(raw_program@) && !balanced(encode(raw_program@, optimise)) ==> r == Err::<
                (),
                LoadError,
            >(LoadError::UnbalancedLoops),
            all_tokens(raw_program@) && balanced(encode(raw_program@, optimise)) ==> r is Ok,
            r is Err ==> *final(self) == *old(self),
            r is Ok ==> resolution_of(encode(raw_program@, optimise), final(self).program_view())
                && final(self).config() == (Config { ip: 0, ..old(self).config() }),
    {
        if !check_tokens(&raw_program) {
            return Err(LoadError::UnknownToken);
        }
        let mut program = if optimise {
            load_optimised(&raw_program)
        } else {
            load_unoptimised(&raw_program)
        };
        let ghost encoded = program@;
        match process_loops(&mut program) {
            Ok(()) => {
                proof {
                    lemma_resolution_idempotent(encoded, program@);
                }
                self.program = program;
                self.instruction_pointer = 0;
                Ok(())
            },
            Err(e) => Err(e),
        }
    }

    /// The loaded program.
    pub fn current_program(&self) -> (r: &[Instruction])
        ensures
            r@ == self.program_view(),
    {
        self.program.as_slice()
    }

    /// The tape.
    pub fn tape(&self) -> (r: &[u8])
        ensures
            r@ == self.config().tape,
    {
        self.data.as_slice()
    }

    /// Index of the next instruction.
    pub fn instruction_pointer(&self) -> (r: usize)
        ensures
            r as int == self.config().ip,
    {
        self.instruction_pointer
    }

    /// Index of the current cell.
    pub fn data_pointer(&self) -> (r: usize)
        ensures
            r as int == self.config().dp,
    {
        self.data_pointer
    }

    /// Whether the instruction pointer has reached the end of the program.
    pub fn has_program_ended(&self) -> (r: bool)
        ensures
            r == ended(self.program_view(), self.config()),
    {
        self.instruction_pointer >= self.program.len()
    }

    /// Whether the next instruction is a `Read`, which needs an input byte.
    pub fn awaits_input(&self) -> (r: bool)
        ensures
            r == needs_input(self.program_view(), self.config()),
    {
        self.instruction_pointer < self.program.len() && matches!(
            self.program[self.instruction_pointer],
            Instruction::Read
        )
    }
}

impl Machine {
    /// The invariant plus a pending instruction: what every instruction
    /// helper below needs.
    spec fn running(&self) -> bool {
        self.wf() && !ended(self.program_view(), self.config())
    }

    /// The same program and a tape of the same length.
    spec fn same_frame(&self, other: &Machine) -> bool {
        self.program@ == other.program@ && self.data@.len() == other.data@.len()
    }

    fn next_instruction(&mut self)
        requires
            old(self).running(),
        ensures
            final(self).same_frame(old(self)),
            final(self).config() == (Config { ip: old(self).config().ip + 1, ..old(self).config() }),
    {
        let len = self.program.len();
        assert(self.instruction_pointer < len);
        self.instruction_pointer = self.instruction_pointer + 1;
    }

    fn move_right(&mut self, amount: usize)
        requires
            old(self).running(),
        ensures
            final(self).same_frame(old(self)),
            final(self).config() == (Config {
                ip: old(self).config().ip + 1,
                dp: (old(self).config().dp + amount) % (old(self).config().tape.len() as int),
                ..old(self).config()
            }),
    {
        let n = self.data.len();
        let k = amount % n;
        let dp = self.data_pointer;
        proof {
            lemma_small_mod(dp as nat, n as nat);
            lemma_add_mod_noop(dp as int, amount as int, n as int);
        }
        if dp >= n - k {
            proof {
                lemma_mod_add_multiples_vanish(dp + k - n, n as int);
                lemma_small_mod((dp + k - n) as nat, n as nat);
            }
            self.data_pointer = dp - (n - k);
        } else {
            proof {
                lemma_small_mod((dp + k) as nat, n as nat);
            }
            self.data_pointer = dp + k;
        }
        self.next_instruction()
    }

    fn move_left(&mut self, amount: usize)
        requires
            old(self).running(),
        ensures
            final(self).same_frame(old(self)),
            final(self).config() == (Config {
                ip: old(self).config().ip + 1,
                dp: (old(self).config().dp - amount) % (old(self).config().tape.len() as int),
                ..old(self).config()
            }),
    {
        let n = self.data.len();
        let k = amount % n;
        let dp = self.data_pointer;
        proof {
            lemma_small_mod(dp as nat, n as nat);
            lemma_sub_mod_noop(dp as int, amount as int, n as int);
        }
        if dp >= k {
            proof {
                lemma_small_mod((dp - k) as nat, n as nat);
            }
            self.data_pointer = dp - k;
        } else {
            proof {
                lemma_mod_sub_multiples_vanish(dp - k + n, n as int);
                lemma_small_mod((dp - k + n) as nat, n as nat);
            }
            self.data_pointer = dp + (n - k);
        }
        self.next_instruction()
    }

    /// Stores `value` in the current cell.
    fn set_current(&mut self, value: u8)
        requires
            old(self).running(),
        ensures
            final(self).same_frame(old(self)),
            final(self).running(),
            final(self).config() == (Config {
                tape: old(self).config().tape.update(old(self).config().dp, value),
                ..old(self).config()
            }),
    {
        let dp = self.data_pointer;
        self.data.set(dp, value);
    }

    /// Stores `value` in the current cell and moves to the next instruction.
    fn store_and_advance(&mut self, value: u8)
        requires
            old(self).running(),
        ensures
            final(self).same_frame(old(self)),
            final(self).config() == (Config {
                tape: old(self).config().tape.update(old(self).config().dp, value),
                ip: old(self).config().ip + 1,
                dp: old(self).config().dp,
            }),
    {
        self.set_current(value);
        self.next_instruction()
    }

    fn increment(&mut self, amount: u8)
        requires
            old(self).running(),
        ensures
            final(self).same_frame(old(self)),
            final(self).config() == (Config {
                tape: old(self).config().tape.update(
                    old(self).config().dp,
                    ((old(self).config().tape[old(self).config().dp] + amount) % 256) as u8,
                ),
                ip: old(self).config().ip + 1,
                dp: old(self).config().dp,
            }),
    {
        let v = self.data[self.data_pointer].wrapping_add(amount);
        self.store_and_advance(v)
    }

    fn decrement(&mut self, amount: u8)
        requires
            old(self).running(),
        ensures
            final(self).same_frame(old(self)),
            final(self).config() == (Config {
                tape: old(self).config().tape.update(
                    old(self).config().dp,
                    ((old(self).config().tape[old(self).config().dp] - amount) % 256) as u8,
                ),
                ip: old(self).config().ip + 1,
                dp: old(self).config().dp,
            }),
    {
        let v = self.data[self.data_pointer].wrapping_sub(amount);
        self.store_and_advance(v)
    }

    fn clear(&mut self)
        requires
            old(self).running(),
        ensures
            final(self).same_frame(old(self)),
            final(self).config() == (Config {
                tape: old(self).config().tape.update(old(self).config().dp, 0u8),
                ip: old(self).config().ip + 1,
                dp: old(self).config().dp,
            }),
    {
        self.store_and_advance(0)
    }

    /// Jumps to `pointer` when the current cell is zero.
    fn loop_start(&mut self, pointer: usize)
        requires
            old(self).running(),
        ensures
            final(self).same_frame(old(self)),
            final(self).config() == (Config {
                ip: if old(self).config().tape[old(self).config().dp] == 0 {
                    pointer as int
                } else {
                    old(self).config().ip + 1
                },
                ..old(self).config()
            }),
    {
        if self.data[self.data_pointer] == 0 {
            self.instruction_pointer = pointer;
        } else {
            self.next_instruction()
        }
    }

    /// Jumps to `pointer` when the current cell is not zero.
    fn loop_end(&mut self, pointer: usize)
        requires
            old(self).running(),
        ensures
            final(self).same_frame(old(self)),
            final(self).config() == (Config {
                ip: if old(self).config().tape[old(self).config().dp] != 0 {
                    pointer as int
                } else {
                    old(self).config().ip + 1
                },
                ..old(self).config()
            }),
    {
        if self.data[self.data_pointer] != 0 {
            self.instruction_pointer = pointer;
        } else {
            self.next_instruction()
        }
    }

    fn read_input(&mut self, byte: u8)
        requires
            old(self).running(),
        ensures
            final(self).same_frame(old(self)),
            final(self).config() == (Config {
                tape: old(self).config().tape.update(old(self).config().dp, byte),
                ip: old(self).config().ip + 1,
                dp: old(self).config().dp,
            }),
    {
        self.store_and_advance(byte)
    }

    fn write_output(&mut self) -> (r: u8)
        requires
            old(self).running(),
        ensures
            final(self).same_frame(old(self)),
            final(self).config() == (Config { ip: old(self).config().ip + 1, ..old(self).config() }),
            r == old(self).config().tape[old(self).config().dp],
    {
        let r = self.data[self.data_pointer];
        self.next_instruction();
        r
    }

    /// Executes the instruction at the instruction pointer. A `Read` stores
    /// `input`, and fails with `InputExhausted`, changing nothing, when it is
    /// `None`; other instructions ignore `input`. A `Write` returns the byte
    /// it emits.
    pub fn step(&mut self, input: Option<u8>) -> (r: Result<Option<u8>, RuntimeError>)
        requires
            old(self).wf(),
            !ended(old(self).program_view(), old(self).config()),
        ensures
            final(self).wf(),
            final(self).program_view() == old(self).program_view(),
            r == step_result(old(self).program_view(), old(self).config(), input),
            final(self).config() == step_config(old(self).program_view(), old(self).config(), input),
    {
        match self.program[self.instruction_pointer] {
            Instruction::MoveRight(amount) => self.move_right(amount),
            Instruction::MoveLeft(amount) => self.move_left(amount),
            Instruction::Increment(amount) => self.increment(amount),
            Instruction::Decrement(amount) => self.decrement(amount),
            Instruction::Clear => self.clear(),
            Instruction::LoopStart(pointer) => self.loop_start(pointer),
            Instruction::LoopEnd(pointer) => self.loop_end(pointer),
            Instruction::Read => {
                match input {
                    Some(byte) => self.read_input(byte),
                    None => {
                        return Err(RuntimeError::InputExhausted);
                    },
                }
            },
            Instruction::Write => {
                let byte = self.write_output();
                return Ok(Some(byte));
            },
        }
        Ok(None)
    }

    /// Runs until the program ends or `max_steps` instructions have been
    /// executed, feeding `Read`s from `input` in order. Returns the bytes
    /// written, or `InputExhausted` when a `Read` finds the input used up.
    pub fn run(&mut self, input: &Vec<u8>, max_steps: usize) -> (r: Result<Vec<u8>, RuntimeError>)
        requires
            old(self).wf(),
        ensures
            final(self).wf(),
            final(self).program_view() == old(self).program_view(),
            final(self).config() == run_trace(
                old(self).program_view(),
                old(self).config(),
                input@,
                max_steps as nat,
            ).config,
            r is Ok ==> run_trace(
                old(self).program_view(),
                old(self).config(),
                input@,
                max_steps as nat,
            ).error is None && r->Ok_0@ == run_trace(
                old(self).program_view(),
                old(self).config(),
                input@,
                max_steps as nat,
            ).output,
            r is Err ==> run_trace(
                old(self).program_view(),
                old(self).config(),
                input@,
                max_steps as nat,
            ).error == Some(r->Err_0),
    {
        let ghost p = self.program_view();
        let ghost t0 = run_trace(p, self.config(), input@, max_steps as nat);
        let mut output: Vec<u8> = Vec::new();
        let mut pos: usize = 0;
        let mut steps: usize = 0;
        assert(input@.skip(0) =~= input@);
        while steps < max_steps && !self.has_program_ended()
            invariant
                self.wf(),
                self.program_view() == p,
                p == old(self).program_view(),
                t0 == run_trace(p, old(self).config(), input@, max_steps as nat),
                pos <= input@.len(),
                steps <= max_steps,
                t0.config == run_trace(
                    p,
                    self.config(),
                    input@.skip(pos as int),
                    (max_steps - steps) as nat,
                ).config,
                t0.output == output@ + run_trace(
                    p,
                    self.config(),
                    input@.skip(pos as int),
                    (max_steps - steps) as nat,
                ).output,
                t0.error == run_trace(
                    p,
                    self.config(),
                    input@.skip(pos as int),
                    (max_steps - steps) as nat,
                ).error,
            decreases max_steps - steps,
        {
            let ghost c = self.config();
            let ghost rest = input@.skip(pos as int);
            let ghost before = output@;
            let reads = self.awaits_input();
            let byte = if reads && pos < input.len() {
                Some(input[pos])
            } else {
                None
            };
            match self.step(byte) {
                Ok(Some(b)) => {
                    output.push(b);
                },
                Ok(None) => {},
                Err(e) => {
                    return Err(e);
                },
            }
            if reads {
                assert(rest.drop_first() =~= input@.skip(pos + 1));
                pos = pos + 1;
            }
            assert(output@ =~= before + step_output(p, c));
            steps = steps + 1;
        }
        proof {
            let t = run_trace(p, self.config(), input@.skip(pos as int), (max_steps - steps) as nat);
            assert(t.output =~= Seq::<u8>::empty());
            assert(output@ + t.output =~= output@);
        }
        Ok(output)
    }
}

} // verus!
