//! Execution of a compiled program on a tape, with bit-packed input and output.
//!
//! Input bytes are read least significant bit first; output bits are packed into
//! bytes least significant bit first, and a last, partial byte keeps zeros above
//! the bits written.
use vstd::prelude::*;
use crate::bits::{has_bit, is_mask, mask_bit, lemma_mask_bit, lemma_or_bit, lemma_clear_bit, lemma_zero_has_no_bit};
use crate::program::{Instruction, Program, jumps_paired};
use crate::tape::{Tape, TapeView};

verus! {

/// The state of a run: next instruction, tape, number of input bits read, bits written.
pub struct RunState {
    pub ip: int,
    pub tape: TapeView,
    pub consumed: int,
    pub written: Seq<bool>,
}

/// The state in which every run starts.
pub open spec fn start() -> RunState {
    RunState { ip: 0, tape: TapeView::fresh(), consumed: 0, written: Seq::empty() }
}

/// Bit `k` of the input stream, least significant bit of each byte first.
pub open spec fn input_bit(input: Seq<u8>, k: int) -> bool {
    has_bit(input[k / 8], k % 8)
}

/// The run is over: the instruction pointer has left the program.
pub open spec fn halted(p: Seq<Instruction>, s: RunState) -> bool {
    !(0 <= s.ip < p.len())
}

/// One step of program `p` on input `input`; a halted state stays as it is.
pub open spec fn step(p: Seq<Instruction>, input: Seq<u8>, s: RunState) -> RunState {
    if halted(p, s) {
        s
    } else {
        let next = RunState { ip: s.ip + 1, ..s };
        match p[s.ip] {
            Instruction::Read => RunState {
                tape: s.tape.written(input_bit(input, s.consumed)),
                consumed: s.consumed + 1,
                ..next
            },
            Instruction::FlipBit => RunState { tape: s.tape.flipped(), ..next },
            Instruction::JmpF(t) => if s.tape.read() {
                next
            } else {
                RunState { ip: t + 1, ..s }
            },
            Instruction::JmpT(t) => if s.tape.read() {
                RunState { ip: t + 1, ..s }
            } else {
                next
            },
            Instruction::Write => RunState { written: s.written.push(s.tape.read()), ..next },
            Instruction::IncP => RunState { tape: s.tape.moved_right(), ..next },
            Instruction::DecP => RunState { tape: s.tape.moved_left(), ..next },
        }
    }
}

/// The state after `n` steps from `s`.
pub open spec fn steps(p: Seq<Instruction>, input: Seq<u8>, s: RunState, n: nat) -> RunState
    decreases n,
{
    if n == 0 {
        s
    } else {
        steps(p, input, step(p, input, s), (n - 1) as nat)
    }
}

/// If the next instruction reads, an input bit is left for it.
pub open spec fn reads_ok(p: Seq<Instruction>, input: Seq<u8>, s: RunState) -> bool {
    !halted(p, s) && p[s.ip] is Read ==> s.consumed < 8 * input.len()
}

/// No step of the run from `s` reads past the end of the input.
pub open spec fn input_suffices(p: Seq<Instruction>, input: Seq<u8>, s: RunState) -> bool {
    forall|n: nat| reads_ok(p, input, #[trigger] steps(p, input, s, n))
}

/// `bytes` holds `bits`, eight to a byte from the least significant bit up, with
/// the unused bits of a last, partial byte clear.
pub open spec fn packs(bytes: Seq<u8>, bits: Seq<bool>) -> bool {
    &&& bytes.len() == (bits.len() + 7) / 8
    &&& forall|j: int|
        0 <= j < 8 * bytes.len() ==> #[trigger] has_bit(bytes[j / 8], j % 8) == (j < bits.len()
            && bits[j])
}

#[derive(Debug)]
pub struct Runtime {
    tape: Tape,
    ip: usize,
    input_mask: u8,
    input_position: usize,
    output_mask: u8,
    output: Vec<u8>,
    program: Program,
    input: Vec<u8>,
}

impl View for Runtime {
    type V = RunState;

    closed spec fn view(&self) -> RunState {
        RunState {
            ip: self.ip as int,
            tape: self.tape@,
            consumed: 8 * self.input_position + mask_bit(self.input_mask),
            written: Seq::new(self.bits_written(), |j: int| has_bit(self.output[j / 8], j % 8)),
        }
    }
}

impl Runtime {
    /// The program being run.
    pub closed spec fn code(&self) -> Seq<Instruction> {
        self.program@
    }

    /// The input of the run.
    pub closed spec fn data_in(&self) -> Seq<u8> {
        self.input@
    }

    /// The number of bits written so far.
    pub closed spec fn bits_written(&self) -> nat {
        if self.output.len() == 0 {
            0
        } else {
            (8 * (self.output.len() - 1) + mask_bit(self.output_mask) + 1) as nat
        }
    }

    pub closed spec fn wf(&self) -> bool {
        &&& self.tape.wf()
        &&& jumps_paired(self.program@)
        &&& self.ip <= self.program@.len()
        &&& is_mask(self.input_mask)
        &&& is_mask(self.output_mask)
        &&& self.output.len() == 0 ==> self.output_mask == 128
        &&& forall|j: int|
            self.bits_written() <= j < 8 * self.output.len() ==> !#[trigger] has_bit(
                self.output[j / 8],
                j % 8,
            )
    }

    proof fn lemma_packs(&self)
        requires
            self.wf(),
        ensures
            packs(self.output@, self@.written),
    {
        lemma_mask_bit(self.output_mask);
        let w = self.bits_written() as int;
        assert(self.output@.len() == (w + 7) / 8);
    }

    /// A run of `program` on `input`, about to execute its first instruction.
    pub fn new(program: Program, input: Vec<u8>) -> (r: Runtime)
        requires
            jumps_paired(program@),
        ensures
            r.wf(),
            r@ == start(),
            r.code() == program@,
            r.data_in() == input@,
    {
        let r = Runtime {
            tape: Tape::new(),
            ip: 0,
            input_mask: 1,
            input_position: 0,
            output_mask: 128,
            output: Vec::new(),
            program,
            input,
        };
        assert(r@.written =~= Seq::empty());
        r
    }

    /// The bytes written so far.
    pub fn output(&self) -> (r: &Vec<u8>)
        requires
            self.wf(),
        ensures
            packs(r@, self@.written),
    {
        proof {
            self.lemma_packs();
        }
        &self.output
    }

    /// Executes one instruction and returns it, or returns `None` once the run is over.
    pub fn next(&mut self) -> (r: Option<Instruction>)
        requires
            old(self).wf(),
            reads_ok(old(self).code(), old(self).data_in(), old(self)@),
        ensures
            final(self).wf(),
            final(self).code() == old(self).code(),
            final(self).data_in() == old(self).data_in(),
            final(self)@ == step(old(self).code(), old(self).data_in(), old(self)@),
            r == if halted(old(self).code(), old(self)@) {
                None
            } else {
                Some(old(self).code()[old(self)@.ip])
            },
    {
        if self.ip >= self.program.len() {
            return None;
        }
        let instruction = self.program.get(self.ip);
        match instruction {
            Instruction::FlipBit => {
                self.tape.flip();
                self.ip = self.ip + 1;
            },
            Instruction::JmpF(target) => {
                if self.tape.read() {
                    self.ip = self.ip + 1;
                } else {
                    self.ip = target + 1;
                }
            },
            Instruction::JmpT(target) => {
                if self.tape.read() {
                    self.ip = target + 1;
                } else {
                    self.ip = self.ip + 1;
                }
            },
            Instruction::Read => {
                self.read_bit();
                self.ip = self.ip + 1;
            },
            Instruction::Write => {
                self.write_bit();
                self.ip = self.ip + 1;
            },
            Instruction::IncP => {
                self.tape.inc_p();
                self.ip = self.ip + 1;
            },
            Instruction::DecP => {
                self.tape.dec_p();
                self.ip = self.ip + 1;
            },
        }
        Some(instruction)
    }

    /// Copies the next input bit onto the tape under the head.
    fn read_bit(&mut self)
        requires
            old(self).wf(),
            old(self)@.consumed < 8 * old(self).input@.len(),
        ensures
            final(self).wf(),
            final(self).program == old(self).program,
            final(self).input == old(self).input,
            final(self).ip == old(self).ip,
            final(self)@ == (RunState {
                tape: old(self)@.tape.written(input_bit(old(self).input@, old(self)@.consumed)),
                consumed: old(self)@.consumed + 1,
                ..old(self)@
            }),
    {
        let ghost before = self@;
        proof {
            lemma_mask_bit(self.input_mask);
        }
        let available = self.input.len();
        assert(self.input_position < available);
        let bit = self.input[self.input_position] & self.input_mask != 0;
        self.tape.write(bit);
        if self.input_mask == 128u8 {
            self.input_mask = 1u8;
            self.input_position = self.input_position + 1;
        } else {
            self.input_mask = self.input_mask * 2;
        }
        assert(self@.written =~= before.written);
    }

    /// Appends the bit under the head to the output.
    fn write_bit(&mut self)
        requires
            old(self).wf(),
        ensures
            final(self).wf(),
            final(self).program == old(self).program,
            final(self).input == old(self).input,
            final(self).ip == old(self).ip,
            final(self)@ == (RunState { written: old(self)@.written.push(old(self)@.tape.read()), ..old(self)@ }),
    {
        let ghost before = *self;
        let bit = self.tape.read();
        proof {
            lemma_mask_bit(self.output_mask);
        }
        if self.output_mask == 128u8 {
            self.output.push(0u8);
            self.output_mask = 1u8;
        } else {
            self.output_mask = self.output_mask * 2;
        }
        let last = self.output.len() - 1;
        let byte = self.output[last];
        if bit {
            self.output.set(last, byte | self.output_mask);
        } else {
            self.output.set(last, byte & !self.output_mask);
        }
        proof {
            let w = before.bits_written() as int;
            let b = mask_bit(self.output_mask);
            lemma_mask_bit(self.output_mask);
            assert(self.bits_written() == w + 1);
            assert forall|j: int| 0 <= j < 8 * self.output.len() implies #[trigger] has_bit(
                self.output[j / 8],
                j % 8,
            ) == if j == w {
                bit
            } else if j < w {
                has_bit(before.output[j / 8], j % 8)
            } else {
                false
            } by {
                if j / 8 == last {
                    lemma_or_bit(byte, b, j % 8);
                    lemma_clear_bit(byte, b, j % 8);
                    if j >= 8 * before.output.len() {
                        lemma_zero_has_no_bit(j % 8);
                    }
                }
            }
            assert(self@.written =~= before@.written.push(bit));
        }
    }

    /// Runs until the instruction pointer leaves the program, or for `u64::MAX`
    /// steps, whichever comes first.
    pub fn run(&mut self)
        requires
            old(self).wf(),
            input_suffices(old(self).code(), old(self).data_in(), old(self)@),
        ensures
            final(self).wf(),
            final(self).code() == old(self).code(),
            final(self).data_in() == old(self).data_in(),
            exists|n: nat|
                n <= u64::MAX && final(self)@ == #[trigger] steps(
                    old(self).code(),
                    old(self).data_in(),
                    old(self)@,
                    n,
                ) && (halted(old(self).code(), final(self)@) || n == u64::MAX),
    {
        let ghost p = self.code();
        let ghost input = self.data_in();
        let ghost s0 = self@;
        let mut left: u64 = u64::MAX;
        while left > 0 && self.ip < self.program.len()
            invariant
                self.wf(),
                self.code() == p,
                self.data_in() == input,
                input_suffices(p, input, s0),
                self@ == steps(p, input, s0, (u64::MAX - left) as nat),
            decreases left,
        {
            let ghost k = (u64::MAX - left) as nat;
            proof {
                lemma_steps_last(p, input, s0, k);
                assert(reads_ok(p, input, steps(p, input, s0, k)));
            }
            self.next();
            left = left - 1;
        }
    }

    /// Hands out the bytes written.
    pub fn into_output(self) -> (r: Vec<u8>)
        requires
            self.wf(),
        ensures
            packs(r@, self@.written),
    {
        proof {
            self.lemma_packs();
        }
        self.output
    }
}

/// One more step after `n` steps is `n + 1` steps.
pub proof fn lemma_steps_last(p: Seq<Instruction>, input: Seq<u8>, s: RunState, n: nat)
    ensures
        steps(p, input, s, n + 1) == step(p, input, steps(p, input, s, n)),
    decreases n,
{
    if n > 0 {
        lemma_steps_last(p, input, step(p, input, s), (n - 1) as nat);
        assert(steps(p, input, s, n) == steps(p, input, step(p, input, s), (n - 1) as nat));
        assert(steps(p, input, s, n + 1) == steps(p, input, step(p, input, s), n));
    } else {
        assert(steps(p, input, s, 1) == steps(p, input, step(p, input, s), 0));
    }
}

} // verus!
