use crate::ir::Instruction;
use crate::lex::{Token, TokenType};
use crate::machine::{
    after, blank_tape, bumped, fresh_machine, ir_effect, ir_start, ir_step, lemma_bumped_wraps,
    run_ir, run_tokens, runnable, token_effect, token_step, written, Machine, Run, Step,
};
use crate::parse::never_underflows;
use crate::sound::{
    ir_loops_fit, ir_sound, lemma_fit_longer, lemma_ir_loop_is_open, lemma_ir_step_sound,
    lemma_loop_is_open, lemma_step_sound, loops_fit, sound,
};
use crate::tape::{move_left, move_right, TAPE_LEN};
use crate::text::{decimal, push_decimal};
use vstd::arithmetic::div_mod::lemma_fundamental_div_mod;
use vstd::prelude::*;
use vstd::string::*;

verus! {

/// What running a program for a while came to.
pub struct Outcome {
    /// The bytes written, in the order they were written.
    pub output: Vec<u8>,
    /// How many bytes of the input were read.
    pub consumed: usize,
    /// The program came to its end; otherwise the step limit stopped it.
    pub finished: bool,
}

/// An outcome says what the run says.
pub open spec fn agrees(out: Outcome, run: Run) -> bool {
    &&& out.output@ == run.output
    &&& out.consumed == run.consumed
    &&& out.finished == run.done
}

/// The first `n` cells in decimal, each followed by a space.
pub open spec fn dump(tape: Seq<u8>, n: int) -> Seq<char>
    decreases n,
{
    if n <= 0 {
        Seq::empty()
    } else {
        dump(tape, n - 1) + decimal(tape[n - 1] as nat) + seq![' ']
    }
}

fn add_delta(value: u8, delta: i32) -> (sum: u8)
    ensures
        sum == bumped(value, delta as int),
{
    let low: u16 = if delta >= 0 {
        (delta % 256) as u16
    } else {
        let back: i64 = (-(delta as i64)) % 256;
        ((256 - back) % 256) as u16
    };
    proof {
        let turns: int = if delta >= 0 {
            delta as int / 256
        } else if (-delta) % 256 == 0 {
            -((-delta) / 256)
        } else {
            -((-delta) / 256) - 1
        };
        lemma_fundamental_div_mod(delta as int, 256);
        lemma_fundamental_div_mod(-delta, 256);
        lemma_bumped_wraps(value, low as int, turns);
    }
    ((value as u16 + low) % 256) as u8
}

/// The interpreter: a program of tokens, and the machine it runs on.
pub struct Runner {
    ins: usize,
    ptr: usize,
    tokens: Vec<Token>,
    stack: Vec<(usize, usize)>,
    tape: Vec<u8>,
}

impl Runner {
    /// The tokens of the program.
    pub closed spec fn program(&self) -> Seq<Token> {
        self.tokens@
    }

    /// The state of the machine.
    pub closed spec fn machine(&self) -> Machine {
        Machine { tape: self.tape@, ptr: self.ptr, pc: self.ins, stack: self.stack@ }
    }

    /// The tape has its full length and the pointer stands on it.
    pub open spec fn laid_out(&self) -> bool {
        &&& self.machine().tape.len() == TAPE_LEN
        &&& self.machine().ptr < TAPE_LEN
    }

    /// The machine can run the program: the tape is laid out, no `]` of the
    /// program comes without an open `[`, and the open loops fit the program.
    pub open spec fn wf(&self) -> bool {
        sound(self.program(), self.machine())
    }

    /// A runner at the start of `tokens`, with a tape of zeros. Any tokens
    /// make a runner; it can run them if no `]` among them comes without an
    /// open `[`.
    pub fn new(tokens: Vec<Token>) -> (runner: Runner)
        ensures
            runner.program() == tokens@,
            runner.machine() == fresh_machine(),
            runner.laid_out(),
            runner.wf() <==> never_underflows(tokens@),
    {
        let tape: Vec<u8> = vec![0u8; TAPE_LEN];
        proof {
            reveal(loops_fit);
            assert(tape@ =~= blank_tape());
            assert(tokens@.len() == tokens.len());
        }
        Self { ins: 0, ptr: 0, tokens, stack: Vec::new(), tape }
    }

    /// The program has been run to its end.
    pub fn finished(&self) -> (done: bool)
        ensures
            done == (self.machine().pc >= self.program().len()),
    {
        self.ins >= self.tokens.len()
    }

    /// The next step is a `Read`: it takes a byte of input.
    pub fn wants_input(&self) -> (wants: bool)
        ensures
            wants == (self.machine().pc < self.program().len()
                && self.program()[self.machine().pc as int].token_type is Read),
    {
        if self.ins < self.tokens.len() {
            match self.tokens[self.ins].token_type() {
                TokenType::Read => true,
                _ => false,
            }
        } else {
            false
        }
    }

    /// The data pointer.
    pub fn ptr(&self) -> (ptr: usize)
        ensures
            ptr == self.machine().ptr,
    {
        self.ptr
    }

    /// The program counter.
    pub fn pc(&self) -> (pc: usize)
        ensures
            pc == self.machine().pc,
    {
        self.ins
    }

    /// The byte in the cell `index`.
    pub fn cell(&self, index: usize) -> (value: u8)
        requires
            self.laid_out(),
            index < TAPE_LEN,
        ensures
            value == self.machine().tape[index as int],
    {
        self.tape[index]
    }

    /// Runs the token at the program counter, if there is one. `input` is the
    /// byte for a `Read`, or `None` at the end of the input, which leaves the
    /// cell as it is; other tokens do not look at it.
    pub fn step(&mut self, input: Option<u8>) -> (effect: Step)
        requires
            old(self).wf(),
        ensures
            final(self).wf(),
            final(self).program() == old(self).program(),
            old(self).machine().pc < old(self).program().len() ==> {
                &&& final(self).machine() == token_step(
                    old(self).program(),
                    old(self).machine(),
                    input,
                )
                &&& effect == token_effect(old(self).program(), old(self).machine())
            },
            old(self).machine().pc >= old(self).program().len() ==> {
                &&& final(self).machine() == old(self).machine()
                &&& effect == Step::Done
            },
    {
        if self.ins >= self.tokens.len() {
            return Step::Done;
        }
        let kind = self.tokens[self.ins].token_type();
        let mut effect = Step::Continue;
        proof {
            lemma_step_sound(self.program(), self.machine(), input);
            if kind is LoopEnd {
                lemma_loop_is_open(self.program(), self.machine());
            }
        }
        match kind {
            TokenType::Increment => {
                let value = self.tape[self.ptr];
                self.tape.set(self.ptr, add_delta(value, 1));
            },
            TokenType::Decrement => {
                let value = self.tape[self.ptr];
                self.tape.set(self.ptr, add_delta(value, -1));
            },
            TokenType::MoveRight => {
                self.ptr = move_right(self.ptr);
            },
            TokenType::MoveLeft => {
                self.ptr = move_left(self.ptr);
            },
            TokenType::LoopStart => {
                self.stack.push((self.ptr, self.ins));
            },
            TokenType::LoopEnd => {
                let top = self.stack[self.stack.len() - 1];
                if self.tape[top.0] == 0 {
                    self.stack.pop();
                } else {
                    self.ins = top.1;
                }
            },
            TokenType::Print => {
                effect = Step::Output(self.tape[self.ptr]);
            },
            TokenType::Read => {
                if let Some(byte) = input {
                    self.tape.set(self.ptr, byte);
                }
            },
            TokenType::Eof => {
                effect = Step::Done;
            },
        }
        self.ins += 1;
        effect
    }

    /// Runs the program from where it stands for at most `limit` steps, with
    /// `input` as the bytes to read. A later call goes on from where this
    /// one stopped.
    pub fn run(&mut self, input: &[u8], limit: usize) -> (out: Outcome)
        requires
            old(self).wf(),
        ensures
            final(self).wf(),
            final(self).program() == old(self).program(),
            final(self).machine() == run_tokens(
                old(self).program(),
                old(self).machine(),
                input@,
                limit as nat,
            ).machine,
            agrees(out, run_tokens(old(self).program(), old(self).machine(), input@, limit as nat)),
    {
        let ghost whole = run_tokens(self.program(), self.machine(), input@, limit as nat);
        let mut output: Vec<u8> = Vec::new();
        let mut consumed: usize = 0;
        let mut steps: usize = 0;
        assert(input@.skip(0) =~= input@);
        while steps < limit
            invariant
                self.wf(),
                self.program() == old(self).program(),
                steps <= limit,
                consumed <= input@.len(),
                whole == run_tokens(old(self).program(), old(self).machine(), input@, limit as nat),
                whole == after(
                    output@,
                    consumed as int,
                    run_tokens(
                        self.program(),
                        self.machine(),
                        input@.skip(consumed as int),
                        (limit - steps) as nat,
                    ),
                ),
            decreases limit - steps,
        {
            if self.finished() {
                return Outcome { output, consumed, finished: true };
            }
            let ghost rest = input@.skip(consumed as int);
            let ghost sofar = output@;
            let ghost taken_before = consumed;
            let feed = if self.wants_input() && consumed < input.len() {
                let byte = input[consumed];
                consumed += 1;
                Some(byte)
            } else {
                None
            };
            let effect = self.step(feed);
            proof {
                if taken_before < input@.len() {
                    assert(rest.skip(1) =~= input@.skip(taken_before + 1));
                }
                assert(rest.skip(0) =~= rest);
            }
            match effect {
                Step::Output(byte) => {
                    output.push(byte);
                },
                Step::Done => {
                    return Outcome { output, consumed, finished: true };
                },
                Step::Continue => {},
            }
            steps += 1;
            proof {
                let tail = run_tokens(
                    self.program(),
                    self.machine(),
                    input@.skip(consumed as int),
                    (limit - steps) as nat,
                );
                assert((sofar + written(effect)) + tail.output =~= sofar + (written(effect)
                    + tail.output));
                assert(output@ =~= sofar + written(effect));
            }
        }
        let finished = self.finished();
        Outcome { output, consumed, finished }
    }

    /// Runs the instruction at `pc` on the tape, with `stack` as the open
    /// loops, and returns the next program counter and what the step asks for.
    fn apply(
        &mut self,
        ins: &Vec<Instruction>,
        pc: usize,
        stack: &mut Vec<(usize, usize)>,
        input: Option<u8>,
    ) -> (res: (usize, Step))
        requires
            pc < ins@.len(),
            ir_sound(
                ins@,
                Machine { tape: old(self).tape@, ptr: old(self).ptr, pc, stack: old(stack)@ },
            ),
        ensures
            final(self).tokens == old(self).tokens,
            final(self).ins == old(self).ins,
            final(self).ptr == old(self).ptr,
            final(self).stack == old(self).stack,
            (Machine {
                tape: final(self).tape@,
                ptr: final(self).ptr,
                pc: res.0,
                stack: final(stack)@,
            }) == ir_step(
                ins@,
                Machine { tape: old(self).tape@, ptr: old(self).ptr, pc, stack: old(stack)@ },
                input,
            ),
            res.1 == ir_effect(
                ins@,
                Machine { tape: old(self).tape@, ptr: old(self).ptr, pc, stack: old(stack)@ },
            ),
    {
        let ghost m = Machine { tape: self.tape@, ptr: self.ptr, pc, stack: stack@ };
        let mut next: usize = pc + 1;
        let mut effect = Step::Continue;
        match ins[pc] {
            Instruction::Sum(delta, cell) => {
                let value = self.tape[cell];
                self.tape.set(cell, add_delta(value, delta));
            },
            Instruction::Read(cell) => {
                if let Some(byte) = input {
                    self.tape.set(cell, byte);
                }
            },
            Instruction::Print(cell) => {
                effect = Step::Output(self.tape[cell]);
            },
            Instruction::LoopStart(cell) => {
                stack.push((cell, pc));
            },
            Instruction::LoopEnd(cell) => {
                proof {
                    lemma_ir_loop_is_open(ins@, m);
                }
                if self.tape[cell] == 0 {
                    stack.pop();
                } else {
                    next = stack[stack.len() - 1].1 + 1;
                }
            },
        }
        (next, effect)
    }

    /// Runs the instructions from the first one on this runner's tape, for at
    /// most `limit` steps, with `input` as the bytes to read. The data
    /// pointer and the token program stay as they are.
    pub fn run_ins(&mut self, ins: &Vec<Instruction>, input: &[u8], limit: usize) -> (out: Outcome)
        requires
            old(self).laid_out(),
            runnable(ins@),
        ensures
            final(self).laid_out(),
            old(self).wf() ==> final(self).wf(),
            final(self).program() == old(self).program(),
            final(self).machine() == (Machine {
                tape: run_ir(
                    ins@,
                    ir_start(old(self).machine()),
                    input@,
                    limit as nat,
                ).machine.tape,
                ..old(self).machine()
            }),
            agrees(out, run_ir(ins@, ir_start(old(self).machine()), input@, limit as nat)),
    {
        let ghost whole = run_ir(ins@, ir_start(self.machine()), input@, limit as nat);
        let mut output: Vec<u8> = Vec::new();
        let mut stack: Vec<(usize, usize)> = Vec::new();
        let mut pc: usize = 0;
        let mut consumed: usize = 0;
        let mut steps: usize = 0;
        proof {
            reveal(ir_loops_fit);
            assert(ins@.len() == ins.len());
            assert(input@.skip(0) =~= input@);
        }
        while steps < limit && pc < ins.len()
            invariant
                self.tokens == old(self).tokens,
                self.ins == old(self).ins,
                self.ptr == old(self).ptr,
                self.stack == old(self).stack,
                steps <= limit,
                consumed <= input@.len(),
                ir_sound(ins@, Machine { tape: self.tape@, ptr: self.ptr, pc, stack: stack@ }),
                whole == run_ir(ins@, ir_start(old(self).machine()), input@, limit as nat),
                whole == after(
                    output@,
                    consumed as int,
                    run_ir(
                        ins@,
                        Machine { tape: self.tape@, ptr: self.ptr, pc, stack: stack@ },
                        input@.skip(consumed as int),
                        (limit - steps) as nat,
                    ),
                ),
            decreases limit - steps,
        {
            let ghost m = Machine { tape: self.tape@, ptr: self.ptr, pc, stack: stack@ };
            let ghost rest = input@.skip(consumed as int);
            let ghost sofar = output@;
            let ghost taken_before = consumed;
            let reads = match ins[pc] {
                Instruction::Read(_) => true,
                _ => false,
            };
            let feed = if reads && consumed < input.len() {
                let byte = input[consumed];
                consumed += 1;
                Some(byte)
            } else {
                None
            };
            proof {
                lemma_ir_step_sound(ins@, m, feed);
            }
            let (next, effect) = self.apply(ins, pc, &mut stack, feed);
            pc = next;
            if let Step::Output(byte) = effect {
                output.push(byte);
            }
            steps += 1;
            proof {
                if taken_before < input@.len() {
                    assert(rest.skip(1) =~= input@.skip(taken_before + 1));
                }
                assert(rest.skip(0) =~= rest);
                let tail = run_ir(
                    ins@,
                    Machine { tape: self.tape@, ptr: self.ptr, pc, stack: stack@ },
                    input@.skip(consumed as int),
                    (limit - steps) as nat,
                );
                assert((sofar + written(effect)) + tail.output =~= sofar + (written(effect)
                    + tail.output));
                assert(output@ =~= sofar + written(effect));
            }
        }
        Outcome { output, consumed, finished: pc >= ins.len() }
    }

    /// The first `val` cells of the tape in decimal, each followed by a space.
    pub fn print_tape(&self, val: usize) -> (text: String)
        requires
            self.laid_out(),
            val <= TAPE_LEN,
        ensures
            text@ == dump(self.machine().tape, val as int),
    {
        let mut text = String::new();
        let mut i: usize = 0;
        while i < val
            invariant
                i <= val <= TAPE_LEN,
                self.tape@.len() == TAPE_LEN,
                text@ == dump(self.tape@, i as int),
            decreases val - i,
        {
            proof {
                reveal_strlit(" ");
            }
            push_decimal(&mut text, self.tape[i] as u64);
            text.append(" ");
            i += 1;
        }
        text
    }

    /// Appends `tokens` to the program and leaves that vector empty.
    /// Nothing is run and the machine stays as it is, so the next run goes on
    /// into the new tokens. A runner that could run its program can run the
    /// longer one if no `]` of it comes without an open `[`.
    pub fn add(&mut self, tokens: &mut Vec<Token>)
        ensures
            final(self).program() == old(self).program() + old(tokens)@,
            final(self).machine() == old(self).machine(),
            final(tokens)@ == Seq::<Token>::empty(),
            old(self).wf() && never_underflows(old(self).program() + old(tokens)@)
                ==> final(self).wf(),
    {
        proof {
            if self.wf() {
                lemma_fit_longer(self.tokens@, tokens@, self.ins as int, self.stack@);
            }
        }
        self.tokens.append(tokens);
        assert(self.tokens@.len() == self.tokens.len());
    }
}

} // verus!
