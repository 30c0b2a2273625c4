use crate::ir::{cell_of, Instruction};
use crate::lex::{Token, TokenType};
use crate::tape::{left_of, right_of, TAPE_LEN};
use vstd::arithmetic::div_mod::lemma_mod_multiples_vanish;
use vstd::prelude::*;

verus! {

/// The state of the machine: the tape, the data pointer, the program counter
/// and the loops that are open. Each open loop is the cell it was entered on
/// and the place of its `[`; the innermost comes last.
pub struct Machine {
    pub tape: Seq<u8>,
    pub ptr: usize,
    pub pc: usize,
    pub stack: Seq<(usize, usize)>,
}

/// What one step asks of the outside world.
#[derive(Debug, Clone, Copy, PartialEq, Eq, Structural)]
pub enum Step {
    /// Nothing: go on with the next step.
    Continue,
    /// Write this byte to the output, then go on.
    Output(u8),
    /// The program has come to its end.
    Done,
}

/// What a run comes to: the machine it leaves, the bytes it wrote, the number
/// of input bytes it read, and whether the program came to its end.
pub struct Run {
    pub machine: Machine,
    pub output: Seq<u8>,
    pub consumed: int,
    pub done: bool,
}

/// A tape of zeros.
pub open spec fn blank_tape() -> Seq<u8> {
    Seq::new(TAPE_LEN as nat, |i: int| 0u8)
}

/// The machine before the first step.
pub open spec fn fresh_machine() -> Machine {
    Machine { tape: blank_tape(), ptr: 0, pc: 0, stack: Seq::empty() }
}

/// A cell's value after `delta` is added to it, modulo 256.
pub open spec fn bumped(value: u8, delta: int) -> u8 {
    ((value + delta) % 256) as u8
}

/// The machine after the token at its program counter. `input` is the byte a
/// `Read` receives; with `None`, the end of the input, the cell keeps its value.
/// A `]` looks at the cell its loop was entered on.
pub open spec fn token_step(tokens: Seq<Token>, m: Machine, input: Option<u8>) -> Machine {
    let next = (m.pc + 1) as usize;
    match tokens[m.pc as int].token_type {
        TokenType::Increment => Machine {
            tape: m.tape.update(m.ptr as int, bumped(m.tape[m.ptr as int], 1)),
            pc: next,
            ..m
        },
        TokenType::Decrement => Machine {
            tape: m.tape.update(m.ptr as int, bumped(m.tape[m.ptr as int], -1)),
            pc: next,
            ..m
        },
        TokenType::MoveRight => Machine { ptr: right_of(m.ptr as int) as usize, pc: next, ..m },
        TokenType::MoveLeft => Machine { ptr: left_of(m.ptr as int) as usize, pc: next, ..m },
        TokenType::LoopStart => Machine { stack: m.stack.push((m.ptr, m.pc)), pc: next, ..m },
        TokenType::LoopEnd => if m.stack.len() == 0 {
            Machine { pc: next, ..m }
        } else if m.tape[m.stack.last().0 as int] == 0 {
            Machine { stack: m.stack.drop_last(), pc: next, ..m }
        } else {
            Machine { pc: (m.stack.last().1 + 1) as usize, ..m }
        },
        TokenType::Print => Machine { pc: next, ..m },
        TokenType::Read => match input {
            Some(byte) => Machine { tape: m.tape.update(m.ptr as int, byte), pc: next, ..m },
            None => Machine { pc: next, ..m },
        },
        TokenType::Eof => Machine { pc: next, ..m },
    }
}

/// What the token at the program counter asks of the outside world.
pub open spec fn token_effect(tokens: Seq<Token>, m: Machine) -> Step {
    match tokens[m.pc as int].token_type {
        TokenType::Print => Step::Output(m.tape[m.ptr as int]),
        TokenType::Eof => Step::Done,
        _ => Step::Continue,
    }
}

/// The machine after the instruction at its program counter. Every
/// instruction works on the cell it carries; the data pointer plays no part.
pub open spec fn ir_step(ir: Seq<Instruction>, m: Machine, input: Option<u8>) -> Machine {
    let next = (m.pc + 1) as usize;
    match ir[m.pc as int] {
        Instruction::Sum(delta, cell) => Machine {
            tape: m.tape.update(cell as int, bumped(m.tape[cell as int], delta as int)),
            pc: next,
            ..m
        },
        Instruction::Read(cell) => match input {
            Some(byte) => Machine { tape: m.tape.update(cell as int, byte), pc: next, ..m },
            None => Machine { pc: next, ..m },
        },
        Instruction::Print(_) => Machine { pc: next, ..m },
        Instruction::LoopStart(cell) => Machine {
            stack: m.stack.push((cell, m.pc)),
            pc: next,
            ..m
        },
        Instruction::LoopEnd(cell) => if m.stack.len() == 0 {
            Machine { pc: next, ..m }
        } else if m.tape[cell as int] == 0 {
            Machine { stack: m.stack.drop_last(), pc: next, ..m }
        } else {
            Machine { pc: (m.stack.last().1 + 1) as usize, ..m }
        },
    }
}

/// What the instruction at the program counter asks of the outside world.
pub open spec fn ir_effect(ir: Seq<Instruction>, m: Machine) -> Step {
    match ir[m.pc as int] {
        Instruction::Print(cell) => Step::Output(m.tape[cell as int]),
        _ => Step::Continue,
    }
}

/// The bytes a step writes.
pub open spec fn written(effect: Step) -> Seq<u8> {
    match effect {
        Step::Output(byte) => seq![byte],
        _ => Seq::empty(),
    }
}

/// A run that went on as `rest` after `output` was written and `consumed`
/// bytes were read.
pub open spec fn after(output: Seq<u8>, consumed: int, rest: Run) -> Run {
    Run {
        machine: rest.machine,
        output: output + rest.output,
        consumed: consumed + rest.consumed,
        done: rest.done,
    }
}

/// Running the tokens from the machine `m` for at most `limit` steps. Input
/// bytes are taken from the front of `input`, one for each `Read`, as long as
/// there are any. The run is done when the program counter has passed the last
/// token, or has passed an `Eof`.
pub open spec fn run_tokens(tokens: Seq<Token>, m: Machine, input: Seq<u8>, limit: nat) -> Run
    decreases limit,
{
    if m.pc >= tokens.len() {
        Run { machine: m, output: Seq::empty(), consumed: 0, done: true }
    } else if limit == 0 {
        Run { machine: m, output: Seq::empty(), consumed: 0, done: false }
    } else {
        let reads = tokens[m.pc as int].token_type is Read && input.len() > 0;
        let feed = if reads {
            Some(input[0])
        } else {
            None
        };
        let taken: int = if reads {
            1
        } else {
            0
        };
        let effect = token_effect(tokens, m);
        let stepped = token_step(tokens, m, feed);
        if effect is Done {
            Run { machine: stepped, output: Seq::empty(), consumed: 0, done: true }
        } else {
            after(
                written(effect),
                taken,
                run_tokens(tokens, stepped, input.skip(taken), (limit - 1) as nat),
            )
        }
    }
}

/// The machine at the start of a program of instructions, on the tape of `m`.
pub open spec fn ir_start(m: Machine) -> Machine {
    Machine { tape: m.tape, ptr: m.ptr, pc: 0, stack: Seq::empty() }
}

/// Running the instructions from the machine `m` for at most `limit` steps.
/// The run is done when the program counter has passed the last instruction.
pub open spec fn run_ir(ir: Seq<Instruction>, m: Machine, input: Seq<u8>, limit: nat) -> Run
    decreases limit,
{
    if m.pc >= ir.len() {
        Run { machine: m, output: Seq::empty(), consumed: 0, done: true }
    } else if limit == 0 {
        Run { machine: m, output: Seq::empty(), consumed: 0, done: false }
    } else {
        let reads = ir[m.pc as int] is Read && input.len() > 0;
        let feed = if reads {
            Some(input[0])
        } else {
            None
        };
        let taken: int = if reads {
            1
        } else {
            0
        };
        after(
            written(ir_effect(ir, m)),
            taken,
            run_ir(ir, ir_step(ir, m, feed), input.skip(taken), (limit - 1) as nat),
        )
    }
}

/// What an instruction adds to the nesting depth.
pub open spec fn ir_weight(ins: Instruction) -> int {
    match ins {
        Instruction::LoopStart(_) => 1,
        Instruction::LoopEnd(_) => -1,
        _ => 0,
    }
}

/// The number of `LoopStart` less the number of `LoopEnd` in `ir`.
pub open spec fn ir_depth(ir: Seq<Instruction>) -> int
    decreases ir.len(),
{
    if ir.len() == 0 {
        0
    } else {
        ir_depth(ir.drop_last()) + ir_weight(ir.last())
    }
}

/// No beginning of `ir` holds more `LoopEnd` than `LoopStart`.
pub open spec fn ir_never_underflows(ir: Seq<Instruction>) -> bool {
    forall|k: int| 0 <= k <= ir.len() ==> #[trigger] ir_depth(ir.take(k)) >= 0
}

/// Every instruction works on a cell of the tape, and no `LoopEnd` comes
/// without an open loop.
pub open spec fn runnable(ir: Seq<Instruction>) -> bool {
    &&& forall|i: int| 0 <= i < ir.len() ==> cell_of(#[trigger] ir[i]) < TAPE_LEN
    &&& ir_never_underflows(ir)
}

/// Adding a multiple of 256 does not change a cell.
pub proof fn lemma_bumped_wraps(value: u8, delta: int, turns: int)
    ensures
        bumped(value, delta + 256 * turns) == bumped(value, delta),
{
    lemma_mod_multiples_vanish(turns, value + delta, 256);
}

} // verus!
