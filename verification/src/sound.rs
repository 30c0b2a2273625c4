use crate::ir::Instruction;
use crate::lex::{Token, TokenType};
use crate::machine::{
    ir_depth, ir_step, ir_weight, runnable, token_step, Machine,
};
use crate::parse::{depth, never_underflows, weight};
use crate::tape::TAPE_LEN;
use vstd::prelude::*;

verus! {

/// The open loops fit the program: as many as the brackets before `pc`
/// leave open, each at the place of its `[`, the outer ones first and all
/// of them before `pc`.
#[verifier::opaque]
pub open spec fn loops_fit(tokens: Seq<Token>, pc: int, stack: Seq<(usize, usize)>) -> bool {
    &&& stack.len() == depth(tokens.take(pc))
    &&& forall|k: int|
        0 <= k < stack.len() ==> {
            &&& (#[trigger] stack[k]).0 < TAPE_LEN
            &&& stack[k].1 < pc
            &&& tokens[stack[k].1 as int].token_type is LoopStart
            &&& depth(tokens.take(stack[k].1 as int)) == k
            &&& (k > 0 ==> stack[k - 1].1 < stack[k].1)
        }
}

/// The same for a program of instructions.
#[verifier::opaque]
pub open spec fn ir_loops_fit(ir: Seq<Instruction>, pc: int, stack: Seq<(usize, usize)>) -> bool {
    &&& stack.len() == ir_depth(ir.take(pc))
    &&& forall|k: int|
        0 <= k < stack.len() ==> {
            &&& (#[trigger] stack[k]).1 < pc
            &&& ir[stack[k].1 as int] is LoopStart
            &&& ir_depth(ir.take(stack[k].1 as int)) == k
            &&& (k > 0 ==> stack[k - 1].1 < stack[k].1)
        }
}

/// The depth just after a token is the depth before it and its weight.
pub proof fn lemma_depth_next(tokens: Seq<Token>, i: int)
    requires
        0 <= i < tokens.len(),
    ensures
        depth(tokens.take(i + 1)) == depth(tokens.take(i)) + weight(
            tokens[i].token_type,
        ),
{
    assert(tokens.take(i + 1).drop_last() =~= tokens.take(i));
}

/// The depth just after an instruction is the depth before it and its weight.
pub proof fn lemma_ir_depth_next(ir: Seq<Instruction>, i: int)
    requires
        0 <= i < ir.len(),
    ensures
        ir_depth(ir.take(i + 1)) == ir_depth(ir.take(i)) + ir_weight(ir[i]),
{
    assert(ir.take(i + 1).drop_last() =~= ir.take(i));
}

/// The machine can run the tokens: the tape has its full length, the pointer
/// and the program counter are in range, no `]` of the program comes without
/// an open `[`, and the open loops fit the program.
pub open spec fn sound(tokens: Seq<Token>, m: Machine) -> bool {
    &&& m.tape.len() == TAPE_LEN
    &&& m.ptr < TAPE_LEN
    &&& m.pc <= tokens.len() <= usize::MAX
    &&& never_underflows(tokens)
    &&& loops_fit(tokens, m.pc as int, m.stack)
}

/// A `]` of a sound machine finds its loop open.
pub proof fn lemma_loop_is_open(tokens: Seq<Token>, m: Machine)
    requires
        sound(tokens, m),
        m.pc < tokens.len(),
        tokens[m.pc as int].token_type is LoopEnd,
    ensures
        m.stack.len() > 0,
        m.stack.last().0 < TAPE_LEN,
        m.stack.last().1 < m.pc,
{
    reveal(loops_fit);
    lemma_depth_next(tokens, m.pc as int);
}

/// The open loops still fit after a token that is no bracket.
proof fn lemma_fit_plain(tokens: Seq<Token>, pc: int, stack: Seq<(usize, usize)>)
    requires
        0 <= pc < tokens.len(),
        loops_fit(tokens, pc, stack),
        weight(tokens[pc].token_type) == 0,
    ensures
        loops_fit(tokens, pc + 1, stack),
{
    reveal(loops_fit);
    lemma_depth_next(tokens, pc);
}

/// The open loops still fit after a `[` has been entered.
proof fn lemma_fit_enter(tokens: Seq<Token>, pc: usize, stack: Seq<(usize, usize)>, cell: usize)
    requires
        pc < tokens.len(),
        loops_fit(tokens, pc as int, stack),
        tokens[pc as int].token_type is LoopStart,
        cell < TAPE_LEN,
    ensures
        loops_fit(tokens, pc + 1, stack.push((cell, pc))),
{
    reveal(loops_fit);
    lemma_depth_next(tokens, pc as int);
}

/// The open loops still fit after a `]` has left its loop.
proof fn lemma_fit_leave(tokens: Seq<Token>, pc: int, stack: Seq<(usize, usize)>)
    requires
        0 <= pc < tokens.len(),
        loops_fit(tokens, pc, stack),
        tokens[pc].token_type is LoopEnd,
        stack.len() > 0,
    ensures
        loops_fit(tokens, pc + 1, stack.drop_last()),
{
    reveal(loops_fit);
    lemma_depth_next(tokens, pc);
}

/// The places of the open loops rise along the stack.
proof fn lemma_stack_rises(stack: Seq<(usize, usize)>, top: int)
    requires
        0 <= top < stack.len(),
        forall|k: int| 0 < k < stack.len() ==> stack[k - 1].1 < (#[trigger] stack[k]).1,
    ensures
        forall|k: int| 0 <= k <= top ==> (#[trigger] stack[k]).1 <= stack[top].1,
    decreases top,
{
    if top > 0 {
        lemma_stack_rises(stack, top - 1);
    }
}

/// The open loops still fit after a `]` has sent the program back to the
/// first token of its loop.
proof fn lemma_fit_repeat(tokens: Seq<Token>, pc: int, stack: Seq<(usize, usize)>)
    requires
        0 <= pc < tokens.len(),
        loops_fit(tokens, pc, stack),
        stack.len() > 0,
    ensures
        loops_fit(tokens, stack.last().1 + 1, stack),
{
    reveal(loops_fit);
    let top = stack.len() - 1;
    lemma_depth_next(tokens, stack[top].1 as int);
    lemma_stack_rises(stack, top);
}

/// The open loops still fit when tokens are added behind the program.
pub proof fn lemma_fit_longer(
    head: Seq<Token>,
    tail: Seq<Token>,
    pc: int,
    stack: Seq<(usize, usize)>,
)
    requires
        0 <= pc <= head.len(),
        loops_fit(head, pc, stack),
    ensures
        loops_fit(head + tail, pc, stack),
{
    reveal(loops_fit);
    let whole = head + tail;
    assert(whole.take(pc) =~= head.take(pc));
    assert forall|k: int| 0 <= k < stack.len() implies {
        &&& whole[(#[trigger] stack[k]).1 as int].token_type is LoopStart
        &&& depth(whole.take(stack[k].1 as int)) == k
    } by {
        assert(whole.take(stack[k].1 as int) =~= head.take(stack[k].1 as int));
    }
}

/// A step keeps a sound machine sound.
pub proof fn lemma_step_sound(tokens: Seq<Token>, m: Machine, input: Option<u8>)
    requires
        sound(tokens, m),
        m.pc < tokens.len(),
    ensures
        sound(tokens, token_step(tokens, m, input)),
{
    let pc = m.pc as int;
    match tokens[pc].token_type {
        TokenType::LoopStart => {
            lemma_fit_enter(tokens, m.pc, m.stack, m.ptr);
        },
        TokenType::LoopEnd => {
            lemma_loop_is_open(tokens, m);
            if m.tape[m.stack.last().0 as int] == 0 {
                lemma_fit_leave(tokens, pc, m.stack);
            } else {
                lemma_fit_repeat(tokens, pc, m.stack);
            }
        },
        _ => {
            lemma_fit_plain(tokens, pc, m.stack);
        },
    }
}

/// The machine can run the instructions: the tape has its full length, the
/// program counter is in range, the program is runnable and the open loops
/// fit it.
pub open spec fn ir_sound(ir: Seq<Instruction>, m: Machine) -> bool {
    &&& m.tape.len() == TAPE_LEN
    &&& m.pc <= ir.len() <= usize::MAX
    &&& runnable(ir)
    &&& ir_loops_fit(ir, m.pc as int, m.stack)
}

/// A `LoopEnd` of a sound machine finds its loop open.
pub proof fn lemma_ir_loop_is_open(ir: Seq<Instruction>, m: Machine)
    requires
        ir_sound(ir, m),
        m.pc < ir.len(),
        ir[m.pc as int] is LoopEnd,
    ensures
        m.stack.len() > 0,
        m.stack.last().1 < m.pc,
{
    reveal(ir_loops_fit);
    lemma_ir_depth_next(ir, m.pc as int);
}

proof fn lemma_ir_fit_plain(ir: Seq<Instruction>, pc: int, stack: Seq<(usize, usize)>)
    requires
        0 <= pc < ir.len(),
        ir_loops_fit(ir, pc, stack),
        ir_weight(ir[pc]) == 0,
    ensures
        ir_loops_fit(ir, pc + 1, stack),
{
    reveal(ir_loops_fit);
    lemma_ir_depth_next(ir, pc);
}

proof fn lemma_ir_fit_enter(
    ir: Seq<Instruction>,
    pc: usize,
    stack: Seq<(usize, usize)>,
    cell: usize,
)
    requires
        pc < ir.len(),
        ir_loops_fit(ir, pc as int, stack),
        ir[pc as int] is LoopStart,
    ensures
        ir_loops_fit(ir, pc + 1, stack.push((cell, pc))),
{
    reveal(ir_loops_fit);
    lemma_ir_depth_next(ir, pc as int);
}

proof fn lemma_ir_fit_leave(ir: Seq<Instruction>, pc: int, stack: Seq<(usize, usize)>)
    requires
        0 <= pc < ir.len(),
        ir_loops_fit(ir, pc, stack),
        ir[pc] is LoopEnd,
        stack.len() > 0,
    ensures
        ir_loops_fit(ir, pc + 1, stack.drop_last()),
{
    reveal(ir_loops_fit);
    lemma_ir_depth_next(ir, pc);
}

proof fn lemma_ir_fit_repeat(ir: Seq<Instruction>, pc: int, stack: Seq<(usize, usize)>)
    requires
        0 <= pc < ir.len(),
        ir_loops_fit(ir, pc, stack),
        stack.len() > 0,
    ensures
        ir_loops_fit(ir, stack.last().1 + 1, stack),
{
    reveal(ir_loops_fit);
    let top = stack.len() - 1;
    lemma_ir_depth_next(ir, stack[top].1 as int);
    lemma_stack_rises(stack, top);
}

/// A step keeps a sound machine sound.
pub proof fn lemma_ir_step_sound(ir: Seq<Instruction>, m: Machine, input: Option<u8>)
    requires
        ir_sound(ir, m),
        m.pc < ir.len(),
    ensures
        ir_sound(ir, ir_step(ir, m, input)),
{
    let pc = m.pc as int;
    match ir[pc] {
        Instruction::LoopStart(cell) => {
            lemma_ir_fit_enter(ir, m.pc, m.stack, cell);
        },
        Instruction::LoopEnd(cell) => {
            lemma_ir_loop_is_open(ir, m);
            if m.tape[cell as int] == 0 {
                lemma_ir_fit_leave(ir, pc, m.stack);
            } else {
                lemma_ir_fit_repeat(ir, pc, m.stack);
            }
        },
        _ => {
            lemma_ir_fit_plain(ir, pc, m.stack);
        },
    }
}

} // verus!
