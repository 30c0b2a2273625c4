use crate::brackets::{lemma_depth_push, lemma_prefix_never_underflows};
use crate::fasm::{emit_fold, loops_close, Emission};
use crate::ir::{
    flushed, lemma_lowered_cells, lower_fold, lower_step, lowered, lowering_start, Instruction,
};
use crate::lex::Token;
use crate::machine::{ir_depth, ir_never_underflows, ir_weight, runnable};
use crate::parse::{depth, never_underflows};
use vstd::prelude::*;

verus! {

/// The depth after one more instruction.
pub proof fn lemma_ir_depth_push(ir: Seq<Instruction>, ins: Instruction)
    ensures
        ir_depth(ir.push(ins)) == ir_depth(ir) + ir_weight(ins),
{
    assert(ir.push(ins).drop_last() =~= ir);
}

/// One more instruction keeps a program from underflowing if the depth after
/// it is not negative.
pub proof fn lemma_ir_push_never_underflows(ir: Seq<Instruction>, ins: Instruction)
    requires
        ir_never_underflows(ir),
        ir_depth(ir.push(ins)) >= 0,
    ensures
        ir_never_underflows(ir.push(ins)),
{
    let longer = ir.push(ins);
    assert forall|k: int| 0 <= k <= longer.len() implies #[trigger] ir_depth(longer.take(k))
        >= 0 by {
        if k <= ir.len() {
            assert(longer.take(k) =~= ir.take(k));
        } else {
            assert(longer.take(k) =~= longer);
        }
    }
}

/// Lowering keeps the brackets: the instructions have the depth of the
/// tokens, and underflow no more than they do.
pub proof fn lemma_lowered_depth(tokens: Seq<Token>)
    requires
        never_underflows(tokens),
    ensures
        ir_depth(lowered(tokens)) == depth(tokens),
        ir_never_underflows(lowered(tokens)),
    decreases tokens.len(),
{
    if tokens.len() > 0 {
        let init = tokens.drop_last();
        let last = tokens.last();
        assert(tokens =~= init.push(last));
        assert(tokens.take(tokens.len() as int) =~= tokens);
        lemma_prefix_never_underflows(tokens, tokens.len() - 1);
        lemma_lowered_depth(init);
        lemma_depth_push(init, last);
        let st = lower_fold(lowering_start(), init);
        let written = flushed(st);
        if st.delta != 0 {
            let sum = Instruction::Sum(st.delta as i32, st.cell as usize);
            lemma_ir_depth_push(st.emitted, sum);
            lemma_ir_push_never_underflows(st.emitted, sum);
        }
        let after = lower_step(st, last.token_type).emitted;
        if after != st.emitted && after != written {
            let op = after.last();
            lemma_ir_depth_push(written, op);
            lemma_ir_push_never_underflows(written, op);
        }
    }
}

/// The instructions of a stream that never underflows can be run.
pub proof fn lemma_lowered_runnable(tokens: Seq<Token>)
    requires
        never_underflows(tokens),
    ensures
        runnable(lowered(tokens)),
{
    lemma_lowered_cells(tokens);
    lemma_lowered_depth(tokens);
}

/// A generator with `st.open.len()` loops open closes every loop of a program
/// whose depth never falls below the negative of that number, and has as
/// many loops open in the end as the depth says.
pub proof fn lemma_loops_close_by_depth(st: Emission, ir: Seq<Instruction>)
    requires
        forall|k: int| 0 <= k <= ir.len() ==> st.open.len() + #[trigger] ir_depth(ir.take(k)) >= 0,
    ensures
        loops_close(st, ir),
        emit_fold(st, ir).open.len() == st.open.len() + ir_depth(ir),
    decreases ir.len(),
{
    if ir.len() > 0 {
        let init = ir.drop_last();
        assert(ir.take(ir.len() as int) =~= ir);
        assert forall|k: int| 0 <= k <= init.len() implies st.open.len() + #[trigger] ir_depth(
            init.take(k),
        ) >= 0 by {
            assert(init.take(k) =~= ir.take(k));
        }
        lemma_loops_close_by_depth(st, init);
        assert(ir_depth(ir) == ir_depth(init) + ir_weight(ir.last()));
    }
}

} // verus!
