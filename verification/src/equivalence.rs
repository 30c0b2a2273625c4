use crate::machine::{
    after, bumped, ir_effect, ir_step, run_ir, run_tokens, token_effect, token_step, written,
    Machine, Run, Step,
};
use crate::ir::{
    cell_of, fits, flushed, lemma_lowering_bounds, lower_fold, lower_step, lowered, lowering_start,
    Instruction, Lowering,
};
use crate::laws::{lemma_bumped_full_turn, lemma_bumped_twice, lemma_run_resumes};
use crate::lex::{Token, TokenType};
use crate::tape::{left_of, right_of, TAPE_LEN};
use vstd::prelude::*;

verus! {

/// A tape and the cell the pointer stands on.
pub struct Place {
    pub tape: Seq<u8>,
    pub ptr: usize,
}

/// Only `+`, `-`, `>` and `<`: no loop, no input, no output.
pub open spec fn straight(tokens: Seq<Token>) -> bool {
    forall|i: int|
        0 <= i < tokens.len() ==> {
            ||| (#[trigger] tokens[i]).token_type is Increment
            ||| tokens[i].token_type is Decrement
            ||| tokens[i].token_type is MoveRight
            ||| tokens[i].token_type is MoveLeft
        }
}

/// What one of `+ - > <` does to tape and pointer.
pub open spec fn moved(at: Place, kind: TokenType) -> Place {
    match kind {
        TokenType::Increment => Place {
            tape: at.tape.update(at.ptr as int, bumped(at.tape[at.ptr as int], 1)),
            ..at
        },
        TokenType::Decrement => Place {
            tape: at.tape.update(at.ptr as int, bumped(at.tape[at.ptr as int], -1)),
            ..at
        },
        TokenType::MoveRight => Place { ptr: right_of(at.ptr as int) as usize, ..at },
        TokenType::MoveLeft => Place { ptr: left_of(at.ptr as int) as usize, ..at },
        _ => at,
    }
}

/// Tape and pointer after a straight stream.
pub open spec fn walked(at: Place, tokens: Seq<Token>) -> Place
    decreases tokens.len(),
{
    if tokens.len() == 0 {
        at
    } else {
        moved(walked(at, tokens.drop_last()), tokens.last().token_type)
    }
}

/// Only `Sum`, each on a cell of the tape.
pub open spec fn sums_only(ir: Seq<Instruction>) -> bool {
    forall|i: int|
        0 <= i < ir.len() ==> (#[trigger] ir[i]) is Sum && cell_of(ir[i]) < TAPE_LEN
}

/// The tape after a cell has had `delta` added.
pub open spec fn with_sum(tape: Seq<u8>, cell: int, delta: int) -> Seq<u8> {
    if 0 <= cell < tape.len() {
        tape.update(cell, bumped(tape[cell], delta))
    } else {
        tape
    }
}

/// The tape after a program of sums.
pub open spec fn summed(tape: Seq<u8>, ir: Seq<Instruction>) -> Seq<u8>
    decreases ir.len(),
{
    if ir.len() == 0 {
        tape
    } else {
        match ir.last() {
            Instruction::Sum(delta, cell) => with_sum(
                summed(tape, ir.drop_last()),
                cell as int,
                delta as int,
            ),
            _ => summed(tape, ir.drop_last()),
        }
    }
}

/// The machine at the start of a program, on a given tape with the pointer
/// on the first cell.
pub open spec fn at_start(tape: Seq<u8>) -> Machine {
    Machine { tape, ptr: 0, pc: 0, stack: Seq::empty() }
}

/// A straight stream keeps the tape's length and the pointer on the tape.
pub proof fn lemma_walked_bounds(at: Place, tokens: Seq<Token>)
    requires
        at.tape.len() == TAPE_LEN,
        at.ptr < TAPE_LEN,
    ensures
        walked(at, tokens).tape.len() == TAPE_LEN,
        walked(at, tokens).ptr < TAPE_LEN,
    decreases tokens.len(),
{
    if tokens.len() > 0 {
        lemma_walked_bounds(at, tokens.drop_last());
    }
}

/// A program of sums keeps the tape's length.
pub proof fn lemma_summed_len(tape: Seq<u8>, ir: Seq<Instruction>)
    ensures
        summed(tape, ir).len() == tape.len(),
    decreases ir.len(),
{
    if ir.len() > 0 {
        lemma_summed_len(tape, ir.drop_last());
    }
}

/// The first `k` steps of a stream that begins with `k` straight tokens do
/// to tape and pointer what those tokens say, write nothing and read nothing.
pub proof fn lemma_straight_steps(tokens: Seq<Token>, tape: Seq<u8>, input: Seq<u8>, k: nat)
    requires
        tape.len() == TAPE_LEN,
        k <= tokens.len() <= usize::MAX,
        straight(tokens.take(k as int)),
    ensures
        run_tokens(tokens, at_start(tape), input, k) == (Run {
            machine: Machine {
                tape: walked(Place { tape, ptr: 0 }, tokens.take(k as int)).tape,
                ptr: walked(Place { tape, ptr: 0 }, tokens.take(k as int)).ptr,
                pc: k as usize,
                stack: Seq::empty(),
            },
            output: Seq::empty(),
            consumed: 0,
            done: k >= tokens.len(),
        }),
    decreases k,
{
    let start = at_start(tape);
    let origin = Place { tape, ptr: 0 };
    if k == 0 {
        assert(tokens.take(0) =~= Seq::<Token>::empty());
    } else {
        let before = tokens.take(k - 1);
        let upto = tokens.take(k as int);
        assert(upto.drop_last() =~= before);
        assert(upto.last() == tokens[k - 1]);
        assert forall|i: int| 0 <= i < before.len() implies {
            ||| (#[trigger] before[i]).token_type is Increment
            ||| before[i].token_type is Decrement
            ||| before[i].token_type is MoveRight
            ||| before[i].token_type is MoveLeft
        } by {
            assert(before[i] == upto[i]);
        }
        lemma_straight_steps(tokens, tape, input, (k - 1) as nat);
        lemma_walked_bounds(origin, before);
        lemma_run_resumes(tokens, start, input, (k - 1) as nat, 1);
        let head = run_tokens(tokens, start, input, (k - 1) as nat);
        let here = head.machine;
        let kind = tokens[k - 1].token_type;
        assert(upto[k - 1].token_type == kind);
        assert(input.skip(0) =~= input);
        let stepped = token_step(tokens, here, None);
        let stop = run_tokens(tokens, stepped, input, 0);
        assert(stop.machine == stepped);
        assert(stop.output =~= Seq::<u8>::empty());
        let last = run_tokens(tokens, here, input, 1);
        assert(token_effect(tokens, here) == Step::Continue);
        assert(last == after(written(Step::Continue), 0, stop));
        let whole = run_tokens(tokens, start, input, k);
        assert(whole == after(head.output, head.consumed, last));
        assert(whole.output =~= Seq::<u8>::empty());
        assert(walked(origin, upto) == moved(walked(origin, before), kind));
    }
}

/// A run of instructions reads no more bytes than the input holds.
pub proof fn lemma_ir_consumed_bounds(
    ir: Seq<Instruction>,
    m: Machine,
    input: Seq<u8>,
    limit: nat,
)
    ensures
        0 <= run_ir(ir, m, input, limit).consumed <= input.len(),
    decreases limit,
{
    if m.pc < ir.len() && limit > 0 {
        let reads = ir[m.pc as int] is Read && input.len() > 0;
        let feed = if reads {
            Some(input[0])
        } else {
            None
        };
        let taken: int = if reads {
            1
        } else {
            0
        };
        lemma_ir_consumed_bounds(ir, ir_step(ir, m, feed), input.skip(taken), (limit - 1) as nat);
    }
}

/// A run of instructions can be taken up again: running for `first + more`
/// steps is running for `first` steps and, unless the program is done by
/// then, for `more` steps from the machine and the input that the first run
/// left.
pub proof fn lemma_run_ir_resumes(
    ir: Seq<Instruction>,
    m: Machine,
    input: Seq<u8>,
    first: nat,
    more: nat,
)
    ensures
        run_ir(ir, m, input, first).done ==> run_ir(ir, m, input, first + more) == run_ir(
            ir,
            m,
            input,
            first,
        ),
        !run_ir(ir, m, input, first).done ==> run_ir(ir, m, input, first + more) == after(
            run_ir(ir, m, input, first).output,
            run_ir(ir, m, input, first).consumed,
            run_ir(
                ir,
                run_ir(ir, m, input, first).machine,
                input.skip(run_ir(ir, m, input, first).consumed),
                more,
            ),
        ),
    decreases first,
{
    if m.pc >= ir.len() {
        // the run is done before its first step
    } else if first == 0 {
        assert(input.skip(0) =~= input);
        assert(Seq::<u8>::empty() + run_ir(ir, m, input, more).output =~= run_ir(
            ir,
            m,
            input,
            more,
        ).output);
    } else {
        let reads = ir[m.pc as int] is Read && input.len() > 0;
        let feed = if reads {
            Some(input[0])
        } else {
            None
        };
        let taken: int = if reads {
            1
        } else {
            0
        };
        let effect = ir_effect(ir, m);
        let stepped = ir_step(ir, m, feed);
        let rest = input.skip(taken);
        lemma_run_ir_resumes(ir, stepped, rest, (first - 1) as nat, more);
        lemma_ir_consumed_bounds(ir, stepped, rest, (first - 1) as nat);
        let inner = run_ir(ir, stepped, rest, (first - 1) as nat);
        if !inner.done {
            let tail = run_ir(ir, inner.machine, rest.skip(inner.consumed), more);
            assert(rest.skip(inner.consumed) =~= input.skip(taken + inner.consumed));
            assert(written(effect) + (inner.output + tail.output) =~= (written(effect)
                + inner.output) + tail.output);
        }
    }
}

/// The first `k` steps of a program of sums add the first `k` sums to the
/// tape, write nothing and read nothing.
pub proof fn lemma_sum_steps(ir: Seq<Instruction>, tape: Seq<u8>, input: Seq<u8>, k: nat)
    requires
        tape.len() == TAPE_LEN,
        k <= ir.len() <= usize::MAX,
        sums_only(ir),
    ensures
        run_ir(ir, at_start(tape), input, k) == (Run {
            machine: Machine {
                tape: summed(tape, ir.take(k as int)),
                ptr: 0,
                pc: k as usize,
                stack: Seq::empty(),
            },
            output: Seq::empty(),
            consumed: 0,
            done: k >= ir.len(),
        }),
    decreases k,
{
    let start = at_start(tape);
    if k == 0 {
        assert(ir.take(0) =~= Seq::<Instruction>::empty());
    } else {
        let before = ir.take(k - 1);
        let upto = ir.take(k as int);
        assert(upto.drop_last() =~= before);
        assert(upto.last() == ir[k - 1]);
        lemma_sum_steps(ir, tape, input, (k - 1) as nat);
        lemma_summed_len(tape, before);
        lemma_run_ir_resumes(ir, start, input, (k - 1) as nat, 1);
        let head = run_ir(ir, start, input, (k - 1) as nat);
        let here = head.machine;
        assert(input.skip(0) =~= input);
        let stepped = ir_step(ir, here, None);
        let stop = run_ir(ir, stepped, input, 0);
        assert(stop.machine == stepped);
        assert(stop.output =~= Seq::<u8>::empty());
        let last = run_ir(ir, here, input, 1);
        assert(ir[k - 1] is Sum);
        assert(ir_effect(ir, here) == Step::Continue);
        assert(last == after(written(Step::Continue), 0, stop));
        let whole = run_ir(ir, start, input, k);
        assert(whole == after(head.output, head.consumed, last));
        assert(whole.output =~= Seq::<u8>::empty());
    }
}

/// Lowering a straight stream keeps its meaning: the tape the stream leaves
/// is the tape its instructions leave, with the pending sum added to the cell
/// under the cursor; and the cursor is where the pointer is.
pub proof fn lemma_lowering_walks(tokens: Seq<Token>, tape: Seq<u8>)
    requires
        tape.len() == TAPE_LEN,
        straight(tokens),
        fits(tokens),
    ensures
        sums_only(lower_fold(lowering_start(), tokens).emitted),
        lower_fold(lowering_start(), tokens).emitted.len() <= tokens.len(),
        walked(Place { tape, ptr: 0 }, tokens).ptr == lower_fold(lowering_start(), tokens).cell,
        walked(Place { tape, ptr: 0 }, tokens).tape == with_sum(
            summed(tape, lower_fold(lowering_start(), tokens).emitted),
            lower_fold(lowering_start(), tokens).cell,
            lower_fold(lowering_start(), tokens).delta,
        ),
    decreases tokens.len(),
{
    let origin = Place { tape, ptr: 0 };
    if tokens.len() == 0 {
        lemma_bumped_full_turn(tape[0]);
        assert(with_sum(tape, 0, 0) =~= tape);
    } else {
        let init = tokens.drop_last();
        let kind = tokens.last().token_type;
        assert(init =~= tokens.take(tokens.len() - 1));
        assert(tokens.take(tokens.len() as int) =~= tokens);
        assert forall|i: int| 0 <= i < init.len() implies {
            ||| (#[trigger] init[i]).token_type is Increment
            ||| init[i].token_type is Decrement
            ||| init[i].token_type is MoveRight
            ||| init[i].token_type is MoveLeft
        } by {
            assert(init[i] == tokens[i]);
        }
        assert forall|k: int| 0 <= k <= init.len() implies i32::MIN <= #[trigger] lower_fold(
            lowering_start(),
            init.take(k),
        ).delta <= i32::MAX by {
            assert(init.take(k) =~= tokens.take(k));
        }
        lemma_lowering_walks(init, tape);
        lemma_lowering_bounds(init);
        lemma_walked_bounds(origin, init);
        let st = lower_fold(lowering_start(), init);
        let at = walked(origin, init);
        let base = summed(tape, st.emitted);
        lemma_summed_len(tape, st.emitted);
        let cell = st.cell;
        assert(i32::MIN <= lower_fold(lowering_start(), tokens.take(tokens.len() - 1)).delta
            <= i32::MAX);
        assert(tokens[tokens.len() - 1] == tokens.last());
        match kind {
            TokenType::Increment => {
                lemma_bumped_twice(base[cell], st.delta, 1);
                assert(moved(at, kind).tape =~= with_sum(base, cell, st.delta + 1));
            },
            TokenType::Decrement => {
                lemma_bumped_twice(base[cell], st.delta, -1);
                assert(moved(at, kind).tape =~= with_sum(base, cell, st.delta - 1));
            },
            _ => {
                let out = flushed(st);
                if st.delta != 0 {
                    let sum = Instruction::Sum(st.delta as i32, st.cell as usize);
                    assert(out.drop_last() =~= st.emitted);
                    assert(out.last() == sum);
                    assert(summed(tape, out) == with_sum(base, cell, st.delta));
                    assert forall|i: int| 0 <= i < out.len() implies (#[trigger] out[i]) is Sum
                        && cell_of(out[i]) < TAPE_LEN by {
                        if i < st.emitted.len() {
                            assert(out[i] == st.emitted[i]);
                        }
                    }
                } else {
                    lemma_bumped_full_turn(base[cell]);
                    assert(with_sum(base, cell, 0) =~= base);
                }
                let after = lower_step(st, kind);
                lemma_summed_len(tape, out);
                lemma_bumped_full_turn(summed(tape, out)[after.cell]);
                assert(with_sum(summed(tape, out), after.cell, 0) =~= summed(tape, out));
            },
        }
    }
}

/// Folding is correct: a stream of `+ - > <` closed by `Eof` lowers to sums
/// only and, run on any tape with the pointer on the first cell, comes to its
/// end and leaves the tape that its instructions leave when they are run on
/// the same tape.
pub proof fn lemma_folding_keeps_the_tape(
    body: Seq<Token>,
    eof: Token,
    tape: Seq<u8>,
    input: Seq<u8>,
    limit: nat,
    ir_limit: nat,
)
    requires
        straight(body),
        eof.token_type is Eof,
        fits(body.push(eof)),
        tape.len() == TAPE_LEN,
        body.len() < usize::MAX,
        limit > body.len(),
        ir_limit >= lowered(body.push(eof)).len(),
    ensures
        sums_only(lowered(body.push(eof))),
        run_tokens(body.push(eof), at_start(tape), input, limit).done,
        run_ir(lowered(body.push(eof)), at_start(tape), input, ir_limit).done,
        run_tokens(body.push(eof), at_start(tape), input, limit).machine.tape == run_ir(
            lowered(body.push(eof)),
            at_start(tape),
            input,
            ir_limit,
        ).machine.tape,
{
    let tokens = body.push(eof);
    let n = body.len();
    let origin = Place { tape, ptr: 0 };
    assert(tokens.drop_last() =~= body);
    assert forall|k: int| 0 <= k <= body.len() implies i32::MIN <= #[trigger] lower_fold(
        lowering_start(),
        body.take(k),
    ).delta <= i32::MAX by {
        assert(body.take(k) =~= tokens.take(k));
    }
    // the tokens
    lemma_straight_steps(tokens, tape, input, n);
    lemma_run_resumes(tokens, at_start(tape), input, n, (limit - n) as nat);
    // the instructions
    lemma_lowering_walks(body, tape);
    lemma_lowering_bounds(body);
    let st = lower_fold(lowering_start(), body);
    let ir = lowered(tokens);
    if st.delta != 0 {
        assert(ir.drop_last() =~= st.emitted);
    }
    lemma_sum_steps(ir, tape, input, ir.len());
    lemma_run_ir_resumes(ir, at_start(tape), input, ir.len(), (ir_limit - ir.len()) as nat);
    assert(ir.take(ir.len() as int) =~= ir);
}

} // verus!
