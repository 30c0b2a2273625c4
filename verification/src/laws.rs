use crate::lex::Token;
use crate::machine::{
    after, bumped, lemma_bumped_wraps, run_tokens, token_effect, token_step, written, Machine,
    Run, Step,
};
use crate::parse::balanced;
use crate::sound::{lemma_step_sound, loops_fit, sound};
use crate::tape::TAPE_LEN;
use vstd::arithmetic::div_mod::lemma_fundamental_div_mod;
use vstd::prelude::*;

verus! {

/// A run reads no more bytes than the input holds.
pub proof fn lemma_consumed_bounds(tokens: Seq<Token>, m: Machine, input: Seq<u8>, limit: nat)
    ensures
        0 <= run_tokens(tokens, m, input, limit).consumed <= input.len(),
    decreases limit,
{
    if m.pc < tokens.len() && limit > 0 {
        let reads = tokens[m.pc as int].token_type is Read && input.len() > 0;
        let feed = if reads {
            Some(input[0])
        } else {
            None
        };
        let taken: int = if reads {
            1
        } else {
            0
        };
        lemma_consumed_bounds(
            tokens,
            token_step(tokens, m, feed),
            input.skip(taken),
            (limit - 1) as nat,
        );
    }
}

/// A run that the step limit stopped stands inside the program.
pub proof fn lemma_stopped_inside(tokens: Seq<Token>, m: Machine, input: Seq<u8>, limit: nat)
    requires
        !run_tokens(tokens, m, input, limit).done,
    ensures
        run_tokens(tokens, m, input, limit).machine.pc < tokens.len(),
    decreases limit,
{
    if m.pc < tokens.len() && limit > 0 {
        let reads = tokens[m.pc as int].token_type is Read && input.len() > 0;
        let feed = if reads {
            Some(input[0])
        } else {
            None
        };
        let taken: int = if reads {
            1
        } else {
            0
        };
        if !(token_effect(tokens, m) is Done) {
            lemma_stopped_inside(
                tokens,
                token_step(tokens, m, feed),
                input.skip(taken),
                (limit - 1) as nat,
            );
        }
    }
}

/// A run keeps a sound machine sound.
pub proof fn lemma_run_sound(tokens: Seq<Token>, m: Machine, input: Seq<u8>, limit: nat)
    requires
        sound(tokens, m),
    ensures
        sound(tokens, run_tokens(tokens, m, input, limit).machine),
    decreases limit,
{
    if m.pc < tokens.len() && limit > 0 {
        let reads = tokens[m.pc as int].token_type is Read && input.len() > 0;
        let feed = if reads {
            Some(input[0])
        } else {
            None
        };
        let taken: int = if reads {
            1
        } else {
            0
        };
        lemma_step_sound(tokens, m, feed);
        if !(token_effect(tokens, m) is Done) {
            lemma_run_sound(
                tokens,
                token_step(tokens, m, feed),
                input.skip(taken),
                (limit - 1) as nat,
            );
        }
    }
}

/// A program with balanced brackets that has been run to its last token has
/// no loop open.
pub proof fn lemma_end_closes_loops(tokens: Seq<Token>, m: Machine)
    requires
        sound(tokens, m),
        balanced(tokens),
        m.pc == tokens.len(),
    ensures
        m.stack.len() == 0,
{
    reveal(loops_fit);
    assert(tokens.take(tokens.len() as int) =~= tokens);
}

/// A run can be taken up again: running for `first + more` steps is running
/// for `first` steps and, unless the program is done by then, for `more`
/// steps from the machine and the input that the first run left.
pub proof fn lemma_run_resumes(
    tokens: Seq<Token>,
    m: Machine,
    input: Seq<u8>,
    first: nat,
    more: nat,
)
    ensures
        run_tokens(tokens, m, input, first).done ==> run_tokens(tokens, m, input, first + more)
            == run_tokens(tokens, m, input, first),
        !run_tokens(tokens, m, input, first).done ==> run_tokens(tokens, m, input, first + more)
            == after(
            run_tokens(tokens, m, input, first).output,
            run_tokens(tokens, m, input, first).consumed,
            run_tokens(
                tokens,
                run_tokens(tokens, m, input, first).machine,
                input.skip(run_tokens(tokens, m, input, first).consumed),
                more,
            ),
        ),
    decreases first,
{
    if m.pc >= tokens.len() {
        // the run is done before its first step
    } else if first == 0 {
        assert(input.skip(0) =~= input);
        assert(Seq::<u8>::empty() + run_tokens(tokens, m, input, more).output =~= run_tokens(
            tokens,
            m,
            input,
            more,
        ).output);
    } else {
        let reads = tokens[m.pc as int].token_type is Read && input.len() > 0;
        let feed = if reads {
            Some(input[0])
        } else {
            None
        };
        let taken: int = if reads {
            1
        } else {
            0
        };
        let effect = token_effect(tokens, m);
        let stepped = token_step(tokens, m, feed);
        let rest = input.skip(taken);
        if !(effect is Done) {
            lemma_run_resumes(tokens, stepped, rest, (first - 1) as nat, more);
            lemma_consumed_bounds(tokens, stepped, rest, (first - 1) as nat);
            let inner = run_tokens(tokens, stepped, rest, (first - 1) as nat);
            if !inner.done {
                let tail = run_tokens(tokens, inner.machine, rest.skip(inner.consumed), more);
                assert(rest.skip(inner.consumed) =~= input.skip(taken + inner.consumed));
                assert(written(effect) + (inner.output + tail.output) =~= (written(effect)
                    + inner.output) + tail.output);
            }
        }
    }
}

/// Adding to a cell twice is adding the sum.
pub proof fn lemma_bumped_twice(value: u8, first: int, second: int)
    ensures
        bumped(bumped(value, first), second) == bumped(value, first + second),
{
    let turns = (value + first) / 256;
    lemma_fundamental_div_mod(value + first, 256);
    lemma_bumped_wraps(value, first + second, -turns);
}

/// Adding 256 to a cell leaves it as it is.
pub proof fn lemma_bumped_full_turn(value: u8)
    ensures
        bumped(value, 256) == value,
        bumped(value, 0) == value,
{
    lemma_bumped_wraps(value, 0, 1);
}

/// What `n` tokens `+` in a row do: they add `n` to the cell under the
/// pointer, modulo 256, and nothing else.
pub proof fn lemma_increments(tokens: Seq<Token>, m: Machine, input: Seq<u8>, n: nat)
    requires
        sound(tokens, m),
        m.pc + n <= tokens.len(),
        forall|i: int| m.pc <= i < m.pc + n ==> (#[trigger] tokens[i]).token_type is Increment,
    ensures
        run_tokens(tokens, m, input, n) == (Run {
            machine: Machine {
                tape: m.tape.update(m.ptr as int, bumped(m.tape[m.ptr as int], n as int)),
                pc: (m.pc + n) as usize,
                ..m
            },
            output: Seq::empty(),
            consumed: 0,
            done: m.pc + n >= tokens.len(),
        }),
    decreases n,
{
    let ptr = m.ptr as int;
    if n == 0 {
        lemma_bumped_full_turn(m.tape[ptr]);
        assert(m.tape.update(ptr, m.tape[ptr]) =~= m.tape);
    } else {
        let stepped = token_step(tokens, m, None);
        lemma_step_sound(tokens, m, None);
        assert(input.skip(0) =~= input);
        lemma_increments(tokens, stepped, input, (n - 1) as nat);
        lemma_bumped_twice(m.tape[ptr], 1, n - 1);
        let rest = run_tokens(tokens, stepped, input, (n - 1) as nat);
        assert(stepped.tape.update(ptr, bumped(stepped.tape[ptr], n - 1)) =~= m.tape.update(
            ptr,
            bumped(m.tape[ptr], n as int),
        ));
    }
}

/// After 256 tokens `+` in a row every cell holds what it held before, and
/// so does the cell under the pointer.
pub proof fn lemma_256_increments_change_nothing(tokens: Seq<Token>, m: Machine, input: Seq<u8>)
    requires
        sound(tokens, m),
        m.pc + 256 <= tokens.len(),
        forall|i: int| m.pc <= i < m.pc + 256 ==> (#[trigger] tokens[i]).token_type is Increment,
    ensures
        run_tokens(tokens, m, input, 256).machine == (Machine { pc: (m.pc + 256) as usize, ..m }),
        run_tokens(tokens, m, input, 256).output == Seq::<u8>::empty(),
{
    lemma_increments(tokens, m, input, 256);
    lemma_bumped_full_turn(m.tape[m.ptr as int]);
    assert(m.tape.update(m.ptr as int, m.tape[m.ptr as int]) =~= m.tape);
}

/// The pointer wraps at both ends of the tape: `<` on the first cell leads to
/// the last, and `>` on the last leads to the first.
pub proof fn lemma_pointer_wraps(tokens: Seq<Token>, m: Machine, input: Option<u8>)
    requires
        m.pc < tokens.len(),
    ensures
        tokens[m.pc as int].token_type is MoveLeft && m.ptr == 0 ==> token_step(
            tokens,
            m,
            input,
        ).ptr == TAPE_LEN - 1,
        tokens[m.pc as int].token_type is MoveRight && m.ptr == TAPE_LEN - 1 ==> token_step(
            tokens,
            m,
            input,
        ).ptr == 0,
{
}

/// A loop entered on a cell that holds zero leaves tape and pointer as they
/// were, whenever it comes back to them: if `steps` steps after the `[` the
/// machine stands at the `]` of this loop, with tape and pointer as before the
/// `[`, then that `]` leaves the loop, and tape, pointer and open loops are
/// what they were before the `[`. The body runs at least once, so a loop
/// whose passes never bring tape and pointer back is not covered.
pub proof fn lemma_loop_on_zero(tokens: Seq<Token>, m: Machine, input: Seq<u8>, steps: nat)
    requires
        sound(tokens, m),
        m.pc < tokens.len(),
        tokens[m.pc as int].token_type is LoopStart,
        m.tape[m.ptr as int] == 0,
        !run_tokens(tokens, token_step(tokens, m, None), input, steps).done,
        ({
            let body = run_tokens(tokens, token_step(tokens, m, None), input, steps).machine;
            &&& body.pc < tokens.len()
            &&& tokens[body.pc as int].token_type is LoopEnd
            &&& body.stack == m.stack.push((m.ptr, m.pc))
            &&& body.tape == m.tape
            &&& body.ptr == m.ptr
        }),
    ensures
        run_tokens(tokens, m, input, steps + 2).machine == (Machine {
            pc: (run_tokens(tokens, token_step(tokens, m, None), input, steps).machine.pc
                + 1) as usize,
            ..m
        }),
        run_tokens(tokens, m, input, steps + 2).output == run_tokens(
            tokens,
            token_step(tokens, m, None),
            input,
            steps,
        ).output,
        run_tokens(tokens, m, input, steps + 2).consumed == run_tokens(
            tokens,
            token_step(tokens, m, None),
            input,
            steps,
        ).consumed,
{
    let entered = token_step(tokens, m, None);
    let body = run_tokens(tokens, entered, input, steps);
    lemma_step_sound(tokens, m, None);
    lemma_run_sound(tokens, entered, input, steps);
    lemma_stopped_inside(tokens, entered, input, steps);
    lemma_consumed_bounds(tokens, entered, input, steps);
    lemma_run_resumes(tokens, entered, input, steps, 1);
    let at_end = body.machine;
    let rest = input.skip(body.consumed);
    let left = token_step(tokens, at_end, None);
    assert(at_end.stack.last() == (m.ptr, m.pc));
    assert(at_end.stack.drop_last() =~= m.stack);
    assert(left == Machine { pc: (at_end.pc + 1) as usize, ..m });
    assert(rest.skip(0) =~= rest);
    let closing = run_tokens(tokens, at_end, rest, 1);
    let halted = run_tokens(tokens, left, rest, 0);
    assert(halted.machine == left);
    assert(halted.output =~= Seq::<u8>::empty());
    assert(token_effect(tokens, at_end) == Step::Continue);
    assert(closing == after(written(Step::Continue), 0, halted));
    assert(closing.machine == left);
    assert(closing.output =~= Seq::<u8>::empty());
    assert(closing.consumed == 0);
    let inner = run_tokens(tokens, entered, input, steps + 1);
    assert(inner.machine == left);
    assert(inner.output =~= body.output);
    assert(input.skip(0) =~= input);
    let whole = run_tokens(tokens, m, input, steps + 2);
    assert(whole == after(Seq::<u8>::empty(), 0, inner));
    assert(whole.output =~= inner.output);
}

/// A loop without a body, entered on a cell that holds zero, is left at once:
/// tape, pointer and open loops stay as they were.
pub proof fn lemma_empty_loop_on_zero(tokens: Seq<Token>, m: Machine, input: Seq<u8>)
    requires
        sound(tokens, m),
        m.pc + 1 < tokens.len(),
        tokens[m.pc as int].token_type is LoopStart,
        tokens[m.pc + 1].token_type is LoopEnd,
        m.tape[m.ptr as int] == 0,
    ensures
        run_tokens(tokens, m, input, 2).machine == (Machine { pc: (m.pc + 2) as usize, ..m }),
        run_tokens(tokens, m, input, 2).output == Seq::<u8>::empty(),
        run_tokens(tokens, m, input, 2).consumed == 0,
{
    lemma_loop_on_zero(tokens, m, input, 0);
}

} // verus!
