use crate::lex::{Token, TokenType};
use crate::tape::{left_of, move_left, move_right, right_of, TAPE_LEN};
use vstd::arithmetic::div_mod::{lemma_fundamental_div_mod, lemma_mod_multiples_vanish};
use vstd::prelude::*;

verus! {

/// One instruction of the intermediate representation. Each carries the cell
/// it works on, as the lowering pass resolved it.
#[derive(Debug, Clone, Copy, PartialEq, Eq, Structural)]
pub enum Instruction {
    /// Add the first field to the cell, modulo 256.
    Sum(i32, usize),
    /// Read one input byte into the cell.
    Read(usize),
    /// Write the cell's byte to the output.
    Print(usize),
    /// Begin a loop on the cell.
    LoopStart(usize),
    /// End a loop: go round again while the cell is not zero.
    LoopEnd(usize),
}

/// The cell an instruction works on.
pub open spec fn cell_of(ins: Instruction) -> usize {
    match ins {
        Instruction::Sum(_, cell) => cell,
        Instruction::Read(cell) => cell,
        Instruction::Print(cell) => cell,
        Instruction::LoopStart(cell) => cell,
        Instruction::LoopEnd(cell) => cell,
    }
}

/// The state of the lowering pass: what it has emitted, the pending sum of
/// `+` and `-`, and the cell the cursor stands on.
pub struct Lowering {
    pub emitted: Seq<Instruction>,
    pub delta: int,
    pub cell: int,
}

/// The state before the first token.
pub open spec fn lowering_start() -> Lowering {
    Lowering { emitted: Seq::empty(), delta: 0, cell: 0 }
}

/// What has been emitted once a pending sum, if there is one, is written out.
pub open spec fn flushed(st: Lowering) -> Seq<Instruction> {
    if st.delta != 0 {
        st.emitted.push(Instruction::Sum(st.delta as i32, st.cell as usize))
    } else {
        st.emitted
    }
}

/// The effect of one token on the lowering pass. `+` and `-` only change the
/// pending sum; every other token first writes the pending sum out.
pub open spec fn lower_step(st: Lowering, kind: TokenType) -> Lowering {
    match kind {
        TokenType::Increment => Lowering { delta: st.delta + 1, ..st },
        TokenType::Decrement => Lowering { delta: st.delta - 1, ..st },
        TokenType::MoveRight => Lowering {
            emitted: flushed(st),
            delta: 0,
            cell: right_of(st.cell),
        },
        TokenType::MoveLeft => Lowering {
            emitted: flushed(st),
            delta: 0,
            cell: left_of(st.cell),
        },
        TokenType::Print => Lowering {
            emitted: flushed(st).push(Instruction::Print(st.cell as usize)),
            delta: 0,
            cell: st.cell,
        },
        TokenType::Read => Lowering {
            emitted: flushed(st).push(Instruction::Read(st.cell as usize)),
            delta: 0,
            cell: st.cell,
        },
        TokenType::LoopStart => Lowering {
            emitted: flushed(st).push(Instruction::LoopStart(st.cell as usize)),
            delta: 0,
            cell: st.cell,
        },
        TokenType::LoopEnd => Lowering {
            emitted: flushed(st).push(Instruction::LoopEnd(st.cell as usize)),
            delta: 0,
            cell: st.cell,
        },
        TokenType::Eof => Lowering { emitted: flushed(st), delta: 0, cell: st.cell },
    }
}

/// The lowering pass run over `tokens` from the state `st`.
pub open spec fn lower_fold(st: Lowering, tokens: Seq<Token>) -> Lowering
    decreases tokens.len(),
{
    if tokens.len() == 0 {
        st
    } else {
        lower_step(lower_fold(st, tokens.drop_last()), tokens.last().token_type)
    }
}

/// The instructions a token stream lowers to.
pub open spec fn lowered(tokens: Seq<Token>) -> Seq<Instruction> {
    lower_fold(lowering_start(), tokens).emitted
}

/// The pending sum stays within 32 signed bits all along the stream.
pub open spec fn fits(tokens: Seq<Token>) -> bool {
    forall|k: int|
        0 <= k <= tokens.len() ==> i32::MIN <= #[trigger] lower_fold(
            lowering_start(),
            tokens.take(k),
        ).delta <= i32::MAX
}

/// The pending sum is never larger than the number of tokens read, and the
/// cursor stays on the tape.
pub proof fn lemma_lowering_bounds(tokens: Seq<Token>)
    ensures
        -tokens.len() <= lower_fold(lowering_start(), tokens).delta <= tokens.len(),
        0 <= lower_fold(lowering_start(), tokens).cell < TAPE_LEN,
    decreases tokens.len(),
{
    if tokens.len() > 0 {
        lemma_lowering_bounds(tokens.drop_last());
    }
}

/// A stream of at most `i32::MAX` tokens can be lowered.
pub proof fn lemma_short_stream_fits(tokens: Seq<Token>)
    requires
        tokens.len() <= i32::MAX,
    ensures
        fits(tokens),
{
    assert forall|k: int| 0 <= k <= tokens.len() implies i32::MIN <= #[trigger] lower_fold(
        lowering_start(),
        tokens.take(k),
    ).delta <= i32::MAX by {
        lemma_lowering_bounds(tokens.take(k));
    }
}

/// Every lowered instruction works on a cell of the tape.
pub proof fn lemma_lowered_cells(tokens: Seq<Token>)
    ensures
        forall|i: int|
            0 <= i < lowered(tokens).len() ==> cell_of(#[trigger] lowered(tokens)[i]) < TAPE_LEN,
    decreases tokens.len(),
{
    if tokens.len() > 0 {
        let st = lower_fold(lowering_start(), tokens.drop_last());
        lemma_lowered_cells(tokens.drop_last());
        lemma_lowering_bounds(tokens.drop_last());
        assert forall|i: int| 0 <= i < lowered(tokens).len() implies cell_of(
            #[trigger] lowered(tokens)[i],
        ) < TAPE_LEN by {
            if i < st.emitted.len() {
                assert(lowered(tokens)[i] == lowered(tokens.drop_last())[i]);
            }
        }
    }
}

/// Lowering a stream is lowering its first part and going on with the rest.
pub proof fn lemma_lower_concat(st: Lowering, head: Seq<Token>, tail: Seq<Token>)
    ensures
        lower_fold(st, head + tail) == lower_fold(lower_fold(st, head), tail),
    decreases tail.len(),
{
    if tail.len() > 0 {
        lemma_lower_concat(st, head, tail.drop_last());
        assert((head + tail).drop_last() =~= head + tail.drop_last());
    }
}

/// What a `>` followed by a `<` does to the lowering pass: it writes the
/// pending sum out and leaves the cursor where it was.
pub proof fn lemma_lower_move_pair(st: Lowering, right: Token, left: Token)
    requires
        right.token_type is MoveRight,
        left.token_type is MoveLeft,
        0 <= st.cell < TAPE_LEN,
    ensures
        lower_fold(st, seq![right, left]) == (Lowering {
            emitted: flushed(st),
            delta: 0,
            cell: st.cell,
        }),
{
    let pair = seq![right, left];
    assert(pair.drop_last() =~= seq![right]);
    assert(seq![right].drop_last() =~= Seq::<Token>::empty());
    assert(lower_fold(st, Seq::<Token>::empty()) == st);
    assert(lower_fold(st, seq![right]) == lower_step(st, right.token_type));
}

/// A `><` pair where no sum is pending changes nothing in what a stream
/// lowers to.
pub proof fn lemma_move_pair_is_neutral(
    head: Seq<Token>,
    tail: Seq<Token>,
    right: Token,
    left: Token,
)
    requires
        right.token_type is MoveRight,
        left.token_type is MoveLeft,
        lower_fold(lowering_start(), head).delta == 0,
    ensures
        lowered(head + seq![right, left] + tail) == lowered(head + tail),
{
    let st = lower_fold(lowering_start(), head);
    lemma_lowering_bounds(head);
    lemma_lower_move_pair(st, right, left);
    lemma_lower_concat(lowering_start(), head, seq![right, left]);
    lemma_lower_concat(lowering_start(), head + seq![right, left], tail);
    lemma_lower_concat(lowering_start(), head, tail);
}

/// Lowering is idempotent under `><` pairs: where one pair stands, a second
/// one beside it changes nothing in what the stream lowers to.
pub proof fn lemma_second_move_pair_is_neutral(
    head: Seq<Token>,
    tail: Seq<Token>,
    right: Token,
    left: Token,
    right_again: Token,
    left_again: Token,
)
    requires
        right.token_type is MoveRight,
        left.token_type is MoveLeft,
        right_again.token_type is MoveRight,
        left_again.token_type is MoveLeft,
    ensures
        lowered(head + seq![right, left] + seq![right_again, left_again] + tail) == lowered(
            head + seq![right, left] + tail,
        ),
{
    lemma_lowering_bounds(head);
    lemma_move_pair_is_neutral(head + seq![right, left], tail, right_again, left_again);
}

/// No sum of zero is emitted.
pub proof fn lemma_no_empty_sum(tokens: Seq<Token>)
    requires
        fits(tokens),
    ensures
        forall|i: int|
            0 <= i < lowered(tokens).len() ==> !(#[trigger] lowered(tokens)[i]
                matches Instruction::Sum(0, _)),
    decreases tokens.len(),
{
    if tokens.len() > 0 {
        let init = tokens.drop_last();
        assert forall|k: int| 0 <= k <= init.len() implies i32::MIN <= #[trigger] lower_fold(
            lowering_start(),
            init.take(k),
        ).delta <= i32::MAX by {
            assert(init.take(k) =~= tokens.take(k));
        }
        lemma_no_empty_sum(init);
    }
}

/// What a token moves the pointer by.
pub open spec fn shift(kind: TokenType) -> int {
    match kind {
        TokenType::MoveRight => 1,
        TokenType::MoveLeft => -1,
        _ => 0,
    }
}

/// The number of `>` less the number of `<` in `tokens`.
pub open spec fn net_move(tokens: Seq<Token>) -> int
    decreases tokens.len(),
{
    if tokens.len() == 0 {
        0
    } else {
        net_move(tokens.drop_last()) + shift(tokens.last().token_type)
    }
}

/// The net movement of a concatenation is the sum of the net movements.
pub proof fn lemma_net_move_concat(head: Seq<Token>, tail: Seq<Token>)
    ensures
        net_move(head + tail) == net_move(head) + net_move(tail),
    decreases tail.len(),
{
    if tail.len() > 0 {
        lemma_net_move_concat(head, tail.drop_last());
        assert((head + tail).drop_last() =~= head + tail.drop_last());
    }
}

/// The cursor of the lowering pass is the net movement of the tokens read,
/// modulo the length of the tape.
pub proof fn lemma_cursor_is_net_move(tokens: Seq<Token>)
    ensures
        lower_fold(lowering_start(), tokens).cell == net_move(tokens) % (TAPE_LEN as int),
    decreases tokens.len(),
{
    if tokens.len() > 0 {
        let init = tokens.drop_last();
        lemma_cursor_is_net_move(init);
        let n = net_move(init);
        lemma_fundamental_div_mod(n, TAPE_LEN as int);
        let turns = n / (TAPE_LEN as int);
        let cell = n % (TAPE_LEN as int);
        lemma_mod_multiples_vanish(turns, cell + 1, TAPE_LEN as int);
        lemma_mod_multiples_vanish(turns, cell - 1, TAPE_LEN as int);
        lemma_mod_multiples_vanish(1, cell - 1, TAPE_LEN as int);
    }
}

/// A loop whose body moves the pointer right as often as left has the same
/// cell on its `LoopStart` and on its `LoopEnd`: where the tokens in
/// `[open, close)` have no net movement, the cursor at `close` is the cursor
/// at `open`.
pub proof fn lemma_balanced_body_keeps_cell(tokens: Seq<Token>, open: int, close: int)
    requires
        0 <= open <= close <= tokens.len(),
        net_move(tokens.subrange(open, close)) == 0,
    ensures
        lower_fold(lowering_start(), tokens.take(close)).cell == lower_fold(
            lowering_start(),
            tokens.take(open),
        ).cell,
{
    lemma_cursor_is_net_move(tokens.take(open));
    lemma_cursor_is_net_move(tokens.take(close));
    assert(tokens.take(close) =~= tokens.take(open) + tokens.subrange(open, close));
    lemma_net_move_concat(tokens.take(open), tokens.subrange(open, close));
}

/// The sum most lately emitted for `cell`, or 0 where there is none.
pub open spec fn last_sum(instructions: Seq<Instruction>, cell: usize) -> i32
    decreases instructions.len(),
{
    if instructions.len() == 0 {
        0
    } else {
        match instructions.last() {
            Instruction::Sum(value, at) if at == cell => value,
            _ => last_sum(instructions.drop_last(), cell),
        }
    }
}

/// The intermediate representation of a program.
pub struct Representation {
    pub instructions: Vec<Instruction>,
}

impl Representation {
    pub fn new() -> (rep: Representation)
        ensures
            rep.instructions@ == Seq::<Instruction>::empty(),
    {
        Representation { instructions: Vec::new() }
    }

    /// Writes a pending sum out, if there is one.
    fn flush(&mut self, count: i32, ptr: usize)
        ensures
            final(self).instructions@ == flushed(
                Lowering {
                    emitted: old(self).instructions@,
                    delta: count as int,
                    cell: ptr as int,
                },
            ),
    {
        if count != 0 {
            self.instructions.push(Instruction::Sum(count, ptr));
        }
    }

    /// Lowers a token stream and appends the instructions to those already
    /// held. Runs of `+` and `-` become one `Sum`; `>` and `<` only move the
    /// cursor, which starts on cell 0.
    pub fn parse(&mut self, tokens: &Vec<Token>)
        requires
            fits(tokens@),
        ensures
            final(self).instructions@ == old(self).instructions@ + lowered(tokens@),
    {
        let mut count: i32 = 0;
        let mut ptr: usize = 0;
        let mut i: usize = 0;
        let ghost before = self.instructions@;
        while i < tokens.len()
            invariant
                i <= tokens.len(),
                fits(tokens@),
                ptr < TAPE_LEN,
                count == lower_fold(lowering_start(), tokens@.take(i as int)).delta,
                ptr == lower_fold(lowering_start(), tokens@.take(i as int)).cell,
                self.instructions@ == before + lower_fold(
                    lowering_start(),
                    tokens@.take(i as int),
                ).emitted,
            decreases tokens.len() - i,
        {
            let kind = tokens[i].token_type();
            proof {
                assert(tokens@.take(i + 1).drop_last() =~= tokens@.take(i as int));
                assert(i32::MIN <= lower_fold(lowering_start(), tokens@.take(i + 1)).delta
                    <= i32::MAX);
            }
            match kind {
                TokenType::Increment => {
                    count = count + 1;
                },
                TokenType::Decrement => {
                    count = count - 1;
                },
                TokenType::MoveRight => {
                    self.flush(count, ptr);
                    count = 0;
                    ptr = move_right(ptr);
                },
                TokenType::MoveLeft => {
                    self.flush(count, ptr);
                    count = 0;
                    ptr = move_left(ptr);
                },
                TokenType::Print => {
                    self.flush(count, ptr);
                    count = 0;
                    self.instructions.push(Instruction::Print(ptr));
                },
                TokenType::Read => {
                    self.flush(count, ptr);
                    count = 0;
                    self.instructions.push(Instruction::Read(ptr));
                },
                TokenType::LoopStart => {
                    self.flush(count, ptr);
                    count = 0;
                    self.instructions.push(Instruction::LoopStart(ptr));
                },
                TokenType::LoopEnd => {
                    self.flush(count, ptr);
                    count = 0;
                    self.instructions.push(Instruction::LoopEnd(ptr));
                },
                TokenType::Eof => {
                    self.flush(count, ptr);
                    count = 0;
                },
            }
            i += 1;
        }
        assert(tokens@.take(i as int) =~= tokens@);
    }

    /// The sum most lately emitted for the cell `ptr`, or 0.
    pub fn get(&self, ptr: usize) -> (value: i32)
        ensures
            value == last_sum(self.instructions@, ptr),
    {
        let mut i: usize = self.instructions.len();
        assert(self.instructions@.take(i as int) =~= self.instructions@);
        while i > 0
            invariant
                i <= self.instructions.len(),
                last_sum(self.instructions@, ptr) == last_sum(
                    self.instructions@.take(i as int),
                    ptr,
                ),
            decreases i,
        {
            i -= 1;
            proof {
                assert(self.instructions@.take(i + 1).drop_last() =~= self.instructions@.take(
                    i as int,
                ));
            }
            if let Instruction::Sum(value, at) = self.instructions[i] {
                if at == ptr {
                    return value;
                }
            }
        }
        0
    }
}

} // verus!
