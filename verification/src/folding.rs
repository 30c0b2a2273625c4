use crate::ir::{
    fits, flushed, lemma_cursor_is_net_move, lemma_lower_concat, lemma_lower_move_pair,
    lemma_lowering_bounds, lower_fold, lower_step, lowered, lowering_start, net_move, Instruction,
    Lowering,
};
use crate::lex::{Token, TokenType};
use crate::tape::TAPE_LEN;
use vstd::prelude::*;

verus! {

/// The cell the pointer stands on after `tokens`, begun on the first cell.
pub open spec fn pointer_after(tokens: Seq<Token>) -> int {
    net_move(tokens) % (TAPE_LEN as int)
}

/// What a token adds to the cell under the pointer.
pub open spec fn gain(kind: TokenType) -> int {
    match kind {
        TokenType::Increment => 1,
        TokenType::Decrement => -1,
        _ => 0,
    }
}

/// The number of `+` less the number of `-` that `tokens` meet while the
/// pointer stands on `cell`.
pub open spec fn cell_count(tokens: Seq<Token>, cell: int) -> int
    decreases tokens.len(),
{
    if tokens.len() == 0 {
        0
    } else if pointer_after(tokens.drop_last()) == cell {
        cell_count(tokens.drop_last(), cell) + gain(tokens.last().token_type)
    } else {
        cell_count(tokens.drop_last(), cell)
    }
}

/// The sum of all the sums that `ir` holds for `cell`.
pub open spec fn cell_total(ir: Seq<Instruction>, cell: int) -> int
    decreases ir.len(),
{
    if ir.len() == 0 {
        0
    } else {
        match ir.last() {
            Instruction::Sum(delta, at) if at == cell => cell_total(ir.drop_last(), cell) + delta,
            _ => cell_total(ir.drop_last(), cell),
        }
    }
}

/// The sum pending on `cell` in a state of the lowering pass.
pub open spec fn pending_on(st: Lowering, cell: int) -> int {
    if st.cell == cell {
        st.delta
    } else {
        0
    }
}

/// The total of a program with one more instruction.
pub proof fn lemma_cell_total_push(ir: Seq<Instruction>, ins: Instruction, cell: int)
    ensures
        cell_total(ir.push(ins), cell) == cell_total(ir, cell) + (match ins {
            Instruction::Sum(delta, at) if at == cell => delta as int,
            _ => 0,
        }),
{
    assert(ir.push(ins).drop_last() =~= ir);
}

/// Folding keeps count, cell by cell: what has been emitted for a cell and
/// what is pending on it add up to the `+` less the `-` that the tokens met
/// on that cell.
pub proof fn lemma_lowering_counts(tokens: Seq<Token>, cell: int)
    requires
        fits(tokens),
    ensures
        cell_total(lower_fold(lowering_start(), tokens).emitted, cell) + pending_on(
            lower_fold(lowering_start(), tokens),
            cell,
        ) == cell_count(tokens, cell),
    decreases tokens.len(),
{
    if tokens.len() > 0 {
        let init = tokens.drop_last();
        let kind = tokens.last().token_type;
        assert(init =~= tokens.take(tokens.len() - 1));
        assert forall|k: int| 0 <= k <= init.len() implies i32::MIN <= #[trigger] lower_fold(
            lowering_start(),
            init.take(k),
        ).delta <= i32::MAX by {
            assert(init.take(k) =~= tokens.take(k));
        }
        lemma_lowering_counts(init, cell);
        lemma_lowering_bounds(init);
        lemma_cursor_is_net_move(init);
        let st = lower_fold(lowering_start(), init);
        assert(i32::MIN <= lower_fold(lowering_start(), tokens.take(tokens.len() - 1)).delta
            <= i32::MAX);
        if st.delta != 0 {
            lemma_cell_total_push(
                st.emitted,
                Instruction::Sum(st.delta as i32, st.cell as usize),
                cell,
            );
        }
        let next = lower_step(st, kind);
        if next.emitted != st.emitted && next.emitted != flushed(st) {
            assert(next.emitted =~= flushed(st).push(next.emitted.last()));
            lemma_cell_total_push(flushed(st), next.emitted.last(), cell);
        }
    }
}

/// A stream closed by `Eof` lowers, for every cell, to sums that add up to the
/// `+` less the `-` that the stream meets on that cell.
pub proof fn lemma_sums_add_up(body: Seq<Token>, eof: Token, cell: int)
    requires
        eof.token_type is Eof,
        fits(body.push(eof)),
    ensures
        cell_total(lowered(body.push(eof)), cell) == cell_count(body, cell),
{
    let tokens = body.push(eof);
    assert(tokens.drop_last() =~= body);
    lemma_lowering_counts(tokens, cell);
}

/// An instruction as it stands once adjacent sums are merged: a sum may then
/// be wider than 32 bits.
pub enum Merged {
    Sum(int, int),
    Other(Instruction),
}

/// `item` is a sum on `cell`.
pub open spec fn sum_on(item: Merged, cell: int) -> bool {
    match item {
        Merged::Sum(_, at) => at == cell,
        Merged::Other(_) => false,
    }
}

/// The value of a sum; 0 for anything else.
pub open spec fn value_of(item: Merged) -> int {
    match item {
        Merged::Sum(delta, _) => delta,
        Merged::Other(_) => 0,
    }
}

/// `acc` with a sum of `delta` on `cell` behind it: the sum is added to a sum
/// on the same cell that ends `acc`, a sum of zero is dropped.
pub open spec fn merge_sum(acc: Seq<Merged>, delta: int, cell: int) -> Seq<Merged> {
    if delta == 0 {
        acc
    } else if acc.len() > 0 && sum_on(acc.last(), cell) {
        if value_of(acc.last()) + delta == 0 {
            acc.drop_last()
        } else {
            acc.drop_last().push(Merged::Sum(value_of(acc.last()) + delta, cell))
        }
    } else {
        acc.push(Merged::Sum(delta, cell))
    }
}

/// The instructions with adjacent sums on one cell merged into one (their
/// values added, a sum of zero dropped) and everything else in its place.
pub open spec fn merged(ir: Seq<Instruction>) -> Seq<Merged>
    decreases ir.len(),
{
    if ir.len() == 0 {
        Seq::empty()
    } else {
        match ir.last() {
            Instruction::Sum(delta, cell) => merge_sum(
                merged(ir.drop_last()),
                delta as int,
                cell as int,
            ),
            other => merged(ir.drop_last()).push(Merged::Other(other)),
        }
    }
}

/// No sum is zero and no two sums on one cell stand side by side.
pub open spec fn tidy(acc: Seq<Merged>) -> bool {
    &&& forall|i: int| 0 <= i < acc.len() && #[trigger] acc[i] is Sum ==> value_of(acc[i]) != 0
    &&& forall|i: int, cell: int|
        0 < i < acc.len() && #[trigger] sum_on(acc[i], cell) ==> !sum_on(acc[i - 1], cell)
}

/// Merging a sum into a tidy sequence leaves it tidy.
pub proof fn lemma_merge_sum_tidy(acc: Seq<Merged>, delta: int, cell: int)
    requires
        tidy(acc),
    ensures
        tidy(merge_sum(acc, delta, cell)),
{
    let out = merge_sum(acc, delta, cell);
    let n = acc.len() as int;
    if delta == 0 {
    } else if n > 0 && sum_on(acc.last(), cell) {
        assert(acc.last() == acc[n - 1]);
        assert forall|i: int| 0 <= i < out.len() && #[trigger] out[i] is Sum implies value_of(
            out[i],
        ) != 0 by {
            if i < n - 1 {
                assert(out[i] == acc[i]);
            }
        }
        assert forall|i: int, at: int| 0 < i < out.len() && #[trigger] sum_on(
            out[i],
            at,
        ) implies !sum_on(out[i - 1], at) by {
            assert(out[i - 1] == acc[i - 1]);
            if i < n - 1 {
                assert(out[i] == acc[i]);
                assert(sum_on(acc[i], at));
            } else {
                assert(sum_on(acc[n - 1], cell));
            }
        }
    } else {
        assert forall|i: int| 0 <= i < out.len() && #[trigger] out[i] is Sum implies value_of(
            out[i],
        ) != 0 by {
            if i < n {
                assert(out[i] == acc[i]);
            }
        }
        assert forall|i: int, at: int| 0 < i < out.len() && #[trigger] sum_on(
            out[i],
            at,
        ) implies !sum_on(out[i - 1], at) by {
            assert(out[i - 1] == acc[i - 1]);
            if i < n {
                assert(out[i] == acc[i]);
                assert(sum_on(acc[i], at));
            } else {
                assert(acc.last() == acc[n - 1]);
            }
        }
    }
}

/// Something that is no sum behind a tidy sequence leaves it tidy.
pub proof fn lemma_push_other_tidy(acc: Seq<Merged>, other: Instruction)
    requires
        tidy(acc),
    ensures
        tidy(acc.push(Merged::Other(other))),
{
    let out = acc.push(Merged::Other(other));
    assert forall|i: int| 0 <= i < out.len() && #[trigger] out[i] is Sum implies value_of(out[i])
        != 0 by {
        assert(out[i] == acc[i]);
    }
    assert forall|i: int, at: int| 0 < i < out.len() && #[trigger] sum_on(
        out[i],
        at,
    ) implies !sum_on(out[i - 1], at) by {
        assert(out[i] == acc[i]);
        assert(out[i - 1] == acc[i - 1]);
        assert(sum_on(acc[i], at));
    }
}

/// Merged instructions are tidy.
pub proof fn lemma_merged_tidy(ir: Seq<Instruction>)
    ensures
        tidy(merged(ir)),
    decreases ir.len(),
{
    if ir.len() > 0 {
        lemma_merged_tidy(ir.drop_last());
        match ir.last() {
            Instruction::Sum(delta, cell) => {
                lemma_merge_sum_tidy(merged(ir.drop_last()), delta as int, cell as int);
            },
            other => {
                lemma_push_other_tidy(merged(ir.drop_last()), other);
            },
        }
    }
}

/// Merging two sums on one cell, one after the other, is merging their sum.
pub proof fn lemma_merge_sum_adds(acc: Seq<Merged>, first: int, second: int, cell: int)
    requires
        tidy(acc),
    ensures
        merge_sum(merge_sum(acc, first, cell), second, cell) == merge_sum(
            acc,
            first + second,
            cell,
        ),
{
    let once = merge_sum(acc, first, cell);
    let twice = merge_sum(once, second, cell);
    let both = merge_sum(acc, first + second, cell);
    if acc.len() > 0 && sum_on(acc.last(), cell) {
        let rest = acc.drop_last();
        assert(acc.last() == acc[acc.len() - 1]);
        assert(acc.last() is Sum);
        assert(acc =~= rest.push(Merged::Sum(value_of(acc.last()), cell)));
        if rest.len() > 0 {
            assert(rest.last() == acc[acc.len() - 2]);
            assert(!sum_on(acc[acc.len() - 2], cell));
        }
        assert(twice =~= both);
    } else {
        assert(twice =~= both);
    }
}

/// What a state of the lowering pass has emitted, merged, with its pending
/// sum merged in.
pub open spec fn view_of(st: Lowering) -> Seq<Merged> {
    merge_sum(merged(st.emitted), st.delta, st.cell)
}

/// Writing the pending sum out changes nothing once sums are merged.
pub proof fn lemma_flush_keeps_view(st: Lowering)
    requires
        i32::MIN <= st.delta <= i32::MAX,
        0 <= st.cell < TAPE_LEN,
    ensures
        merged(flushed(st)) == view_of(st),
{
    if st.delta != 0 {
        assert(flushed(st).drop_last() =~= st.emitted);
    }
}

/// Two states of the lowering pass that stand on one cell and agree once
/// sums are merged still do so after one more token.
pub proof fn lemma_step_keeps_view(one: Lowering, other: Lowering, kind: TokenType)
    requires
        one.cell == other.cell,
        0 <= one.cell < TAPE_LEN,
        view_of(one) == view_of(other),
        i32::MIN <= one.delta <= i32::MAX,
        i32::MIN <= other.delta <= i32::MAX,
    ensures
        lower_step(one, kind).cell == lower_step(other, kind).cell,
        view_of(lower_step(one, kind)) == view_of(lower_step(other, kind)),
{
    let cell = one.cell;
    lemma_merged_tidy(one.emitted);
    lemma_merged_tidy(other.emitted);
    match kind {
        TokenType::Increment => {
            lemma_merge_sum_adds(merged(one.emitted), one.delta, 1, cell);
            lemma_merge_sum_adds(merged(other.emitted), other.delta, 1, cell);
        },
        TokenType::Decrement => {
            lemma_merge_sum_adds(merged(one.emitted), one.delta, -1, cell);
            lemma_merge_sum_adds(merged(other.emitted), other.delta, -1, cell);
        },
        _ => {
            lemma_flush_keeps_view(one);
            lemma_flush_keeps_view(other);
            let left = lower_step(one, kind).emitted;
            let right = lower_step(other, kind).emitted;
            if left != flushed(one) {
                assert(left.drop_last() =~= flushed(one));
                assert(right.drop_last() =~= flushed(other));
                assert(left.last() == right.last());
            }
        },
    }
}

/// A `><` pair changes nothing in what a stream lowers to once adjacent sums
/// on one cell are merged: the two states of the lowering pass, after the
/// stream with the pair and after the stream without it, stand on one cell
/// and agree once sums are merged.
pub proof fn lemma_move_pair_keeps_view(
    head: Seq<Token>,
    tail: Seq<Token>,
    right: Token,
    left: Token,
)
    requires
        right.token_type is MoveRight,
        left.token_type is MoveLeft,
        fits(head + tail),
        fits(head + seq![right, left] + tail),
    ensures
        lower_fold(lowering_start(), head + tail).cell == lower_fold(
            lowering_start(),
            head + seq![right, left] + tail,
        ).cell,
        view_of(lower_fold(lowering_start(), head + tail)) == view_of(
            lower_fold(lowering_start(), head + seq![right, left] + tail),
        ),
    decreases tail.len(),
{
    let pair = seq![right, left];
    let plain = head + tail;
    let paired = head + pair + tail;
    if tail.len() == 0 {
        let st = lower_fold(lowering_start(), head);
        assert(plain =~= head);
        assert(paired =~= head + pair);
        assert(plain.take(plain.len() as int) =~= plain);
        assert(i32::MIN <= lower_fold(lowering_start(), plain.take(plain.len() as int)).delta
            <= i32::MAX);
        lemma_lowering_bounds(head);
        lemma_lower_concat(lowering_start(), head, pair);
        lemma_lower_move_pair(st, right, left);
        lemma_flush_keeps_view(st);
    } else {
        let init = tail.drop_last();
        let kind = tail.last().token_type;
        assert(plain.drop_last() =~= head + init);
        assert(paired.drop_last() =~= head + pair + init);
        assert(plain.last() == tail.last());
        assert(paired.last() == tail.last());
        assert forall|k: int| 0 <= k <= (head + init).len() implies i32::MIN
            <= #[trigger] lower_fold(lowering_start(), (head + init).take(k)).delta
            <= i32::MAX by {
            assert((head + init).take(k) =~= plain.take(k));
        }
        assert forall|k: int| 0 <= k <= (head + pair + init).len() implies i32::MIN
            <= #[trigger] lower_fold(lowering_start(), (head + pair + init).take(k)).delta
            <= i32::MAX by {
            assert((head + pair + init).take(k) =~= paired.take(k));
        }
        lemma_move_pair_keeps_view(head, init, right, left);
        lemma_lowering_bounds(head + init);
        assert((head + init) =~= plain.take(plain.len() - 1));
        assert((head + pair + init) =~= paired.take(paired.len() - 1));
        assert(i32::MIN <= lower_fold(lowering_start(), plain.take(plain.len() - 1)).delta
            <= i32::MAX);
        assert(i32::MIN <= lower_fold(lowering_start(), paired.take(paired.len() - 1)).delta
            <= i32::MAX);
        lemma_step_keeps_view(
            lower_fold(lowering_start(), head + init),
            lower_fold(lowering_start(), head + pair + init),
            kind,
        );
    }
}

/// Of two streams closed by `Eof` that differ by one `><` pair, each lowers
/// to the instructions of the other once adjacent sums on one cell are
/// merged: the same instructions that are no sums, in the same order and on
/// the same cells, and the same sum on each cell between them.
pub proof fn lemma_move_pair_is_neutral_when_merged(
    head: Seq<Token>,
    tail: Seq<Token>,
    right: Token,
    left: Token,
    eof: Token,
)
    requires
        right.token_type is MoveRight,
        left.token_type is MoveLeft,
        eof.token_type is Eof,
        fits((head + tail).push(eof)),
        fits((head + seq![right, left] + tail).push(eof)),
    ensures
        merged(lowered((head + tail).push(eof))) == merged(
            lowered((head + seq![right, left] + tail).push(eof)),
        ),
{
    let closed = tail.push(eof);
    assert((head + tail).push(eof) =~= head + closed);
    assert((head + seq![right, left] + tail).push(eof) =~= head + seq![right, left] + closed);
    lemma_move_pair_keeps_view(head, closed, right, left);
    assert((head + closed).last() == eof);
    assert((head + seq![right, left] + closed).last() == eof);
}

} // verus!
