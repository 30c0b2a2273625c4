use crate::lex::{Token, TokenType};
use crate::parse::{balanced, depth, never_underflows, scan, verdict, weight, SyntaxError};
use vstd::prelude::*;

verus! {

/// The places of the brackets that are open after `tokens`, the outer ones
/// first. A `]` closes the innermost open bracket; one that finds none open
/// is passed over.
pub open spec fn open_places(tokens: Seq<Token>) -> Seq<int>
    decreases tokens.len(),
{
    if tokens.len() == 0 {
        Seq::empty()
    } else {
        let before = open_places(tokens.drop_last());
        match tokens.last().token_type {
            TokenType::LoopStart => before.push(tokens.len() - 1),
            TokenType::LoopEnd => if before.len() > 0 {
                before.drop_last()
            } else {
                before
            },
            _ => before,
        }
    }
}

/// The `]` at `k` has no partner: every bracket before it is matched, so it
/// finds none open. It is the first bracket without a partner.
pub open spec fn unmatched_close_at(tokens: Seq<Token>, k: int) -> bool {
    &&& 0 <= k < tokens.len()
    &&& tokens[k].token_type is LoopEnd
    &&& never_underflows(tokens.take(k))
    &&& depth(tokens.take(k)) == 0
}

/// The `[` at `j` has no partner: the depth never comes back to what it was
/// before it.
pub open spec fn unmatched_open_at(tokens: Seq<Token>, j: int) -> bool {
    &&& 0 <= j < tokens.len()
    &&& tokens[j].token_type is LoopStart
    &&& forall|k: int|
        j < k <= tokens.len() ==> #[trigger] depth(tokens.take(k)) > depth(tokens.take(j))
}

/// The depth after one more token.
pub proof fn lemma_depth_push(tokens: Seq<Token>, token: Token)
    ensures
        depth(tokens.push(token)) == depth(tokens) + weight(token.token_type),
{
    assert(tokens.push(token).drop_last() =~= tokens);
}

/// The depth of a concatenation is the sum of the depths.
pub proof fn lemma_depth_concat(head: Seq<Token>, tail: Seq<Token>)
    ensures
        depth(head + tail) == depth(head) + depth(tail),
    decreases tail.len(),
{
    if tail.len() > 0 {
        lemma_depth_concat(head, tail.drop_last());
        assert((head + tail).drop_last() =~= head + tail.drop_last());
    }
}

/// A beginning of a stream that never underflows never underflows.
pub proof fn lemma_prefix_never_underflows(tokens: Seq<Token>, n: int)
    requires
        never_underflows(tokens),
        0 <= n <= tokens.len(),
    ensures
        never_underflows(tokens.take(n)),
{
    assert forall|k: int| 0 <= k <= tokens.take(n).len() implies #[trigger] depth(
        tokens.take(n).take(k),
    ) >= 0 by {
        assert(tokens.take(n).take(k) =~= tokens.take(k));
    }
}

/// A stream that never underflows, followed by another, never underflows.
pub proof fn lemma_concat_never_underflows(head: Seq<Token>, tail: Seq<Token>)
    requires
        never_underflows(head),
        never_underflows(tail),
    ensures
        never_underflows(head + tail),
{
    assert(head.take(head.len() as int) =~= head);
    assert forall|k: int| 0 <= k <= (head + tail).len() implies #[trigger] depth(
        (head + tail).take(k),
    ) >= 0 by {
        if k <= head.len() {
            assert((head + tail).take(k) =~= head.take(k));
        } else {
            assert((head + tail).take(k) =~= head + tail.take(k - head.len()));
            lemma_depth_concat(head, tail.take(k - head.len()));
        }
    }
}

/// One more token keeps a stream from underflowing if the depth after it is
/// not negative.
pub proof fn lemma_push_never_underflows(tokens: Seq<Token>, token: Token)
    requires
        never_underflows(tokens),
        depth(tokens.push(token)) >= 0,
    ensures
        never_underflows(tokens.push(token)),
{
    let longer = tokens.push(token);
    assert forall|k: int| 0 <= k <= longer.len() implies #[trigger] depth(longer.take(k)) >= 0 by {
        if k <= tokens.len() {
            assert(longer.take(k) =~= tokens.take(k));
        } else {
            assert(longer.take(k) =~= longer);
        }
    }
}

/// What the validator's pass over a whole stream comes to, said by depth:
/// it fails exactly where the stream underflows, and otherwise leaves open the
/// tokens at `open_places`, as many as the depth.
pub proof fn lemma_scan_by_depth(tokens: Seq<Token>)
    ensures
        scan(Seq::empty(), tokens) is Ok <==> never_underflows(tokens),
        scan(Seq::empty(), tokens) matches Ok(open) ==> {
            &&& open.len() == depth(tokens)
            &&& open.len() == open_places(tokens).len()
            &&& forall|i: int|
                0 <= i < open.len() ==> {
                    &&& 0 <= #[trigger] open_places(tokens)[i] < tokens.len()
                    &&& open[i] == tokens[open_places(tokens)[i]]
                }
        },
    decreases tokens.len(),
{
    let start = Seq::<Token>::empty();
    if tokens.len() > 0 {
        let init = tokens.drop_last();
        lemma_scan_by_depth(init);
        assert(tokens =~= init.push(tokens.last()));
        if never_underflows(tokens) {
            assert(tokens.take(tokens.len() as int) =~= tokens);
            lemma_prefix_never_underflows(tokens, tokens.len() - 1);
        }
        if scan(start, init) is Ok && scan(start, tokens) is Ok {
            lemma_push_never_underflows(init, tokens.last());
        }
    }
}

/// The validator accepts a stream exactly when its brackets are balanced.
pub proof fn lemma_accepts_balanced(tokens: Seq<Token>)
    ensures
        verdict(Seq::empty(), tokens) is Ok <==> balanced(tokens),
{
    lemma_scan_by_depth(tokens);
}

/// Where the validator reports an unmatched `]`, it reports the first bracket
/// of the stream that has no partner.
pub proof fn lemma_close_reported_is_first(tokens: Seq<Token>) -> (k: int)
    requires
        scan(Seq::empty(), tokens) is Err,
    ensures
        unmatched_close_at(tokens, k),
        scan(Seq::empty(), tokens) == Err::<Seq<Token>, Token>(tokens[k]),
        verdict(Seq::empty(), tokens) == Err::<(), SyntaxError>(
            SyntaxError::UnmatchedClose { line: tokens[k].line, col: tokens[k].col },
        ),
    decreases tokens.len(),
{
    let start = Seq::<Token>::empty();
    let init = tokens.drop_last();
    if scan(start, init) is Err {
        let k = lemma_close_reported_is_first(init);
        assert(init.take(k) =~= tokens.take(k));
        k
    } else {
        lemma_scan_by_depth(init);
        tokens.len() - 1
    }
}

/// The places of the open brackets: each holds a `[` whose depth is its rank,
/// the depth stays above that rank ever after, and the places rise.
pub proof fn lemma_open_places(tokens: Seq<Token>)
    requires
        never_underflows(tokens),
    ensures
        open_places(tokens).len() == depth(tokens),
        forall|i: int|
            0 <= i < open_places(tokens).len() ==> {
                &&& unmatched_open_at(tokens, #[trigger] open_places(tokens)[i])
                &&& depth(tokens.take(open_places(tokens)[i])) == i
                &&& (i > 0 ==> open_places(tokens)[i - 1] < open_places(tokens)[i])
            },
    decreases tokens.len(),
{
    if tokens.len() > 0 {
        let init = tokens.drop_last();
        let n = tokens.len() - 1;
        assert(tokens.take(tokens.len() as int) =~= tokens);
        lemma_prefix_never_underflows(tokens, n);
        lemma_open_places(init);
        let places = open_places(tokens);
        assert forall|i: int| 0 <= i < places.len() implies {
            &&& unmatched_open_at(tokens, #[trigger] places[i])
            &&& depth(tokens.take(places[i])) == i
            &&& (i > 0 ==> places[i - 1] < places[i])
        } by {
            let j = places[i];
            if i < open_places(init).len() {
                assert(init.take(j) =~= tokens.take(j));
                assert forall|k: int| j < k <= tokens.len() implies #[trigger] depth(
                    tokens.take(k),
                ) > depth(tokens.take(j)) by {
                    if k <= n {
                        assert(init.take(k) =~= tokens.take(k));
                    }
                }
            }
        }
    }
}

/// An unmatched `[` is an open place.
pub proof fn lemma_unmatched_open_is_open(tokens: Seq<Token>, j: int) -> (i: int)
    requires
        never_underflows(tokens),
        unmatched_open_at(tokens, j),
    ensures
        0 <= i < open_places(tokens).len(),
        open_places(tokens)[i] == j,
    decreases tokens.len(),
{
    let init = tokens.drop_last();
    let n = tokens.len() - 1;
    assert(tokens.take(tokens.len() as int) =~= tokens);
    lemma_prefix_never_underflows(tokens, n);
    lemma_open_places(init);
    lemma_open_places(tokens);
    if j == n {
        open_places(init).len() as int
    } else {
        assert(init.take(j) =~= tokens.take(j));
        assert forall|k: int| j < k <= init.len() implies #[trigger] depth(init.take(k)) > depth(
            init.take(j),
        ) by {
            assert(init.take(k) =~= tokens.take(k));
        }
        let i = lemma_unmatched_open_is_open(init, j);
        if tokens.last().token_type is LoopEnd && i == open_places(init).len() - 1 {
            // the `]` would close the bracket at `j`: but then the depth is back
            assert(false);
        }
        i
    }
}

/// Where the validator reports an unmatched `[`, it reports the innermost
/// bracket that has no partner: the last of them in the stream. Where only
/// one bracket has no partner, that is also the first.
pub proof fn lemma_open_reported_is_innermost(tokens: Seq<Token>) -> (j: int)
    requires
        scan(Seq::empty(), tokens) matches Ok(open) && open.len() > 0,
    ensures
        unmatched_open_at(tokens, j),
        verdict(Seq::empty(), tokens) == Err::<(), SyntaxError>(
            SyntaxError::UnmatchedOpen { line: tokens[j].line, col: tokens[j].col },
        ),
        forall|other: int| unmatched_open_at(tokens, other) ==> other <= j,
        depth(tokens) == 1 ==> forall|other: int| unmatched_open_at(tokens, other) ==> other == j,
{
    lemma_scan_by_depth(tokens);
    lemma_open_places(tokens);
    let places = open_places(tokens);
    let top = places.len() - 1;
    let j = places[top];
    assert forall|other: int| unmatched_open_at(tokens, other) implies other <= j by {
        lemma_unmatched_open_is_open(tokens, other);
    }
    j
}

} // verus!
