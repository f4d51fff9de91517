use vstd::prelude::*;
use vstd::string::*;
use crate::storage::bytes::{lemma_position_of_bounds, position_of};
use crate::storage::lexer::{
    classify, closing, lemma_keyword_lengths, lex_from, lex_spec, lex_start, lex_step, line_end,
    next_line, LexState, TokenView, LINE_FEED,
};

verus! {

/// The offset that a token carries, if it carries one.
pub open spec fn offset_of(token: TokenView) -> Option<u64> {
    match token {
        TokenView::StartEmail(p) => Some(p),
        TokenView::Subject(p) => Some(p),
        TokenView::From(p) => Some(p),
        TokenView::BodyStart(p) => Some(p),
        TokenView::End(p) => Some(p),
        _ => None,
    }
}

/// Tokens that open a span which the very next token closes.
pub open spec fn single_span(token: TokenView) -> bool {
    token is Subject || token is From || token is BodyStart
}

/// No offset in `tokens` is above `bound`.
pub open spec fn offsets_at_most(tokens: Seq<TokenView>, bound: int) -> bool {
    forall|i: int|
        0 <= i < tokens.len() && (#[trigger] offset_of(tokens[i])) is Some ==> offset_of(
            tokens[i],
        )->0 <= bound
}

/// No offset in `tokens` is below `bound`.
pub open spec fn offsets_at_least(tokens: Seq<TokenView>, bound: int) -> bool {
    forall|i: int|
        0 <= i < tokens.len() && (#[trigger] offset_of(tokens[i])) is Some ==> offset_of(
            tokens[i],
        )->0 >= bound
}

/// Offsets never go down along the stream.
pub open spec fn ascending(tokens: Seq<TokenView>) -> bool {
    forall|i: int, j: int|
        0 <= i <= j < tokens.len() && (#[trigger] offset_of(tokens[i])) is Some && (
        #[trigger] offset_of(tokens[j])) is Some ==> offset_of(tokens[i])->0 <= offset_of(
            tokens[j],
        )->0
}

/// Every subject, sender and body start is followed at once by an `End`.
pub open spec fn spans_closed(tokens: Seq<TokenView>) -> bool {
    forall|i: int|
        0 <= i < tokens.len() && single_span(#[trigger] tokens[i]) ==> i + 1 < tokens.len()
            && tokens[i + 1] is End
}

/// A message that is not the first token opens right after an `End` that closes no
/// subject, sender or body.
pub open spec fn starts_follow_end(tokens: Seq<TokenView>) -> bool {
    forall|i: int|
        0 < i < tokens.len() && (#[trigger] tokens[i]) is StartEmail ==> tokens[i - 1] is End
            && (i >= 2 ==> !single_span(tokens[i - 2]))
}

/// The shape of every token stream that the lexer gives for a source of `len` bytes.
pub open spec fn lexed_stream(tokens: Seq<TokenView>, len: nat) -> bool {
    &&& ascending(tokens)
    &&& offsets_at_most(tokens, len as int)
    &&& spans_closed(tokens)
    &&& starts_follow_end(tokens)
}

/// A stream that ends as the lexer ends every stream: with an `End` that closes no
/// subject, sender or body.
pub open spec fn ends_closed(tokens: Seq<TokenView>) -> bool {
    &&& tokens.len() >= 1
    &&& tokens.last() is End
    &&& tokens.len() >= 2 ==> !single_span(tokens[tokens.len() - 2])
}

/// What holds of the lexer's state before the line that starts at `pos`.
pub open spec fn lex_invariant(len: nat, pos: int, st: LexState) -> bool {
    &&& 0 <= pos <= len
    &&& lexed_stream(st.tokens, len)
    &&& offsets_at_most(st.tokens, pos)
    &&& offset_of(st.current) is Some ==> offset_of(st.current)->0 <= pos && offsets_at_most(
        st.tokens,
        offset_of(st.current)->0 as int,
    )
    &&& pos == 0 ==> st == lex_start()
    &&& st.current == TokenView::StartEmail(0) ==> st.tokens.len() == 0
}

proof fn lemma_extend(a: Seq<TokenView>, b: Seq<TokenView>, len: nat, mid: int)
    requires
        lexed_stream(a, len),
        offsets_at_most(a, mid),
        offsets_at_least(b, mid),
        ascending(b),
        offsets_at_most(b, len as int),
        spans_closed(b),
        forall|i: int|
            0 <= i < b.len() && (#[trigger] b[i]) is StartEmail && a.len() + i > 0 ==> i >= 1
                && b[i - 1] is End && (i >= 2 ==> !single_span(b[i - 2])),
    ensures
        lexed_stream(a + b, len),
{
    let c = a + b;
    assert forall|i: int, j: int|
        0 <= i <= j < c.len() && (#[trigger] offset_of(c[i])) is Some && (#[trigger] offset_of(
            c[j],
        )) is Some implies offset_of(c[i])->0 <= offset_of(c[j])->0 by {
        if j < a.len() {
            assert(c[i] == a[i] && c[j] == a[j]);
        } else if i < a.len() {
            assert(c[i] == a[i] && c[j] == b[j - a.len()]);
        } else {
            assert(c[i] == b[i - a.len()] && c[j] == b[j - a.len()]);
        }
    }
    assert forall|i: int| 0 <= i < c.len() && (#[trigger] offset_of(c[i])) is Some implies offset_of(
        c[i],
    )->0 <= len by {
        if i < a.len() {
            assert(c[i] == a[i]);
        } else {
            assert(c[i] == b[i - a.len()]);
        }
    }
    assert forall|i: int| 0 <= i < c.len() && single_span(#[trigger] c[i]) implies i + 1 < c.len()
        && c[i + 1] is End by {
        if i < a.len() {
            assert(c[i] == a[i]);
            assert(c[i + 1] == a[i + 1]);
        } else {
            assert(c[i] == b[i - a.len()]);
            assert(c[i + 1] == b[i - a.len() + 1]);
        }
    }
    assert forall|i: int| 0 < i < c.len() && (#[trigger] c[i]) is StartEmail implies c[i - 1] is End
        && (i >= 2 ==> !single_span(c[i - 2])) by {
        if i < a.len() {
            assert(c[i] == a[i]);
            assert(c[i - 1] == a[i - 1]);
            if i >= 2 {
                assert(c[i - 2] == a[i - 2]);
            }
        } else {
            let k = i - a.len();
            assert(c[i] == b[k]);
            assert(c[i - 1] == b[k - 1]);
            if k >= 2 {
                assert(c[i - 2] == b[k - 2]);
            } else if i >= 2 {
                assert(c[i - 2] == a[i - 2]);
                if single_span(a[i - 2]) {
                    assert(i - 2 + 1 < a.len());
                }
            }
        }
    }
}

proof fn lemma_closing(tokens: Seq<TokenView>, current: TokenView, pos: int, end: bool, len: nat)
    requires
        0 <= pos <= len <= u64::MAX,
        lexed_stream(tokens, len),
        offsets_at_most(tokens, pos),
        offset_of(current) is Some ==> offset_of(current)->0 <= pos && offsets_at_most(
            tokens,
            offset_of(current)->0 as int,
        ),
        current == TokenView::StartEmail(0) ==> tokens.len() == 0,
    ensures
        lexed_stream(tokens + closing(pos as u64, current, end), len),
        offsets_at_most(tokens + closing(pos as u64, current, end), pos),
        end ==> ends_closed(tokens + closing(pos as u64, current, end)),
{
    let b = closing(pos as u64, current, end);
    let mid: int = if offset_of(current) is Some {
        offset_of(current)->0 as int
    } else {
        pos
    };
    assert(b.len() <= 3);
    lemma_extend(tokens, b, len, mid);
    let c = tokens + b;
    assert forall|i: int| 0 <= i < c.len() && (#[trigger] offset_of(c[i])) is Some implies offset_of(
        c[i],
    )->0 <= pos by {
        if i < tokens.len() {
            assert(c[i] == tokens[i]);
        } else {
            assert(c[i] == b[i - tokens.len()]);
        }
    }
    if end {
        assert(c.last() == b.last());
        if c.len() >= 2 {
            if b.len() >= 2 {
                assert(c[c.len() - 2] == b[b.len() - 2]);
            } else {
                assert(c[c.len() - 2] == tokens[tokens.len() - 1]);
                if single_span(tokens[tokens.len() - 1]) {
                    assert(tokens.len() - 1 + 1 < tokens.len());
                }
            }
        }
    }
}

proof fn lemma_lex_step(source: Seq<u8>, pos: int, st: LexState)
    requires
        source.len() <= u64::MAX,
        0 <= pos < source.len(),
        lex_invariant(source.len(), pos, st),
    ensures
        pos <= line_end(source, pos) <= source.len(),
        pos < next_line(source, pos) <= source.len(),
        lex_invariant(
            source.len(),
            next_line(source, pos),
            lex_step(source, pos, line_end(source, pos), st),
        ),
{
    lemma_position_of_bounds(source, LINE_FEED, pos);
    lemma_keyword_lengths();
    let len = source.len();
    let end = position_of(source, LINE_FEED, pos);
    let next = if end < len {
        end + 1
    } else {
        end
    };
    let line = source.subrange(pos, end);
    let (token, boundary) = classify(pos as u64, line, st.boundary, st.current);
    let st2 = lex_step(source, pos, end, st);
    if token is Continuation {
    } else {
        lemma_closing(st.tokens, st.current, pos, false, len);
        assert(offset_of(token) is Some ==> pos <= offset_of(token)->0 <= next);
        assert(st2.current == TokenView::StartEmail(0) ==> st2.tokens.len() == 0) by {
            if st2.current == TokenView::StartEmail(0) {
                assert(pos == 0);
                assert(closing(0u64, TokenView::Ignore, false).len() == 0);
            }
        }
        if offset_of(token) is Some {
            let o = offset_of(token)->0 as int;
            assert forall|i: int|
                0 <= i < st2.tokens.len() && (#[trigger] offset_of(st2.tokens[i])) is Some implies offset_of(
                st2.tokens[i],
            )->0 <= o by {}
        }
        assert forall|i: int|
            0 <= i < st2.tokens.len() && (#[trigger] offset_of(st2.tokens[i])) is Some implies offset_of(
            st2.tokens[i],
        )->0 <= next by {}
    }
}

proof fn lemma_lex_from(source: Seq<u8>, pos: int, st: LexState)
    requires
        source.len() <= u64::MAX,
        0 <= pos <= source.len(),
        lex_invariant(source.len(), pos, st),
    ensures
        lexed_stream(lex_from(source, pos, st), source.len()),
        ends_closed(lex_from(source, pos, st)),
    decreases source.len() - pos,
{
    if pos >= source.len() {
        lemma_closing(st.tokens, st.current, pos, true, source.len());
    } else {
        lemma_lex_step(source, pos, st);
        lemma_lex_from(
            source,
            next_line(source, pos),
            lex_step(source, pos, line_end(source, pos), st),
        );
    }
}

/// Whatever the source holds, the lexer's stream has the shape of [`lexed_stream`], and it
/// ends with an `End` that closes no subject, sender or body.
pub proof fn lemma_lexed_stream(source: Seq<u8>)
    requires
        source.len() <= u64::MAX,
    ensures
        lexed_stream(lex_spec(source), source.len()),
        ends_closed(lex_spec(source)),
{
    lemma_lex_from(source, 0, lex_start());
}

/// The number of messages that open among the first `n` tokens.
pub open spec fn started(tokens: Seq<TokenView>, n: nat) -> nat
    decreases n,
{
    if n == 0 || n > tokens.len() {
        0
    } else if tokens[n - 1] is StartEmail {
        started(tokens, (n - 1) as nat) + 1
    } else {
        started(tokens, (n - 1) as nat)
    }
}

/// The number of lines from `pos` on that open a message.
pub open spec fn opening_lines(source: Seq<u8>, pos: int) -> nat
    decreases source.len() - pos,
    via opening_lines_decreases
{
    if pos < 0 || pos >= source.len() {
        0
    } else if "From ".spec_bytes().is_prefix_of(source.subrange(pos, line_end(source, pos))) {
        1 + opening_lines(source, next_line(source, pos))
    } else {
        opening_lines(source, next_line(source, pos))
    }
}

#[via_fn]
proof fn opening_lines_decreases(source: Seq<u8>, pos: int) {
    if 0 <= pos < source.len() {
        lemma_position_of_bounds(source, LINE_FEED, pos);
    }
}

/// The source ends on a message that has only just opened: its last line that is no
/// continuation opens a message. The lexer drops such a message.
pub open spec fn ends_on_start(source: Seq<u8>, pos: int, st: LexState) -> bool
    decreases source.len() - pos,
    via ends_on_start_decreases
{
    if pos < 0 || pos >= source.len() {
        st.current is StartEmail
    } else {
        ends_on_start(
            source,
            next_line(source, pos),
            lex_step(source, pos, line_end(source, pos), st),
        )
    }
}

#[via_fn]
proof fn ends_on_start_decreases(source: Seq<u8>, pos: int, st: LexState) {
    if 0 <= pos < source.len() {
        lemma_position_of_bounds(source, LINE_FEED, pos);
    }
}

proof fn lemma_started_concat(a: Seq<TokenView>, b: Seq<TokenView>)
    ensures
        started(a + b, (a + b).len()) == started(a, a.len()) + started(b, b.len()),
    decreases b.len(),
{
    if b.len() == 0 {
        assert(a + b =~= a);
    } else {
        lemma_started_concat(a, b.drop_last());
        assert((a + b).drop_last() =~= a + b.drop_last());
        lemma_started_prefix(a + b, ((a + b).len() - 1) as nat);
        lemma_started_prefix(b, (b.len() - 1) as nat);
    }
}

/// Counting the starts among the first `n` tokens only looks at those tokens.
proof fn lemma_started_prefix(tokens: Seq<TokenView>, n: nat)
    requires
        n <= tokens.len(),
    ensures
        started(tokens, n) == started(tokens.take(n as int), n),
    decreases n,
{
    if n > 0 {
        lemma_started_prefix(tokens, (n - 1) as nat);
        lemma_started_prefix(tokens.take(n as int), (n - 1) as nat);
        assert(tokens.take(n as int).take(n - 1) =~= tokens.take(n - 1));
    }
}

proof fn lemma_started_closing(pos: u64, pending: TokenView, end: bool)
    ensures
        started(closing(pos, pending, end), closing(pos, pending, end).len()) == if pending
            is StartEmail && !end {
            1nat
        } else {
            0nat
        },
{
    let c = closing(pos, pending, end);
    reveal_with_fuel(started, 4);
    assert(c.len() <= 3);
}

proof fn lemma_lex_from_starts(source: Seq<u8>, pos: int, st: LexState)
    requires
        0 <= pos <= source.len(),
    ensures
        started(lex_from(source, pos, st), lex_from(source, pos, st).len()) + (if ends_on_start(
            source,
            pos,
            st,
        ) {
            1nat
        } else {
            0nat
        }) == started(st.tokens, st.tokens.len()) + (if st.current is StartEmail {
            1nat
        } else {
            0nat
        }) + opening_lines(source, pos),
    decreases source.len() - pos,
{
    if pos >= source.len() {
        lemma_started_concat(st.tokens, closing(source.len() as u64, st.current, true));
        lemma_started_closing(source.len() as u64, st.current, true);
    } else {
        lemma_position_of_bounds(source, LINE_FEED, pos);
        let end = line_end(source, pos);
        let st2 = lex_step(source, pos, end, st);
        let (token, boundary) = classify(pos as u64, source.subrange(pos, end), st.boundary, st.current);
        lemma_lex_from_starts(source, next_line(source, pos), st2);
        if !(token is Continuation) {
            lemma_started_concat(st.tokens, closing(pos as u64, st.current, false));
            lemma_started_closing(pos as u64, st.current, false);
        }
    }
}

/// The message starts in the lexer's stream are as many as the lines of the source that
/// open a message, less one where the source ends on a message that has only just opened.
pub proof fn lemma_lexed_starts(source: Seq<u8>)
    ensures
        started(lex_spec(source), lex_spec(source).len()) + (if ends_on_start(
            source,
            0,
            lex_start(),
        ) {
            1nat
        } else {
            0nat
        }) == opening_lines(source, 0),
{
    lemma_lex_from_starts(source, 0, lex_start());
    assert(started(lex_start().tokens, 0) == 0);
}

} // verus!
