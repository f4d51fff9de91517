use vstd::prelude::*;
use crate::storage::lexer::{lex_spec, TokenView};
use crate::storage::parser::{
    close_body, close_email, parse_spec, parse_step, parse_upto, BodyView, DraftView, EmailView,
    ParseState, SeekRange,
};
use crate::storage::lexer::lex_start;
use crate::storage::stream::{
    ascending, ends_closed, ends_on_start, lemma_lexed_stream, lemma_lexed_starts, lexed_stream,
    offset_of, offsets_at_most, opening_lines, single_span, started,
};
use crate::storage::MailboxError;

verus! {

/// `inner` is ordered and lies inside `outer`.
pub open spec fn within(inner: SeekRange, outer: SeekRange) -> bool {
    outer.0 <= inner.0 <= inner.1 <= outer.1
}

/// Each body ends before the next one starts, so no two of them overlap.
pub open spec fn bodies_in_order(bodies: Seq<BodyView>) -> bool {
    forall|i: int, j: int|
        0 <= i < j < bodies.len() ==> (#[trigger] bodies[i]).content.1 <= (
        #[trigger] bodies[j]).content.0
}

/// Two ranges share no byte.
pub open spec fn apart(a: SeekRange, b: SeekRange) -> bool {
    a.1 <= b.0 || b.1 <= a.0
}

/// The subject, the sender and the bodies share no byte with one another.
pub open spec fn parts_apart(subject: SeekRange, from: SeekRange, bodies: Seq<BodyView>) -> bool {
    &&& apart(subject, from)
    &&& forall|i: int| 0 <= i < bodies.len() ==> apart(subject, (#[trigger] bodies[i]).content)
    &&& forall|i: int| 0 <= i < bodies.len() ==> apart(from, (#[trigger] bodies[i]).content)
    &&& bodies_in_order(bodies)
}

impl EmailView {
    /// The record's ranges fit a source of `len` bytes: the message lies inside the source,
    /// the subject, the sender and every body lie inside the message, the bodies follow one
    /// another, and no two of these parts overlap.
    pub open spec fn well_formed(self, len: nat) -> bool {
        &&& self.email.0 <= self.email.1 <= len
        &&& within(self.subject, self.email)
        &&& within(self.from, self.email)
        &&& forall|i: int|
            0 <= i < self.bodies.len() ==> within((#[trigger] self.bodies[i]).content, self.email)
        &&& parts_apart(self.subject, self.from, self.bodies)
    }
}

/// Each message ends before the next one starts.
pub open spec fn in_file_order(emails: Seq<EmailView>) -> bool {
    forall|i: int, j: int|
        0 <= i < j < emails.len() ==> (#[trigger] emails[i]).email.1 <= (
        #[trigger] emails[j]).email.0
}

/// Every record fits a source of `len` bytes, and the records stand in the order of their
/// messages in the source.
pub open spec fn all_well_formed(emails: Seq<EmailView>, len: nat) -> bool {
    &&& forall|i: int| 0 <= i < emails.len() ==> (#[trigger] emails[i]).well_formed(len)
    &&& in_file_order(emails)
}

/// No record ends after `x`.
pub open spec fn records_before(emails: Seq<EmailView>, x: int) -> bool {
    forall|i: int| 0 <= i < emails.len() ==> (#[trigger] emails[i]).email.1 <= x
}

/// The records of a source, or the structural error that its token stream gives.
pub open spec fn load_spec(source: Seq<u8>) -> Result<Seq<EmailView>, MailboxError> {
    parse_spec(lex_spec(source))
}

/// The latest offset among the first `n` tokens, or 0 where none carries one.
pub open spec fn high(tokens: Seq<TokenView>, n: nat) -> int
    decreases n,
{
    if n == 0 || n > tokens.len() {
        0
    } else if offset_of(tokens[n - 1]) is Some {
        offset_of(tokens[n - 1])->0 as int
    } else {
        high(tokens, (n - 1) as nat)
    }
}

proof fn lemma_high(tokens: Seq<TokenView>, len: nat, n: nat)
    requires
        ascending(tokens),
        offsets_at_most(tokens, len as int),
        n <= tokens.len(),
    ensures
        0 <= high(tokens, n) <= len,
        forall|j: int|
            n <= j < tokens.len() && (#[trigger] offset_of(tokens[j])) is Some ==> high(tokens, n)
                <= offset_of(tokens[j])->0,
    decreases n,
{
    if n > 0 && !(offset_of(tokens[n - 1]) is Some) {
        lemma_high(tokens, len, (n - 1) as nat);
    }
}

/// No range of the draft ends after `x`.
pub open spec fn ends_before(draft: DraftView, x: int) -> bool {
    &&& draft.subject is Some ==> draft.subject.unwrap().1 <= x
    &&& draft.from is Some ==> draft.from.unwrap().1 <= x
    &&& forall|k: int| 0 <= k < draft.bodies.len() ==> (#[trigger] draft.bodies[k]).content.1 <= x
}

/// No range of the draft starts before `x`.
pub open spec fn starts_after(draft: DraftView, x: int) -> bool {
    &&& draft.subject is Some ==> draft.subject.unwrap().0 >= x
    &&& draft.from is Some ==> draft.from.unwrap().0 >= x
    &&& forall|k: int| 0 <= k < draft.bodies.len() ==> (#[trigger] draft.bodies[k]).content.0 >= x
}

/// Every range of the draft is ordered, its bodies follow one another, and no two of its
/// parts overlap.
pub open spec fn ordered(draft: DraftView) -> bool {
    &&& draft.email is None
    &&& draft.subject is Some ==> draft.subject.unwrap().0 <= draft.subject.unwrap().1
    &&& draft.from is Some ==> draft.from.unwrap().0 <= draft.from.unwrap().1
    &&& forall|k: int|
        0 <= k < draft.bodies.len() ==> (#[trigger] draft.bodies[k]).content.0
            <= draft.bodies[k].content.1
    &&& bodies_in_order(draft.bodies)
    &&& draft.subject is Some && draft.from is Some ==> apart(
        draft.subject.unwrap(),
        draft.from.unwrap(),
    )
    &&& draft.subject is Some ==> forall|k: int|
        0 <= k < draft.bodies.len() ==> apart(
            draft.subject.unwrap(),
            (#[trigger] draft.bodies[k]).content,
        )
    &&& draft.from is Some ==> forall|k: int|
        0 <= k < draft.bodies.len() ==> apart(
            draft.from.unwrap(),
            (#[trigger] draft.bodies[k]).content,
        )
}

/// What holds of the parser's state after the first `n` tokens of a lexed stream.
pub open spec fn parse_invariant(tokens: Seq<TokenView>, len: nat, n: nat, st: ParseState) -> bool {
    &&& forall|k: int| 1 <= k < st.stack.len() ==> !((#[trigger] st.stack[k]) is StartEmail)
    &&& forall|k: int|
        0 <= k < st.stack.len() && single_span(#[trigger] st.stack[k]) ==> k == st.stack.len() - 1
            && n >= 1 && tokens[n - 1] == st.stack[k]
    &&& forall|k: int|
        0 <= k < st.stack.len() && (#[trigger] offset_of(st.stack[k])) is Some ==> offset_of(
            st.stack[k],
        )->0 <= high(tokens, n)
    &&& st.stack.len() > 0 && st.stack[0] is StartEmail ==> {
        &&& starts_after(st.draft, st.stack[0]->StartEmail_0 as int)
        &&& forall|k: int|
            0 <= k < st.stack.len() && (#[trigger] offset_of(st.stack[k])) is Some
                ==> st.stack[0]->StartEmail_0 <= offset_of(st.stack[k])->0
    }
    &&& ordered(st.draft)
    &&& ends_before(st.draft, high(tokens, n))
    &&& st.stack.len() > 0 && single_span(st.stack.last()) ==> ends_before(
        st.draft,
        offset_of(st.stack.last())->0 as int,
    )
    &&& n >= 1 && tokens[n - 1] is End && (n >= 2 ==> !single_span(tokens[n - 2]))
        ==> st.stack.len() == 0 && st.draft == DraftView::fresh()
    &&& n == 0 ==> st == ParseState::start()
    &&& all_well_formed(st.emails, len)
    &&& records_before(st.emails, high(tokens, n))
    &&& st.stack.len() > 0 && st.stack[0] is StartEmail ==> records_before(
        st.emails,
        st.stack[0]->StartEmail_0 as int,
    )
}

/// What every step may use: the latest offset never goes down, and a subject, sender or body
/// start waits on the stack only while the next token is its `End`.
proof fn lemma_step_facts(tokens: Seq<TokenView>, len: nat, n: nat, st: ParseState)
    requires
        lexed_stream(tokens, len),
        n < tokens.len(),
        parse_invariant(tokens, len, n, st),
    ensures
        0 <= high(tokens, n) <= high(tokens, (n + 1) as nat) <= len,
        offset_of(tokens[n as int]) is Some ==> high(tokens, (n + 1) as nat) == offset_of(
            tokens[n as int],
        )->0,
        offset_of(tokens[n as int]) is None ==> high(tokens, (n + 1) as nat) == high(tokens, n),
        !(tokens[n as int] is End) ==> forall|k: int|
            0 <= k < st.stack.len() ==> !single_span(#[trigger] st.stack[k]),
        n > 0 && tokens[n as int] is StartEmail ==> st.stack.len() == 0 && st.draft
            == DraftView::fresh(),
{
    lemma_high(tokens, len, n);
    lemma_high(tokens, len, (n + 1) as nat);
    if !(tokens[n as int] is End) {
        assert forall|k: int| 0 <= k < st.stack.len() implies !single_span(
            #[trigger] st.stack[k],
        ) by {
            if single_span(st.stack[k]) {
                assert(single_span(tokens[n - 1]));
                assert(tokens[n - 1 + 1] is End);
            }
        }
    }
    if n > 0 && tokens[n as int] is StartEmail {
        assert(tokens[n - 1] is End && (n >= 2 ==> !single_span(tokens[n - 2])));
    }
}

proof fn lemma_step_end_body(tokens: Seq<TokenView>, len: nat, n: nat, st: ParseState)
    requires
        lexed_stream(tokens, len),
        n < tokens.len(),
        parse_invariant(tokens, len, n, st),
        tokens[n as int] is End,
        st.stack.len() > 0,
        st.stack.last() is BodyStart,
    ensures
        parse_invariant(tokens, len, (n + 1) as nat, parse_step(st, tokens[n as int])->0),
{
    lemma_step_facts(tokens, len, n, st);
    let end = tokens[n as int]->End_0;
    let top = st.stack.last();
    let start = top->BodyStart_0;
    let rest = ParseState { stack: st.stack.drop_last(), ..st };
    let st2 = close_body(rest, start, end);
    assert(parse_step(st, tokens[n as int]) == Some(st2));
    assert(single_span(top));
    assert(tokens[n - 1] == top);
    assert(offset_of(top) == Some(start));
    assert(forall|k: int| 0 <= k < st2.stack.len() ==> #[trigger] st2.stack[k] == st.stack[k]);
    assert(forall|k: int| 0 <= k < st2.stack.len() ==> !single_span(#[trigger] st2.stack[k]));
    let body = st2.draft.bodies.last();
    assert(st2.draft.bodies == st.draft.bodies.push(body));
    assert(body.content == (start, end));
    assert(st2.draft.subject == st.draft.subject && st2.draft.from == st.draft.from
        && st2.draft.email == st.draft.email);
    assert(forall|k: int|
        0 <= k < st.draft.bodies.len() ==> #[trigger] st2.draft.bodies[k] == st.draft.bodies[k]);
    assert(ends_before(st.draft, start as int));
    assert(bodies_in_order(st2.draft.bodies));
    assert(ordered(st2.draft));
    assert(ends_before(st2.draft, end as int));
    if st2.stack.len() > 0 && st2.stack[0] is StartEmail {
        assert(st2.stack[0] == st.stack[0]);
        assert(st.stack[0]->StartEmail_0 <= offset_of(st.stack[st.stack.len() - 1])->0);
        assert(starts_after(st2.draft, st2.stack[0]->StartEmail_0 as int));
    }
}

proof fn lemma_step_end_header(tokens: Seq<TokenView>, len: nat, n: nat, st: ParseState)
    requires
        lexed_stream(tokens, len),
        n < tokens.len(),
        parse_invariant(tokens, len, n, st),
        tokens[n as int] is End,
        st.stack.len() > 0,
        st.stack.last() is From || st.stack.last() is Subject,
    ensures
        parse_invariant(tokens, len, (n + 1) as nat, parse_step(st, tokens[n as int])->0),
{
    lemma_step_facts(tokens, len, n, st);
    let end = tokens[n as int]->End_0;
    let top = st.stack.last();
    let start = offset_of(top)->0;
    let st2 = parse_step(st, tokens[n as int])->0;
    assert(single_span(top));
    assert(tokens[n - 1] == top);
    assert(st2.stack == st.stack.drop_last());
    assert(st2.draft.bodies == st.draft.bodies);
    assert(forall|k: int| 0 <= k < st2.stack.len() ==> #[trigger] st2.stack[k] == st.stack[k]);
    assert(forall|k: int| 0 <= k < st2.stack.len() ==> !single_span(#[trigger] st2.stack[k]));
    assert(ends_before(st.draft, start as int));
    if st2.stack.len() > 0 && st2.stack[0] is StartEmail {
        assert(st2.stack[0] == st.stack[0]);
        assert(st.stack[0]->StartEmail_0 <= offset_of(st.stack[st.stack.len() - 1])->0);
    }
}

proof fn lemma_step_end_email(tokens: Seq<TokenView>, len: nat, n: nat, st: ParseState)
    requires
        lexed_stream(tokens, len),
        n < tokens.len(),
        parse_invariant(tokens, len, n, st),
        tokens[n as int] is End,
        st.stack.len() > 0,
        st.stack.last() is StartEmail,
    ensures
        parse_invariant(tokens, len, (n + 1) as nat, parse_step(st, tokens[n as int])->0),
{
    lemma_step_facts(tokens, len, n, st);
    let end = tokens[n as int]->End_0;
    let top = st.stack.last();
    let start = top->StartEmail_0;
    let rest = ParseState { stack: st.stack.drop_last(), ..st };
    let st2 = close_email(rest, start, end);
    assert(parse_step(st, tokens[n as int]) == Some(st2));
    assert(st.stack.len() == 1) by {
        if st.stack.len() > 1 {
            assert(!(st.stack[st.stack.len() - 1] is StartEmail));
        }
    }
    assert(st.stack[0] == top);
    assert(offset_of(st.stack[0]) == Some(start));
    assert(start <= high(tokens, n));
    assert(st2.stack.len() == 0);
    let draft = DraftView { email: Some((start, end)), ..st.draft };
    if draft.complete() {
        let record = draft.record();
        assert(starts_after(st.draft, start as int));
        assert(ends_before(st.draft, end as int));
        assert forall|i: int| 0 <= i < record.bodies.len() implies within(
            (#[trigger] record.bodies[i]).content,
            record.email,
        ) by {
            assert(st.draft.bodies[i].content.0 >= start);
            assert(st.draft.bodies[i].content.1 <= end);
        }
        assert(record.well_formed(len));
        assert(st2.emails == st.emails.push(record));
        assert forall|i: int| 0 <= i < st2.emails.len() implies (#[trigger] st2.emails[i]).well_formed(
            len,
        ) by {
            if i < st.emails.len() {
                assert(st2.emails[i] == st.emails[i]);
            }
        }
    }
}

proof fn lemma_step_other(tokens: Seq<TokenView>, len: nat, n: nat, st: ParseState)
    requires
        lexed_stream(tokens, len),
        n < tokens.len(),
        parse_invariant(tokens, len, n, st),
        !(tokens[n as int] is End),
    ensures
        parse_step(st, tokens[n as int]) is Some,
        parse_invariant(tokens, len, (n + 1) as nat, parse_step(st, tokens[n as int])->0),
{
    lemma_step_facts(tokens, len, n, st);
    let token = tokens[n as int];
    let st2 = parse_step(st, token)->0;
    assert(st2.draft.bodies == st.draft.bodies);
    assert(st2.emails == st.emails);
    if token is Date {
        assert(st2.stack == st.stack);
    } else if token is StartEmail && st.stack.len() > 0 {
        assert(st2.stack.len() == 0);
    } else {
        assert(st2.stack == st.stack.push(token));
        assert(forall|k: int| 0 <= k < st.stack.len() ==> #[trigger] st2.stack[k] == st.stack[k]);
        assert(st2.stack.last() == token);
        if token is StartEmail {
            assert(st.draft == DraftView::fresh());
            assert(st2.stack.len() == 1);
        }
        assert forall|k: int|
            0 <= k < st2.stack.len() && (#[trigger] offset_of(st2.stack[k])) is Some implies offset_of(
            st2.stack[k],
        )->0 <= high(tokens, (n + 1) as nat) by {
            if k < st.stack.len() {
                assert(st2.stack[k] == st.stack[k]);
            }
        }
        if st2.stack.len() > 0 && st2.stack[0] is StartEmail {
            assert forall|k: int|
                0 <= k < st2.stack.len() && (#[trigger] offset_of(st2.stack[k])) is Some implies st2.stack[0]->StartEmail_0
                <= offset_of(st2.stack[k])->0 by {
                if k < st.stack.len() {
                    assert(st2.stack[k] == st.stack[k]);
                } else if st.stack.len() > 0 {
                    assert(st2.stack[0] == st.stack[0]);
                    assert(offset_of(st.stack[0]) is Some);
                }
            }
        }
    }
}

proof fn lemma_parse_step(tokens: Seq<TokenView>, len: nat, n: nat, st: ParseState)
    requires
        lexed_stream(tokens, len),
        n < tokens.len(),
        parse_invariant(tokens, len, n, st),
        parse_step(st, tokens[n as int]) is Some,
    ensures
        parse_invariant(tokens, len, (n + 1) as nat, parse_step(st, tokens[n as int])->0),
{
    if tokens[n as int] is End {
        let top = st.stack.last();
        if top is BodyStart {
            lemma_step_end_body(tokens, len, n, st);
        } else if top is From || top is Subject {
            lemma_step_end_header(tokens, len, n, st);
        } else {
            lemma_step_end_email(tokens, len, n, st);
        }
    } else {
        lemma_step_other(tokens, len, n, st);
    }
}

proof fn lemma_parse_upto(tokens: Seq<TokenView>, len: nat, n: nat)
    requires
        lexed_stream(tokens, len),
        n <= tokens.len(),
        parse_upto(tokens, n) is Some,
    ensures
        parse_invariant(tokens, len, n, parse_upto(tokens, n)->0),
    decreases n,
{
    if n > 0 {
        lemma_parse_upto(tokens, len, (n - 1) as nat);
        lemma_parse_step(tokens, len, (n - 1) as nat, parse_upto(tokens, (n - 1) as nat)->0);
    }
}

/// The records that the parser makes of a lexed stream are all well formed.
pub proof fn lemma_parsed_records_well_formed(tokens: Seq<TokenView>, len: nat)
    requires
        lexed_stream(tokens, len),
    ensures
        parse_spec(tokens) is Ok ==> all_well_formed(parse_spec(tokens)->Ok_0, len),
{
    if parse_spec(tokens) is Ok {
        lemma_parse_upto(tokens, len, tokens.len());
    }
}

/// Every record of a loaded source is well formed: the message's range contains its
/// subject, its sender and all its bodies, and no two of these parts overlap. The records
/// stand in the order of their messages in the source.
pub proof fn lemma_loaded_records_well_formed(source: Seq<u8>)
    requires
        source.len() <= u64::MAX,
    ensures
        load_spec(source) is Ok ==> all_well_formed(load_spec(source)->Ok_0, source.len()),
{
    lemma_lexed_stream(source);
    lemma_parsed_records_well_formed(lex_spec(source), source.len());
}

/// The token at position `at` closes a message whose draft fails validation: it is an `End`
/// that meets a `StartEmail` on top of the stack while the subject, the sender or the date
/// of the draft is missing.
pub open spec fn drops_message(tokens: Seq<TokenView>, at: nat) -> bool {
    &&& at < tokens.len()
    &&& tokens[at as int] is End
    &&& parse_upto(tokens, at) is Some
    &&& parse_upto(tokens, at)->0.stack.len() > 0
    &&& parse_upto(tokens, at)->0.stack.last() is StartEmail
    &&& !(parse_upto(tokens, at)->0.draft.subject is Some && parse_upto(tokens, at)->0.draft.from
        is Some && parse_upto(tokens, at)->0.draft.datetime is Some)
}

/// The number of messages that fail validation among the first `n` tokens.
pub open spec fn dropped(tokens: Seq<TokenView>, n: nat) -> nat
    decreases n,
{
    if n == 0 || n > tokens.len() {
        0
    } else if drops_message(tokens, (n - 1) as nat) {
        dropped(tokens, (n - 1) as nat) + 1
    } else {
        dropped(tokens, (n - 1) as nat)
    }
}

/// A message is open: a `StartEmail` waits at the bottom of the stack.
pub open spec fn message_open(st: ParseState) -> bool {
    st.stack.len() > 0 && st.stack[0] is StartEmail
}

proof fn lemma_count_upto(tokens: Seq<TokenView>, len: nat, n: nat)
    requires
        lexed_stream(tokens, len),
        n <= tokens.len(),
        parse_upto(tokens, n) is Some,
    ensures
        parse_invariant(tokens, len, n, parse_upto(tokens, n)->0),
        parse_upto(tokens, n)->0.emails.len() + dropped(tokens, n) + (if message_open(
            parse_upto(tokens, n)->0,
        ) {
            1nat
        } else {
            0nat
        }) == started(tokens, n),
    decreases n,
{
    lemma_parse_upto(tokens, len, n);
    if n > 0 {
        let m = (n - 1) as nat;
        lemma_count_upto(tokens, len, m);
        let st = parse_upto(tokens, m)->0;
        let token = tokens[m as int];
        let st2 = parse_upto(tokens, n)->0;
        assert(parse_step(st, token) == Some(st2));
        lemma_step_facts(tokens, len, m, st);
        match token {
            TokenView::End(end) => {
                let top = st.stack.last();
                let rest = ParseState { stack: st.stack.drop_last(), ..st };
                match top {
                    TokenView::BodyStart(start) => {
                        assert(st2 == close_body(rest, start, end));
                        assert(st2.emails == st.emails);
                        assert(message_open(st2) == message_open(st)) by {
                            if st.stack[0] is StartEmail {
                                assert(st.stack.len() >= 2);
                                if st.stack.len() >= 3 {
                                    assert(rest.stack[0] == st.stack[0]);
                                    if st2.stack.len() == 0 {
                                        assert(rest.stack.len() == 2);
                                        assert(rest.stack[rest.stack.len() - 2] == st.stack[0]);
                                    } else {
                                        assert(st2.stack[0] == st.stack[0]);
                                    }
                                } else {
                                    assert(rest.stack.len() == 1);
                                    assert(st2.stack == rest.stack);
                                    assert(st2.stack[0] == st.stack[0]);
                                }
                            } else {
                                if st2.stack.len() > 0 {
                                    assert(st2.stack[0] == st.stack[0]);
                                }
                            }
                        }
                    },
                    TokenView::StartEmail(start) => {
                        assert(st.stack.len() == 1) by {
                            if st.stack.len() > 1 {
                                assert(!(st.stack[st.stack.len() - 1] is StartEmail));
                            }
                        }
                        assert(st2 == close_email(rest, start, end));
                        assert(st2.stack.len() == 0);
                    },
                    _ => {
                        assert(st2.stack == st.stack.drop_last());
                        assert(st2.emails == st.emails);
                        if st.stack.len() >= 2 {
                            assert(st2.stack[0] == st.stack[0]);
                        }
                    },
                }
            },
            TokenView::Date(_) => {},
            TokenView::StartEmail(_) => {
                assert(st.stack.len() == 0) by {
                    if m == 0 {
                        assert(st == ParseState::start());
                    }
                }
                assert(st2.stack == st.stack.push(token));
                assert(st2.stack[0] == token);
            },
            _ => {
                assert(st2.stack == st.stack.push(token));
                if st.stack.len() > 0 {
                    assert(st2.stack[0] == st.stack[0]);
                } else {
                    assert(st2.stack[0] == token);
                }
            },
        }
    }
}

/// The count of a parse. Of a lexed stream that parses, every message that opens closes
/// again, as a record or as a message that failed validation: the number of records is the
/// number of message starts in the stream less the number of messages dropped.
pub proof fn lemma_parsed_count(tokens: Seq<TokenView>, len: nat)
    requires
        lexed_stream(tokens, len),
        ends_closed(tokens),
        parse_spec(tokens) is Ok,
    ensures
        parse_spec(tokens)->Ok_0.len() + dropped(tokens, tokens.len()) == started(
            tokens,
            tokens.len(),
        ),
{
    lemma_count_upto(tokens, len, tokens.len());
}

/// The count of a load. The records of a source that loads are as many as the lines that
/// open a message, less the messages that failed validation, and less one where the
/// source ends on a message that has only just opened.
pub proof fn lemma_loaded_count(source: Seq<u8>)
    requires
        source.len() <= u64::MAX,
        load_spec(source) is Ok,
    ensures
        load_spec(source)->Ok_0.len() + dropped(lex_spec(source), lex_spec(source).len()) + (
        if ends_on_start(source, 0, lex_start()) {
            1nat
        } else {
            0nat
        }) == opening_lines(source, 0),
{
    lemma_lexed_stream(source);
    lemma_lexed_starts(source);
    lemma_parsed_count(lex_spec(source), source.len());
}

} // verus!
