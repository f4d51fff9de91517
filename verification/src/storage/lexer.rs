use vstd::prelude::*;
use vstd::string::*;
use crate::storage::bytes::{
    copy_range, find_byte, lemma_position_of_bounds, matches_at, occurs_at, position_of, starts_with,
};

verus! {

/// One lexical event of an archive. Offsets count bytes from the start of the source.
#[derive(Debug)]
pub enum Token {
    /// A line that opens a message, at the offset of that line.
    StartEmail(u64),
    /// The value of a subject header starts at this offset.
    Subject(u64),
    /// The raw value of a date header.
    Date(Vec<u8>),
    /// The value of a sender header starts at this offset.
    From(u64),
    /// A body starts at this offset.
    BodyStart(u64),
    /// The value of a content type header.
    ContentType(Vec<u8>),
    /// The value of a transfer encoding header.
    ContentTransferEncoding(Vec<u8>),
    /// Whatever is open ends at this offset.
    End(u64),
    /// The line continues what the previous token began.
    Continuation,
    /// The line carries nothing of interest.
    Ignore,
}

/// The mathematical value of a [`Token`].
pub enum TokenView {
    StartEmail(u64),
    Subject(u64),
    Date(Seq<u8>),
    From(u64),
    BodyStart(u64),
    ContentType(Seq<u8>),
    ContentTransferEncoding(Seq<u8>),
    End(u64),
    Continuation,
    Ignore,
}

impl View for Token {
    type V = TokenView;

    open spec fn view(&self) -> TokenView {
        match self {
            Token::StartEmail(p) => TokenView::StartEmail(*p),
            Token::Subject(p) => TokenView::Subject(*p),
            Token::Date(d) => TokenView::Date(d@),
            Token::From(p) => TokenView::From(*p),
            Token::BodyStart(p) => TokenView::BodyStart(*p),
            Token::ContentType(v) => TokenView::ContentType(v@),
            Token::ContentTransferEncoding(v) => TokenView::ContentTransferEncoding(v@),
            Token::End(p) => TokenView::End(*p),
            Token::Continuation => TokenView::Continuation,
            Token::Ignore => TokenView::Ignore,
        }
    }
}

/// The values of a run of tokens.
pub open spec fn token_views(tokens: Seq<Token>) -> Seq<TokenView> {
    tokens.map_values(|t: Token| t@)
}

/// The value of an optional boundary string.
pub open spec fn boundary_view(boundary: Option<Vec<u8>>) -> Option<Seq<u8>> {
    match boundary {
        Some(b) => Some(b@),
        None => None,
    }
}

/// The double quote that encloses a boundary string.
pub const QUOTE: u8 = 0x22;

/// The space that opens a folded header line.
pub const SPACE: u8 = 0x20;

/// The byte that ends a line.
pub const LINE_FEED: u8 = 0x0a;

/// A boundary declaration opens at `at`: the word `boundary=` followed by a double quote.
pub open spec fn marker_at(line: Seq<u8>, at: int) -> bool {
    &&& occurs_at(line, "boundary=".spec_bytes(), at)
    &&& at + 9 < line.len()
    &&& line[at + 9] == QUOTE
}

/// Index of the first boundary declaration at or after `from`, or the length when there is none.
pub open spec fn first_marker(line: Seq<u8>, from: int) -> int
    decreases line.len() - from,
{
    if from < 0 || from >= line.len() {
        line.len() as int
    } else if marker_at(line, from) {
        from
    } else {
        first_marker(line, from + 1)
    }
}

/// The boundary string `X` that a line declares as `boundary="X"`: the text between the quote
/// that follows the first `boundary=` so written and the next quote. `None` when the line
/// holds no such declaration.
pub open spec fn declared_boundary(line: Seq<u8>) -> Option<Seq<u8>> {
    let open = first_marker(line, 0);
    if open >= line.len() {
        None
    } else {
        let close = position_of(line, QUOTE, open + 10);
        if close >= line.len() {
            None
        } else {
            Some(line.subrange(open + 10, close))
        }
    }
}

/// What one line contributes: the token it stands for and the boundary that is active after it.
///
/// `pos` is the number of bytes before the line, `line` its content without the line feed,
/// `boundary` the active boundary and `current` the latest token that was not a continuation.
/// The cases are tried in the order in which they stand: a line that opens a message, which
/// also puts an end to the active boundary; the headers that matter; a line that begins with
/// the active boundary; an empty line that starts a body; a line that continues what is
/// open; anything else.
pub open spec fn classify(
    pos: u64,
    line: Seq<u8>,
    boundary: Option<Seq<u8>>,
    current: TokenView,
) -> (TokenView, Option<Seq<u8>>) {
    if "From ".spec_bytes().is_prefix_of(line) {
        (TokenView::StartEmail(pos), None)
    } else if "Subject: ".spec_bytes().is_prefix_of(line) {
        (TokenView::Subject((pos + 9) as u64), boundary)
    } else if "From: ".spec_bytes().is_prefix_of(line) {
        (TokenView::From((pos + 6) as u64), boundary)
    } else if "Date: ".spec_bytes().is_prefix_of(line) {
        (TokenView::Date(line.skip(6)), boundary)
    } else if "Content-Transfer-Encoding: ".spec_bytes().is_prefix_of(line) {
        (TokenView::ContentTransferEncoding(line.skip(27)), boundary)
    } else if "Content-Type: ".spec_bytes().is_prefix_of(line) {
        match declared_boundary(line) {
            Some(declared) => (TokenView::Ignore, Some(declared)),
            None => (TokenView::ContentType(line.skip(14)), boundary),
        }
    } else if boundary is Some && boundary->0.is_prefix_of(line) {
        (TokenView::End(pos), boundary)
    } else if line.len() == 0 && (current is ContentTransferEncoding || boundary is None) {
        (TokenView::BodyStart(pos), boundary)
    } else if current is BodyStart || (line.len() > 0 && line[0] == SPACE) {
        (TokenView::Continuation, boundary)
    } else {
        (TokenView::Ignore, boundary)
    }
}

/// The tokens that leave the lexer when the pending token `pending` is closed at offset `pos`;
/// `end` says that the source is exhausted.
pub open spec fn closing(pos: u64, pending: TokenView, end: bool) -> Seq<TokenView> {
    let closed = match pending {
        TokenView::StartEmail(start) => if end {
            Seq::<TokenView>::empty()
        } else if start > 0 {
            seq![TokenView::End(start), pending]
        } else {
            seq![pending]
        },
        TokenView::Ignore | TokenView::Continuation => Seq::<TokenView>::empty(),
        TokenView::End(_)
        | TokenView::ContentType(_)
        | TokenView::Date(_)
        | TokenView::ContentTransferEncoding(_) => seq![pending],
        TokenView::From(_) | TokenView::Subject(_) | TokenView::BodyStart(_) => seq![
            pending,
            TokenView::End(pos),
        ],
    };
    if end {
        closed.push(TokenView::End(pos))
    } else {
        closed
    }
}

/// What the lexer carries from one line to the next.
pub struct LexState {
    /// The tokens that have left the lexer.
    pub tokens: Seq<TokenView>,
    /// The active boundary.
    pub boundary: Option<Seq<u8>>,
    /// The latest token that was not a continuation; it is still open.
    pub current: TokenView,
}

/// The state before the first line.
pub open spec fn lex_start() -> LexState {
    LexState { tokens: Seq::empty(), boundary: None, current: TokenView::Ignore }
}

/// The state after the line that starts at `pos` and ends before `end`.
pub open spec fn lex_step(source: Seq<u8>, pos: int, end: int, st: LexState) -> LexState {
    let (token, boundary) = classify(pos as u64, source.subrange(pos, end), st.boundary, st.current);
    if token is Continuation {
        LexState { tokens: st.tokens, boundary, current: st.current }
    } else {
        LexState {
            tokens: st.tokens + closing(pos as u64, st.current, false),
            boundary,
            current: token,
        }
    }
}

/// Where the line that starts at `pos` ends: at the next line feed, or at the end of the
/// source.
pub open spec fn line_end(source: Seq<u8>, pos: int) -> int {
    position_of(source, LINE_FEED, pos)
}

/// Where the line after the one that starts at `pos` starts: behind the line feed, if there
/// is one.
pub open spec fn next_line(source: Seq<u8>, pos: int) -> int {
    if line_end(source, pos) < source.len() {
        line_end(source, pos) + 1
    } else {
        line_end(source, pos)
    }
}

/// The tokens of `source` from offset `pos` on, given the state `st` reached before `pos`.
/// When the source is exhausted the pending token is closed at its end.
pub open spec fn lex_from(source: Seq<u8>, pos: int, st: LexState) -> Seq<TokenView>
    decreases source.len() - pos,
    via lex_from_decreases
{
    if pos < 0 || pos >= source.len() {
        st.tokens + closing(source.len() as u64, st.current, true)
    } else {
        lex_from(source, next_line(source, pos), lex_step(source, pos, line_end(source, pos), st))
    }
}

#[via_fn]
proof fn lex_from_decreases(source: Seq<u8>, pos: int, st: LexState) {
    if 0 <= pos < source.len() {
        lemma_position_of_bounds(source, LINE_FEED, pos);
    }
}

/// The tokens of a whole source.
pub open spec fn lex_spec(source: Seq<u8>) -> Seq<TokenView> {
    lex_from(source, 0, lex_start())
}

/// The lengths of the words that the lexer looks for.
pub(crate) proof fn lemma_keyword_lengths()
    ensures
        "From ".spec_bytes().len() == 5,
        "Subject: ".spec_bytes().len() == 9,
        "From: ".spec_bytes().len() == 6,
        "Date: ".spec_bytes().len() == 6,
        "Content-Transfer-Encoding: ".spec_bytes().len() == 27,
        "Content-Type: ".spec_bytes().len() == 14,
        "boundary=".spec_bytes().len() == 9,
{
    reveal_strlit("From ");
    reveal_strlit("Subject: ");
    reveal_strlit("From: ");
    reveal_strlit("Date: ");
    reveal_strlit("Content-Transfer-Encoding: ");
    reveal_strlit("Content-Type: ");
    reveal_strlit("boundary=");
    is_ascii_spec_bytes("From ");
    is_ascii_spec_bytes("Subject: ");
    is_ascii_spec_bytes("From: ");
    is_ascii_spec_bytes("Date: ");
    is_ascii_spec_bytes("Content-Transfer-Encoding: ");
    is_ascii_spec_bytes("Content-Type: ");
    is_ascii_spec_bytes("boundary=");
}

/// Finds the boundary string that a line declares.
pub fn find_declared_boundary(buf: &[u8]) -> (found: Option<Vec<u8>>)
    ensures
        boundary_view(found) == declared_boundary(buf@),
{
    proof {
        lemma_keyword_lengths();
    }
    let word = "boundary=".as_bytes();
    let mut at: usize = 0;
    while at < buf.len()
        invariant
            at <= buf.len(),
            word@ == "boundary=".spec_bytes(),
            word@.len() == 9,
            first_marker(buf@, 0) == first_marker(buf@, at as int),
        decreases buf.len() - at,
    {
        if matches_at(buf, at, word) && buf.len() - at > 9 && buf[at + 9] == QUOTE {
            let close = find_byte(buf, QUOTE, at + 10);
            if close < buf.len() {
                return Some(copy_range(buf, at + 10, close));
            } else {
                return None;
            }
        }
        at += 1;
    }
    None
}

/// Is a boundary active, and does the line begin with it?
fn begins_with_boundary(boundary: &Option<Vec<u8>>, buf: &[u8]) -> (found: bool)
    ensures
        found == (boundary_view(*boundary) is Some && boundary_view(
            *boundary,
        )->0.is_prefix_of(buf@)),
{
    match boundary {
        Some(b) => starts_with(buf, b.as_slice()),
        None => false,
    }
}

/// Classifies one line.
///
/// `seek_position` is the number of bytes before the line and `buf` the line's content.
/// The active boundary is updated in place; `current_token` is the latest token that was
/// not a continuation.
pub fn lex_line(
    seek_position: u64,
    buf: &[u8],
    boundary: &mut Option<Vec<u8>>,
    current_token: &Token,
) -> (token: Token)
    requires
        seek_position + buf@.len() <= u64::MAX,
    ensures
        (token@, boundary_view(*final(boundary))) == classify(
            seek_position,
            buf@,
            boundary_view(*old(boundary)),
            current_token@,
        ),
{
    proof {
        lemma_keyword_lengths();
    }
    if starts_with(buf, "From ".as_bytes()) {
        *boundary = None;
        Token::StartEmail(seek_position)
    } else if starts_with(buf, "Subject: ".as_bytes()) {
        Token::Subject(seek_position + 9)
    } else if starts_with(buf, "From: ".as_bytes()) {
        Token::From(seek_position + 6)
    } else if starts_with(buf, "Date: ".as_bytes()) {
        Token::Date(copy_range(buf, 6, buf.len()))
    } else if starts_with(buf, "Content-Transfer-Encoding: ".as_bytes()) {
        Token::ContentTransferEncoding(copy_range(buf, 27, buf.len()))
    } else if starts_with(buf, "Content-Type: ".as_bytes()) {
        match find_declared_boundary(buf) {
            Some(declared) => {
                *boundary = Some(declared);
                Token::Ignore
            },
            None => Token::ContentType(copy_range(buf, 14, buf.len())),
        }
    } else if begins_with_boundary(boundary, buf) {
        Token::End(seek_position)
    } else {
        let after_encoding = match current_token {
            Token::ContentTransferEncoding(_) => true,
            _ => false,
        };
        let in_body = match current_token {
            Token::BodyStart(_) => true,
            _ => false,
        };
        if buf.len() == 0 && (after_encoding || boundary.is_none()) {
            Token::BodyStart(seek_position)
        } else if in_body || (buf.len() > 0 && buf[0] == SPACE) {
            Token::Continuation
        } else {
            Token::Ignore
        }
    }
}

/// Closes the pending token at `seek_position` and appends what this lets out to `tokens`.
/// With `end` set the source is exhausted: a message that has only just been opened is
/// dropped, and a last `End` follows.
pub fn lex_push_current_token(
    seek_position: u64,
    tokens: &mut Vec<Token>,
    current_token: Token,
    end: bool,
)
    ensures
        token_views(final(tokens)@) == token_views(old(tokens)@) + closing(
            seek_position,
            current_token@,
            end,
        ),
{
    let ghost before = token_views(tokens@);
    match current_token {
        Token::StartEmail(position) => {
            if end {
            } else if position > 0 {
                tokens.push(Token::End(position));
                tokens.push(Token::StartEmail(position));
            } else {
                tokens.push(Token::StartEmail(position));
            }
        },
        Token::Ignore | Token::Continuation => {},
        Token::End(_) | Token::ContentType(_) | Token::Date(_) | Token::ContentTransferEncoding(
            _,
        ) => {
            tokens.push(current_token);
        },
        Token::From(_) | Token::Subject(_) | Token::BodyStart(_) => {
            tokens.push(current_token);
            tokens.push(Token::End(seek_position));
        },
    }
    if end {
        tokens.push(Token::End(seek_position));
    }
    assert(token_views(tokens@) =~= before + closing(seek_position, current_token@, end));
}

/// Turns a source into its tokens, line by line.
pub fn lex(source: &[u8]) -> (tokens: Vec<Token>)
    ensures
        token_views(tokens@) == lex_spec(source@),
{
    assert(source.len() <= u64::MAX);
    let mut seek_position: usize = 0;
    let mut tokens: Vec<Token> = Vec::new();
    let mut boundary: Option<Vec<u8>> = None;
    let mut current_token = Token::Ignore;
    assert(token_views(tokens@) =~= Seq::<TokenView>::empty());
    while seek_position < source.len()
        invariant
            seek_position <= source.len(),
            source@.len() <= u64::MAX,
            lex_spec(source@) == lex_from(
                source@,
                seek_position as int,
                LexState {
                    tokens: token_views(tokens@),
                    boundary: boundary_view(boundary),
                    current: current_token@,
                },
            ),
        decreases source.len() - seek_position,
    {
        let end = find_byte(source, LINE_FEED, seek_position);
        let line = vstd::slice::slice_subrange(source, seek_position, end);
        let token = lex_line(seek_position as u64, line, &mut boundary, &current_token);
        match token {
            Token::Continuation => {},
            _ => {
                lex_push_current_token(seek_position as u64, &mut tokens, current_token, false);
                current_token = token;
            },
        }
        seek_position = if end < source.len() {
            end + 1
        } else {
            end
        };
    }
    lex_push_current_token(seek_position as u64, &mut tokens, current_token, true);
    tokens
}

} // verus!
