use vstd::prelude::*;
use std::collections::VecDeque;
use crate::chars::str_chars;
use crate::error::ParseError;
use crate::lexer::{
    lemma_skip_bounds, lemma_skip_idempotent, lex_at, next_start, skip_whitespace_and_comments,
    lexed_payload, spec_lex, token_at, SkipMode,
};
use crate::span::Span;
use crate::token::{display_of, Token, TokenKind};
use crate::ast::{ContentItem, ContentSlot, TextChunk};
use crate::chars::string_from_chars;
use crate::parser::expr::{cursor_step, measure, read_span};
use crate::parser::grammar::{
    block_comment_end, content_run, scan_stop, tok_is, ScanStop, inline_item_at, item_resume, lemma_content_escape, lemma_content_push,
    line_comment_end, lemma_slot_close_step, lemma_slot_close_unfold, slot_close, slot_reads, slot_scan, unescape_content,
};
use crate::parser::node::parse_content_item;
use crate::parser::whitespace::{
    all_whitespace, is_ws, normalize_whitespace, spec_normalize, trim_end, trim_end_chars, trim_start,
    trim_start_chars,
};

verus! {

/// The end of the token that starts at `q` (or `q` itself when none does).
pub open spec fn lex_end(s: Seq<char>, q: int) -> int {
    match spec_lex(s, q) {
        Some((_, e)) => e,
        None => q,
    }
}

/// Where the `n`-th token (counting from zero) after position `p` starts.
pub open spec fn nth_start(s: Seq<char>, p: int, n: nat) -> int
    decreases n,
{
    if n == 0 {
        next_start(s, p)
    } else {
        next_start(s, lex_end(s, nth_start(s, p, (n - 1) as nat)))
    }
}

/// The first `n` tokens after `p` exist and are well formed.
pub open spec fn stream_ok(s: Seq<char>, p: int, n: nat) -> bool
    decreases n,
{
    n == 0 || (stream_ok(s, p, (n - 1) as nat) && nth_start(s, p, (n - 1) as nat) < s.len()
        && spec_lex(s, nth_start(s, p, (n - 1) as nat)) is Some)
}

pub proof fn lemma_nth_start_bounds(s: Seq<char>, p: int, n: nat)
    requires
        0 <= p <= s.len(),
    ensures
        p <= nth_start(s, p, n) <= s.len(),
    decreases n,
{
    lemma_skip_bounds(s, p, SkipMode::Normal);
    if n > 0 {
        lemma_nth_start_bounds(s, p, (n - 1) as nat);
        let q = nth_start(s, p, (n - 1) as nat);
        lemma_lex_end_bounds(s, q);
        lemma_skip_bounds(s, lex_end(s, q), SkipMode::Normal);
    }
}

pub proof fn lemma_lex_end_bounds(s: Seq<char>, q: int)
    requires
        0 <= q <= s.len(),
    ensures
        q <= lex_end(s, q) <= s.len(),
        spec_lex(s, q) is Some ==> q < lex_end(s, q),
{
    crate::lexer::lemma_spec_lex_end(s, q);
}

/// Starting one token later shifts the stream by one.
pub proof fn lemma_nth_start_shift(s: Seq<char>, p: int, k: nat)
    requires
        0 <= p <= s.len(),
    ensures
        nth_start(s, nth_start(s, p, 1), k) == nth_start(s, p, k + 1),
    decreases k,
{
    let q = nth_start(s, p, 0);
    lemma_skip_bounds(s, p, SkipMode::Normal);
    lemma_lex_end_bounds(s, q);
    lemma_skip_idempotent(s, lex_end(s, q), SkipMode::Normal);
    if k > 0 {
        lemma_nth_start_shift(s, p, (k - 1) as nat);
    }
}

pub proof fn lemma_stream_ok_prefix(s: Seq<char>, p: int, n: nat, m: nat)
    requires
        m <= n,
        stream_ok(s, p, n),
    ensures
        stream_ok(s, p, m),
    decreases n,
{
    if m < n {
        lemma_stream_ok_prefix(s, p, (n - 1) as nat, m);
    }
}

pub proof fn lemma_stream_ok_shift(s: Seq<char>, p: int, n: nat)
    requires
        0 <= p <= s.len(),
        stream_ok(s, p, n + 1),
    ensures
        stream_ok(s, nth_start(s, p, 1), n),
    decreases n,
{
    if n > 0 {
        lemma_stream_ok_shift(s, p, (n - 1) as nat);
        lemma_nth_start_shift(s, p, (n - 1) as nat);
    }
}

/// Starting from where skipping stops gives the same stream.
pub proof fn lemma_nth_start_normalize(s: Seq<char>, p: int, k: nat)
    requires
        0 <= p <= s.len(),
    ensures
        nth_start(s, next_start(s, p), k) == nth_start(s, p, k),
    decreases k,
{
    lemma_skip_idempotent(s, p, SkipMode::Normal);
    if k > 0 {
        lemma_nth_start_normalize(s, p, (k - 1) as nat);
    }
}

pub proof fn lemma_stream_ok_normalize(s: Seq<char>, p: int, k: nat)
    requires
        0 <= p <= s.len(),
    ensures
        stream_ok(s, next_start(s, p), k) == stream_ok(s, p, k),
    decreases k,
{
    if k > 0 {
        lemma_stream_ok_normalize(s, p, (k - 1) as nat);
        lemma_nth_start_normalize(s, p, (k - 1) as nat);
    }
}

/// A cursor over DirectedType source that hands out tokens with lookahead and
/// lets the content-slot scanner read raw characters.
pub struct ParserCursor<'a> {
    source: &'a str,
    chars: Vec<char>,
    pos: usize,
    peeked: VecDeque<(Token, Span)>,
}

impl<'a> ParserCursor<'a> {
    /// The source text as characters.
    pub closed spec fn text(&self) -> Seq<char> {
        self.chars@
    }

    /// The raw scanning position (past any lookahead tokens).
    pub closed spec fn raw_pos(&self) -> int {
        self.pos as int
    }

    /// The position from which the next token is read.
    pub closed spec fn lpos(&self) -> int {
        if self.peeked@.len() > 0 {
            self.peeked@[0].1.start as int
        } else {
            self.pos as int
        }
    }

    /// Where the next token starts (or the text's length at its end).
    pub open spec fn apos(&self) -> int {
        next_start(self.text(), self.lpos())
    }

    pub closed spec fn lookahead(&self) -> nat {
        self.peeked@.len()
    }

    pub closed spec fn wf(&self) -> bool {
        let s = self.chars@;
        let pk = self.peeked@;
        &&& s == self.source@
        &&& self.pos <= s.len()
        &&& stream_ok(s, self.lpos(), pk.len())
        &&& (pk.len() > 0 ==> next_start(s, self.lpos()) == self.lpos())
        &&& (pk.len() > 0 ==> (self.pos as int == lex_end(
            s,
            nth_start(s, self.lpos(), (pk.len() - 1) as nat),
        ) || self.pos as int == nth_start(s, self.lpos(), pk.len())))
        &&& forall|k: int|
            0 <= k < pk.len() ==> {
                &&& (#[trigger] pk[k]).1.start as int == nth_start(s, self.lpos(), k as nat)
                &&& token_at(s, pk[k].1.start as int, pk[k].0, pk[k].1.end as int)
            }
    }

    pub proof fn lemma_wf_bounds(&self)
        requires
            self.wf(),
        ensures
            0 <= self.lpos() <= self.raw_pos() <= self.text().len(),
            self.lpos() <= self.apos() <= self.text().len(),
            self.text().len() <= usize::MAX,
    {
        broadcast use vstd::std_specs::vec::axiom_spec_len;
        assert(self.chars@.len() == self.chars.len());
        let s = self.chars@;
        if self.peeked@.len() > 0 {
            let n = (self.peeked@.len() - 1) as nat;
            let q = nth_start(s, self.lpos(), n);
            assert(self.peeked@[0].1.start as int == nth_start(s, self.lpos(), 0));
            lemma_nth_start_bounds(s, self.lpos(), n);
            lemma_nth_start_bounds(s, self.lpos(), n + 1);
            lemma_lex_end_bounds(s, q);
            lemma_skip_bounds(s, self.lpos(), SkipMode::Normal);
        } else {
            lemma_skip_bounds(s, self.lpos(), SkipMode::Normal);
        }
    }

    pub broadcast proof fn lemma_wf_apos(c: &ParserCursor)
        ensures
            #[trigger] c.wf() ==> 0 <= c.lpos() <= c.apos() <= c.text().len(),
    {
        if c.wf() {
            c.lemma_wf_bounds();
        }
    }

    pub fn new(source: &'a str) -> (c: ParserCursor<'a>)
        ensures
            c.wf(),
            c.text() == source@,
            c.raw_pos() == 0,
            c.lpos() == 0,
            c.source_str() == source,
    {
        let chars = str_chars(source);
        ParserCursor { source, chars, pos: 0, peeked: VecDeque::new() }
    }

    pub closed spec fn source_str(&self) -> &'a str {
        self.source
    }

    pub fn source(&self) -> (s: &'a str)
        ensures
            s == self.source_str(),
    {
        self.source
    }

    /// The characters of the source text.
    pub fn chars(&self) -> (v: &Vec<char>)
        ensures
            v@ == self.text(),
    {
        &self.chars
    }

    /// The raw scanning position (past any lookahead tokens).
    pub fn pos(&self) -> (p: usize)
        ensures
            p as int == self.raw_pos(),
    {
        self.pos
    }

    /// The position of the first unconsumed token, or the raw position when
    /// nothing is buffered.
    pub fn current_pos(&self) -> (p: usize)
        requires
            self.wf(),
        ensures
            p as int == self.lpos(),
    {
        if self.peeked.len() > 0 {
            self.peeked[0].1.start
        } else {
            self.pos
        }
    }
}


impl<'a> ParserCursor<'a> {
    /// The `k`-th buffered lookahead token.
    pub closed spec fn peek_at(&self, k: int) -> (Token, Span) {
        self.peeked@[k]
    }

    pub proof fn lemma_lookahead(&self)
        requires
            self.wf(),
        ensures
            stream_ok(self.text(), self.apos(), self.lookahead()),
            self.lookahead() > 0 ==> self.apos() == self.lpos(),
            forall|k: int|
                0 <= k < self.lookahead() ==> {
                    &&& (#[trigger] self.peek_at(k)).1.start as int == nth_start(
                        self.text(),
                        self.apos(),
                        k as nat,
                    )
                    &&& token_at(
                        self.text(),
                        self.peek_at(k).1.start as int,
                        self.peek_at(k).0,
                        self.peek_at(k).1.end as int,
                    )
                },
            next_start(self.text(), self.raw_pos()) == nth_start(
                self.text(),
                self.apos(),
                self.lookahead(),
            ),
            self.lookahead() == 0 ==> self.lpos() == self.raw_pos(),
    {
        let s = self.chars@;
        self.lemma_wf_bounds();
        lemma_nth_start_normalize(s, self.lpos(), self.lookahead());
        lemma_stream_ok_normalize(s, self.lpos(), self.lookahead());
        if self.lookahead() > 0 {
            let n = self.lookahead();
            lemma_nth_start_bounds(s, self.lpos(), n);
            lemma_skip_idempotent(s, lex_end(s, nth_start(s, self.lpos(), (n - 1) as nat)), SkipMode::Normal);
            assert forall|k: int| 0 <= k < self.lookahead() implies
                (#[trigger] self.peek_at(k)).1.start as int == nth_start(self.text(), self.apos(), k as nat)
            by {
                assert(self.peeked@[k].1.start as int == nth_start(s, self.lpos(), k as nat));
            }
        }
    }

    /// Buffers lookahead tokens until `n` are available, the text ends, or a
    /// character sequence that is no token is met.
    fn fill_peek(&mut self, n: usize) -> (r: Result<(), ParseError>)
        requires
            old(self).wf(),
        ensures
            final(self).wf(),
            final(self).text() == old(self).text(),
            final(self).source_str() == old(self).source_str(),
            final(self).apos() == old(self).apos(),
            final(self).lpos() >= old(self).lpos(),
            old(self).lookahead() <= final(self).lookahead(),
            forall|k: int| 0 <= k < old(self).lookahead() ==> final(self).peek_at(k) == old(self).peek_at(k),
            old(self).lookahead() >= n ==> *final(self) == *old(self),
            final(self).lookahead() < n ==> final(self).raw_pos() == nth_start(
                final(self).text(),
                final(self).apos(),
                final(self).lookahead(),
            ),
            final(self).lookahead() <= old(self).lookahead() || final(self).lookahead() <= n,
            r is Ok && quiet_upto(*old(self), 2) && n <= 2 ==> quiet_upto(*final(self), 2),
            match r {
                Ok(()) => final(self).lookahead() >= n || nth_start(
                    final(self).text(),
                    final(self).apos(),
                    final(self).lookahead(),
                ) >= final(self).text().len(),
                Err(e) => {
                    let q = nth_start(final(self).text(), final(self).apos(), final(self).lookahead());
                    &&& final(self).lookahead() < n
                    &&& q < final(self).text().len()
                    &&& spec_lex(final(self).text(), q) is None
                    &&& e == ParseError::LexError {
                        span: Span {
                            start: q as usize,
                            end: if q + 1 <= final(self).text().len() { (q + 1) as usize } else { q as usize },
                        },
                    }
                },
            },
    {
        let ghost s = self.chars@;
        let ghost a0 = self.apos();
        proof {
            self.lemma_lookahead();
            self.lemma_wf_bounds();
        }
        while self.peeked.len() < n
            invariant
                self.wf(),
                self.chars@ == s,
                s == old(self).chars@,
                a0 == old(self).apos(),
                self.source == old(self).source,
                self.apos() == a0,
                self.lpos() >= old(self).lpos(),
                old(self).lookahead() <= self.lookahead(),
                forall|k: int| 0 <= k < old(self).lookahead() ==> self.peek_at(k) == old(self).peek_at(k),
                old(self).lookahead() >= n ==> *self == *old(self),
                self.lookahead() <= old(self).lookahead() || self.lookahead() <= n,
                quiet_upto(*old(self), 2) && n <= 2 ==> quiet_upto(*self, 2),
            decreases n - self.peeked@.len(),
        {
            proof {
                self.lemma_lookahead();
                self.lemma_wf_bounds();
            }
            let ghost lp = self.lpos();
            let ghost len0 = self.peeked@.len();
            let ghost old_pos = self.pos;
            self.pos = skip_whitespace_and_comments(&self.chars, self.pos);
            proof {
                lemma_skip_idempotent(s, old_pos as int, SkipMode::Normal);
                lemma_nth_start_normalize(s, old_pos as int, 0);
                if len0 == 0 {
                    lemma_nth_start_normalize(s, old_pos as int, 0);
                } else {
                    assert(self.lpos() == lp);
                }
                assert(self.wf());
                assert(self.pos as int == nth_start(s, a0, len0));
                lemma_skip_bounds(s, old_pos as int, SkipMode::Normal);
            }
            if self.pos >= self.chars.len() {
                return Ok(());
            }
            let start = self.pos;
            match lex_at(&self.chars, start) {
                Some((tok, end)) => {
                    let span = Span::new(start, end);
                    self.pos = end;
                    self.peeked.push_back((tok, span));
                    proof {
                        lemma_stream_ok_normalize(s, a0, len0);
                        if len0 == 0 {
                            assert(self.lpos() == start);
                            lemma_skip_idempotent(s, old_pos as int, SkipMode::Normal);
                        }
                        assert(self.lpos() == a0);
                        assert(stream_ok(s, self.lpos(), len0 + 1));
                        assert forall|k: int| 0 <= k < self.peeked@.len() implies {
                            &&& (#[trigger] self.peeked@[k]).1.start as int == nth_start(s, self.lpos(), k as nat)
                            &&& token_at(s, self.peeked@[k].1.start as int, self.peeked@[k].0, self.peeked@[k].1.end as int)
                        } by {
                            if k < len0 {
                            }
                        }
                        assert(self.wf());
                    }
                },
                None => {
                    let len = self.chars.len();
                    let e = if start + 1 <= len { start + 1 } else { start };
                    return Err(ParseError::LexError { span: Span::new(start, e) });
                },
            }
        }
        Ok(())
    }
}


/// At most `m` tokens are buffered, and nothing was scanned past the last
/// of them but whitespace up to the end of the text.
pub open spec fn quiet_upto(c: ParserCursor, m: nat) -> bool {
    &&& c.lookahead() <= m
    &&& c.lookahead() > 0 ==> (c.raw_pos() == lex_end(
        c.text(),
        nth_start(c.text(), c.lpos(), (c.lookahead() - 1) as nat),
    ) || c.raw_pos() >= c.text().len())
}

/// At most one token is buffered, and nothing was scanned past it.
pub open spec fn quiet(c: ParserCursor) -> bool {
    quiet_upto(c, 1)
}

/// A token starts at `q`.
pub open spec fn tok_at(s: Seq<char>, q: int) -> bool {
    q < s.len() && spec_lex(s, q) is Some
}

/// The kind of the token at `q`.
pub open spec fn kind_at(s: Seq<char>, q: int) -> TokenKind {
    spec_lex(s, q).unwrap().0
}

/// How the token at `q` is shown in diagnostics.
pub open spec fn display_at(s: Seq<char>, q: int) -> Seq<char> {
    display_of(kind_at(s, q), lexed_payload(s, q, kind_at(s, q), lex_end(s, q)))
}

/// The error reported when no token can be read at `q`.
pub open spec fn lex_error_at(s: Seq<char>, q: int) -> ParseError {
    ParseError::LexError {
        span: Span { start: q as usize, end: if q + 1 <= s.len() { (q + 1) as usize } else { q as usize } },
    }
}

/// A character that may follow a backslash in content text: an escaped
/// backslash or brace, or the first letter of an inline node's name.
pub open spec fn escapable(c: char) -> bool {
    c == '\\' || c == '{' || c == '}' || ('a' <= c && c <= 'z') || ('A' <= c && c <= 'Z') || c == '_'
}

/// What a parse error says of the text holds there: an unexpected token is
/// the token at its span, shown as the error shows it; no token follows an
/// unexpected end; no token can be read where lexing failed; an invalid
/// escape is a backslash that ends the text or stands before a character
/// that cannot follow it; an unclosed slot and a stray brace are a `{`.
pub open spec fn error_fits(s: Seq<char>, e: ParseError) -> bool {
    match e {
        ParseError::UnexpectedToken { found, span, .. } => {
            &&& tok_at(s, span.start as int)
            &&& span.end == lex_end(s, span.start as int)
            &&& found@ == display_at(s, span.start as int)
        },
        ParseError::UnexpectedEof { span, .. } => span.start <= span.end <= s.len() && next_start(
            s,
            span.end as int,
        ) >= s.len(),
        ParseError::LexError { span } => span.start < s.len() && spec_lex(s, span.start as int) is None
            && e == lex_error_at(s, span.start as int),
        ParseError::InvalidEscape { escape, span } => {
            &&& span.start < span.end <= s.len()
            &&& s[span.start as int] == '\\'
            &&& escape@ == s.subrange(span.start as int, span.end as int)
            &&& if span.end == span.start + 1 {
                span.end == s.len()
            } else {
                span.end == span.start + 2 && !escapable(s[span.start + 1])
            }
        },
        ParseError::UnclosedDelimiter { delimiter, open_span } => delimiter == '}' && open_span.start
            < s.len() && open_span.end == open_span.start + 1 && s[open_span.start as int] == '{',
        ParseError::Custom { span, .. } => span.start < s.len() && span.end == span.start + 1 && s[span.start
            as int] == '{',
    }
}

impl<'a> ParserCursor<'a> {
    /// Returns the `n`-th lookahead token (counting from zero) without
    /// consuming anything.
    pub fn peek_nth(&mut self, n: usize) -> (r: Result<Option<(Token, Span)>, ParseError>)
        requires
            old(self).wf(),
            n < usize::MAX,
        ensures
            final(self).wf(),
            final(self).text() == old(self).text(),
            final(self).source_str() == old(self).source_str(),
            final(self).apos() == old(self).apos(),
            final(self).lpos() >= old(self).lpos(),
            r matches Err(e) ==> error_fits(old(self).text(), e),
            r is Ok && n <= 1 && quiet_upto(*old(self), 2) ==> quiet_upto(*final(self), 2),
            r is Ok && n == 0 && quiet(*old(self)) ==> quiet(*final(self)),
            match r {
                Ok(Some((t, sp))) => {
                    &&& final(self).lookahead() > n
                    &&& stream_ok(old(self).text(), old(self).apos(), (n + 1) as nat)
                    &&& sp.start as int == nth_start(old(self).text(), old(self).apos(), n as nat)
                    &&& token_at(old(self).text(), sp.start as int, t, sp.end as int)
                },
                Ok(None) => {
                    &&& final(self).lookahead() <= n
                    &&& final(self).raw_pos() == nth_start(old(self).text(), old(self).apos(), final(self).lookahead())
                    &&& stream_ok(old(self).text(), old(self).apos(), final(self).lookahead())
                    &&& nth_start(old(self).text(), old(self).apos(), final(self).lookahead()) >= old(self).text().len()
                },
                Err(e) => {
                    let q = nth_start(old(self).text(), old(self).apos(), final(self).lookahead());
                    &&& final(self).lookahead() <= n
                    &&& stream_ok(old(self).text(), old(self).apos(), final(self).lookahead())
                    &&& q < old(self).text().len()
                    &&& spec_lex(old(self).text(), q) is None
                    &&& e == lex_error_at(old(self).text(), q)
                },
            },
    {
        self.fill_peek(n + 1)?;
        proof {
            self.lemma_lookahead();
        }
        if n < self.peeked.len() {
            let (t, sp) = &self.peeked[n];
            let t2 = t.duplicate();
            proof {
                assert(self.peek_at(n as int) == self.peeked@[n as int]);
                lemma_stream_ok_prefix(self.text(), self.apos(), self.lookahead(), (n + 1) as nat);
            }
            Ok(Some((t2, *sp)))
        } else {
            Ok(None)
        }
    }

    /// Returns the next token without consuming it.
    pub fn peek_token(&mut self) -> (r: Result<Option<(Token, Span)>, ParseError>)
        requires
            old(self).wf(),
        ensures
            final(self).wf(),
            final(self).text() == old(self).text(),
            final(self).source_str() == old(self).source_str(),
            final(self).apos() == old(self).apos(),
            final(self).lpos() >= old(self).lpos(),
            r matches Err(e) ==> error_fits(old(self).text(), e),
            r is Ok ==> final(self).lpos() == final(self).apos(),
            r is Ok && quiet_upto(*old(self), 2) ==> quiet_upto(*final(self), 2),
            r is Ok && quiet(*old(self)) ==> quiet(*final(self)),
            match r {
                Ok(Some((t, sp))) => {
                    &&& tok_at(old(self).text(), old(self).apos())
                    &&& sp.start as int == old(self).apos()
                    &&& token_at(old(self).text(), sp.start as int, t, sp.end as int)
                },
                Ok(None) => {
                    &&& old(self).apos() >= old(self).text().len()
                    &&& final(self).raw_pos() == old(self).apos()
                    &&& final(self).lookahead() == 0
                },
                Err(e) => {
                    &&& old(self).apos() < old(self).text().len()
                    &&& spec_lex(old(self).text(), old(self).apos()) is None
                    &&& e == lex_error_at(old(self).text(), old(self).apos())
                },
            },
    {
        proof {
            old(self).lemma_wf_bounds();
            lemma_skip_idempotent(self.text(), self.lpos(), SkipMode::Normal);
        }
        let r = self.peek_nth(0);
        proof {
            assert(nth_start(self.text(), self.apos(), 0) == self.apos());
            self.lemma_lookahead();
            old(self).lemma_wf_bounds();
            lemma_skip_idempotent(self.text(), old(self).lpos(), SkipMode::Normal);
        }
        r
    }
}


impl<'a> ParserCursor<'a> {
    /// Consumes and returns the next token; `None` at the end of the text.
    pub fn next_token(&mut self) -> (r: Result<Option<(Token, Span)>, ParseError>)
        requires
            old(self).wf(),
        ensures
            final(self).wf(),
            final(self).text() == old(self).text(),
            final(self).source_str() == old(self).source_str(),
            r matches Err(e) ==> error_fits(old(self).text(), e),
            r is Ok && quiet_upto(*old(self), 2) ==> quiet(*final(self)),
            r matches Ok(Some((_, sp))) ==> quiet(*old(self)) ==> final(self).lookahead() == 0 && (final(self).lpos()
                == sp.end || final(self).lpos() >= final(self).text().len()),
            match r {
                Ok(Some((t, sp))) => {
                    &&& tok_at(old(self).text(), old(self).apos())
                    &&& sp.start as int == old(self).apos()
                    &&& token_at(old(self).text(), sp.start as int, t, sp.end as int)
                    &&& final(self).apos() == next_start(old(self).text(), sp.end as int)
                    &&& sp.start < sp.end <= final(self).lpos()
                },
                Ok(None) => {
                    &&& old(self).apos() >= old(self).text().len()
                    &&& final(self).lpos() >= old(self).lpos()
                    &&& final(self).apos() == old(self).apos()
                    &&& final(self).raw_pos() == old(self).apos()
                    &&& final(self).lookahead() == 0
                },
                Err(e) => {
                    &&& old(self).apos() < old(self).text().len()
                    &&& spec_lex(old(self).text(), old(self).apos()) is None
                    &&& e == lex_error_at(old(self).text(), old(self).apos())
                },
            },
    {
        let ghost s = self.chars@;
        let ghost a = self.apos();
        proof {
            self.lemma_wf_bounds();
            lemma_skip_idempotent(s, self.lpos(), SkipMode::Normal);
        }
        self.fill_peek(1)?;
        proof {
            self.lemma_lookahead();
            self.lemma_wf_bounds();
        }
        if self.peeked.len() == 0 {
            return Ok(None);
        }
        let ghost old_pk = self.peeked@;
        let ghost l0 = self.lpos();
        let item = self.peeked.pop_front();
        proof {
            let len = old_pk.len();
            assert(old_pk[0].1.start as int == nth_start(s, a, 0));
            lemma_nth_start_bounds(s, a, 1);
            lemma_lex_end_bounds(s, a);
            lemma_skip_idempotent(s, lex_end(s, a), SkipMode::Normal);
            lemma_stream_ok_shift(s, a, (len - 1) as nat);
            if len > 1 {
                assert(self.peeked@[0] == old_pk[1]);
                assert(self.lpos() == nth_start(s, a, 1));
                assert forall|k: int| 0 <= k < self.peeked@.len() implies {
                    &&& (#[trigger] self.peeked@[k]).1.start as int == nth_start(s, self.lpos(), k as nat)
                    &&& token_at(s, self.peeked@[k].1.start as int, self.peeked@[k].0, self.peeked@[k].1.end as int)
                } by {
                    assert(self.peeked@[k] == old_pk[k + 1]);
                    lemma_nth_start_shift(s, a, k as nat);
                }
                lemma_nth_start_shift(s, a, (len - 2) as nat);
                lemma_nth_start_shift(s, a, (len - 1) as nat);
                lemma_skip_idempotent(s, lex_end(s, a), SkipMode::Normal);
            } else {
                lemma_skip_idempotent(s, self.pos as int, SkipMode::Normal);
                lemma_skip_idempotent(s, lex_end(s, a), SkipMode::Normal);
            }
            assert(self.wf());
        }
        proof {
            lemma_skip_bounds(s, lex_end(s, a), SkipMode::Normal);
        }
        match item {
            Some((t, sp)) => Ok(Some((t, sp))),
            None => Ok(None),
        }
    }
}


impl<'a> ParserCursor<'a> {
    /// Consumes the next token, which must exist; at the end of the text the
    /// error names `expected_desc` and points at the raw position.
    pub fn expect_token(&mut self, expected_desc: &str) -> (r: Result<(Token, Span), ParseError>)
        requires
            old(self).wf(),
        ensures
            final(self).wf(),
            final(self).text() == old(self).text(),
            final(self).source_str() == old(self).source_str(),
            r matches Err(e) ==> error_fits(old(self).text(), e),
            r is Ok && quiet_upto(*old(self), 2) ==> quiet(*final(self)),
            r matches Ok((_, sp)) ==> quiet(*old(self)) ==> final(self).lookahead() == 0 && (final(self).lpos()
                == sp.end || final(self).lpos() >= final(self).text().len()),
            match r {
                Ok((t, sp)) => {
                    &&& tok_at(old(self).text(), old(self).apos())
                    &&& sp.start as int == old(self).apos()
                    &&& token_at(old(self).text(), sp.start as int, t, sp.end as int)
                    &&& final(self).apos() == next_start(old(self).text(), sp.end as int)
                    &&& sp.start < sp.end <= final(self).lpos()
                },
                Err(e) => {
                    &&& !tok_at(old(self).text(), old(self).apos())
                    &&& if old(self).apos() >= old(self).text().len() {
                        &&& e matches ParseError::UnexpectedEof { expected, span }
                        &&& expected@ == expected_desc@
                        &&& span == Span { start: old(self).raw_pos() as usize, end: old(self).raw_pos() as usize }
                    } else {
                        e == lex_error_at(old(self).text(), old(self).apos())
                    }
                },
            },
    {
        let span = Span::empty(self.pos);
        match self.next_token()? {
            Some(tok) => Ok(tok),
            None => Err(ParseError::UnexpectedEof { expected: expected_desc.to_owned(), span }),
        }
    }

    /// Consumes the next token, which must be the same as `expected`.
    pub fn consume_token(&mut self, expected: &Token) -> (r: Result<Span, ParseError>)
        requires
            old(self).wf(),
        ensures
            final(self).wf(),
            final(self).text() == old(self).text(),
            final(self).source_str() == old(self).source_str(),
            r matches Err(e) ==> error_fits(old(self).text(), e),
            r is Ok && quiet_upto(*old(self), 2) ==> quiet(*final(self)),
            r matches Ok(sp) ==> quiet(*old(self)) ==> final(self).lookahead() == 0 && (final(self).lpos() == sp.end
                || final(self).lpos() >= final(self).text().len()),
            match r {
                Ok(sp) => {
                    &&& tok_at(old(self).text(), old(self).apos())
                    &&& kind_at(old(self).text(), old(self).apos()) == expected.spec_kind()
                    &&& sp.start as int == old(self).apos()
                    &&& sp.end as int == lex_end(old(self).text(), old(self).apos())
                    &&& final(self).apos() == next_start(old(self).text(), sp.end as int)
                    &&& sp.start < sp.end <= final(self).lpos()
                },
                Err(e) => consume_error(old(self).text(), old(self).apos(), old(self).raw_pos(), expected, e),
            },
    {
        let desc = expected.to_text();
        let (tok, span) = self.expect_token(desc.as_str())?;
        if tok.same_as(expected) {
            Ok(span)
        } else {
            Err(ParseError::UnexpectedToken { expected: desc, found: tok.to_text(), span })
        }
    }

    /// Drops all lookahead and moves the raw position to `pos`.
    pub fn reset_pos(&mut self, pos: usize)
        requires
            old(self).wf(),
            pos <= old(self).text().len(),
        ensures
            final(self).wf(),
            final(self).text() == old(self).text(),
            final(self).source_str() == old(self).source_str(),
            final(self).raw_pos() == pos,
            final(self).lpos() == pos,
            final(self).lookahead() == 0,
    {
        self.pos = pos;
        self.peeked.clear();
    }
}

/// Why consuming `expected` at `q` failed: the text ended, no token could be
/// read, or a different token was found there.
pub open spec fn consume_error(s: Seq<char>, q: int, raw: int, expected: &Token, e: ParseError) -> bool {
    if q >= s.len() {
        &&& e matches ParseError::UnexpectedEof { expected: x, span }
        &&& x@ == expected.spec_display()
        &&& span == Span { start: raw as usize, end: raw as usize }
    } else if spec_lex(s, q) is None {
        e == lex_error_at(s, q)
    } else {
        &&& !(kind_at(s, q) == expected.spec_kind() && lexed_payload(s, q, kind_at(s, q), lex_end(s, q))
            == expected.spec_payload())
        &&& e matches ParseError::UnexpectedToken { expected: x, found, span }
        &&& x@ == expected.spec_display()
        &&& found@ == display_at(s, q)
        &&& span == Span { start: q as usize, end: lex_end(s, q) as usize }
    }
}


/// Turns the text gathered since the last item into a text chunk: whitespace
/// runs collapse to one space, chunks of whitespace only are dropped, and the
/// chunk is trimmed at the slot's edges (the start when no item precedes it,
/// the end when it closes the slot).
fn flush_text(buf: &mut Vec<char>, items: &mut Vec<ContentItem>, start: usize, end: usize, is_end: bool)
    ensures
        final(buf)@.len() == 0,
        final(items)@.len() == old(items)@.len() || final(items)@.len() == old(items)@.len() + 1,
        forall|k: int| 0 <= k < old(items)@.len() ==> final(items)@[k] == old(items)@[k],
        final(items)@.len() == old(items)@.len() + 1 ==> {
            &&& final(items)@.last() matches ContentItem::Text(chunk)
            &&& chunk.text@ == flushed_text(old(buf)@, old(items)@.len() == 0, is_end)
            &&& chunk.text@.len() > 0
            &&& crate::parser::whitespace::is_normalized(chunk.text@)
            &&& chunk.span == Span { start, end }
        },
        final(items)@.len() == old(items)@.len() ==> flushed_text(old(buf)@, old(items)@.len() == 0, is_end).len() == 0,
{
    if buf.len() == 0 {
        return;
    }
    let ghost buf_before = buf@;
    let normalized = normalize_whitespace(buf);
    buf.clear();
    if all_whitespace(&normalized) {
        return;
    }
    let trimmed = if items.len() == 0 && is_end {
        let t = trim_start_chars(&normalized);
        trim_end_chars(&t)
    } else if items.len() == 0 {
        trim_start_chars(&normalized)
    } else if is_end {
        trim_end_chars(&normalized)
    } else {
        normalized
    };
    proof {
        crate::parser::whitespace::lemma_normalize_normalized(buf_before);
        crate::parser::whitespace::lemma_normalized_trims(normalized@);
    }
    if trimmed.len() > 0 {
        let text = string_from_chars(trimmed.as_slice());
        items.push(ContentItem::Text(TextChunk { text, span: Span::new(start, end) }));
    }
}

/// What a flushed chunk of `raw` text reads: normalized, then trimmed at the
/// edges of the slot, or empty when it held only whitespace.
pub open spec fn flushed_text(raw: Seq<char>, first: bool, is_end: bool) -> Seq<char> {
    let n = spec_normalize(raw);
    if forall|i: int| 0 <= i < n.len() ==> is_ws(#[trigger] n[i]) {
        Seq::empty()
    } else if first && is_end {
        trim_end(trim_start(n))
    } else if first {
        trim_start(n)
    } else if is_end {
        trim_end(n)
    } else {
        n
    }
}

/// The scan of a slot from `t` and `p`, with any items still to come, ends
/// where the scan of the whole slot from `a` ends with `done` read first;
/// `first` says whether `done` is empty.
pub open spec fn scan_tracks(s: Seq<char>, a: int, t: int, p: int, done: Seq<ContentItem>, first: bool) -> bool {
    &&& first == (done.len() == 0)
    &&& forall|rest: Seq<ContentItem>|
        (#[trigger] slot_scan(s, t, p, rest, first)) is Some ==> slot_scan(s, a, a, done + rest, true)
            == slot_scan(s, t, p, rest, first)
}

/// A step of the scanner that read `now` from `before` while the scan went
/// from `t` and `p` to `t2` and `p2` keeps the scan on track.
proof fn lemma_tracks_step(
    s: Seq<char>,
    a: int,
    t: int,
    p: int,
    before: Seq<ContentItem>,
    f1: bool,
    t2: int,
    p2: int,
    now: Seq<ContentItem>,
    f2: bool,
)
    requires
        scan_tracks(s, a, t, p, before, f1),
        f2 == (now.len() == 0),
        before.len() <= now.len(),
        now.take(before.len() as int) == before,
        forall|rest: Seq<ContentItem>|
            (#[trigger] slot_scan(s, t2, p2, rest, f2)) is Some ==> slot_scan(
                s,
                t,
                p,
                now.skip(before.len() as int) + rest,
                f1,
            ) == slot_scan(s, t2, p2, rest, f2),
    ensures
        scan_tracks(s, a, t2, p2, now, f2),
{
    assert forall|rest: Seq<ContentItem>|
        (#[trigger] slot_scan(s, t2, p2, rest, f2)) is Some implies slot_scan(s, a, a, now + rest, true)
            == slot_scan(s, t2, p2, rest, f2) by {
        let rest0 = now.skip(before.len() as int) + rest;
        assert(slot_scan(s, t, p, rest0, f1) == slot_scan(s, t2, p2, rest, f2));
        assert(before + rest0 =~= now + rest);
    }
}

/// What flushing the run from `t` to `p` added to `before`: nothing when the
/// run reads as an empty chunk, else that chunk.
pub open spec fn flushed_into(
    s: Seq<char>,
    t: int,
    p: int,
    before: Seq<ContentItem>,
    now: Seq<ContentItem>,
    is_end: bool,
) -> bool {
    let chunk = flushed_text(unescape_content(s.subrange(t, p)), before.len() == 0, is_end);
    if chunk.len() == 0 {
        now == before
    } else {
        &&& now.len() == before.len() + 1
        &&& now.drop_last() == before
        &&& crate::parser::grammar::chunk_is(now.last(), chunk, t, p)
    }
}

/// At a comment the scan flushes the run and goes on after the comment.
proof fn lemma_flush_jump(
    s: Seq<char>,
    t: int,
    p: int,
    q: int,
    before: Seq<ContentItem>,
    now: Seq<ContentItem>,
    f1: bool,
    f2: bool,
)
    requires
        0 <= t <= p,
        p + 1 < s.len(),
        s[p] == '/',
        s[p + 1] == '/' || s[p + 1] == '*',
        q == (if s[p + 1] == '/' {
            line_comment_end(s, p + 2)
        } else {
            block_comment_end(s, p + 2)
        }),
        flushed_into(s, t, p, before, now, false),
        f1 == (before.len() == 0),
        f2 == (now.len() == 0),
    ensures
        forall|rest: Seq<ContentItem>|
            (#[trigger] slot_scan(s, q, q, rest, f2)) is Some ==> slot_scan(
                s,
                t,
                p,
                now.skip(before.len() as int) + rest,
                f1,
            ) == slot_scan(s, q, q, rest, f2),
{
    assert forall|rest: Seq<ContentItem>|
        (#[trigger] slot_scan(s, q, q, rest, f2)) is Some implies slot_scan(
            s,
            t,
            p,
            now.skip(before.len() as int) + rest,
            f1,
        ) == slot_scan(s, q, q, rest, f2) by {
        let its = now.skip(before.len() as int) + rest;
        let chunk = flushed_text(unescape_content(s.subrange(t, p)), f1, false);
        if chunk.len() == 0 {
            assert(its =~= rest);
        } else {
            assert(its[0] == now.last());
            assert(its.skip(1) =~= rest);
        }
    }
}

proof fn lemma_flushed_into(
    s: Seq<char>,
    t: int,
    p: int,
    before: Seq<ContentItem>,
    now: Seq<ContentItem>,
    raw: Seq<char>,
    is_end: bool,
)
    requires
        0 <= t <= p <= usize::MAX,
        raw == unescape_content(s.subrange(t, p)),
        now.len() == before.len() || now.len() == before.len() + 1,
        forall|k: int| 0 <= k < before.len() ==> now[k] == before[k],
        now.len() == before.len() + 1 ==> {
            &&& now.last() matches ContentItem::Text(chunk)
            &&& chunk.text@ == flushed_text(raw, before.len() == 0, is_end)
            &&& chunk.text@.len() > 0
            &&& chunk.span == Span { start: t as usize, end: p as usize }
        },
        now.len() == before.len() ==> flushed_text(raw, before.len() == 0, is_end).len() == 0,
    ensures
        flushed_into(s, t, p, before, now, is_end),
        now.len() >= before.len(),
        now.take(before.len() as int) == before,
{
    if now.len() == before.len() {
        assert(now =~= before);
    } else {
        assert(now.drop_last() =~= before);
    }
    assert(now.take(before.len() as int) =~= before);
}

/// What parsing a content slot whose `{` stands at `q` gives, by where its
/// scan stops: the slot up to the closing `}`, an unclosed-slot error at the
/// `{` when the text ends first, an error at a bare `{` or at a backslash
/// that cannot start an escape; where the scan meets an inline item, the
/// item decides.
pub open spec fn slot_outcome(s: Seq<char>, q: int, r: Result<ContentSlot, ParseError>) -> bool {
    let (k, p) = scan_stop(s, q + 1);
    match k {
        ScanStop::Close => r matches Ok(c) && c.span == Span { start: q as usize, end: (p + 1) as usize },
        ScanStop::Out => r == Err::<ContentSlot, ParseError>(
            ParseError::UnclosedDelimiter {
                delimiter: '}',
                open_span: Span { start: q as usize, end: (q + 1) as usize },
            },
        ),
        ScanStop::Brace => r matches Err(ParseError::Custom { message, span }) && message@
            == "Unescaped '{' in content text; use '\\{' to include a literal brace"@ && span == Span {
            start: p as usize,
            end: (p + 1) as usize,
        },
        ScanStop::Escape => r matches Err(ParseError::InvalidEscape { escape, span }) && span.start == p
            && span.end == (if p + 1 < s.len() {
            p + 2
        } else {
            s.len() as int
        }) && escape@ == s.subrange(p, span.end as int),
        ScanStop::Item => true,
    }
}

impl<'a> ParserCursor<'a> {
    /// Parses a content slot `{ ... }`: raw text (with `\\`, `\{`, `\}`
    /// escapes and comments) interleaved with inline nodes and `\Children`
    /// directives introduced by `\`.
    #[verifier::spinoff_prover]
    #[verifier::rlimit(100)]
    pub fn parse_content_slot(&mut self) -> (r: Result<ContentSlot, ParseError>)
        requires
            old(self).wf(),
        ensures
            r is Ok && quiet_upto(*old(self), 2) ==> quiet(*final(self)),
            r matches Err(e) ==> error_fits(old(self).text(), e),
            cursor_step(*old(self), *final(self)),
            r is Ok ==> final(self).lpos() > old(self).apos(),
            r matches Ok(c) ==> slot_reads(old(self).text(), c) && read_span(*old(self), *final(self), c.span),
            r matches Ok(c) ==> final(self).lookahead() == 0 && final(self).lpos() == c.span.end,
            !tok_is(old(self).text(), old(self).apos(), TokenKind::LBrace) ==> (r matches Err(e) && consume_error(
                old(self).text(),
                old(self).apos(),
                old(self).raw_pos(),
                &Token::LBrace,
                e,
            )),
            tok_is(old(self).text(), old(self).apos(), TokenKind::LBrace) ==> slot_outcome(
                old(self).text(),
                old(self).apos(),
                r,
            ),
            tok_is(old(self).text(), old(self).apos(), TokenKind::LBrace) ==> (slot_close(
                old(self).text(),
                old(self).apos() + 1,
            ) matches Some(cl) ==> r matches Ok(c) && c.span.end == cl + 1),
        decreases measure(*old(self)), 6int,
    {
        let ghost a0 = self.apos();
        let ghost s = self.text();
        let open_span = self.consume_token(&Token::LBrace)?;
        proof {
            self.lemma_wf_bounds();
            assert(s[a0] == '{');
            assert(open_span.end as int == a0 + 1);
        }
        self.reset_pos(open_span.end);
        let n = self.chars.len();
        let mut items: Vec<ContentItem> = Vec::new();
        let mut raw_buf: Vec<char> = Vec::new();
        let mut text_start = self.pos;
        let ghost a = a0 + 1;
        let ghost mut plain: bool = true;
        proof {
            assert(s.subrange(text_start as int, self.pos as int) =~= Seq::<char>::empty());
            assert(raw_buf@ =~= unescape_content(s.subrange(text_start as int, self.pos as int)));
            assert forall|rest: Seq<ContentItem>|
                (#[trigger] slot_scan(s, a, a, rest, true)) is Some implies slot_scan(s, a, a, items@ + rest, true)
                    == slot_scan(s, a, a, rest, true) by {
                assert(items@ + rest =~= rest);
            }
        }
        loop
            invariant
                cursor_step(*old(self), *self),
                self.lookahead() == 0,
                n == self.text().len(),
                a0 == old(self).apos(),
                a == a0 + 1,
                a0 < self.raw_pos() <= n,
                open_span.start as int == a0,
                open_span.end as int == a0 + 1,
                s == old(self).text(),
                s[a0] == '{',
                a0 < text_start <= self.pos,
                content_run(s.subrange(text_start as int, self.pos as int)),
                raw_buf@ == unescape_content(s.subrange(text_start as int, self.pos as int)),
                scan_tracks(s, a, text_start as int, self.pos as int, items@, items@.len() == 0),
                plain ==> scan_stop(s, a) == scan_stop(s, self.pos as int),
                !plain ==> scan_stop(s, a).0 is Item,
                s.len() == n,
                slot_close(s, a) matches Some(cl) ==> slot_close(s, self.pos as int) == Some(cl),
            decreases n - self.pos,
        {
            let pos = self.pos;
            if pos >= n {
                proof {
                    lemma_slot_close_unfold(s, pos as int);
                }
                return Err(ParseError::UnclosedDelimiter { delimiter: '}', open_span });
            }
            let c = self.chars[pos];
            let ghost t = text_start as int;
            let ghost before = items@;
            let ghost f1 = before.len() == 0;
            if c == '}' {
                proof {
                    lemma_slot_close_unfold(s, pos as int);
                }
                let ghost raw = raw_buf@;
                flush_text(&mut raw_buf, &mut items, text_start, pos, true);
                proof {
                    lemma_flushed_into(s, t, pos as int, before, items@, raw, true);
                    let rest = items@.skip(before.len() as int);
                    assert(slot_scan(s, t, pos as int, rest, f1) == Some(pos as int));
                    assert(before + rest =~= items@);
                }
                let close_span = Span::new(pos, pos + 1);
                self.reset_pos(pos + 1);
                let slot_span = open_span.merge(close_span);
                let slot = ContentSlot { items, span: slot_span };
                proof {
                    assert(slot.span == Span { start: a0 as usize, end: (pos + 1) as usize });
                    assert(slot_reads(s, slot));
                }
                return Ok(slot);
            }
            if c == '/' && pos + 1 < n && self.chars[pos + 1] == '/' {
                let ghost raw = raw_buf@;
                flush_text(&mut raw_buf, &mut items, text_start, pos, false);
                proof {
                    lemma_flushed_into(s, t, pos as int, before, items@, raw, false);
                }
                let mut p = pos + 2;
                while p < n && self.chars[p] != '\n'
                    invariant
                        pos < p <= n,
                        n == self.chars@.len(),
                        s == self.chars@,
                        line_comment_end(s, p as int) == line_comment_end(s, pos + 2),
                    decreases n - p,
                {
                    p = p + 1;
                }
                if p < n && self.chars[p] == '\n' {
                    p = p + 1;
                }
                proof {
                    assert(line_comment_end(s, pos + 2) == p as int);
                    assert(scan_stop(s, pos as int) == scan_stop(s, p as int));
                    lemma_slot_close_step(s, pos as int, p as int);
                    lemma_flush_jump(s, t, pos as int, p as int, before, items@, f1, items@.len() == 0);
                    lemma_tracks_step(s, a, t, pos as int, before, f1, p as int, p as int, items@, items@.len() == 0);
                }
                self.pos = p;
                text_start = p;
                proof {
                    assert(s.subrange(text_start as int, self.pos as int) =~= Seq::<char>::empty());
                    assert(raw_buf@ =~= unescape_content(s.subrange(text_start as int, self.pos as int)));
                }
                continue;
            }
            if c == '/' && pos + 1 < n && self.chars[pos + 1] == '*' {
                let ghost raw = raw_buf@;
                flush_text(&mut raw_buf, &mut items, text_start, pos, false);
                proof {
                    lemma_flushed_into(s, t, pos as int, before, items@, raw, false);
                }
                let mut p = pos + 2;
                while p < n && p + 1 < n && !(self.chars[p] == '*' && self.chars[p + 1] == '/')
                    invariant
                        pos < p <= n,
                        n == self.chars@.len(),
                        s == self.chars@,
                        block_comment_end(s, p as int) == block_comment_end(s, pos + 2),
                    decreases n - p,
                {
                    p = p + 1;
                }
                if p < n && p + 1 < n && self.chars[p] == '*' && self.chars[p + 1] == '/' {
                    p = p + 2;
                }
                proof {
                    assert(block_comment_end(s, pos + 2) == p as int);
                    assert(scan_stop(s, pos as int) == scan_stop(s, p as int));
                    lemma_slot_close_step(s, pos as int, p as int);
                    lemma_flush_jump(s, t, pos as int, p as int, before, items@, f1, items@.len() == 0);
                    lemma_tracks_step(s, a, t, pos as int, before, f1, p as int, p as int, items@, items@.len() == 0);
                }
                self.pos = p;
                text_start = p;
                proof {
                    assert(s.subrange(text_start as int, self.pos as int) =~= Seq::<char>::empty());
                    assert(raw_buf@ =~= unescape_content(s.subrange(text_start as int, self.pos as int)));
                }
                continue;
            }
            if c == '\\' {
                if pos + 1 < n {
                    let d = self.chars[pos + 1];
                    if d == '\\' || d == '{' || d == '}' {
                        proof {
                            lemma_content_escape(s.subrange(text_start as int, pos as int), d);
                            assert(s.subrange(text_start as int, pos + 2) =~= s.subrange(text_start as int, pos as int)
                                + seq!['\\', d]);
                            assert(items@.skip(before.len() as int) =~= Seq::<ContentItem>::empty());
                            assert(items@.take(before.len() as int) =~= before);
                            assert forall|rest: Seq<ContentItem>|
                                (#[trigger] slot_scan(s, t, pos + 2, rest, f1)) is Some implies slot_scan(
                                    s,
                                    t,
                                    pos as int,
                                    items@.skip(before.len() as int) + rest,
                                    f1,
                                ) == slot_scan(s, t, pos + 2, rest, f1) by {
                                assert(items@.skip(before.len() as int) + rest =~= rest);
                            }
                            lemma_tracks_step(s, a, t, pos as int, before, f1, t, pos + 2, items@, f1);
                            assert(scan_stop(s, pos as int) == scan_stop(s, pos + 2));
                            lemma_slot_close_step(s, pos as int, pos + 2);
                        }
                        raw_buf.push(d);
                        self.pos = pos + 2;
                        continue;
                    }
                    if ('a' <= d && d <= 'z') || ('A' <= d && d <= 'Z') || d == '_' {
                        let ghost raw = raw_buf@;
                        flush_text(&mut raw_buf, &mut items, text_start, pos, false);
                        proof {
                            lemma_flushed_into(s, t, pos as int, before, items@, raw, false);
                        }
                        let ghost mid = items@;
                        self.reset_pos(pos);
                        proof {
                            assert(next_start(self.text(), pos as int) == pos as int);
                        }
                        proof {
                            assert(scan_stop(s, pos as int).0 is Item);
                            assert(scan_stop(s, pos as int).1 == pos as int);
                            lemma_slot_close_unfold(s, pos as int);
                        }
                        let inline_item = parse_content_item(self)?;
                        items.push(inline_item);
                        proof {
                            plain = false;
                        }
                        proof {
                            self.lemma_wf_bounds();
                            assert(items@.drop_last() =~= mid);
                        }
                        let cp = self.current_pos();
                        proof {
                            let now = items@;
                            let r = cp as int;
                            let f2 = false;
                            assert(now.take(before.len() as int) =~= before);
                            if r < n {
                                assert(r == item_resume(s, inline_item));
                                assert forall|rest: Seq<ContentItem>|
                                    (#[trigger] slot_scan(s, r, r, rest, f2)) is Some implies slot_scan(
                                        s,
                                        t,
                                        pos as int,
                                        now.skip(before.len() as int) + rest,
                                        f1,
                                    ) == slot_scan(s, r, r, rest, f2) by {
                                    let k = mid.len() - before.len();
                                    let its = now.skip(before.len() as int) + rest;
                                    assert(its[k] == inline_item);
                                    if k == 1 {
                                        assert(its[0] == mid.last());
                                    }
                                    assert(its.skip(k + 1) =~= rest);
                                }
                                lemma_tracks_step(s, a, t, pos as int, before, f1, r, r, now, f2);
                            } else {
                                assert forall|rest: Seq<ContentItem>|
                                    (#[trigger] slot_scan(s, r, r, rest, f2)) is Some implies slot_scan(
                                        s,
                                        a,
                                        a,
                                        now + rest,
                                        true,
                                    ) == slot_scan(s, r, r, rest, f2) by {}
                            }
                        }
                        self.reset_pos(cp);
                        text_start = self.pos;
                        proof {
                            assert(s.subrange(text_start as int, self.pos as int) =~= Seq::<char>::empty());
                            assert(raw_buf@ =~= unescape_content(s.subrange(text_start as int, self.pos as int)));
                        }
                        continue;
                    }
                }
                let e = if pos + 1 < n { pos + 2 } else { n };
                let escape = crate::lexer::sub_string(&self.chars, pos, e);
                proof {
                    lemma_slot_close_unfold(s, pos as int);
                }
                return Err(ParseError::InvalidEscape { escape, span: Span::new(pos, e) });
            }
            if c == '{' {
                proof {
                    lemma_slot_close_unfold(s, pos as int);
                }
                return Err(
                    ParseError::Custom {
                        message: "Unescaped '{' in content text; use '\\{' to include a literal brace".to_owned(),
                        span: Span::new(pos, pos + 1),
                    },
                );
            }
            proof {
                lemma_content_push(s.subrange(text_start as int, pos as int), c);
                assert(s.subrange(text_start as int, pos + 1) =~= s.subrange(text_start as int, pos as int).push(c));
                assert(items@.take(before.len() as int) =~= before);
                assert forall|rest: Seq<ContentItem>|
                    (#[trigger] slot_scan(s, t, pos + 1, rest, f1)) is Some implies slot_scan(
                        s,
                        t,
                        pos as int,
                        items@.skip(before.len() as int) + rest,
                        f1,
                    ) == slot_scan(s, t, pos + 1, rest, f1) by {
                    assert(items@.skip(before.len() as int) + rest =~= rest);
                }
                lemma_tracks_step(s, a, t, pos as int, before, f1, t, pos + 1, items@, f1);
                assert(scan_stop(s, pos as int) == scan_stop(s, pos + 1));
                lemma_slot_close_step(s, pos as int, pos + 1);
            }
            raw_buf.push(c);
            self.pos = pos + 1;
        }
    }
}

} // verus!
