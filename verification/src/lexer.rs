use vstd::prelude::*;
use crate::chars::{is_digit, string_from_chars};
use crate::error::ParseError;
use crate::span::Span;
use crate::token::{Token, TokenKind};

verus! {

/// ASCII whitespace as std's `u8::is_ascii_whitespace` defines it.
pub open spec fn is_ascii_ws(c: char) -> bool {
    c == ' ' || c == '\t' || c == '\n' || c == '\x0C' || c == '\r'
}

pub open spec fn is_ident_start(c: char) -> bool {
    ('a' <= c && c <= 'z') || ('A' <= c && c <= 'Z') || c == '_'
}

pub open spec fn is_ident_continue(c: char) -> bool {
    is_ident_start(c) || is_digit(c)
}

pub open spec fn is_hex(c: char) -> bool {
    is_digit(c) || ('a' <= c && c <= 'f') || ('A' <= c && c <= 'F')
}

/// `s[k] == c`, false outside the sequence.
pub open spec fn has(s: Seq<char>, k: int, c: char) -> bool {
    0 <= k < s.len() && s[k] == c
}

#[derive(PartialEq, Eq, Structural, Clone, Copy)]
pub enum CharClass {
    Digit,
    Hex,
    IdentContinue,
}

pub open spec fn in_class(c: char, class: CharClass) -> bool {
    match class {
        CharClass::Digit => is_digit(c),
        CharClass::Hex => is_hex(c),
        CharClass::IdentContinue => is_ident_continue(c),
    }
}

/// The end of the longest run of `class` characters starting at `i`.
pub open spec fn run_end(s: Seq<char>, i: int, class: CharClass) -> int
    decreases s.len() - i,
{
    if 0 <= i < s.len() && in_class(s[i], class) {
        run_end(s, i + 1, class)
    } else {
        i
    }
}

/// The end of the longest match of `[0-9]+(\.[0-9]+)?([eE][+-]?[0-9]+)?` at `i`
/// (where `s[i]` is a digit).
pub open spec fn number_end(s: Seq<char>, i: int) -> int {
    let a = run_end(s, i, CharClass::Digit);
    let b = if has(s, a, '.') && a + 1 < s.len() && is_digit(s[a + 1]) {
        run_end(s, a + 1, CharClass::Digit)
    } else {
        a
    };
    if has(s, b, 'e') || has(s, b, 'E') {
        let k = if has(s, b + 1, '+') || has(s, b + 1, '-') { b + 2 } else { b + 1 };
        if 0 <= k < s.len() && is_digit(s[k]) {
            run_end(s, k, CharClass::Digit)
        } else {
            b
        }
    } else {
        b
    }
}

/// The end of the longest match of `#[0-9a-fA-F]{3,8}` at `i`, if any.
pub open spec fn color_end(s: Seq<char>, i: int) -> Option<int> {
    let h = run_end(s, i + 1, CharClass::Hex) - (i + 1);
    if h >= 3 {
        Some(i + 1 + if h <= 8 { h } else { 8 })
    } else {
        None
    }
}

/// Scanning the body of a string literal from `j` (just after the opening
/// quote): the index just after the closing quote, if the literal is closed.
pub open spec fn string_end(s: Seq<char>, j: int) -> Option<int>
    decreases s.len() - j,
{
    if j < 0 || j >= s.len() {
        None
    } else if s[j] == '"' {
        Some(j + 1)
    } else if s[j] == '\\' {
        if j + 1 < s.len() && s[j + 1] != '\n' {
            string_end(s, j + 2)
        } else {
            None
        }
    } else {
        string_end(s, j + 1)
    }
}

pub open spec fn escape_char(c: char) -> char {
    if c == 'n' {
        '\n'
    } else if c == 't' {
        '\t'
    } else if c == 'r' {
        '\r'
    } else {
        c
    }
}

/// The contents of a string literal with its escapes resolved.
pub open spec fn unescape(s: Seq<char>) -> Seq<char>
    decreases s.len(),
{
    if s.len() == 0 {
        Seq::empty()
    } else if s[0] == '\\' {
        if s.len() == 1 {
            seq!['\\']
        } else {
            seq![escape_char(s[1])] + unescape(s.skip(2))
        }
    } else {
        seq![s[0]] + unescape(s.skip(1))
    }
}

/// A token without a payload is spelled in the text exactly as its kind's
/// fixed spelling: `+` lexes as `Plus`, `<=` as `LtEq`, `let` as `Let`, and
/// so on.
pub proof fn lemma_lexed_spelling(s: Seq<char>, i: int)
    ensures
        spec_lex(s, i) matches Some((k, e)) ==> (k != TokenKind::Number && k != TokenKind::String && k
            != TokenKind::Color && k != TokenKind::Ident ==> s.subrange(i, e) == Token::spec_fixed_text(k)),
{
    if let Some((k, e)) = spec_lex(s, i) {
        if k != TokenKind::Number && k != TokenKind::String && k != TokenKind::Color && k != TokenKind::Ident {
            assert(s.subrange(i, e) =~= Token::spec_fixed_text(k));
        }
    }
}

/// In a string literal, `\n` stands for a newline (U+000A), `\t` for a tab
/// (U+0009), `\r` for a carriage return (U+000D), `\\` for a backslash and
/// `\"` for a quote, any other escaped character for itself, whatever
/// follows; any other character stands for itself.
pub proof fn lemma_unescape_escapes(t: Seq<char>, c: char)
    ensures
        unescape(seq!['\\', 'n'] + t) == seq!['\u{A}'] + unescape(t),
        unescape(seq!['\\', 't'] + t) == seq!['\u{9}'] + unescape(t),
        unescape(seq!['\\', 'r'] + t) == seq!['\u{D}'] + unescape(t),
        unescape(seq!['\\', '\\'] + t) == seq!['\\'] + unescape(t),
        unescape(seq!['\\', '"'] + t) == seq!['"'] + unescape(t),
        c != '\\' ==> unescape(seq![c] + t) == seq![c] + unescape(t),
        c != 'n' && c != 't' && c != 'r' ==> unescape(seq!['\\', c] + t) == seq![c] + unescape(t),
{
    assert((seq!['\\', 'n'] + t).skip(2) =~= t);
    assert((seq!['\\', 't'] + t).skip(2) =~= t);
    assert((seq!['\\', 'r'] + t).skip(2) =~= t);
    assert((seq!['\\', '\\'] + t).skip(2) =~= t);
    assert((seq!['\\', '"'] + t).skip(2) =~= t);
    assert((seq![c] + t).skip(1) =~= t);
    assert((seq!['\\', c] + t).skip(2) =~= t);
}

pub open spec fn keyword_kind(w: Seq<char>) -> TokenKind {
    if w == Token::spec_fixed_text(TokenKind::Component) {
        TokenKind::Component
    } else if w == Token::spec_fixed_text(TokenKind::Children) {
        TokenKind::Children
    } else if w == Token::spec_fixed_text(TokenKind::Let) {
        TokenKind::Let
    } else if w == Token::spec_fixed_text(TokenKind::Env) {
        TokenKind::Env
    } else if w == Token::spec_fixed_text(TokenKind::True) {
        TokenKind::True
    } else if w == Token::spec_fixed_text(TokenKind::False) {
        TokenKind::False
    } else {
        TokenKind::Ident
    }
}

/// The token that starts at `i` (longest match, keywords before identifiers),
/// as its kind and end; `None` when no token starts there.
pub open spec fn spec_lex(s: Seq<char>, i: int) -> Option<(TokenKind, int)> {
    if i < 0 || i >= s.len() {
        None
    } else {
        let c = s[i];
        if c == '\\' {
            Some((TokenKind::Backslash, i + 1))
        } else if c == '(' {
            Some((TokenKind::LParen, i + 1))
        } else if c == ')' {
            Some((TokenKind::RParen, i + 1))
        } else if c == '{' {
            Some((TokenKind::LBrace, i + 1))
        } else if c == '}' {
            Some((TokenKind::RBrace, i + 1))
        } else if c == ':' {
            Some((TokenKind::Colon, i + 1))
        } else if c == ',' {
            Some((TokenKind::Comma, i + 1))
        } else if c == '.' {
            Some((TokenKind::Dot, i + 1))
        } else if c == ';' {
            Some((TokenKind::Semicolon, i + 1))
        } else if c == '?' {
            Some((TokenKind::Question, i + 1))
        } else if c == '+' {
            Some((TokenKind::Plus, i + 1))
        } else if c == '-' {
            Some((TokenKind::Minus, i + 1))
        } else if c == '*' {
            Some((TokenKind::Star, i + 1))
        } else if c == '/' {
            Some((TokenKind::Slash, i + 1))
        } else if c == '%' {
            Some((TokenKind::Percent, i + 1))
        } else if c == '=' {
            if has(s, i + 1, '=') {
                Some((TokenKind::EqEq, i + 2))
            } else {
                Some((TokenKind::Eq, i + 1))
            }
        } else if c == '!' {
            if has(s, i + 1, '=') {
                Some((TokenKind::BangEq, i + 2))
            } else {
                Some((TokenKind::Bang, i + 1))
            }
        } else if c == '<' {
            if has(s, i + 1, '=') {
                Some((TokenKind::LtEq, i + 2))
            } else {
                Some((TokenKind::Lt, i + 1))
            }
        } else if c == '>' {
            if has(s, i + 1, '=') {
                Some((TokenKind::GtEq, i + 2))
            } else {
                Some((TokenKind::Gt, i + 1))
            }
        } else if c == '&' {
            if has(s, i + 1, '&') {
                Some((TokenKind::AmpAmp, i + 2))
            } else {
                None
            }
        } else if c == '|' {
            if has(s, i + 1, '|') {
                Some((TokenKind::PipePipe, i + 2))
            } else {
                None
            }
        } else if is_digit(c) {
            Some((TokenKind::Number, number_end(s, i)))
        } else if c == '#' {
            match color_end(s, i) {
                Some(e) => Some((TokenKind::Color, e)),
                None => None,
            }
        } else if c == '"' {
            match string_end(s, i + 1) {
                Some(e) => Some((TokenKind::String, e)),
                None => None,
            }
        } else if is_ident_start(c) {
            let e = run_end(s, i + 1, CharClass::IdentContinue);
            Some((keyword_kind(s.subrange(i, e)), e))
        } else {
            None
        }
    }
}

/// The payload a token of kind `k` lexed from `s[i..e]` carries.
pub open spec fn lexed_payload(s: Seq<char>, i: int, k: TokenKind, e: int) -> Seq<char> {
    match k {
        TokenKind::Number => s.subrange(i, e),
        TokenKind::Color => s.subrange(i, e),
        TokenKind::Ident => s.subrange(i, e),
        TokenKind::String => unescape(s.subrange(i + 1, e - 1)),
        _ => Seq::empty(),
    }
}

/// `t` is the token lexed at `i` and it ends at `e`.
pub open spec fn token_at(s: Seq<char>, i: int, t: Token, e: int) -> bool {
    &&& spec_lex(s, i) == Some((t.spec_kind(), e))
    &&& t.spec_payload() == lexed_payload(s, i, t.spec_kind(), e)
}

} // verus!

verus! {

fn char_in_class(c: char, class: CharClass) -> (b: bool)
    ensures
        b == in_class(c, class),
{
    let digit = '0' <= c && c <= '9';
    match class {
        CharClass::Digit => digit,
        CharClass::Hex => digit || ('a' <= c && c <= 'f') || ('A' <= c && c <= 'F'),
        CharClass::IdentContinue => digit || ('a' <= c && c <= 'z') || ('A' <= c && c <= 'Z')
            || c == '_',
    }
}

/// The end of the run of `class` characters starting at `i`.
pub fn scan_run(s: &Vec<char>, i: usize, class: CharClass) -> (e: usize)
    requires
        i <= s@.len(),
    ensures
        e == run_end(s@, i as int, class),
        i <= e <= s@.len(),
        (i < s@.len() && in_class(s@[i as int], class)) ==> e > i,
{
    let mut j = i;
    while j < s.len() && char_in_class(s[j], class)
        invariant
            i <= j <= s@.len(),
            run_end(s@, i as int, class) == run_end(s@, j as int, class),
        decreases s@.len() - j,
    {
        j = j + 1;
    }
    j
}

/// The characters `s[i..e]`.
pub fn sub_chars(s: &Vec<char>, i: usize, e: usize) -> (v: Vec<char>)
    requires
        i <= e <= s@.len(),
    ensures
        v@ == s@.subrange(i as int, e as int),
{
    let mut v: Vec<char> = Vec::new();
    let mut k = i;
    while k < e
        invariant
            i <= k <= e <= s@.len(),
            v@ == s@.subrange(i as int, k as int),
        decreases e - k,
    {
        v.push(s[k]);
        k = k + 1;
        assert(v@ =~= s@.subrange(i as int, k as int));
    }
    v
}

/// The string `s[i..e]`.
pub fn sub_string(s: &Vec<char>, i: usize, e: usize) -> (r: String)
    requires
        i <= e <= s@.len(),
    ensures
        r@ == s@.subrange(i as int, e as int),
{
    let v = sub_chars(s, i, e);
    string_from_chars(v.as_slice())
}

fn lex_escape(c: char) -> (r: char)
    ensures
        r == escape_char(c),
{
    if c == 'n' {
        '\n'
    } else if c == 't' {
        '\t'
    } else if c == 'r' {
        '\r'
    } else {
        c
    }
}

/// Resolves the escapes of `s[start..end]`.
pub fn unescape_range(s: &Vec<char>, start: usize, end: usize) -> (v: Vec<char>)
    requires
        start <= end <= s@.len(),
    ensures
        v@ == unescape(s@.subrange(start as int, end as int)),
{
    let mut out: Vec<char> = Vec::new();
    let mut k = start;
    while k < end
        invariant
            start <= k <= end <= s@.len(),
            out@ + unescape(s@.subrange(k as int, end as int)) == unescape(
                s@.subrange(start as int, end as int),
            ),
        decreases end - k,
    {
        let ghost rest = s@.subrange(k as int, end as int);
        if s[k] == '\\' {
            if k + 1 < end {
                assert(rest.skip(2) =~= s@.subrange(k + 2, end as int));
                out.push(lex_escape(s[k + 1]));
                k = k + 2;
            } else {
                out.push('\\');
                k = k + 1;
                assert(s@.subrange(k as int, end as int) =~= Seq::<char>::empty());
            }
        } else {
            assert(rest.skip(1) =~= s@.subrange(k + 1, end as int));
            out.push(s[k]);
            k = k + 1;
        }
        assert(out@ + unescape(s@.subrange(k as int, end as int)) =~= unescape(
            s@.subrange(start as int, end as int),
        ));
    }
    assert(s@.subrange(k as int, end as int) =~= Seq::<char>::empty());
    assert(out@ =~= out@ + unescape(s@.subrange(k as int, end as int)));
    out
}

/// Whether `s[i..e]` spells the fixed text of `k`.
fn spells(s: &Vec<char>, i: usize, e: usize, k: TokenKind) -> (b: bool)
    requires
        i <= e <= s@.len(),
    ensures
        b == (s@.subrange(i as int, e as int) == Token::spec_fixed_text(k)),
{
    let w = crate::token::fixed_text(k);
    if w.len() != e - i {
        return false;
    }
    let mut j: usize = 0;
    while j < w.len()
        invariant
            j <= w@.len(),
            w@ == Token::spec_fixed_text(k),
            w@.len() == e - i,
            i <= e <= s@.len(),
            forall|m: int| 0 <= m < j ==> w@[m] == s@[i + m],
        decreases w@.len() - j,
    {
        if w[j] != s[i + j] {
            assert(s@.subrange(i as int, e as int)[j as int] != w@[j as int]);
            return false;
        }
        j = j + 1;
    }
    assert(s@.subrange(i as int, e as int) =~= w@);
    true
}

fn keyword_or_ident(s: &Vec<char>, i: usize, e: usize) -> (t: Token)
    requires
        i <= e <= s@.len(),
    ensures
        t.spec_kind() == keyword_kind(s@.subrange(i as int, e as int)),
        t.spec_payload() == lexed_payload(s@, i as int, t.spec_kind(), e as int),
{
    if spells(s, i, e, TokenKind::Component) {
        Token::Component
    } else if spells(s, i, e, TokenKind::Children) {
        Token::Children
    } else if spells(s, i, e, TokenKind::Let) {
        Token::Let
    } else if spells(s, i, e, TokenKind::Env) {
        Token::Env
    } else if spells(s, i, e, TokenKind::True) {
        Token::True
    } else if spells(s, i, e, TokenKind::False) {
        Token::False
    } else {
        Token::Ident(sub_string(s, i, e))
    }
}

fn scan_number(s: &Vec<char>, i: usize) -> (e: usize)
    requires
        i < s@.len(),
        is_digit(s@[i as int]),
    ensures
        e == number_end(s@, i as int),
        i < e <= s@.len(),
{
    let a = scan_run(s, i, CharClass::Digit);
    let b = if a < s.len() && s[a] == '.' && a + 1 < s.len() && '0' <= s[a + 1] && s[a + 1]
        <= '9' {
        scan_run(s, a + 1, CharClass::Digit)
    } else {
        a
    };
    if b < s.len() && (s[b] == 'e' || s[b] == 'E') {
        let k = if b + 1 < s.len() && (s[b + 1] == '+' || s[b + 1] == '-') {
            b + 2
        } else {
            b + 1
        };
        if k < s.len() && '0' <= s[k] && s[k] <= '9' {
            scan_run(s, k, CharClass::Digit)
        } else {
            b
        }
    } else {
        b
    }
}

fn scan_string(s: &Vec<char>, j: usize) -> (r: Option<usize>)
    requires
        j <= s@.len(),
    ensures
        r is None <==> string_end(s@, j as int) is None,
        r matches Some(e) ==> string_end(s@, j as int) == Some(e as int) && j < e <= s@.len(),
{
    let mut k = j;
    loop
        invariant
            j <= k <= s@.len(),
            string_end(s@, j as int) == string_end(s@, k as int),
        decreases s@.len() - k,
    {
        if k >= s.len() {
            return None;
        }
        if s[k] == '"' {
            return Some(k + 1);
        }
        if s[k] == '\\' {
            if k + 1 < s.len() && s[k + 1] != '\n' {
                k = k + 2;
            } else {
                return None;
            }
        } else {
            k = k + 1;
        }
    }
}

/// Recognizes the token that starts at `i`: the longest match, with keywords
/// taking precedence over identifiers of the same spelling. `None` when no
/// token starts at `i`.
pub fn lex_at(s: &Vec<char>, i: usize) -> (r: Option<(Token, usize)>)
    requires
        i < s@.len(),
    ensures
        r is None <==> spec_lex(s@, i as int) is None,
        r matches Some((t, e)) ==> token_at(s@, i as int, t, e as int) && i < e <= s@.len(),
{
    let n = s.len();
    let c = s[i];
    let nx = if i + 1 < n { Some(s[i + 1]) } else { None };
    let two = |d: char| -> (b: bool)
        ensures b == has(s@, i + 1, d)
    {
        match nx {
            Some(x) => x == d,
            None => false,
        }
    };
    if c == '\\' {
        Some((Token::Backslash, i + 1))
    } else if c == '(' {
        Some((Token::LParen, i + 1))
    } else if c == ')' {
        Some((Token::RParen, i + 1))
    } else if c == '{' {
        Some((Token::LBrace, i + 1))
    } else if c == '}' {
        Some((Token::RBrace, i + 1))
    } else if c == ':' {
        Some((Token::Colon, i + 1))
    } else if c == ',' {
        Some((Token::Comma, i + 1))
    } else if c == '.' {
        Some((Token::Dot, i + 1))
    } else if c == ';' {
        Some((Token::Semicolon, i + 1))
    } else if c == '?' {
        Some((Token::Question, i + 1))
    } else if c == '+' {
        Some((Token::Plus, i + 1))
    } else if c == '-' {
        Some((Token::Minus, i + 1))
    } else if c == '*' {
        Some((Token::Star, i + 1))
    } else if c == '/' {
        Some((Token::Slash, i + 1))
    } else if c == '%' {
        Some((Token::Percent, i + 1))
    } else if c == '=' {
        if two('=') {
            Some((Token::EqEq, i + 2))
        } else {
            Some((Token::Eq, i + 1))
        }
    } else if c == '!' {
        if two('=') {
            Some((Token::BangEq, i + 2))
        } else {
            Some((Token::Bang, i + 1))
        }
    } else if c == '<' {
        if two('=') {
            Some((Token::LtEq, i + 2))
        } else {
            Some((Token::Lt, i + 1))
        }
    } else if c == '>' {
        if two('=') {
            Some((Token::GtEq, i + 2))
        } else {
            Some((Token::Gt, i + 1))
        }
    } else if c == '&' {
        if two('&') {
            Some((Token::AmpAmp, i + 2))
        } else {
            None
        }
    } else if c == '|' {
        if two('|') {
            Some((Token::PipePipe, i + 2))
        } else {
            None
        }
    } else if '0' <= c && c <= '9' {
        let e = scan_number(s, i);
        let t = Token::Number(sub_string(s, i, e));
        assert(token_at(s@, i as int, t, e as int));
        Some((t, e))
    } else if c == '#' {
        let h_end = scan_run(s, i + 1, CharClass::Hex);
        let h = h_end - (i + 1);
        if h >= 3 {
            let e = i + 1 + if h <= 8 { h } else { 8 };
            let t = Token::Color(sub_string(s, i, e));
            assert(token_at(s@, i as int, t, e as int));
            Some((t, e))
        } else {
            None
        }
    } else if c == '"' {
        match scan_string(s, i + 1) {
            Some(e) => {
                let body = unescape_range(s, i + 1, e - 1);
                let t = Token::String(string_from_chars(body.as_slice()));
                assert(token_at(s@, i as int, t, e as int));
                Some((t, e))
            },
            None => None,
        }
    } else if ('a' <= c && c <= 'z') || ('A' <= c && c <= 'Z') || c == '_' {
        let e = scan_run(s, i + 1, CharClass::IdentContinue);
        let t = keyword_or_ident(s, i, e);
        assert(token_at(s@, i as int, t, e as int));
        Some((t, e))
    } else {
        None
    }
}

} // verus!

verus! {

/// What the scanner is skipping: ordinary whitespace, a `//` line comment or
/// a `/* */` block comment.
#[derive(PartialEq, Eq, Structural, Clone, Copy)]
pub enum SkipMode {
    Normal,
    Line,
    Block,
}

pub open spec fn skip_rank(m: SkipMode) -> int {
    match m {
        SkipMode::Block => 1,
        _ => 0,
    }
}

/// Where scanning for the next token stops when it skips whitespace and
/// comments from `p` in mode `m`: ASCII whitespace is skipped; `//` skips
/// through the end of the line; `/*` skips through the next `*/`, or, when
/// there is none, up to the last character of the text.
pub open spec fn skip_from(s: Seq<char>, p: int, m: SkipMode) -> int
    decreases s.len() - p, skip_rank(m),
{
    if p < 0 || p >= s.len() {
        p
    } else {
        match m {
            SkipMode::Normal => {
                if is_ascii_ws(s[p]) {
                    skip_from(s, p + 1, SkipMode::Normal)
                } else if s[p] == '/' && has(s, p + 1, '/') {
                    skip_from(s, p + 2, SkipMode::Line)
                } else if s[p] == '/' && has(s, p + 1, '*') {
                    skip_from(s, p + 2, SkipMode::Block)
                } else {
                    p
                }
            },
            SkipMode::Line => {
                if s[p] == '\n' {
                    skip_from(s, p + 1, SkipMode::Normal)
                } else {
                    skip_from(s, p + 1, SkipMode::Line)
                }
            },
            SkipMode::Block => {
                if p + 1 < s.len() && s[p] == '*' && s[p + 1] == '/' {
                    skip_from(s, p + 2, SkipMode::Normal)
                } else if p + 1 < s.len() {
                    skip_from(s, p + 1, SkipMode::Block)
                } else {
                    skip_from(s, p, SkipMode::Normal)
                }
            },
        }
    }
}

/// Where the next token starts (or the text ends) when scanning from `p`.
pub open spec fn next_start(s: Seq<char>, p: int) -> int {
    skip_from(s, p, SkipMode::Normal)
}

pub proof fn lemma_skip_bounds(s: Seq<char>, p: int, m: SkipMode)
    requires
        0 <= p <= s.len(),
    ensures
        p <= skip_from(s, p, m) <= s.len(),
    decreases s.len() - p, skip_rank(m),
{
    if p < s.len() {
        match m {
            SkipMode::Normal => {
                if is_ascii_ws(s[p]) {
                    lemma_skip_bounds(s, p + 1, SkipMode::Normal);
                } else if s[p] == '/' && has(s, p + 1, '/') {
                    lemma_skip_bounds(s, p + 2, SkipMode::Line);
                } else if s[p] == '/' && has(s, p + 1, '*') {
                    lemma_skip_bounds(s, p + 2, SkipMode::Block);
                }
            },
            SkipMode::Line => {
                if s[p] == '\n' {
                    lemma_skip_bounds(s, p + 1, SkipMode::Normal);
                } else {
                    lemma_skip_bounds(s, p + 1, SkipMode::Line);
                }
            },
            SkipMode::Block => {
                if p + 1 < s.len() && s[p] == '*' && s[p + 1] == '/' {
                    lemma_skip_bounds(s, p + 2, SkipMode::Normal);
                } else if p + 1 < s.len() {
                    lemma_skip_bounds(s, p + 1, SkipMode::Block);
                } else {
                    lemma_skip_bounds(s, p, SkipMode::Normal);
                }
            },
        }
    }
}

/// Skipping is idempotent: scanning from where skipping stopped stops at once.
pub proof fn lemma_skip_idempotent(s: Seq<char>, p: int, m: SkipMode)
    requires
        0 <= p <= s.len(),
    ensures
        next_start(s, skip_from(s, p, m)) == skip_from(s, p, m),
    decreases s.len() - p, skip_rank(m),
{
    if p < s.len() {
        match m {
            SkipMode::Normal => {
                if is_ascii_ws(s[p]) {
                    lemma_skip_idempotent(s, p + 1, SkipMode::Normal);
                } else if s[p] == '/' && has(s, p + 1, '/') {
                    lemma_skip_idempotent(s, p + 2, SkipMode::Line);
                } else if s[p] == '/' && has(s, p + 1, '*') {
                    lemma_skip_idempotent(s, p + 2, SkipMode::Block);
                }
            },
            SkipMode::Line => {
                if s[p] == '\n' {
                    lemma_skip_idempotent(s, p + 1, SkipMode::Normal);
                } else {
                    lemma_skip_idempotent(s, p + 1, SkipMode::Line);
                }
            },
            SkipMode::Block => {
                if p + 1 < s.len() && s[p] == '*' && s[p + 1] == '/' {
                    lemma_skip_idempotent(s, p + 2, SkipMode::Normal);
                } else if p + 1 < s.len() {
                    lemma_skip_idempotent(s, p + 1, SkipMode::Block);
                } else {
                    lemma_skip_idempotent(s, p, SkipMode::Normal);
                }
            },
        }
    }
}

/// Skips whitespace and comments from `p`.
pub fn skip_whitespace_and_comments(s: &Vec<char>, p: usize) -> (q: usize)
    requires
        p <= s@.len(),
    ensures
        q == next_start(s@, p as int),
        p <= q <= s@.len(),
{
    proof {
        lemma_skip_bounds(s@, p as int, SkipMode::Normal);
    }
    let n = s.len();
    let mut pos = p;
    loop
        invariant
            p <= pos <= n,
            n == s@.len(),
            next_start(s@, p as int) == next_start(s@, pos as int),
        decreases n - pos,
    {
        if pos >= n {
            return pos;
        }
        let c = s[pos];
        if c == ' ' || c == '\t' || c == '\n' || c == '\x0C' || c == '\r' {
            pos = pos + 1;
            continue;
        }
        let start = pos;
        if c == '/' && pos + 1 < n && s[pos + 1] == '/' {
            pos = pos + 2;
            while pos < n && s[pos] != '\n'
                invariant
                    start + 2 <= pos <= n,
                    n == s@.len(),
                    next_start(s@, p as int) == skip_from(s@, pos as int, SkipMode::Line),
                decreases n - pos,
            {
                pos = pos + 1;
            }
            if pos < n && s[pos] == '\n' {
                pos = pos + 1;
            }
            continue;
        }
        if c == '/' && pos + 1 < n && s[pos + 1] == '*' {
            pos = pos + 2;
            while pos < n && pos + 1 < n && !(s[pos] == '*' && s[pos + 1] == '/')
                invariant
                    start + 2 <= pos <= n,
                    n == s@.len(),
                    next_start(s@, p as int) == skip_from(s@, pos as int, SkipMode::Block),
                decreases n - pos,
            {
                pos = pos + 1;
            }
            if pos < n && pos + 1 < n && s[pos] == '*' && s[pos + 1] == '/' {
                pos = pos + 2;
            }
            continue;
        }
        return pos;
    }
}

} // verus!

verus! {

pub proof fn lemma_spec_lex_end(s: Seq<char>, q: int)
    requires
        0 <= q <= s.len(),
    ensures
        match spec_lex(s, q) {
            Some((_, e)) => q < e <= s.len(),
            None => true,
        },
{
    if q < s.len() {
        let c = s[q];
        if is_digit(c) {
            lemma_run_end_bounds(s, q, CharClass::Digit);
            let a = run_end(s, q, CharClass::Digit);
            if a + 1 <= s.len() {
                lemma_run_end_bounds(s, a + 1, CharClass::Digit);
            }
            let b = if has(s, a, '.') && a + 1 < s.len() && is_digit(s[a + 1]) {
                run_end(s, a + 1, CharClass::Digit)
            } else {
                a
            };
            if has(s, b, 'e') || has(s, b, 'E') {
                let k = if has(s, b + 1, '+') || has(s, b + 1, '-') { b + 2 } else { b + 1 };
                if 0 <= k < s.len() && is_digit(s[k]) {
                    lemma_run_end_bounds(s, k, CharClass::Digit);
                }
            }
        } else if c == '#' {
            lemma_run_end_bounds(s, q + 1, CharClass::Hex);
        } else if c == '"' {
            lemma_string_end_bounds(s, q + 1);
        } else if is_ident_start(c) {
            lemma_run_end_bounds(s, q + 1, CharClass::IdentContinue);
        }
    }
}

pub proof fn lemma_run_end_bounds(s: Seq<char>, i: int, class: CharClass)
    requires
        0 <= i <= s.len(),
    ensures
        i <= run_end(s, i, class) <= s.len(),
        (i < s.len() && in_class(s[i], class)) ==> i < run_end(s, i, class),
    decreases s.len() - i,
{
    if i < s.len() && in_class(s[i], class) {
        lemma_run_end_bounds(s, i + 1, class);
    }
}

pub proof fn lemma_string_end_bounds(s: Seq<char>, j: int)
    requires
        0 <= j <= s.len(),
    ensures
        string_end(s, j) matches Some(e) ==> j < e <= s.len(),
    decreases s.len() - j,
{
    if j < s.len() && s[j] != '"' {
        if s[j] == '\\' {
            if j + 1 < s.len() && s[j + 1] != '\n' {
                lemma_string_end_bounds(s, j + 2);
            }
        } else {
            lemma_string_end_bounds(s, j + 1);
        }
    }
}

} // verus!

verus! {

/// A token stream over a source text. Positions are character offsets.
pub struct Lexer<'a> {
    source: &'a str,
    chars: Vec<char>,
    start: usize,
    end: usize,
}

impl<'a> Lexer<'a> {
    /// The text being lexed.
    pub closed spec fn text(&self) -> Seq<char> {
        self.chars@
    }

    /// The span of the last token or error; where scanning resumes is its
    /// end.
    pub closed spec fn spec_span(&self) -> Span {
        Span { start: self.start, end: self.end }
    }

    pub closed spec fn wf(&self) -> bool {
        &&& self.chars@ == self.source@
        &&& self.start <= self.end <= self.chars@.len()
    }

    pub closed spec fn spec_source(&self) -> &'a str {
        self.source
    }

    pub fn new(source: &'a str) -> (l: Lexer<'a>)
        ensures
            l.wf(),
            l.text() == source@,
            l.spec_source() == source,
            l.spec_span() == (Span { start: 0, end: 0 }),
    {
        Lexer { source, chars: crate::chars::str_chars(source), start: 0, end: 0 }
    }

    pub fn source(&self) -> (s: &'a str)
        ensures
            s == self.spec_source(),
    {
        self.source
    }

    /// The next token after skipping whitespace and comments: `Ok(None)` at
    /// the end of the text, a lexing error spanning one character where no
    /// token starts.
    pub fn next_token(&mut self) -> (r: Result<Option<(Token, Span)>, ParseError>)
        requires
            old(self).wf(),
        ensures
            final(self).wf(),
            final(self).text() == old(self).text(),
            final(self).spec_source() == old(self).spec_source(),
            ({
                let s = old(self).text();
                let q = next_start(s, old(self).spec_span().end as int);
                match r {
                    Ok(None) => q >= s.len() && final(self).spec_span() == (Span {
                        start: s.len() as usize,
                        end: s.len() as usize,
                    }),
                    Ok(Some((t, sp))) => q < s.len() && token_at(s, q, t, sp.end as int) && sp.start
                        == q && final(self).spec_span() == sp,
                    Err(e) => q < s.len() && spec_lex(s, q) is None && e == (ParseError::LexError {
                        span: Span { start: q as usize, end: (q + 1) as usize },
                    }) && final(self).spec_span() == (Span { start: q as usize, end: (q + 1) as usize }),
                }
            }),
    {
        let q = skip_whitespace_and_comments(&self.chars, self.end);
        let n = self.chars.len();
        if q >= n {
            self.start = n;
            self.end = n;
            return Ok(None);
        }
        match lex_at(&self.chars, q) {
            Some((t, e)) => {
                self.start = q;
                self.end = e;
                Ok(Some((t, Span { start: q, end: e })))
            },
            None => {
                self.start = q;
                self.end = q + 1;
                Err(ParseError::LexError { span: Span { start: q, end: q + 1 } })
            },
        }
    }

    pub fn current_span(&self) -> (s: Span)
        ensures
            s == self.spec_span(),
    {
        Span { start: self.start, end: self.end }
    }

    /// The text after the last token.
    pub fn remainder(&self) -> (r: String)
        requires
            self.wf(),
        ensures
            r@ == self.text().skip(self.spec_span().end as int),
    {
        let r = sub_string(&self.chars, self.end, self.chars.len());
        proof {
            assert(self.chars@.subrange(self.end as int, self.chars@.len() as int) =~= self.text().skip(self.end as int));
        }
        r
    }

    /// Extends the last token by `n` characters.
    pub fn bump(&mut self, n: usize)
        requires
            old(self).wf(),
            old(self).spec_span().end + n <= old(self).text().len(),
        ensures
            final(self).wf(),
            final(self).text() == old(self).text(),
            final(self).spec_source() == old(self).spec_source(),
            final(self).spec_span() == (Span {
                start: old(self).spec_span().start,
                end: (old(self).spec_span().end + n) as usize,
            }),
    {
        let len = self.chars.len();
        assert(self.end + n <= len);
        self.end = self.end + n;
    }
}

} // verus!
