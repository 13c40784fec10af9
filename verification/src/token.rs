use vstd::prelude::*;
use crate::chars::string_from_chars;

verus! {

/// The tokens of the DirectedType language.
///
/// `Number` holds the numeric literal exactly as written in the source;
/// `String` holds the literal's contents with escapes resolved.
#[derive(Debug, Clone, PartialEq)]
pub enum Token {
    Backslash,
    Component,
    Children,
    Let,
    Env,
    True,
    False,
    LParen,
    RParen,
    LBrace,
    RBrace,
    Colon,
    Comma,
    Dot,
    Semicolon,
    Eq,
    Question,
    Plus,
    Minus,
    Star,
    Slash,
    Percent,
    EqEq,
    BangEq,
    LtEq,
    GtEq,
    Lt,
    Gt,
    AmpAmp,
    PipePipe,
    Bang,
    Number(String),
    String(String),
    Color(String),
    Ident(String),
}

/// The variant of a token, without its payload.
#[derive(Debug, Clone, Copy, PartialEq, Eq, Structural)]
pub enum TokenKind {
    Backslash,
    Component,
    Children,
    Let,
    Env,
    True,
    False,
    LParen,
    RParen,
    LBrace,
    RBrace,
    Colon,
    Comma,
    Dot,
    Semicolon,
    Eq,
    Question,
    Plus,
    Minus,
    Star,
    Slash,
    Percent,
    EqEq,
    BangEq,
    LtEq,
    GtEq,
    Lt,
    Gt,
    AmpAmp,
    PipePipe,
    Bang,
    Number,
    String,
    Color,
    Ident,
}

/// How a token of kind `k` carrying `payload` is shown in diagnostics.
pub open spec fn display_of(k: TokenKind, payload: Seq<char>) -> Seq<char> {
    match k {
        TokenKind::Number => payload,
        TokenKind::String => seq!['"'] + payload + seq!['"'],
        TokenKind::Color => payload,
        TokenKind::Ident => payload,
        _ => Token::spec_fixed_text(k),
    }
}

impl Token {
    pub open spec fn spec_kind(&self) -> TokenKind {
        match self {
            Token::Backslash => TokenKind::Backslash,
            Token::Component => TokenKind::Component,
            Token::Children => TokenKind::Children,
            Token::Let => TokenKind::Let,
            Token::Env => TokenKind::Env,
            Token::True => TokenKind::True,
            Token::False => TokenKind::False,
            Token::LParen => TokenKind::LParen,
            Token::RParen => TokenKind::RParen,
            Token::LBrace => TokenKind::LBrace,
            Token::RBrace => TokenKind::RBrace,
            Token::Colon => TokenKind::Colon,
            Token::Comma => TokenKind::Comma,
            Token::Dot => TokenKind::Dot,
            Token::Semicolon => TokenKind::Semicolon,
            Token::Eq => TokenKind::Eq,
            Token::Question => TokenKind::Question,
            Token::Plus => TokenKind::Plus,
            Token::Minus => TokenKind::Minus,
            Token::Star => TokenKind::Star,
            Token::Slash => TokenKind::Slash,
            Token::Percent => TokenKind::Percent,
            Token::EqEq => TokenKind::EqEq,
            Token::BangEq => TokenKind::BangEq,
            Token::LtEq => TokenKind::LtEq,
            Token::GtEq => TokenKind::GtEq,
            Token::Lt => TokenKind::Lt,
            Token::Gt => TokenKind::Gt,
            Token::AmpAmp => TokenKind::AmpAmp,
            Token::PipePipe => TokenKind::PipePipe,
            Token::Bang => TokenKind::Bang,
            Token::Number(_) => TokenKind::Number,
            Token::String(_) => TokenKind::String,
            Token::Color(_) => TokenKind::Color,
            Token::Ident(_) => TokenKind::Ident,
        }
    }

    /// The characters carried by the token (empty for tokens without payload).
    pub open spec fn spec_payload(&self) -> Seq<char> {
        match self {
            Token::Number(s) => s@,
            Token::String(s) => s@,
            Token::Color(s) => s@,
            Token::Ident(s) => s@,
            _ => Seq::empty(),
        }
    }

    /// Two tokens are the same token when kind and payload agree.
    pub open spec fn same(&self, other: &Token) -> bool {
        self.spec_kind() == other.spec_kind() && self.spec_payload() == other.spec_payload()
    }

    #[verifier::when_used_as_spec(spec_kind)]
    pub fn kind(&self) -> (k: TokenKind)
        ensures
            k == self.spec_kind(),
    {
        match self {
            Token::Backslash => TokenKind::Backslash,
            Token::Component => TokenKind::Component,
            Token::Children => TokenKind::Children,
            Token::Let => TokenKind::Let,
            Token::Env => TokenKind::Env,
            Token::True => TokenKind::True,
            Token::False => TokenKind::False,
            Token::LParen => TokenKind::LParen,
            Token::RParen => TokenKind::RParen,
            Token::LBrace => TokenKind::LBrace,
            Token::RBrace => TokenKind::RBrace,
            Token::Colon => TokenKind::Colon,
            Token::Comma => TokenKind::Comma,
            Token::Dot => TokenKind::Dot,
            Token::Semicolon => TokenKind::Semicolon,
            Token::Eq => TokenKind::Eq,
            Token::Question => TokenKind::Question,
            Token::Plus => TokenKind::Plus,
            Token::Minus => TokenKind::Minus,
            Token::Star => TokenKind::Star,
            Token::Slash => TokenKind::Slash,
            Token::Percent => TokenKind::Percent,
            Token::EqEq => TokenKind::EqEq,
            Token::BangEq => TokenKind::BangEq,
            Token::LtEq => TokenKind::LtEq,
            Token::GtEq => TokenKind::GtEq,
            Token::Lt => TokenKind::Lt,
            Token::Gt => TokenKind::Gt,
            Token::AmpAmp => TokenKind::AmpAmp,
            Token::PipePipe => TokenKind::PipePipe,
            Token::Bang => TokenKind::Bang,
            Token::Number(_) => TokenKind::Number,
            Token::String(_) => TokenKind::String,
            Token::Color(_) => TokenKind::Color,
            Token::Ident(_) => TokenKind::Ident,
        }
    }

    /// Compares two tokens by kind and payload.
    pub fn same_as(&self, other: &Token) -> (b: bool)
        ensures
            b == self.same(other),
    {
        if self.kind() != other.kind() {
            return false;
        }
        match (self, other) {
            (Token::Number(a), Token::Number(b)) => *a == *b,
            (Token::String(a), Token::String(b)) => *a == *b,
            (Token::Color(a), Token::Color(b)) => *a == *b,
            (Token::Ident(a), Token::Ident(b)) => *a == *b,
            _ => true,
        }
    }

    /// A copy of the token.
    pub fn duplicate(&self) -> (t: Token)
        ensures
            t == *self,
    {
        match self {
            Token::Number(s) => Token::Number(s.clone()),
            Token::String(s) => Token::String(s.clone()),
            Token::Color(s) => Token::Color(s.clone()),
            Token::Ident(s) => Token::Ident(s.clone()),
            Token::Backslash => Token::Backslash,
            Token::Component => Token::Component,
            Token::Children => Token::Children,
            Token::Let => Token::Let,
            Token::Env => Token::Env,
            Token::True => Token::True,
            Token::False => Token::False,
            Token::LParen => Token::LParen,
            Token::RParen => Token::RParen,
            Token::LBrace => Token::LBrace,
            Token::RBrace => Token::RBrace,
            Token::Colon => Token::Colon,
            Token::Comma => Token::Comma,
            Token::Dot => Token::Dot,
            Token::Semicolon => Token::Semicolon,
            Token::Eq => Token::Eq,
            Token::Question => Token::Question,
            Token::Plus => Token::Plus,
            Token::Minus => Token::Minus,
            Token::Star => Token::Star,
            Token::Slash => Token::Slash,
            Token::Percent => Token::Percent,
            Token::EqEq => Token::EqEq,
            Token::BangEq => Token::BangEq,
            Token::LtEq => Token::LtEq,
            Token::GtEq => Token::GtEq,
            Token::Lt => Token::Lt,
            Token::Gt => Token::Gt,
            Token::AmpAmp => Token::AmpAmp,
            Token::PipePipe => Token::PipePipe,
            Token::Bang => Token::Bang,
        }
    }

    /// The fixed source text of a token kind without payload.
    pub open spec fn spec_fixed_text(k: TokenKind) -> Seq<char> {
        match k {
            TokenKind::Backslash => seq!['\\'],
            TokenKind::Component => seq!['C', 'o', 'm', 'p', 'o', 'n', 'e', 'n', 't'],
            TokenKind::Children => seq!['C', 'h', 'i', 'l', 'd', 'r', 'e', 'n'],
            TokenKind::Let => seq!['l', 'e', 't'],
            TokenKind::Env => seq!['e', 'n', 'v'],
            TokenKind::True => seq!['t', 'r', 'u', 'e'],
            TokenKind::False => seq!['f', 'a', 'l', 's', 'e'],
            TokenKind::LParen => seq!['('],
            TokenKind::RParen => seq![')'],
            TokenKind::LBrace => seq!['{'],
            TokenKind::RBrace => seq!['}'],
            TokenKind::Colon => seq![':'],
            TokenKind::Comma => seq![','],
            TokenKind::Dot => seq!['.'],
            TokenKind::Semicolon => seq![';'],
            TokenKind::Eq => seq!['='],
            TokenKind::Question => seq!['?'],
            TokenKind::Plus => seq!['+'],
            TokenKind::Minus => seq!['-'],
            TokenKind::Star => seq!['*'],
            TokenKind::Slash => seq!['/'],
            TokenKind::Percent => seq!['%'],
            TokenKind::EqEq => seq!['=', '='],
            TokenKind::BangEq => seq!['!', '='],
            TokenKind::LtEq => seq!['<', '='],
            TokenKind::GtEq => seq!['>', '='],
            TokenKind::Lt => seq!['<'],
            TokenKind::Gt => seq!['>'],
            TokenKind::AmpAmp => seq!['&', '&'],
            TokenKind::PipePipe => seq!['|', '|'],
            TokenKind::Bang => seq!['!'],
            _ => Seq::empty(),
        }
    }

    /// How a token is shown in diagnostics: its source text, with string
    /// literals re-quoted and numbers shown as written.
    pub open spec fn spec_display(&self) -> Seq<char> {
        display_of(self.spec_kind(), self.spec_payload())
    }
}

} // verus!

verus! {

/// The characters of `k`'s fixed spelling.
pub fn fixed_text(k: TokenKind) -> (v: Vec<char>)
    ensures
        v@ == Token::spec_fixed_text(k),
{
    let v = match k {
        TokenKind::Backslash => vec!['\\'],
        TokenKind::Component => vec!['C', 'o', 'm', 'p', 'o', 'n', 'e', 'n', 't'],
        TokenKind::Children => vec!['C', 'h', 'i', 'l', 'd', 'r', 'e', 'n'],
        TokenKind::Let => vec!['l', 'e', 't'],
        TokenKind::Env => vec!['e', 'n', 'v'],
        TokenKind::True => vec!['t', 'r', 'u', 'e'],
        TokenKind::False => vec!['f', 'a', 'l', 's', 'e'],
        TokenKind::LParen => vec!['('],
        TokenKind::RParen => vec![')'],
        TokenKind::LBrace => vec!['{'],
        TokenKind::RBrace => vec!['}'],
        TokenKind::Colon => vec![':'],
        TokenKind::Comma => vec![','],
        TokenKind::Dot => vec!['.'],
        TokenKind::Semicolon => vec![';'],
        TokenKind::Eq => vec!['='],
        TokenKind::Question => vec!['?'],
        TokenKind::Plus => vec!['+'],
        TokenKind::Minus => vec!['-'],
        TokenKind::Star => vec!['*'],
        TokenKind::Slash => vec!['/'],
        TokenKind::Percent => vec!['%'],
        TokenKind::EqEq => vec!['=', '='],
        TokenKind::BangEq => vec!['!', '='],
        TokenKind::LtEq => vec!['<', '='],
        TokenKind::GtEq => vec!['>', '='],
        TokenKind::Lt => vec!['<'],
        TokenKind::Gt => vec!['>'],
        TokenKind::AmpAmp => vec!['&', '&'],
        TokenKind::PipePipe => vec!['|', '|'],
        TokenKind::Bang => vec!['!'],
        _ => Vec::new(),
    };
    proof {
        assert(v@ =~= Token::spec_fixed_text(k));
    }
    v
}

impl Token {
    /// The characters shown for this token in diagnostics.
    pub fn display_chars(&self) -> (v: Vec<char>)
        ensures
            v@ == self.spec_display(),
    {
        match self {
            Token::Number(s) => crate::chars::str_chars(s.as_str()),
            Token::String(s) => {
                let mut v = vec!['"'];
                let mut inner = crate::chars::str_chars(s.as_str());
                v.append(&mut inner);
                v.push('"');
                assert(v@ =~= seq!['"'] + s@ + seq!['"']);
                v
            },
            Token::Color(s) => crate::chars::str_chars(s.as_str()),
            Token::Ident(s) => crate::chars::str_chars(s.as_str()),
            _ => fixed_text(self.kind()),
        }
    }

    /// The token as shown in diagnostics.
    pub fn to_text(&self) -> (s: String)
        ensures
            s@ == self.spec_display(),
    {
        let v = self.display_chars();
        string_from_chars(v.as_slice())
    }
}

} // verus!
