use vstd::prelude::*;
use crate::ast::{
    BinaryExpr,
    ComponentBodyItem, ComponentDef, LetBinding, LetValue, ParamDef, TypeRef,
    BinaryOp, ChildrenDirective, ContentItem, ContentSlot, ElementNode, Expr, Ident, Literal,
    PortBinding, UnaryOp,
};
use crate::lexer::{lexed_payload, next_start};
use crate::parser::cursor::{kind_at, lex_end, tok_at};
use crate::parser::expr::spec_infix;
use crate::span::Span;
use crate::token::TokenKind;

verus! {

// How a syntax tree reads the token stream of a source text: every part of
// the tree stands for the tokens at its span, left to right with nothing
// skipped, operands respect the binding powers of the operators, and an
// expression ends where the next token cannot extend it.

/// A token of kind `k` starts at `q`.
pub open spec fn tok_is(s: Seq<char>, q: int, k: TokenKind) -> bool {
    tok_at(s, q) && kind_at(s, q) == k
}

/// The text a token at `q` carries (a number, string, color or name).
pub open spec fn payload_at(s: Seq<char>, q: int) -> Seq<char> {
    lexed_payload(s, q, kind_at(s, q), lex_end(s, q))
}

/// Where the token after the one at `q` starts.
pub open spec fn after(s: Seq<char>, q: int) -> int {
    next_start(s, lex_end(s, q))
}

/// `sp` covers exactly the token at `q`.
pub open spec fn covers_token(s: Seq<char>, q: int, sp: Span) -> bool {
    sp.start == q && sp.end == lex_end(s, q)
}

/// A name: an identifier, or the keyword `Children` or `Component` read as
/// a name.
pub open spec fn name_reads(s: Seq<char>, id: Ident) -> bool {
    let q = id.span.start as int;
    &&& covers_token(s, q, id.span)
    &&& {
        ||| tok_is(s, q, TokenKind::Ident) && id.name@ == payload_at(s, q)
        ||| tok_is(s, q, TokenKind::Children) && id.name@ == "Children"@
        ||| tok_is(s, q, TokenKind::Component) && id.name@ == "Component"@
    }
}

/// An identifier in an expression: an identifier, or the keyword `Children`
/// or `env` read as one.
pub open spec fn ident_expr_reads(s: Seq<char>, id: Ident) -> bool {
    let q = id.span.start as int;
    &&& covers_token(s, q, id.span)
    &&& {
        ||| tok_is(s, q, TokenKind::Ident) && id.name@ == payload_at(s, q)
        ||| tok_is(s, q, TokenKind::Children) && id.name@ == "Children"@
        ||| tok_is(s, q, TokenKind::Env) && id.name@ == "env"@
    }
}

/// A literal is the one token it was read from.
pub open spec fn lit_reads(s: Seq<char>, lit: Literal) -> bool {
    match lit {
        Literal::Number(v, sp) => covers_token(s, sp.start as int, sp) && tok_is(
            s,
            sp.start as int,
            TokenKind::Number,
        ) && v@ == payload_at(s, sp.start as int),
        Literal::String(v, sp) => covers_token(s, sp.start as int, sp) && tok_is(
            s,
            sp.start as int,
            TokenKind::String,
        ) && v@ == payload_at(s, sp.start as int),
        Literal::Color(v, sp) => covers_token(s, sp.start as int, sp) && tok_is(
            s,
            sp.start as int,
            TokenKind::Color,
        ) && v@ == payload_at(s, sp.start as int),
        Literal::Bool(b, sp) => covers_token(s, sp.start as int, sp) && tok_is(
            s,
            sp.start as int,
            if b {
                TokenKind::True
            } else {
                TokenKind::False
            },
        ),
    }
}

/// The left binding power of a binary operator.
pub open spec fn op_power(op: BinaryOp) -> int {
    match op {
        BinaryOp::Or => 1,
        BinaryOp::And => 3,
        BinaryOp::Eq => 5,
        BinaryOp::Ne => 5,
        BinaryOp::Lt => 7,
        BinaryOp::Le => 7,
        BinaryOp::Gt => 7,
        BinaryOp::Ge => 7,
        BinaryOp::Add => 9,
        BinaryOp::Sub => 9,
        BinaryOp::Mul => 11,
        BinaryOp::Div => 11,
        BinaryOp::Rem => 11,
    }
}

/// How tightly an expression holds together: a conditional least, then the
/// binary operators by their binding power, then prefix operators, then
/// everything else (atoms, member accesses and calls).
pub open spec fn prec(e: Expr) -> int {
    match e {
        Expr::Ternary(_) => 0,
        Expr::Binary(b) => op_power(b.op),
        Expr::Unary(_) => 13,
        _ => 14,
    }
}

/// The rightmost operand of `e` is a bare identifier, which a following `(`
/// turns into a call.
pub open spec fn ends_in_ident(e: Expr) -> bool
    decreases e,
{
    match e {
        Expr::Ident(_) => true,
        Expr::Binary(b) => ends_in_ident(*b.right),
        Expr::Ternary(t) => ends_in_ident(*t.else_expr),
        Expr::Unary(u) => ends_in_ident(*u.operand),
        _ => false,
    }
}

/// The token at `q` cannot extend `e` when `e` was parsed with minimum
/// binding power `min_bp`: no member access, no call of an identifier that
/// ends `e`, no conditional unless at the lowest power, no operator that
/// binds at least as tightly as `min_bp`.
pub open spec fn stops(s: Seq<char>, q: int, e: Expr, min_bp: int) -> bool {
    tok_at(s, q) ==> {
        let k = kind_at(s, q);
        &&& k != TokenKind::Dot
        &&& !(k == TokenKind::LParen && ends_in_ident(e))
        &&& !(k == TokenKind::Question && min_bp == 0)
        &&& (spec_infix(k) matches Some((_, l, _)) ==> l < min_bp)
    }
}

pub open spec fn expr_reads(s: Seq<char>, e: Expr) -> bool
    decreases e,
{
    match e {
        Expr::Literal(lit) => lit_reads(s, lit),
        Expr::Ident(id) => ident_expr_reads(s, id),
        Expr::MemberAccess(m) => {
            let d = next_start(s, m.target.spec_span().end as int);
            &&& expr_reads(s, *m.target)
            &&& prec(*m.target) == 14
            &&& tok_is(s, d, TokenKind::Dot)
            &&& m.member.span.start == after(s, d)
            &&& name_reads(s, m.member)
            &&& m.span == Span { start: m.target.spec_span().start, end: m.member.span.end }
        },
        Expr::Call(c) => {
            let o = next_start(s, c.callee.span.end as int);
            &&& ident_expr_reads(s, c.callee)
            &&& tok_is(s, o, TokenKind::LParen)
            &&& args_read(s, c.args@, after(s, o)) matches Some((cl, _))
            &&& tok_is(s, cl, TokenKind::RParen)
            &&& c.span == Span { start: c.callee.span.start, end: lex_end(s, cl) as usize }
        },
        Expr::Ternary(t) => {
            let qm = next_start(s, t.condition.spec_span().end as int);
            let cl = next_start(s, t.then_expr.spec_span().end as int);
            &&& expr_reads(s, *t.condition)
            &&& prec(*t.condition) >= 1
            &&& tok_is(s, qm, TokenKind::Question)
            &&& t.then_expr.spec_span().start == after(s, qm)
            &&& expr_reads(s, *t.then_expr)
            &&& tok_is(s, cl, TokenKind::Colon)
            &&& t.else_expr.spec_span().start == after(s, cl)
            &&& expr_reads(s, *t.else_expr)
            &&& t.span == Span { start: t.condition.spec_span().start, end: t.else_expr.spec_span().end }
        },
        Expr::Binary(b) => {
            let q = next_start(s, b.left.spec_span().end as int);
            &&& expr_reads(s, *b.left)
            &&& tok_at(s, q)
            &&& spec_infix(kind_at(s, q)) matches Some((op, _, _))
            &&& op == b.op
            &&& b.right.spec_span().start == after(s, q)
            &&& expr_reads(s, *b.right)
            &&& prec(*b.left) >= op_power(b.op)
            &&& prec(*b.right) > op_power(b.op)
            &&& b.span == Span { start: b.left.spec_span().start, end: b.right.spec_span().end }
        },
        Expr::Unary(u) => {
            let q = u.span.start as int;
            &&& tok_is(
                s,
                q,
                match u.op {
                    UnaryOp::Neg => TokenKind::Minus,
                    UnaryOp::Not => TokenKind::Bang,
                },
            )
            &&& u.operand.spec_span().start == after(s, q)
            &&& expr_reads(s, *u.operand)
            &&& prec(*u.operand) >= 13
            &&& u.span.end == u.operand.spec_span().end
        },
        Expr::Paren(inner, sp) => {
            let q = sp.start as int;
            let cl = next_start(s, inner.spec_span().end as int);
            &&& tok_is(s, q, TokenKind::LParen)
            &&& inner.spec_span().start == after(s, q)
            &&& expr_reads(s, *inner)
            &&& tok_is(s, cl, TokenKind::RParen)
            &&& sp.end == lex_end(s, cl)
        },
        Expr::Node(n) => node_reads(s, *n) && !tok_is(s, n.name.span.start as int, TokenKind::Children),
    }
}

/// Reads the arguments of a call from `p`: each is an expression, and a
/// comma follows every argument but the last, where it may also stand.
/// The result is where the next token after the list starts and whether
/// another argument may still follow there.
pub open spec fn args_read(s: Seq<char>, args: Seq<Expr>, p: int) -> Option<(int, bool)>
    decreases args,
{
    if args.len() == 0 {
        Some((p, true))
    } else {
        match args_read(s, args.drop_last(), p) {
            Some((q, true)) => {
                let a = args.last();
                let r = next_start(s, a.spec_span().end as int);
                if a.spec_span().start == q && expr_reads(s, a) && stops(s, r, a, 0) {
                    if tok_is(s, r, TokenKind::Comma) {
                        Some((after(s, r), true))
                    } else {
                        Some((r, false))
                    }
                } else {
                    None
                }
            },
            _ => None,
        }
    }
}

/// `name: expr`.
pub open spec fn binding_reads(s: Seq<char>, b: PortBinding) -> bool
    decreases b,
{
    let c = next_start(s, b.name.span.end as int);
    &&& name_reads(s, b.name)
    &&& tok_is(s, c, TokenKind::Colon)
    &&& b.expr.spec_span().start == after(s, c)
    &&& expr_reads(s, b.expr)
    &&& stops(s, next_start(s, b.expr.spec_span().end as int), b.expr, 0)
    &&& b.span == Span { start: b.name.span.start, end: b.expr.spec_span().end }
}

/// Reads a parenthesized port list from `p`, with the comma rules of call
/// arguments.
pub open spec fn ports_read(s: Seq<char>, ports: Seq<PortBinding>, p: int) -> Option<(int, bool)>
    decreases ports,
{
    if ports.len() == 0 {
        Some((p, true))
    } else {
        match ports_read(s, ports.drop_last(), p) {
            Some((q, true)) => {
                let b = ports.last();
                let r = next_start(s, b.span.end as int);
                if b.span.start == q && binding_reads(s, b) {
                    if tok_is(s, r, TokenKind::Comma) {
                        Some((after(s, r), true))
                    } else {
                        Some((r, false))
                    }
                } else {
                    None
                }
            },
            _ => None,
        }
    }
}

/// Reads the bindings of a `\Children { ... }` directive from `p`: commas
/// between them are optional. The result is where the next token starts.
pub open spec fn rules_read(s: Seq<char>, ports: Seq<PortBinding>, p: int) -> Option<int>
    decreases ports,
{
    if ports.len() == 0 {
        Some(p)
    } else {
        match rules_read(s, ports.drop_last(), p) {
            Some(q) => {
                let b = ports.last();
                let r = next_start(s, b.span.end as int);
                if b.span.start == q && binding_reads(s, b) && !tok_is(s, q, TokenKind::RBrace) {
                    if tok_is(s, r, TokenKind::Comma) {
                        Some(after(s, r))
                    } else {
                        Some(r)
                    }
                } else {
                    None
                }
            },
            None => None,
        }
    }
}

/// `\Name`, then a port list when `(` follows, then a content slot when `{`
/// follows.
pub open spec fn node_reads(s: Seq<char>, n: ElementNode) -> bool
    decreases n,
{
    let q = n.span.start as int;
    let p1 = next_start(s, n.name.span.end as int);
    &&& tok_is(s, q, TokenKind::Backslash)
    &&& n.name.span.start == after(s, q)
    &&& name_reads(s, n.name)
    &&& if tok_is(s, p1, TokenKind::LParen) {
        &&& ports_read(s, n.ports@, after(s, p1)) matches Some((cl, _))
        &&& tok_is(s, cl, TokenKind::RParen)
        &&& content_reads(s, n, lex_end(s, cl))
    } else {
        n.ports@.len() == 0 && content_reads(s, n, n.name.span.end as int)
    }
}

/// After the header of `n`, which ends at `h`: a content slot when `{`
/// follows, and the node ends where its last part does.
pub open spec fn content_reads(s: Seq<char>, n: ElementNode, h: int) -> bool
    decreases n, 0nat,
{
    let p2 = next_start(s, h);
    match n.content {
        Some(c) => tok_is(s, p2, TokenKind::LBrace) && c.span.start == p2 && slot_reads(s, c)
            && n.span.end == c.span.end,
        None => !tok_is(s, p2, TokenKind::LBrace) && n.span.end == h,
    }
}

/// `\Children`, optionally followed by `{ rules }`.
pub open spec fn directive_reads(s: Seq<char>, d: ChildrenDirective) -> bool
    decreases d,
{
    let q = d.span.start as int;
    let c = after(s, q);
    let b = after(s, c);
    &&& tok_is(s, q, TokenKind::Backslash)
    &&& tok_is(s, c, TokenKind::Children)
    &&& if tok_is(s, b, TokenKind::LBrace) {
        rules_read(s, d.ports@, after(s, b)) matches Some(cl) && tok_is(s, cl, TokenKind::RBrace)
            && d.span.end == lex_end(s, cl)
    } else {
        d.ports@.len() == 0 && d.span.end == lex_end(s, c)
    }
}

/// A content slot runs from its `{` to the `}` where scanning its content
/// stops, and its items are the ones that scan meets, in order.
pub open spec fn slot_reads(s: Seq<char>, c: ContentSlot) -> bool
    decreases c,
{
    &&& c.span.start < c.span.end <= s.len()
    &&& s[c.span.start as int] == '{'
    &&& slot_scan(s, c.span.start + 1, c.span.start + 1, c.items@, true) == Some(c.span.end - 1)
}

/// Where a `//` comment whose text starts at `i` ends: after its newline,
/// or at the end of the text.
pub open spec fn line_comment_end(s: Seq<char>, i: int) -> int
    decreases s.len() - i,
{
    if i >= s.len() {
        i
    } else if s[i] == '\n' {
        i + 1
    } else {
        line_comment_end(s, i + 1)
    }
}

/// Where a `/*` comment whose text starts at `i` ends: after its `*/`, or
/// at the last character of the text when it is not closed.
pub open spec fn block_comment_end(s: Seq<char>, i: int) -> int
    decreases s.len() - i,
{
    if i + 1 >= s.len() {
        i
    } else if s[i] == '*' && s[i + 1] == '/' {
        i + 2
    } else {
        block_comment_end(s, i + 1)
    }
}

pub proof fn lemma_comment_ends(s: Seq<char>, i: int)
    requires
        i <= s.len(),
    ensures
        i <= line_comment_end(s, i) <= s.len(),
        i <= block_comment_end(s, i) <= s.len(),
    decreases s.len() - i,
{
    if i < s.len() {
        lemma_comment_ends(s, i + 1);
    }
}

/// A character that starts the name of an inline item after `\`.
pub open spec fn name_start(c: char) -> bool {
    ('a' <= c && c <= 'z') || ('A' <= c && c <= 'Z') || c == '_'
}

/// `item` is the text chunk `text` read from the run between `t` and `p`.
pub open spec fn chunk_is(item: ContentItem, text: Seq<char>, t: int, p: int) -> bool {
    item matches ContentItem::Text(c) && c.text@ == text && c.span.start == t && c.span.end == p
}

/// `item` is an inline node or `\Children` directive read at `p`.
pub open spec fn inline_item_at(s: Seq<char>, item: ContentItem, p: int) -> bool
    decreases item,
{
    match item {
        ContentItem::Node(n) => n.span.start == p && node_reads(s, n) && !tok_is(
            s,
            after(s, p),
            TokenKind::Children,
        ),
        ContentItem::Children(d) => d.span.start == p && directive_reads(s, d),
        ContentItem::Text(_) => false,
    }
}

/// Where the scan of a slot goes on after an inline item: right at its end
/// when it closed with a brace, else at the next token.
pub open spec fn item_resume(s: Seq<char>, item: ContentItem) -> int {
    match item {
        ContentItem::Node(n) => if n.content is Some {
            n.span.end as int
        } else {
            next_start(s, n.span.end as int)
        },
        ContentItem::Children(d) => if tok_is(s, after(s, after(s, d.span.start as int)), TokenKind::LBrace) {
            d.span.end as int
        } else {
            next_start(s, d.span.end as int)
        },
        ContentItem::Text(c) => c.span.end as int,
    }
}

/// Scans slot content from `p`, where the current run of text began at `t`,
/// `first` says that no item was met yet and `items` are the items still to
/// come; the result is where the closing `}` stands. A run of text is
/// flushed at a comment, an inline item and the closing brace: when it
/// reads as a non-empty chunk, that chunk is the next item. `\\`, `\{`
/// and `\}` are escapes, `\` before a letter or `_` starts an inline item,
/// and any other `\`, or a bare `{`, cannot be read.
pub open spec fn slot_scan(s: Seq<char>, t: int, p: int, items: Seq<ContentItem>, first: bool) -> Option<int>
    decreases items, s.len() - p,
{
    if !(0 <= t <= p < s.len()) {
        None
    } else {
        let chunk = crate::parser::cursor::flushed_text(
            unescape_content(s.subrange(t, p)),
            first,
            s[p] == '}',
        );
        let k: int = if chunk.len() == 0 {
            0
        } else {
            1
        };
        let flushed = k == 0 || (items.len() > 0 && chunk_is(items[0], chunk, t, p));
        if s[p] == '}' {
            if flushed && items.len() == k {
                Some(p)
            } else {
                None
            }
        } else if s[p] == '/' && p + 1 < s.len() && (s[p + 1] == '/' || s[p + 1] == '*') {
            let q = if s[p + 1] == '/' {
                line_comment_end(s, p + 2)
            } else {
                block_comment_end(s, p + 2)
            };
            proof {
                lemma_comment_ends(s, p + 2);
            }
            if !flushed {
                None
            } else if k == 0 {
                slot_scan(s, q, q, items, first)
            } else {
                slot_scan(s, q, q, items.skip(1), false)
            }
        } else if s[p] == '\\' && p + 1 < s.len() && (s[p + 1] == '\\' || s[p + 1] == '{' || s[p + 1]
            == '}') {
            slot_scan(s, t, p + 2, items, first)
        } else if s[p] == '\\' && p + 1 < s.len() && name_start(s[p + 1]) {
            if flushed && items.len() > k && inline_item_at(s, items[k], p) {
                let r = item_resume(s, items[k]);
                if r > p {
                    slot_scan(s, r, r, items.skip(k + 1), false)
                } else {
                    None
                }
            } else {
                None
            }
        } else if s[p] == '\\' || s[p] == '{' {
            None
        } else {
            slot_scan(s, t, p + 1, items, first)
        }
    }
}

/// Why the scan of slot content stops.
pub enum ScanStop {
    /// At the closing `}`.
    Close,
    /// At the end of the text, with no `}`.
    Out,
    /// At a bare `{`.
    Brace,
    /// At a `\` that ends the text or cannot start an escape or an item.
    Escape,
    /// At a `\` that starts an inline item.
    Item,
}

/// Where and why scanning slot content from `p` stops, passing over text,
/// escapes and comments; this does not depend on the items the slot holds.
pub open spec fn scan_stop(s: Seq<char>, p: int) -> (ScanStop, int)
    decreases s.len() - p,
{
    if p < 0 || p >= s.len() {
        (ScanStop::Out, p)
    } else if s[p] == '}' {
        (ScanStop::Close, p)
    } else if s[p] == '/' && p + 1 < s.len() && (s[p + 1] == '/' || s[p + 1] == '*') {
        let q = if s[p + 1] == '/' {
            line_comment_end(s, p + 2)
        } else {
            block_comment_end(s, p + 2)
        };
        proof {
            lemma_comment_ends(s, p + 2);
        }
        scan_stop(s, q)
    } else if s[p] == '\\' && p + 1 < s.len() && (s[p + 1] == '\\' || s[p + 1] == '{' || s[p + 1] == '}') {
        scan_stop(s, p + 2)
    } else if s[p] == '\\' && p + 1 < s.len() && name_start(s[p + 1]) {
        (ScanStop::Item, p)
    } else if s[p] == '{' {
        (ScanStop::Brace, p)
    } else if s[p] == '\\' {
        (ScanStop::Escape, p)
    } else {
        scan_stop(s, p + 1)
    }
}

/// The scan stops inside the text, at or after where it starts, unless it
/// runs out.
pub proof fn lemma_scan_stop_bounds(s: Seq<char>, p: int)
    requires
        0 <= p,
    ensures
        !(scan_stop(s, p).0 is Out) ==> p <= scan_stop(s, p).1 < s.len(),
    decreases s.len() - p,
{
    if 0 <= p < s.len() {
        if s[p] == '}' {
        } else if s[p] == '/' && p + 1 < s.len() && (s[p + 1] == '/' || s[p + 1] == '*') {
            lemma_comment_ends(s, p + 2);
            let q = if s[p + 1] == '/' {
                line_comment_end(s, p + 2)
            } else {
                block_comment_end(s, p + 2)
            };
            lemma_scan_stop_bounds(s, q);
        } else if s[p] == '\\' && p + 1 < s.len() && (s[p + 1] == '\\' || s[p + 1] == '{' || s[p + 1] == '}') {
            lemma_scan_stop_bounds(s, p + 2);
        } else if s[p] == '\\' && p + 1 < s.len() && name_start(s[p + 1]) {
        } else if s[p] == '{' || s[p] == '\\' {
        } else {
            lemma_scan_stop_bounds(s, p + 1);
        }
    }
}

/// A chunk flushed from a run of text has its whitespace collapsed.
proof fn lemma_flushed_normalized(raw: Seq<char>, first: bool, is_end: bool)
    ensures
        crate::parser::whitespace::is_normalized(crate::parser::cursor::flushed_text(raw, first, is_end)),
{
    crate::parser::whitespace::lemma_normalize_normalized(raw);
    crate::parser::whitespace::lemma_normalized_trims(crate::parser::whitespace::spec_normalize(raw));
}

/// Every text chunk that the scan of slot content meets is non-empty and
/// has its whitespace collapsed to single spaces.
#[verifier::spinoff_prover]
#[verifier::rlimit(30)]
proof fn lemma_scan_chunks(s: Seq<char>, t: int, p: int, items: Seq<ContentItem>, first: bool)
    requires
        slot_scan(s, t, p, items, first) is Some,
    ensures
        forall|i: int|
            0 <= i < items.len() ==> (#[trigger] items[i] matches ContentItem::Text(c) ==> c.text@.len() > 0
                && crate::parser::whitespace::is_normalized(c.text@)),
    decreases items, s.len() - p,
{
    let chunk = crate::parser::cursor::flushed_text(unescape_content(s.subrange(t, p)), first, s[p] == '}');
    lemma_flushed_normalized(unescape_content(s.subrange(t, p)), first, s[p] == '}');
    let k: int = if chunk.len() == 0 {
        0
    } else {
        1
    };
    if s[p] == '}' {
    } else if s[p] == '/' && p + 1 < s.len() && (s[p + 1] == '/' || s[p + 1] == '*') {
        let q = if s[p + 1] == '/' {
            line_comment_end(s, p + 2)
        } else {
            block_comment_end(s, p + 2)
        };
        lemma_comment_ends(s, p + 2);
        if k == 0 {
            lemma_scan_chunks(s, q, q, items, first);
        } else {
            lemma_scan_chunks(s, q, q, items.skip(1), false);
            assert forall|i: int| 1 <= i < items.len() implies #[trigger] items[i] == items.skip(1)[i - 1] by {}
        }
    } else if s[p] == '\\' && p + 1 < s.len() && (s[p + 1] == '\\' || s[p + 1] == '{' || s[p + 1] == '}') {
        lemma_scan_chunks(s, t, p + 2, items, first);
    } else if s[p] == '\\' && p + 1 < s.len() && name_start(s[p + 1]) {
        let r = item_resume(s, items[k]);
        lemma_scan_chunks(s, r, r, items.skip(k + 1), false);
        assert(inline_item_at(s, items[k], p));
        assert(!(items[k] is Text));
        assert forall|i: int| k + 1 <= i < items.len() implies #[trigger] items[i] == items.skip(k + 1)[i - k - 1] by {}
    } else {
        lemma_scan_chunks(s, t, p + 1, items, first);
    }
}

/// Every text chunk of a content slot is non-empty and has its whitespace
/// collapsed to single spaces.
pub proof fn lemma_slot_chunks_normalized(s: Seq<char>, c: ContentSlot)
    requires
        slot_reads(s, c),
    ensures
        forall|i: int|
            0 <= i < c.items@.len() ==> (#[trigger] c.items@[i] matches ContentItem::Text(t) ==> t.text@.len() > 0
                && crate::parser::whitespace::is_normalized(t.text@)),
{
    lemma_scan_chunks(s, c.span.start + 1, c.span.start + 1, c.items@, true);
}

/// The characters a run of content text stands for: the escapes `\\`,
/// `\{` and `\}` stand for the character after the backslash.
pub open spec fn unescape_content(t: Seq<char>) -> Seq<char>
    decreases t.len(),
{
    if t.len() == 0 {
        t
    } else if t[0] == '\\' && t.len() >= 2 {
        seq![t[1]] + unescape_content(t.skip(2))
    } else {
        seq![t[0]] + unescape_content(t.skip(1))
    }
}

/// A run of content text: characters other than a backslash, and escape
/// pairs that start with one.
pub open spec fn content_run(t: Seq<char>) -> bool
    decreases t.len(),
{
    t.len() == 0 || (t[0] != '\\' && content_run(t.skip(1))) || (t[0] == '\\' && t.len() >= 2
        && content_run(t.skip(2)))
}

pub proof fn lemma_content_push(t: Seq<char>, c: char)
    requires
        content_run(t),
        c != '\\',
    ensures
        content_run(t.push(c)),
        unescape_content(t.push(c)) == unescape_content(t).push(c),
    decreases t.len(),
{
    if t.len() == 0 {
        let u = t.push(c);
        assert(u.skip(1) =~= Seq::<char>::empty());
        assert(unescape_content(u.skip(1)) == u.skip(1));
        assert(content_run(u.skip(1)));
        assert(unescape_content(u) =~= seq![c]);
        assert(t =~= Seq::<char>::empty());
        assert(unescape_content(t) == t);
    } else if t[0] == '\\' && t.len() >= 2 && content_run(t.skip(2)) {
        lemma_content_push(t.skip(2), c);
        assert(t.push(c).skip(2) =~= t.skip(2).push(c));
        assert(unescape_content(t.push(c)) =~= unescape_content(t).push(c));
    } else {
        lemma_content_push(t.skip(1), c);
        assert(t.push(c).skip(1) =~= t.skip(1).push(c));
        assert(unescape_content(t.push(c)) =~= unescape_content(t).push(c));
    }
}

pub proof fn lemma_content_escape(t: Seq<char>, d: char)
    requires
        content_run(t),
    ensures
        content_run(t + seq!['\\', d]),
        unescape_content(t + seq!['\\', d]) == unescape_content(t).push(d),
    decreases t.len(),
{
    let u = t + seq!['\\', d];
    if t.len() == 0 {
        assert(u.skip(2) =~= Seq::<char>::empty());
        assert(unescape_content(u.skip(2)) == u.skip(2));
        assert(content_run(u.skip(2)));
        assert(unescape_content(u) =~= seq![d]);
        assert(t =~= Seq::<char>::empty());
        assert(unescape_content(t) == t);
    } else if t[0] == '\\' && t.len() >= 2 && content_run(t.skip(2)) {
        lemma_content_escape(t.skip(2), d);
        assert(u.skip(2) =~= t.skip(2) + seq!['\\', d]);
        assert(unescape_content(u) =~= unescape_content(t).push(d));
    } else {
        lemma_content_escape(t.skip(1), d);
        assert(u.skip(1) =~= t.skip(1) + seq!['\\', d]);
        assert(unescape_content(u) =~= unescape_content(t).push(d));
    }
}

} // verus!

verus! {

pub proof fn lemma_next(s: Seq<char>, p: int)
    requires
        0 <= p <= s.len(),
    ensures
        p <= next_start(s, p) <= s.len(),
        next_start(s, next_start(s, p)) == next_start(s, p),
{
    crate::lexer::lemma_skip_bounds(s, p, crate::lexer::SkipMode::Normal);
    crate::lexer::lemma_skip_idempotent(s, p, crate::lexer::SkipMode::Normal);
}

pub proof fn lemma_after(s: Seq<char>, q: int)
    requires
        0 <= q,
        tok_at(s, q),
    ensures
        q < lex_end(s, q) <= after(s, q) <= s.len(),
        next_start(s, after(s, q)) == after(s, q),
{
    crate::parser::cursor::lemma_lex_end_bounds(s, q);
    lemma_next(s, lex_end(s, q));
}

pub proof fn lemma_infix_power(k: TokenKind)
    ensures
        spec_infix(k) matches Some((op, l, r)) ==> op_power(op) == l && r == l + 1 && 1 <= l <= 11,
{
}

} // verus!

verus! {

/// What may follow `e` inside a larger expression: a member access only
/// after an atom, a call only of `e` itself, no second `?` after a
/// conditional, and only operators that bind no tighter than `e` itself.
pub open spec fn follow_ok(s: Seq<char>, q: int, e: Expr) -> bool {
    tok_at(s, q) ==> {
        let k = kind_at(s, q);
        &&& prec(e) < 14 ==> k != TokenKind::Dot
        &&& (k == TokenKind::LParen && ends_in_ident(e)) ==> e is Ident
        &&& prec(e) == 0 ==> k != TokenKind::Question
        &&& (spec_infix(k) matches Some((_, l, _)) ==> l <= prec(e))
    }
}

} // verus!

verus! {

/// A type name read from the identifier token at its span.
pub open spec fn type_reads(s: Seq<char>, t: TypeRef) -> bool {
    &&& t.name.span == t.span
    &&& covers_token(s, t.span.start as int, t.span)
    &&& tok_is(s, t.span.start as int, TokenKind::Ident)
    &&& t.name.name@ == payload_at(s, t.span.start as int)
}

pub open spec fn value_span(v: LetValue) -> Span {
    match v {
        LetValue::Expr(e) => e.spec_span(),
        LetValue::Node(n) => n.span,
    }
}

/// The value of a binding, starting at `q`: an element node when `\` stands
/// there, an expression otherwise.
pub open spec fn value_reads(s: Seq<char>, v: LetValue, q: int) -> bool {
    &&& value_span(v).start == q
    &&& match v {
        LetValue::Node(n) => tok_is(s, q, TokenKind::Backslash) && node_reads(s, n),
        LetValue::Expr(e) => !tok_is(s, q, TokenKind::Backslash) && expr_reads(s, e) && stops(
            s,
            next_start(s, e.spec_span().end as int),
            e,
            0,
        ),
    }
}

/// Where the name and optional `: Type` of a binding end.
pub open spec fn binding_head_end(s: Seq<char>, b: LetBinding) -> int {
    match b.type_annotation {
        Some(t) => t.span.end as int,
        None => b.name.span.end as int,
    }
}

/// Where a binding's last part ends.
pub open spec fn binding_end(s: Seq<char>, b: LetBinding) -> int {
    match b.value {
        Some(v) => value_span(v).end as int,
        None => binding_head_end(s, b),
    }
}

/// Where the token after a binding and its optional `;` starts.
pub open spec fn binding_next(s: Seq<char>, b: LetBinding) -> int {
    let q = next_start(s, binding_end(s, b));
    if tok_is(s, q, TokenKind::Semicolon) {
        after(s, q)
    } else {
        q
    }
}

/// `keyword name [: Type] [= value] [;]`, where `keyword` is `let` or `env`.
pub open spec fn let_reads(s: Seq<char>, b: LetBinding, keyword: TokenKind) -> bool {
    let q = b.span.start as int;
    let p1 = next_start(s, b.name.span.end as int);
    let p2 = next_start(s, binding_head_end(s, b));
    &&& tok_is(s, q, keyword)
    &&& b.name.span.start == after(s, q)
    &&& name_reads(s, b.name)
    &&& match b.type_annotation {
        Some(t) => tok_is(s, p1, TokenKind::Colon) && t.span.start == after(s, p1) && type_reads(s, t),
        None => !tok_is(s, p1, TokenKind::Colon),
    }
    &&& match b.value {
        Some(v) => tok_is(s, p2, TokenKind::Eq) && value_reads(s, v, after(s, p2)),
        None => !tok_is(s, p2, TokenKind::Eq),
    }
    &&& b.span.end == binding_end(s, b)
}

/// An identifier token that starts with a capital letter, followed by one of
/// `follow`'s kinds.
pub open spec fn type_then(s: Seq<char>, q: int, follow: Set<TokenKind>) -> bool {
    &&& tok_is(s, q, TokenKind::Ident)
    &&& crate::parser::component::is_ty_name(payload_at(s, q))
    &&& tok_at(s, after(s, q))
    &&& follow.contains(kind_at(s, after(s, q)))
}

/// A default expression starting at `q` that ends the parameter.
pub open spec fn default_reads(s: Seq<char>, e: Expr, q: int) -> bool {
    &&& e.spec_span().start == q
    &&& expr_reads(s, e)
    &&& stops(s, next_start(s, e.spec_span().end as int), e, 0)
}

/// Where a parameter's last part ends.
pub open spec fn param_end(p: ParamDef) -> int {
    match p.default_edge {
        Some(e) => e.spec_span().end as int,
        None => match p.type_annotation {
            Some(t) => t.span.end as int,
            None => p.name.span.end as int,
        },
    }
}

/// What follows the `:` of a parameter, from `t0`: `Type: expr`,
/// `Type = expr`, `Type` before `,` or `)`, or an expression.
pub open spec fn typed_tail_reads(s: Seq<char>, t0: int, ty: Option<TypeRef>, d: Option<Expr>) -> bool {
    if type_then(s, t0, set![TokenKind::Colon, TokenKind::Eq]) {
        &&& ty matches Some(t)
        &&& t.span.start == t0
        &&& type_reads(s, t)
        &&& d matches Some(e)
        &&& default_reads(s, e, after(s, after(s, t0)))
    } else if type_then(s, t0, set![TokenKind::Comma, TokenKind::RParen]) {
        &&& ty matches Some(t)
        &&& t.span.start == t0
        &&& type_reads(s, t)
        &&& d is None
    } else {
        &&& ty is None
        &&& d matches Some(e)
        &&& default_reads(s, e, t0)
    }
}

/// Where the last of a type and a default ends (the default when both
/// are there), or `e` when neither is.
pub open spec fn tail_end(ty: Option<TypeRef>, d: Option<Expr>, e: int) -> int {
    match d {
        Some(x) => x.spec_span().end as int,
        None => match ty {
            Some(t) => t.span.end as int,
            None => e,
        },
    }
}

/// `[env] name`, then `: Type: expr`, `: Type = expr`, `: Type` before `,`
/// or `)`, `: expr` or `= expr`, or nothing; the parameter starts at `q`.
pub open spec fn param_reads(s: Seq<char>, p: ParamDef, q: int) -> bool {
    let n = p.name.span.start as int;
    let p1 = next_start(s, p.name.span.end as int);
    &&& if p.is_env {
        tok_is(s, q, TokenKind::Env) && n == after(s, q)
    } else {
        !tok_is(s, q, TokenKind::Env) && n == q
    }
    &&& name_reads(s, p.name)
    &&& if tok_is(s, p1, TokenKind::Colon) {
        typed_tail_reads(s, after(s, p1), p.type_annotation, p.default_edge)
    } else if tok_is(s, p1, TokenKind::Eq) {
        &&& p.type_annotation is None
        &&& p.default_edge matches Some(e)
        &&& default_reads(s, e, after(s, p1))
    } else {
        p.type_annotation is None && p.default_edge is None
    }
    &&& p.span == Span { start: p.name.span.start, end: param_end(p) as usize }
}

/// Reads the parameters of a component from `q`, with the comma rules of
/// call arguments.
pub open spec fn params_read(s: Seq<char>, params: Seq<ParamDef>, q: int) -> Option<(int, bool)>
    decreases params.len(),
{
    if params.len() == 0 {
        Some((q, true))
    } else {
        match params_read(s, params.drop_last(), q) {
            Some((r, true)) => {
                let p = params.last();
                let e = next_start(s, param_end(p));
                if param_reads(s, p, r) {
                    if tok_is(s, e, TokenKind::Comma) {
                        Some((after(s, e), true))
                    } else {
                        Some((e, false))
                    }
                } else {
                    None
                }
            },
            _ => None,
        }
    }
}

/// `\` followed by `Children` at `q`.
pub open spec fn children_ahead(s: Seq<char>, q: int) -> bool {
    tok_is(s, q, TokenKind::Backslash) && tok_is(s, after(s, q), TokenKind::Children)
}

/// Where the token after a body item that starts at `r` starts, if the item
/// reads the tokens there: a `let` or `env` binding, a `\Children`
/// directive, or an element node.
pub open spec fn body_item_next(s: Seq<char>, item: ComponentBodyItem, r: int) -> Option<int> {
    match item {
        ComponentBodyItem::Let(b) => if b.span.start == r && let_reads(s, b, TokenKind::Let) {
            Some(binding_next(s, b))
        } else {
            None
        },
        ComponentBodyItem::Env(b) => if b.span.start == r && let_reads(s, b, TokenKind::Env) {
            Some(binding_next(s, b))
        } else {
            None
        },
        ComponentBodyItem::Children(d) => if d.span.start == r && directive_reads(s, d) {
            Some(next_start(s, d.span.end as int))
        } else {
            None
        },
        ComponentBodyItem::Node(n) => if n.span.start == r && node_reads(s, n) && !children_ahead(s, r)
            && !tok_is(s, r, TokenKind::Let) && !tok_is(s, r, TokenKind::Env) {
            Some(next_start(s, n.span.end as int))
        } else {
            None
        },
    }
}

/// Reads the body of a component from `q`, up to its closing `}`. The
/// result is where the token after the body starts.
pub open spec fn body_read(s: Seq<char>, body: Seq<ComponentBodyItem>, q: int) -> Option<int>
    decreases body.len(),
{
    if body.len() == 0 {
        Some(q)
    } else {
        match body_read(s, body.drop_last(), q) {
            Some(r) => if !tok_is(s, r, TokenKind::RBrace) {
                body_item_next(s, body.last(), r)
            } else {
                None
            },
            None => None,
        }
    }
}

/// Where the `{` of a component's body must stand: after its parameter
/// list, or after its name when it has none.
pub open spec fn body_brace(s: Seq<char>, c: ComponentDef) -> int {
    let p1 = next_start(s, c.name.span.end as int);
    if tok_is(s, p1, TokenKind::LParen) {
        match params_read(s, c.params@, after(s, p1)) {
            Some((cl, _)) => after(s, cl),
            None => -1,
        }
    } else {
        p1
    }
}

/// `\Component Name [(params)] { body }`.
pub open spec fn component_reads(s: Seq<char>, c: ComponentDef) -> bool {
    let q = c.span.start as int;
    let k = after(s, q);
    let p1 = next_start(s, c.name.span.end as int);
    let lb = body_brace(s, c);
    &&& tok_is(s, q, TokenKind::Backslash)
    &&& tok_is(s, k, TokenKind::Component)
    &&& c.name.span.start == after(s, k)
    &&& name_reads(s, c.name)
    &&& if tok_is(s, p1, TokenKind::LParen) {
        params_read(s, c.params@, after(s, p1)) matches Some((cl, _)) && tok_is(s, cl, TokenKind::RParen)
    } else {
        c.params@.len() == 0
    }
    &&& tok_is(s, lb, TokenKind::LBrace)
    &&& body_read(s, c.body@, after(s, lb)) matches Some(cl)
    &&& tok_is(s, cl, TokenKind::RBrace)
    &&& c.span.end == lex_end(s, cl)
}

} // verus!

verus! {

/// Where the token after a top-level item that starts at `r` starts, if
/// the item reads the tokens there: a `let` or `env` binding, a component
/// definition, or an element node whose name is an identifier or
/// `Children`.
pub open spec fn top_item_next(s: Seq<char>, item: crate::ast::Item, r: int) -> Option<int> {
    match item {
        crate::ast::Item::Let(b) => if b.span.start == r && let_reads(s, b, TokenKind::Let) {
            Some(binding_next(s, b))
        } else {
            None
        },
        crate::ast::Item::Env(b) => if b.span.start == r && let_reads(s, b, TokenKind::Env) {
            Some(binding_next(s, b))
        } else {
            None
        },
        crate::ast::Item::Component(c) => if c.span.start == r && component_reads(s, c) {
            Some(next_start(s, c.span.end as int))
        } else {
            None
        },
        crate::ast::Item::Node(n) => if n.span.start == r && node_reads(s, n) && (tok_is(
            s,
            n.name.span.start as int,
            TokenKind::Ident,
        ) || tok_is(s, n.name.span.start as int, TokenKind::Children)) {
            Some(next_start(s, n.span.end as int))
        } else {
            None
        },
    }
}

/// A token kind that is an expression by itself: a literal or a name.
pub open spec fn atom_kind(k: TokenKind) -> bool {
    k == TokenKind::Number || k == TokenKind::String || k == TokenKind::Color || k == TokenKind::True || k
        == TokenKind::False || k == TokenKind::Ident || k == TokenKind::Children || k == TokenKind::Env
}

/// A name token: an identifier, or `Children` or `Component` read as one.
pub open spec fn name_tok(s: Seq<char>, q: int) -> bool {
    tok_is(s, q, TokenKind::Ident) || tok_is(s, q, TokenKind::Children) || tok_is(s, q, TokenKind::Component)
}

/// `a < b <= s.len()`: a step forward within the text.
pub open spec fn fwd(s: Seq<char>, a: int, b: int) -> bool {
    a < b <= s.len()
}

/// A token kind read as an identifier in an expression, which a `(` after
/// it turns into a call.
pub open spec fn callee_kind(k: TokenKind) -> bool {
    k == TokenKind::Ident || k == TokenKind::Children || k == TokenKind::Env
}

/// The expression read from `q` at minimum binding power `bp`, as far as
/// its extent goes: a prefix expression, then what follows it. The result
/// is where the token after the expression starts. Inline element nodes
/// are left out.
pub open spec fn owed_expr(s: Seq<char>, q: int, bp: int) -> Option<int>
    decreases s.len() - q, 3int,
{
    match owed_prefix(s, q) {
        Some((p, id)) => if fwd(s, q, p) {
            owed_rest(s, p, bp, id)
        } else {
            None
        },
        None => None,
    }
}

/// A literal or name, a prefix operator and its operand, or a parenthesized
/// expression at `q`; the result is where the token after it starts and
/// whether it is a name.
pub open spec fn owed_prefix(s: Seq<char>, q: int) -> Option<(int, bool)>
    decreases s.len() - q, 2int,
{
    let n = after(s, q);
    if q < 0 || !tok_at(s, q) || !fwd(s, q, n) {
        None
    } else {
        let k = kind_at(s, q);
        if atom_kind(k) {
            Some((n, callee_kind(k)))
        } else if k == TokenKind::Minus || k == TokenKind::Bang {
            match owed_expr(s, n, 13) {
                Some(e) => Some((e, false)),
                None => None,
            }
        } else if k == TokenKind::LParen {
            match owed_expr(s, n, 0) {
                Some(i) => if tok_is(s, i, TokenKind::RParen) {
                    Some((after(s, i), false))
                } else {
                    None
                },
                None => None,
            }
        } else {
            None
        }
    }
}

/// What follows a prefix expression that ends before `p`: member accesses,
/// a call of a name (`id`), a conditional (at power 0 only) and binary
/// operators that bind at least as tightly as `bp`, each with its right
/// operand read at the operator's right power. The result is where the
/// token that none of these continues starts.
pub open spec fn owed_rest(s: Seq<char>, p: int, bp: int, id: bool) -> Option<int>
    decreases s.len() - p, 1int,
{
    let n = after(s, p);
    if p >= s.len() {
        Some(p)
    } else if p < 0 || !tok_at(s, p) || !fwd(s, p, n) {
        None
    } else {
        let k = kind_at(s, p);
        if k == TokenKind::Dot {
            if name_tok(s, n) && fwd(s, p, after(s, n)) {
                owed_rest(s, after(s, n), bp, false)
            } else {
                None
            }
        } else if k == TokenKind::LParen && id {
            match owed_args(s, n) {
                Some(cl) => if fwd(s, p, after(s, cl)) {
                    owed_rest(s, after(s, cl), bp, false)
                } else {
                    None
                },
                None => None,
            }
        } else if k == TokenKind::Question {
            if bp > 0 {
                Some(p)
            } else {
                match owed_expr(s, n, 0) {
                    Some(c) => if tok_is(s, c, TokenKind::Colon) && fwd(s, p, after(s, c)) {
                        match owed_expr(s, after(s, c), 0) {
                            Some(e) => if fwd(s, p, e) {
                                owed_rest(s, e, bp, false)
                            } else {
                                None
                            },
                            None => None,
                        }
                    } else {
                        None
                    },
                    None => None,
                }
            }
        } else {
            match spec_infix(k) {
                Some((_, l, r)) => if l < bp {
                    Some(p)
                } else {
                    match owed_expr(s, n, r as int) {
                        Some(e) => if fwd(s, p, e) {
                            owed_rest(s, e, bp, false)
                        } else {
                            None
                        },
                        None => None,
                    }
                },
                None => Some(p),
            }
        }
    }
}

/// The arguments of a call from `p`: expressions separated by commas, a
/// trailing comma allowed, up to a `)`; the result is where that `)`
/// starts.
pub open spec fn owed_args(s: Seq<char>, p: int) -> Option<int>
    decreases s.len() - p, 4int,
{
    if tok_is(s, p, TokenKind::RParen) {
        Some(p)
    } else {
        match owed_expr(s, p, 0) {
            Some(e) => if tok_is(s, e, TokenKind::Comma) && fwd(s, p, after(s, e)) {
                owed_args(s, after(s, e))
            } else if tok_is(s, e, TokenKind::RParen) {
                Some(e)
            } else {
                None
            },
            None => None,
        }
    }
}

/// One step of `owed_rest` at `p`, by the kind of the token there.
pub proof fn lemma_owed_rest_step(s: Seq<char>, p: int, bp: int, id: bool)
    ensures
        p >= s.len() ==> owed_rest(s, p, bp, id) == Some(p),
        p < s.len() && owed_rest(s, p, bp, id) is Some ==> 0 <= p && tok_at(s, p) && fwd(s, p, after(s, p)),
        p < s.len() && owed_rest(s, p, bp, id) is Some ==> ({
            let k = kind_at(s, p);
            let n = after(s, p);
            let g = owed_rest(s, p, bp, id);
            &&& k == TokenKind::Dot ==> name_tok(s, n) && fwd(s, p, after(s, n)) && owed_rest(
                s,
                after(s, n),
                bp,
                false,
            ) == g
            &&& k == TokenKind::LParen && id ==> (owed_args(s, n) matches Some(cl) && fwd(s, p, after(s, cl))
                && owed_rest(s, after(s, cl), bp, false) == g)
            &&& k == TokenKind::Question && bp > 0 ==> g == Some(p)
            &&& k == TokenKind::Question && bp <= 0 ==> (owed_expr(s, n, 0) matches Some(c) && tok_is(
                s,
                c,
                TokenKind::Colon,
            ) && fwd(s, p, after(s, c)) && (owed_expr(s, after(s, c), 0) matches Some(e) && fwd(s, p, e)
                && owed_rest(s, e, bp, false) == g))
            &&& k != TokenKind::Dot && !(k == TokenKind::LParen && id) && k != TokenKind::Question ==> match spec_infix(
                k,
            ) {
                Some((_, l, r)) => if l < bp {
                    g == Some(p)
                } else {
                    (owed_expr(s, n, r as int) matches Some(e) && fwd(s, p, e) && owed_rest(s, e, bp, false) == g)
                },
                None => g == Some(p),
            }
        }),
{
}

/// One step of `owed_expr`: a prefix, then what follows it.
pub proof fn lemma_owed_expr_step(s: Seq<char>, q: int, bp: int)
    ensures
        owed_expr(s, q, bp) is Some ==> (owed_prefix(s, q) matches Some((p, id)) && fwd(s, q, p) && owed_rest(
            s,
            p,
            bp,
            id,
        ) == owed_expr(s, q, bp)),
{
}

/// One step of `owed_prefix`, by the kind of the token at `q`.
pub proof fn lemma_owed_prefix_step(s: Seq<char>, q: int)
    ensures
        owed_prefix(s, q) is Some ==> ({
            let k = kind_at(s, q);
            let n = after(s, q);
            let g = owed_prefix(s, q);
            &&& 0 <= q && tok_at(s, q) && fwd(s, q, n)
            &&& atom_kind(k) || k == TokenKind::Minus || k == TokenKind::Bang || k == TokenKind::LParen
            &&& atom_kind(k) ==> g == Some((n, callee_kind(k)))
            &&& k == TokenKind::Minus || k == TokenKind::Bang ==> (owed_expr(s, n, 13) matches Some(e) && g == Some(
                (e, false),
            ))
            &&& k == TokenKind::LParen ==> (owed_expr(s, n, 0) matches Some(i) && tok_is(s, i, TokenKind::RParen)
                && g == Some((after(s, i), false)))
        }),
{
}

/// One step of `owed_args`: a `)`, or an argument and then a comma or `)`.
pub proof fn lemma_owed_args_step(s: Seq<char>, p: int)
    ensures
        tok_is(s, p, TokenKind::RParen) ==> owed_args(s, p) == Some(p),
        owed_args(s, p) is Some ==> ({
            let g = owed_args(s, p);
            &&& tok_is(s, p, TokenKind::RParen) ==> g == Some(p)
            &&& !tok_is(s, p, TokenKind::RParen) ==> (owed_expr(s, p, 0) matches Some(e) && ((tok_is(
                s,
                e,
                TokenKind::Comma,
            ) && fwd(s, p, after(s, e)) && owed_args(s, after(s, e)) == g) || (tok_is(s, e, TokenKind::RParen)
                && g == Some(e))))
        }),
{
}

/// An argument list the parser owes ends at a `)`.
pub proof fn lemma_owed_args_close(s: Seq<char>, p: int)
    ensures
        owed_args(s, p) matches Some(cl) ==> tok_is(s, cl, TokenKind::RParen),
    decreases s.len() - p,
{
    lemma_owed_args_step(s, p);
    if owed_args(s, p) is Some && !tok_is(s, p, TokenKind::RParen) {
        let e = owed_expr(s, p, 0)->Some_0;
        if tok_is(s, e, TokenKind::Comma) && fwd(s, p, after(s, e)) {
            lemma_owed_args_close(s, after(s, e));
        }
    }
}

/// Where an expression, an argument list or a prefix the parser owes
/// starts, a token starts.
pub proof fn lemma_owed_tok(s: Seq<char>, p: int, bp: int)
    ensures
        owed_prefix(s, p) is Some ==> 0 <= p && tok_at(s, p),
        owed_expr(s, p, bp) is Some ==> 0 <= p && tok_at(s, p),
        owed_args(s, p) is Some ==> tok_at(s, p),
{
    lemma_owed_prefix_step(s, p);
    lemma_owed_expr_step(s, p, bp);
    lemma_owed_args_step(s, p);
    lemma_owed_expr_step(s, p, 0);
}

/// After the first token of an expression the parser owes, the text ends
/// or another token starts.
pub proof fn lemma_owed_next(s: Seq<char>, q: int, bp: int)
    ensures
        owed_expr(s, q, bp) is Some ==> after(s, q) >= s.len() || tok_at(s, after(s, q)),
{
    lemma_owed_expr_step(s, q, bp);
    lemma_owed_prefix_step(s, q);
    if owed_expr(s, q, bp) is Some {
        let (p, id) = owed_prefix(s, q)->Some_0;
        lemma_owed_rest_step(s, p, bp, id);
        lemma_owed_tok(s, after(s, q), 13);
        lemma_owed_tok(s, after(s, q), 0);
    }
}

/// The characters that spell each binary operator in source text.
pub open spec fn op_text(op: BinaryOp) -> Seq<char> {
    match op {
        BinaryOp::Or => seq!['|', '|'],
        BinaryOp::And => seq!['&', '&'],
        BinaryOp::Eq => seq!['=', '='],
        BinaryOp::Ne => seq!['!', '='],
        BinaryOp::Lt => seq!['<'],
        BinaryOp::Le => seq!['<', '='],
        BinaryOp::Gt => seq!['>'],
        BinaryOp::Ge => seq!['>', '='],
        BinaryOp::Add => seq!['+'],
        BinaryOp::Sub => seq!['-'],
        BinaryOp::Mul => seq!['*'],
        BinaryOp::Div => seq!['/'],
        BinaryOp::Rem => seq!['%'],
    }
}

/// A binary expression read from a text carries the operator that the
/// characters between its operands spell: `<=` reads as `Le`, `>=` as `Ge`,
/// `==` as `Eq`, and so on.
pub proof fn lemma_binary_op_spelled(s: Seq<char>, b: BinaryExpr)
    requires
        expr_reads(s, Expr::Binary(b)),
    ensures
        ({
            let q = next_start(s, b.left.spec_span().end as int);
            s.subrange(q, lex_end(s, q)) == op_text(b.op)
        }),
{
    let q = next_start(s, b.left.spec_span().end as int);
    let e = lex_end(s, q);
    assert(s.subrange(q, e) =~= op_text(b.op));
}

/// The precedence tier of each binary operator, loosest first: `||`,
/// `&&`, equality, comparison, additive, multiplicative.
pub open spec fn op_tier(op: BinaryOp) -> int {
    match op {
        BinaryOp::Or => 0,
        BinaryOp::And => 1,
        BinaryOp::Eq | BinaryOp::Ne => 2,
        BinaryOp::Lt | BinaryOp::Le | BinaryOp::Gt | BinaryOp::Ge => 3,
        BinaryOp::Add | BinaryOp::Sub => 4,
        BinaryOp::Mul | BinaryOp::Div | BinaryOp::Rem => 5,
    }
}

/// A binary expression read from a text groups by precedence and to the
/// left: an operand that is itself a binary expression binds at least as
/// tightly on the left, and strictly more tightly on the right; an operand
/// that is a conditional stands in parentheses.
pub proof fn lemma_binary_grouping(s: Seq<char>, b: BinaryExpr)
    requires
        expr_reads(s, Expr::Binary(b)),
    ensures
        *b.left matches Expr::Binary(l) ==> op_tier(l.op) >= op_tier(b.op),
        *b.right matches Expr::Binary(r) ==> op_tier(r.op) > op_tier(b.op),
        !(*b.left is Ternary) && !(*b.right is Ternary),
{
}

/// A port binding the parser owes: a name, `:` and an expression as in
/// `owed_expr`. The
/// result is where the token after the expression starts.
pub open spec fn simple_binding_end(s: Seq<char>, q: int) -> Option<int> {
    let c = after(s, q);
    if name_tok(s, q) && tok_is(s, c, TokenKind::Colon) {
        owed_expr(s, after(s, c), 0)
    } else {
        None
    }
}

/// From `p`, port bindings as in `simple_binding_end`, each followed by an
/// optional comma, up to a `}`; the result is where that `}` starts.
pub open spec fn owed_rules_close(s: Seq<char>, p: int) -> Option<int>
    decreases s.len() - p,
{
    if tok_is(s, p, TokenKind::RBrace) {
        Some(p)
    } else {
        match simple_binding_end(s, p) {
            Some(e) => {
                let n = if tok_is(s, e, TokenKind::Comma) {
                    after(s, e)
                } else {
                    e
                };
                if (e >= s.len() || tok_at(s, e)) && fwd(s, p, n) {
                    owed_rules_close(s, n)
                } else {
                    None
                }
            },
            None => None,
        }
    }
}

/// A rule list the parser owes ends at a `}`.
pub proof fn lemma_rules_close(s: Seq<char>, p: int)
    ensures
        owed_rules_close(s, p) matches Some(cl) ==> tok_is(s, cl, TokenKind::RBrace),
    decreases s.len() - p,
{
    if !tok_is(s, p, TokenKind::RBrace) {
        if let Some(e) = simple_binding_end(s, p) {
            let n = if tok_is(s, e, TokenKind::Comma) {
                after(s, e)
            } else {
                e
            };
            if (e >= s.len() || tok_at(s, e)) && fwd(s, p, n) {
                lemma_rules_close(s, n);
            }
        }
    }
}

/// From `q`, simple port bindings separated by commas (a trailing comma
/// allowed) up to a `)`; the result is where that `)` starts.
pub open spec fn simple_ports_close(s: Seq<char>, q: int) -> Option<int>
    decreases s.len() - q,
{
    if tok_is(s, q, TokenKind::RParen) {
        Some(q)
    } else {
        match simple_binding_end(s, q) {
            Some(e) => if tok_is(s, e, TokenKind::RParen) {
                Some(e)
            } else if tok_is(s, e, TokenKind::Comma) && q < after(s, e) <= s.len() {
                simple_ports_close(s, after(s, e))
            } else {
                None
            },
            None => None,
        }
    }
}

/// A top-level item at `q` whose reading the parser owes: a `let` or `env`
/// binding as in `simple_let_end`, a
/// component definition as in `simple_component_next`, or an element node
/// whose port list, if it has one, holds bindings as in
/// `simple_binding_end` and whose content slot, if it has one, is read as
/// in `slot_close`.
/// The result is where the token after it starts.
pub open spec fn plain_item_next(s: Seq<char>, q: int) -> Option<int> {
    let nq = after(s, q);
    let p1 = after(s, nq);
    let named = tok_is(s, nq, TokenKind::Ident) || tok_is(s, nq, TokenKind::Children);
    if (tok_is(s, q, TokenKind::Let) || tok_is(s, q, TokenKind::Env)) && simple_let_end(s, q) is Some {
        Some(past_semicolon(s, simple_let_end(s, q)->Some_0))
    } else if tok_is(s, q, TokenKind::Backslash) && tok_is(s, nq, TokenKind::Component)
        && crate::parser::component::simple_component_next(s, q) is Some {
        crate::parser::component::simple_component_next(s, q)
    } else if tok_is(s, q, TokenKind::Backslash) && named && node_head_end(s, q) is Some {
        let p2 = node_head_end(s, q)->Some_0;
        if tok_is(s, p2, TokenKind::LBrace) {
            match slot_close(s, p2 + 1) {
                Some(cl) => Some(next_start(s, cl + 1)),
                None => None,
            }
        } else {
            Some(p2)
        }
    } else {
        None
    }
}

/// From `q` on, the text holds only such items.
pub open spec fn plain_doc(s: Seq<char>, q: int) -> bool
    decreases s.len() - q,
{
    if q >= s.len() {
        true
    } else {
        match plain_item_next(s, q) {
            Some(n) => q < n <= s.len() && plain_doc(s, n),
            None => false,
        }
    }
}

/// Reads top-level items from `q`; the result is where the token after
/// them starts.
pub open spec fn top_read(s: Seq<char>, items: Seq<crate::ast::Item>, q: int) -> Option<int>
    decreases items.len(),
{
    if items.len() == 0 {
        Some(q)
    } else {
        match top_read(s, items.drop_last(), q) {
            Some(r) => top_item_next(s, items.last(), r),
            None => None,
        }
    }
}

/// A document reads the whole text: its items one after another, and no
/// token after them.
pub open spec fn document_reads(s: Seq<char>, doc: crate::ast::Document) -> bool {
    &&& top_read(s, doc.items@, next_start(s, 0)) matches Some(e)
    &&& !tok_at(s, e)
    &&& doc.span == Span { start: 0, end: s.len() as usize }
}

/// Where the content slot of an element node at `q` would start, for a node
/// the parser owes up to there: `\`, a name, and a port list of simple
/// bindings if a `(` follows; the token there, if any, must lex.
pub open spec fn node_head_end(s: Seq<char>, q: int) -> Option<int> {
    let nq = after(s, q);
    let p1 = after(s, nq);
    if tok_is(s, q, TokenKind::Backslash) && name_tok(s, nq) && (p1 >= s.len() || tok_at(s, p1)) {
        if tok_is(s, p1, TokenKind::LParen) {
            match simple_ports_close(s, after(s, p1)) {
                Some(cl) => if after(s, cl) >= s.len() || tok_at(s, after(s, cl)) {
                    Some(after(s, cl))
                } else {
                    None
                },
                None => None,
            }
        } else {
            Some(p1)
        }
    } else {
        None
    }
}

/// An element node at `q` read as the parser owes it: a head as in
/// `node_head_end`, and a content slot as in `slot_close` if a `{` follows.
/// The result is where the token after the node starts.
pub open spec fn node_next(s: Seq<char>, q: int) -> Option<int> {
    match node_head_end(s, q) {
        Some(p2) => if tok_is(s, p2, TokenKind::LBrace) {
            match slot_close(s, p2 + 1) {
                Some(cl) => Some(next_start(s, cl + 1)),
                None => None,
            }
        } else {
            Some(p2)
        },
        None => None,
    }
}

/// The head of a `let` or `env` binding at `q` that the parser owes: the
/// keyword, a name, and `:` with a type name if a `:` follows. The result is
/// where the token after the head starts.
pub open spec fn binding_head_pos(s: Seq<char>, q: int) -> Option<int> {
    let p1 = after(s, after(s, q));
    if name_tok(s, after(s, q)) && (p1 >= s.len() || tok_at(s, p1)) {
        if tok_is(s, p1, TokenKind::Colon) {
            if tok_is(s, after(s, p1), TokenKind::Ident) {
                Some(after(s, after(s, p1)))
            } else {
                None
            }
        } else {
            Some(p1)
        }
    } else {
        None
    }
}

/// A `let` or `env` binding at `q` whose reading the parser owes, after its
/// keyword: a head as in `binding_head_pos`, then `=` and an expression as
/// in `owed_expr` or an element node as in `node_next`, or no value. The result is where the token after it
/// starts.
pub open spec fn simple_let_end(s: Seq<char>, q: int) -> Option<int> {
    match binding_head_pos(s, q) {
        Some(h) => if h >= s.len() || tok_at(s, h) {
            if tok_is(s, h, TokenKind::Eq) && tok_is(s, after(s, h), TokenKind::Backslash) {
                match node_next(s, after(s, h)) {
                    Some(e) => if e >= s.len() || tok_at(s, e) {
                        Some(e)
                    } else {
                        None
                    },
                    None => None,
                }
            } else if tok_is(s, h, TokenKind::Eq) {
                owed_expr(s, after(s, h), 0)
            } else {
                Some(h)
            }
        } else {
            None
        },
        None => None,
    }
}

/// Where the token after a binding ending before `e` starts: past a `;` at
/// `e`, if there is one.
pub open spec fn past_semicolon(s: Seq<char>, e: int) -> int {
    if tok_is(s, e, TokenKind::Semicolon) {
        after(s, e)
    } else {
        e
    }
}

/// From `q`, items as in `plain_item_next`, then a component definition
/// whose head the parser owes (see `component_body_start`) and whose body
/// reaches a token that starts no body item (see `body_bad_start`); the
/// result is where that token starts.
pub open spec fn doc_body_error(s: Seq<char>, q: int) -> Option<int>
    decreases s.len() - q,
{
    let head = crate::parser::component::component_body_start(s, q);
    if tok_is(s, q, TokenKind::Backslash) && tok_is(s, after(s, q), TokenKind::Component) && head is Some
        && crate::parser::component::body_bad_start(s, head->Some_0) is Some {
        crate::parser::component::body_bad_start(s, head->Some_0)
    } else {
        match plain_item_next(s, q) {
            Some(n) => if q < n <= s.len() {
                doc_body_error(s, n)
            } else {
                None
            },
            None => None,
        }
    }
}

/// An inline item at `q` inside a content slot whose reading the parser
/// owes: a `\\Children` directive without rules, or an element node as in
/// `node_head_end` whose own slot, if any, closes before any inline item.
/// The result is where the scan of the enclosing slot resumes.
#[verifier::opaque]
pub open spec fn inline_next(s: Seq<char>, q: int) -> Option<int> {
    let nq = after(s, q);
    let b = after(s, nq);
    if tok_is(s, q, TokenKind::Backslash) && tok_is(s, nq, TokenKind::Children) {
        if (b >= s.len() || tok_at(s, b)) && !tok_is(s, b, TokenKind::LBrace) {
            Some(b)
        } else {
            None
        }
    } else if node_head_end(s, q) is Some {
        let p2 = node_head_end(s, q)->Some_0;
        if tok_is(s, p2, TokenKind::LBrace) {
            if scan_stop(s, p2 + 1).0 is Close {
                Some(scan_stop(s, p2 + 1).1 + 1)
            } else {
                None
            }
        } else {
            Some(p2)
        }
    } else {
        None
    }
}

/// Scanning a slot's text from `p`: where its closing `}` stands, if every
/// inline item met on the way is one as in `inline_next`.
#[verifier::opaque]
pub open spec fn slot_close(s: Seq<char>, p: int) -> Option<int>
    decreases s.len() - p,
{
    if p < 0 {
        None
    } else {
        let (k, e) = scan_stop(s, p);
        if k is Close {
            Some(e)
        } else if k is Item {
            match inline_next(s, e) {
                Some(r) => if e < r <= s.len() {
                    proof {
                        lemma_scan_stop_bounds(s, p);
                    }
                    slot_close(s, r)
                } else {
                    None
                },
                None => None,
            }
        } else {
            None
        }
    }
}

/// One step of `slot_close`: what the scan from `p` stops at decides it.
pub proof fn lemma_slot_close_unfold(s: Seq<char>, p: int)
    requires
        0 <= p,
    ensures
        slot_close(s, p) is Some ==> scan_stop(s, p).0 is Close || scan_stop(s, p).0 is Item,
        scan_stop(s, p).0 is Close ==> slot_close(s, p) == Some(scan_stop(s, p).1),
        scan_stop(s, p).0 is Item && slot_close(s, p) is Some ==> (inline_next(s, scan_stop(s, p).1) matches Some(
            r,
        ) && slot_close(s, r) == slot_close(s, p)),
{
    reveal(slot_close);
}

/// Two places from which the scan stops at the same place close the slot
/// at the same place.
pub proof fn lemma_slot_close_step(s: Seq<char>, p: int, q: int)
    requires
        0 <= p,
        0 <= q,
        scan_stop(s, p) == scan_stop(s, q),
    ensures
        slot_close(s, p) == slot_close(s, q),
{
    reveal(slot_close);
}

} // verus!
