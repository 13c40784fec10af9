use vstd::prelude::*;
use crate::parser::cursor::{error_fits, quiet, quiet_upto};
use crate::ast::{
    BinaryExpr, BinaryOp, CallExpr, Expr, Ident, Literal, MemberAccessExpr, TernaryExpr,
    UnaryExpr, UnaryOp,
};
use crate::error::ParseError;
use crate::lexer::next_start;
use crate::parser::cursor::{kind_at, lex_end, tok_at, ParserCursor};
use crate::parser::grammar::{
    after, atom_kind, callee_kind, expr_reads, follow_ok, ident_expr_reads, lemma_after, lemma_infix_power,
    lemma_next, name_reads, op_power, owed_args, owed_expr, owed_prefix, owed_rest, prec, stops, tok_is,
};
use crate::span::Span;
use crate::syntax_copy::copy_ident;
use crate::token::{Token, TokenKind};

verus! {

broadcast use ParserCursor::lemma_wf_apos;

/// The cursor kept its source and stayed well formed.
pub open spec fn cursor_step(c0: ParserCursor, c1: ParserCursor) -> bool {
    &&& c1.wf()
    &&& c1.text() == c0.text()
    &&& c1.source_str() == c0.source_str()
}

pub open spec fn measure(c: ParserCursor) -> int {
    c.text().len() - c.apos()
}

/// `sp` starts at the token where `c0` stood, ends within the text, and
/// `c1` stands at the token after it.
pub open spec fn read_span(c0: ParserCursor, c1: ParserCursor, sp: Span) -> bool {
    &&& sp.start == c0.apos()
    &&& sp.start < sp.end <= c0.text().len()
    &&& c1.apos() == next_start(c0.text(), sp.end as int)
}

/// Parses a full expression.
pub fn parse_expr(cursor: &mut ParserCursor<'_>) -> (r: Result<Expr, ParseError>)
    requires
        old(cursor).wf(),
    ensures
        r is Ok && quiet_upto(*old(cursor), 2) ==> quiet(*final(cursor)),
        r matches Err(e) ==> error_fits(old(cursor).text(), e),
        cursor_step(*old(cursor), *final(cursor)),
        r is Ok ==> final(cursor).lpos() > old(cursor).apos(),
        r matches Ok(e) ==> expr_reads(old(cursor).text(), e) && read_span(
            *old(cursor),
            *final(cursor),
            e.spec_span(),
        ) && stops(old(cursor).text(), final(cursor).apos(), e, 0),
        owed_expr(old(cursor).text(), old(cursor).apos(), 0) matches Some(q) ==> r is Ok
            && final(cursor).apos() == q,
        r is Ok ==> final(cursor).apos() >= old(cursor).text().len() || tok_at(
            old(cursor).text(),
            final(cursor).apos(),
        ),
    decreases measure(*old(cursor)), 4int,
{
    proof {
        cursor.lemma_wf_bounds();
    }
    parse_expr_bp(cursor, 0)
}

/// Binding powers `(op, left, right)` of the infix operators; higher binds
/// tighter, and `right > left` makes every operator left-associative.
pub open spec fn spec_infix(k: TokenKind) -> Option<(BinaryOp, u8, u8)> {
    match k {
        TokenKind::PipePipe => Some((BinaryOp::Or, 1, 2)),
        TokenKind::AmpAmp => Some((BinaryOp::And, 3, 4)),
        TokenKind::EqEq => Some((BinaryOp::Eq, 5, 6)),
        TokenKind::BangEq => Some((BinaryOp::Ne, 5, 6)),
        TokenKind::Lt => Some((BinaryOp::Lt, 7, 8)),
        TokenKind::LtEq => Some((BinaryOp::Le, 7, 8)),
        TokenKind::Gt => Some((BinaryOp::Gt, 7, 8)),
        TokenKind::GtEq => Some((BinaryOp::Ge, 7, 8)),
        TokenKind::Plus => Some((BinaryOp::Add, 9, 10)),
        TokenKind::Minus => Some((BinaryOp::Sub, 9, 10)),
        TokenKind::Star => Some((BinaryOp::Mul, 11, 12)),
        TokenKind::Slash => Some((BinaryOp::Div, 11, 12)),
        TokenKind::Percent => Some((BinaryOp::Rem, 11, 12)),
        _ => None,
    }
}

fn infix_binding_power(token: &Token) -> (r: Option<(BinaryOp, u8, u8)>)
    ensures
        r == spec_infix(token.spec_kind()),
{
    match token {
        Token::PipePipe => Some((BinaryOp::Or, 1, 2)),
        Token::AmpAmp => Some((BinaryOp::And, 3, 4)),
        Token::EqEq => Some((BinaryOp::Eq, 5, 6)),
        Token::BangEq => Some((BinaryOp::Ne, 5, 6)),
        Token::Lt => Some((BinaryOp::Lt, 7, 8)),
        Token::LtEq => Some((BinaryOp::Le, 7, 8)),
        Token::Gt => Some((BinaryOp::Gt, 7, 8)),
        Token::GtEq => Some((BinaryOp::Ge, 7, 8)),
        Token::Plus => Some((BinaryOp::Add, 9, 10)),
        Token::Minus => Some((BinaryOp::Sub, 9, 10)),
        Token::Star => Some((BinaryOp::Mul, 11, 12)),
        Token::Slash => Some((BinaryOp::Div, 11, 12)),
        Token::Percent => Some((BinaryOp::Rem, 11, 12)),
        _ => None,
    }
}

/// Precedence climbing: parses a prefix expression, then postfix member
/// accesses and calls, a ternary (only at `min_bp == 0`) and infix operators
/// whose left binding power is at least `min_bp`.
#[verifier::spinoff_prover]
#[verifier::rlimit(60)]
fn parse_expr_bp(cursor: &mut ParserCursor<'_>, min_bp: u8) -> (r: Result<Expr, ParseError>)
    requires
        old(cursor).wf(),
        min_bp <= 13,
    ensures
        r is Ok && quiet_upto(*old(cursor), 2) ==> quiet(*final(cursor)),
        r matches Err(e) ==> error_fits(old(cursor).text(), e),
        cursor_step(*old(cursor), *final(cursor)),
        r is Ok ==> final(cursor).lpos() > old(cursor).apos(),
        r matches Ok(e) ==> expr_reads(old(cursor).text(), e) && read_span(
            *old(cursor),
            *final(cursor),
            e.spec_span(),
        ) && prec(e) >= min_bp && stops(old(cursor).text(), final(cursor).apos(), e, min_bp as int),
        owed_expr(old(cursor).text(), old(cursor).apos(), min_bp as int) matches Some(q) ==> r is Ok
            && final(cursor).apos() == q,
        r is Ok ==> final(cursor).apos() >= old(cursor).text().len() || tok_at(
            old(cursor).text(),
            final(cursor).apos(),
        ),
    decreases measure(*old(cursor)), 3int,
{
    let ghost a0 = cursor.apos();
    let ghost s = cursor.text();
    proof {
        cursor.lemma_wf_bounds();
    }
    let ghost goal = owed_expr(s, a0, min_bp as int);
    proof {
        crate::parser::grammar::lemma_owed_expr_step(s, a0, min_bp as int);
    }
    let mut lhs = parse_prefix(cursor)?;
    loop
        invariant
            cursor_step(*old(cursor), *cursor),
            cursor.lpos() > a0,
            a0 == old(cursor).apos(),
            s == old(cursor).text(),
            expr_reads(s, lhs),
            lhs.spec_span().start == a0,
            a0 < lhs.spec_span().end <= s.len(),
            cursor.apos() == next_start(s, lhs.spec_span().end as int),
            prec(lhs) >= min_bp,
            quiet_upto(*old(cursor), 2) ==> quiet(*cursor),
            follow_ok(s, cursor.apos(), lhs),
            goal == owed_expr(s, a0, min_bp as int),
            goal matches Some(q) ==> owed_rest(s, cursor.apos(), min_bp as int, lhs is Ident) == Some(q),
        ensures
            cursor_step(*old(cursor), *cursor),
            cursor.lpos() > a0,
            expr_reads(s, lhs),
            lhs.spec_span().start == a0,
            a0 < lhs.spec_span().end <= s.len(),
            cursor.apos() == next_start(s, lhs.spec_span().end as int),
            prec(lhs) >= min_bp,
            quiet_upto(*old(cursor), 2) ==> quiet(*cursor),
            stops(s, cursor.apos(), lhs, min_bp as int),
            goal matches Some(q) ==> cursor.apos() == q,
            cursor.apos() >= s.len() || tok_at(s, cursor.apos()),
        decreases measure(*cursor),
    {
        proof {
            cursor.lemma_wf_bounds();
            lemma_next(s, lhs.spec_span().end as int);
        }
        let ghost q = cursor.apos();
        proof {
            crate::parser::grammar::lemma_owed_rest_step(s, q, min_bp as int, lhs is Ident);
        }
        let peeked = match cursor.peek_token()? {
            Some(p) => p,
            None => break,
        };
        let tk = peeked.0.kind();
        if tk == TokenKind::Dot {
            cursor.consume_token(&Token::Dot)?;
            proof {
                lemma_after(s, q);
            }
            let member = parse_ident(cursor)?;
            let span = lhs.span().merge(member.span);
            lhs = Expr::MemberAccess(MemberAccessExpr { target: Box::new(lhs), member, span });
            continue;
        }
        if tk == TokenKind::LParen {
            if let Expr::Ident(callee) = &lhs {
                let callee = copy_ident(callee);
                let ghost m0 = measure(*cursor);
                let open_span = cursor.consume_token(&Token::LParen)?;
                let ghost p0 = cursor.apos();
                let ghost targs = owed_args(s, p0);
                proof {
                    lemma_after(s, q);
                }
                let mut args: Vec<Expr> = Vec::new();
                loop
                    invariant_except_break
                        crate::parser::grammar::args_read(s, args@, p0) == Some((cursor.apos(), true)),
                    invariant
                        measure(*cursor) < m0,
                        cursor_step(*old(cursor), *cursor),
                        cursor.lpos() > a0,
                        a0 == old(cursor).apos(),
                        s == old(cursor).text(),
                        quiet_upto(*old(cursor), 2) ==> quiet(*cursor),
                        p0 <= cursor.apos() <= s.len(),
                        crate::parser::grammar::args_read(s, args@, p0) matches Some((e, _)) && e == cursor.apos(),
                        targs == owed_args(s, p0),
                        targs matches Some(cl) ==> owed_args(s, cursor.apos()) == Some(cl),
                        goal == owed_expr(s, a0, min_bp as int),
                        goal is Some ==> targs is Some,
                    ensures
                        targs matches Some(cl) ==> cursor.apos() == cl,
                        measure(*cursor) < m0,
                        cursor_step(*old(cursor), *cursor),
                        cursor.lpos() > a0,
                        p0 <= cursor.apos() <= s.len(),
                        quiet_upto(*old(cursor), 2) ==> quiet(*cursor),
                        crate::parser::grammar::args_read(s, args@, p0) matches Some((e, _)) && e == cursor.apos(),
                    decreases measure(*cursor),
                {
                    proof {
                        cursor.lemma_wf_bounds();
                        crate::parser::grammar::lemma_owed_tok(s, cursor.apos(), 0);
                        crate::parser::grammar::lemma_owed_args_step(s, cursor.apos());
                    }
                    match cursor.peek_token()? {
                        Some((tok, _)) => {
                            if tok.kind() == TokenKind::RParen {
                                break;
                            }
                        },
                        None => break,
                    }
                    let ghost before = args@;
                    let arg = parse_expr_bp(cursor, 0)?;
                    args.push(arg);
                    proof {
                        assert(args@.drop_last() =~= before);
                        cursor.lemma_wf_bounds();
                        lemma_next(s, arg.spec_span().end as int);
                    }
                    let ghost r0 = cursor.apos();
                    let is_comma = match cursor.peek_token()? {
                        Some((Token::Comma, _)) => true,
                        _ => false,
                    };
                    if is_comma {
                        cursor.consume_token(&Token::Comma)?;
                        proof {
                            lemma_after(s, r0);
                        }
                    } else {
                        proof {
                            crate::parser::grammar::lemma_owed_args_step(s, r0);
                        }
                        break;
                    }
                }
                let ghost cl = cursor.apos();
                proof {
                    crate::parser::grammar::lemma_owed_args_close(s, p0);
                }
                let close_span = cursor.consume_token(&Token::RParen)?;
                let call_span = open_span.merge(close_span);
                proof {
                    lemma_after(s, cl);
                }
                let span = lhs.span().merge(call_span);
                lhs = Expr::Call(CallExpr { callee, args, span });
                continue;
            }
        }
        if tk == TokenKind::Question {
            if min_bp > 0 {
                break;
            }
            cursor.consume_token(&Token::Question)?;
            proof {
                lemma_after(s, q);
            }
            let then_expr = parse_expr_bp(cursor, 0)?;
            let ghost c = cursor.apos();
            proof {
                cursor.lemma_wf_bounds();
                lemma_next(s, then_expr.spec_span().end as int);
            }
            cursor.consume_token(&Token::Colon)?;
            proof {
                lemma_after(s, c);
            }
            let else_expr = parse_expr_bp(cursor, 0)?;
            let span = lhs.span().merge(else_expr.span());
            lhs = Expr::Ternary(
                TernaryExpr {
                    condition: Box::new(lhs),
                    then_expr: Box::new(then_expr),
                    else_expr: Box::new(else_expr),
                    span,
                },
            );
            continue;
        }
        if let Some((bin_op, left_bp, right_bp)) = infix_binding_power(&peeked.0) {
            if left_bp < min_bp {
                break;
            }
            proof {
                lemma_infix_power(peeked.0.spec_kind());
            }
            cursor.next_token()?;
            proof {
                lemma_after(s, q);
            }
            let rhs = parse_expr_bp(cursor, right_bp)?;
            let span = lhs.span().merge(rhs.span());
            lhs = Expr::Binary(
                BinaryExpr { op: bin_op, left: Box::new(lhs), right: Box::new(rhs), span },
            );
            continue;
        }
        break;
    }
    Ok(lhs)
}

/// A literal, identifier, inline element node, unary operator or
/// parenthesized expression.
#[verifier::spinoff_prover]
#[verifier::rlimit(40)]
fn parse_prefix(cursor: &mut ParserCursor<'_>) -> (r: Result<Expr, ParseError>)
    requires
        old(cursor).wf(),
    ensures
        r is Ok && quiet_upto(*old(cursor), 2) ==> quiet(*final(cursor)),
        r matches Err(e) ==> error_fits(old(cursor).text(), e),
        cursor_step(*old(cursor), *final(cursor)),
        r is Ok ==> final(cursor).lpos() > old(cursor).apos(),
        r matches Ok(e) ==> expr_reads(old(cursor).text(), e) && read_span(
            *old(cursor),
            *final(cursor),
            e.spec_span(),
        ) && prec(e) >= 13 && follow_ok(old(cursor).text(), final(cursor).apos(), e),
        owed_prefix(old(cursor).text(), old(cursor).apos()) matches Some((p, id)) ==> (r matches Ok(e)
            && final(cursor).apos() == p && (e is Ident <==> id)),
    decreases measure(*old(cursor)), 2int,
{
    let ghost s = cursor.text();
    let ghost a0 = cursor.apos();
    proof {
        crate::parser::grammar::lemma_owed_prefix_step(s, a0);
        cursor.lemma_wf_bounds();
        lemma_next(s, cursor.lpos());
    }
    let first_is_backslash = match cursor.peek_token()? {
        Some((Token::Backslash, _)) => true,
        _ => false,
    };
    if first_is_backslash {
        let ghost q1 = after(s, a0);
        let second_not_children = match cursor.peek_nth(1)? {
            Some((t, sp1)) => {
                proof {
                    assert(crate::parser::cursor::nth_start(s, a0, 0) == a0);
                    assert(sp1.start == q1);
                }
                t.kind() != TokenKind::Children
            },
            None => false,
        };
        if second_not_children {
            return prefix_node(cursor, Ghost(q1));
        }
    }
    let (tok, span) = cursor.expect_token("expression")?;
    proof {
        cursor.lemma_wf_bounds();
        lemma_after(s, a0);
    }
    match tok {
        Token::Minus => {
            let operand = parse_expr_bp(cursor, 13)?;
            let total_span = span.merge(operand.span());
            Ok(Expr::Unary(UnaryExpr { op: UnaryOp::Neg, operand: Box::new(operand), span: total_span }))
        },
        Token::Bang => {
            let operand = parse_expr_bp(cursor, 13)?;
            let total_span = span.merge(operand.span());
            Ok(Expr::Unary(UnaryExpr { op: UnaryOp::Not, operand: Box::new(operand), span: total_span }))
        },
        Token::LParen => {
            let inner = parse_expr_bp(cursor, 0)?;
            let ghost cl = cursor.apos();
            proof {
                cursor.lemma_wf_bounds();
                lemma_next(s, inner.spec_span().end as int);
            }
            let rparen_span = cursor.consume_token(&Token::RParen)?;
            proof {
                lemma_after(s, cl);
                cursor.lemma_wf_bounds();
            }
            let total_span = span.merge(rparen_span);
            Ok(Expr::Paren(Box::new(inner), total_span))
        },
        other => atom(other, span, Ghost(s)),
    }
}

/// An element node used as an expression; the token after its `\\` is not
/// `Children`.
fn prefix_node(cursor: &mut ParserCursor<'_>, Ghost(q1): Ghost<int>) -> (r: Result<Expr, ParseError>)
    requires
        old(cursor).wf(),
        q1 == after(old(cursor).text(), old(cursor).apos()),
        !tok_is(old(cursor).text(), q1, TokenKind::Children),
    ensures
        r is Ok && quiet_upto(*old(cursor), 2) ==> quiet(*final(cursor)),
        r matches Err(e) ==> error_fits(old(cursor).text(), e),
        cursor_step(*old(cursor), *final(cursor)),
        r is Ok ==> final(cursor).lpos() > old(cursor).apos(),
        r matches Ok(e) ==> expr_reads(old(cursor).text(), e) && read_span(
            *old(cursor),
            *final(cursor),
            e.spec_span(),
        ) && prec(e) == 14,
    decreases measure(*old(cursor)), 1int,
{
    let node = crate::parser::node::parse_element_node(cursor)?;
    Ok(Expr::Node(Box::new(node)))
}

/// The expression a single token stands for: a literal or an identifier.
fn atom(tok: Token, span: Span, Ghost(s): Ghost<Seq<char>>) -> (r: Result<Expr, ParseError>)
    requires
        0 <= span.start,
        tok_at(s, span.start as int),
        crate::lexer::token_at(s, span.start as int, tok, span.end as int),
    ensures
        r matches Err(e) ==> error_fits(s, e),
        r matches Ok(e) ==> expr_reads(s, e) && e.spec_span() == span && prec(e) == 14,
        atom_kind(kind_at(s, span.start as int)) ==> r is Ok,
        r matches Ok(e) ==> (e is Ident <==> callee_kind(kind_at(s, span.start as int))),
{
    match tok {
        Token::Number(val) => Ok(Expr::Literal(Literal::Number(val, span))),
        Token::String(val) => Ok(Expr::Literal(Literal::String(val, span))),
        Token::Color(val) => Ok(Expr::Literal(Literal::Color(val, span))),
        Token::True => Ok(Expr::Literal(Literal::Bool(true, span))),
        Token::False => Ok(Expr::Literal(Literal::Bool(false, span))),
        Token::Ident(name) => Ok(Expr::Ident(Ident { name, span })),
        Token::Children => Ok(Expr::Ident(Ident::new("Children", span))),
        Token::Env => Ok(Expr::Ident(Ident::new("env", span))),
        other => Err(
            ParseError::UnexpectedToken {
                expected: "expression (literal, identifier, unary operator, or parenthesis)".to_owned(),
                found: other.to_text(),
                span,
            },
        ),
    }
}

/// Parses an identifier; the keywords `Children` and `Component` are accepted
/// as names.
pub fn parse_ident(cursor: &mut ParserCursor<'_>) -> (r: Result<Ident, ParseError>)
    requires
        old(cursor).wf(),
    ensures
        r is Ok && quiet_upto(*old(cursor), 2) ==> quiet(*final(cursor)),
        r matches Err(e) ==> error_fits(old(cursor).text(), e),
        cursor_step(*old(cursor), *final(cursor)),
        r is Ok ==> final(cursor).lpos() > old(cursor).apos(),
        r matches Ok(id) ==> name_reads(old(cursor).text(), id) && read_span(
            *old(cursor),
            *final(cursor),
            id.span,
        ),
        r is Err ==> !(tok_is(old(cursor).text(), old(cursor).apos(), TokenKind::Ident) || tok_is(
            old(cursor).text(),
            old(cursor).apos(),
            TokenKind::Children,
        ) || tok_is(old(cursor).text(), old(cursor).apos(), TokenKind::Component)),
{
    let (tok, span) = cursor.expect_token("identifier")?;
    proof {
        cursor.lemma_wf_bounds();
    }
    match tok {
        Token::Ident(name) => Ok(Ident { name, span }),
        Token::Children => Ok(Ident::new("Children", span)),
        Token::Component => Ok(Ident::new("Component", span)),
        other => Err(
            ParseError::UnexpectedToken {
                expected: "identifier".to_owned(),
                found: other.to_text(),
                span,
            },
        ),
    }
}

} // verus!
