use vstd::prelude::*;
use crate::parser::cursor::error_fits;
use crate::ast::{ComponentBodyItem, ComponentDef, Expr, Ident, LetBinding, LetValue, ParamDef, TypeRef};
use crate::error::ParseError;
use crate::lexer::next_start;
use crate::parser::cursor::{consume_error, kind_at, lex_end, tok_at, ParserCursor};
use crate::parser::expr::{cursor_step, measure, parse_expr, parse_ident, read_span};
use crate::parser::grammar::{
    after, binding_end, binding_head_end, binding_next, body_item_next, body_read, children_ahead,
    component_reads, lemma_after, lemma_next, let_reads, name_reads, param_end, param_reads,
    binding_head_pos, node_head_end, node_next, owed_rules_close, params_read, past_semicolon, scan_stop, payload_at, name_tok, owed_expr, simple_let_end, tail_end, tok_is, type_reads, type_then, typed_tail_reads, value_reads, value_span,
};
use crate::parser::node::{parse_children_directive, parse_element_node};
use crate::span::Span;
use crate::token::{Token, TokenKind};

verus! {

broadcast use ParserCursor::lemma_wf_apos;

/// An identifier that starts with an upper-case letter names a type.
pub open spec fn is_ty_name(name: Seq<char>) -> bool {
    name.len() > 0 && 'A' <= name[0] && name[0] <= 'Z'
}

/// What follows the `:` of a parameter at `q`, read as the parser owes it:
/// a type name and `:` or `=` with an expression as in `owed_expr`, a type
/// name before `,` or `)`, or else such an expression alone. The result is where the
/// token after it starts.
pub open spec fn simple_tail_end(s: Seq<char>, q: int) -> Option<int> {
    let n = after(s, q);
    let typed = tok_is(s, q, TokenKind::Ident) && is_ty_name(payload_at(s, q));
    if typed && (tok_is(s, n, TokenKind::Colon) || tok_is(s, n, TokenKind::Eq)) {
        owed_expr(s, after(s, n), 0)
    } else if typed && (tok_is(s, n, TokenKind::Comma) || tok_is(s, n, TokenKind::RParen)) {
        Some(n)
    } else {
        owed_expr(s, q, 0)
    }
}

/// A parameter at `q` whose reading the parser owes: `[env] name`, then
/// nothing more, `:` and a tail as above, or `=` and an expression as in
/// `owed_expr`.
/// The result is where the token after it starts.
#[verifier::opaque]
pub open spec fn simple_param_end(s: Seq<char>, q: int) -> Option<int> {
    let nq = if tok_is(s, q, TokenKind::Env) {
        after(s, q)
    } else {
        q
    };
    let p1 = after(s, nq);
    if name_tok(s, nq) && (p1 >= s.len() || tok_at(s, p1)) {
        if tok_is(s, p1, TokenKind::Colon) {
            simple_tail_end(s, after(s, p1))
        } else if tok_is(s, p1, TokenKind::Eq) {
            owed_expr(s, after(s, p1), 0)
        } else {
            Some(p1)
        }
    } else {
        None
    }
}

/// From `q`, such parameters separated by commas (a trailing comma allowed)
/// up to a `)`; the result is where that `)` starts.
pub open spec fn simple_params_close(s: Seq<char>, q: int) -> Option<int>
    decreases s.len() - q,
{
    if tok_is(s, q, TokenKind::RParen) {
        Some(q)
    } else {
        match simple_param_end(s, q) {
            Some(e) => if tok_is(s, e, TokenKind::RParen) {
                Some(e)
            } else if tok_is(s, e, TokenKind::Comma) && q < after(s, e) <= s.len() {
                simple_params_close(s, after(s, e))
            } else {
                None
            },
            None => None,
        }
    }
}

/// A component body item at `q` whose reading the parser owes: a binding
/// as in `simple_let_end`, a `\\Children` directive with rules as in
/// `owed_rules_close` or none, or an
/// element node whose content slot, if any, is read as in `slot_close`.
/// The result is where the token after it starts.
#[verifier::opaque]
pub open spec fn simple_body_item_next(s: Seq<char>, q: int) -> Option<int> {
    let nq = after(s, q);
    let b = after(s, nq);
    if (tok_is(s, q, TokenKind::Let) || tok_is(s, q, TokenKind::Env)) && simple_let_end(s, q) is Some {
        Some(past_semicolon(s, simple_let_end(s, q)->Some_0))
    } else if tok_is(s, q, TokenKind::Backslash) && tok_is(s, nq, TokenKind::Children) {
        if (b >= s.len() || tok_at(s, b)) && !tok_is(s, b, TokenKind::LBrace) {
            Some(b)
        } else if tok_is(s, b, TokenKind::LBrace) && owed_rules_close(s, after(s, b)) is Some {
            Some(after(s, owed_rules_close(s, after(s, b))->Some_0))
        } else {
            None
        }
    } else if tok_is(s, q, TokenKind::Backslash) && node_head_end(s, q) is Some {
        let p2 = node_head_end(s, q)->Some_0;
        if tok_is(s, p2, TokenKind::LBrace) {
            match crate::parser::grammar::slot_close(s, p2 + 1) {
                Some(cl) => Some(next_start(s, cl + 1)),
                None => None,
            }
        } else {
            Some(p2)
        }
    } else {
        None
    }
}

/// From `q`, such body items up to a `}`; the result is where it starts.
pub open spec fn simple_body_close(s: Seq<char>, q: int) -> Option<int>
    decreases s.len() - q,
{
    if tok_is(s, q, TokenKind::RBrace) {
        Some(q)
    } else {
        match simple_body_item_next(s, q) {
            Some(n) => if q < n <= s.len() {
                simple_body_close(s, n)
            } else {
                None
            },
            None => None,
        }
    }
}

/// Where the `{` of a component definition at `q` stands: after its name,
/// or after a parameter list as in `simple_params_close`; -1 if that list
/// is not one.
pub open spec fn component_lbrace(s: Seq<char>, q: int) -> int {
    let p1 = after(s, after(s, after(s, q)));
    if tok_is(s, p1, TokenKind::LParen) {
        match simple_params_close(s, after(s, p1)) {
            Some(cl) => after(s, cl),
            None => -1,
        }
    } else {
        p1
    }
}

/// From `q`, body items as in `simple_body_item_next`, then a token that
/// starts no body item and is not `}`: the result is where that token
/// starts.
pub open spec fn body_bad_start(s: Seq<char>, q: int) -> Option<int>
    decreases s.len() - q,
{
    if tok_at(s, q) && kind_at(s, q) != TokenKind::Let && kind_at(s, q) != TokenKind::Env && kind_at(s, q)
        != TokenKind::Backslash && kind_at(s, q) != TokenKind::RBrace {
        Some(q)
    } else if tok_is(s, q, TokenKind::RBrace) {
        None
    } else {
        match simple_body_item_next(s, q) {
            Some(n) => if q < n <= s.len() {
                body_bad_start(s, n)
            } else {
                None
            },
            None => None,
        }
    }
}

/// Where the body of a component definition at `q` starts, for a head the
/// parser owes: `\\Component`, a name, a parameter list as in
/// `simple_params_close` if a `(` follows, and `{`.
#[verifier::opaque]
pub open spec fn component_body_start(s: Seq<char>, q: int) -> Option<int> {
    let p1 = after(s, after(s, after(s, q)));
    if tok_is(s, q, TokenKind::Backslash) && tok_is(s, after(s, q), TokenKind::Component) && name_tok(
        s,
        after(s, after(s, q)),
    ) && (p1 >= s.len() || tok_at(s, p1)) && tok_is(s, component_lbrace(s, q), TokenKind::LBrace) {
        Some(after(s, component_lbrace(s, q)))
    } else {
        None
    }
}

proof fn lemma_component_head(s: Seq<char>, q: int)
    requires
        component_body_start(s, q) is Some,
    ensures
        tok_is(s, q, TokenKind::Backslash),
        tok_is(s, after(s, q), TokenKind::Component),
        name_tok(s, after(s, after(s, q))),
        after(s, after(s, after(s, q))) >= s.len() || tok_at(s, after(s, after(s, after(s, q)))),
        tok_is(s, component_lbrace(s, q), TokenKind::LBrace),
        component_body_start(s, q) == Some(after(s, component_lbrace(s, q))),
{
    reveal(component_body_start);
}

/// A component definition at `q` whose reading the parser owes:
/// `\\Component`, a name, a parameter list as in `simple_params_close` if a
/// `(` follows, and a body as in `simple_body_close`. The result is where
/// the token after its `}` starts.
#[verifier::opaque]
pub open spec fn simple_component_next(s: Seq<char>, q: int) -> Option<int> {
    let k = after(s, q);
    let nq = after(s, k);
    let p1 = after(s, nq);
    let lb = component_lbrace(s, q);
    if tok_is(s, q, TokenKind::Backslash) && tok_is(s, k, TokenKind::Component) && name_tok(s, nq) && (p1
        >= s.len() || tok_at(s, p1)) && tok_is(s, lb, TokenKind::LBrace) {
        match simple_body_close(s, after(s, lb)) {
            Some(cl) => Some(after(s, cl)),
            None => None,
        }
    } else {
        None
    }
}

proof fn lemma_param_end_tok(s: Seq<char>, q: int)
    ensures
        simple_param_end(s, q) is Some ==> tok_at(s, q),
{
    reveal(simple_param_end);
}

proof fn lemma_body_item_tok(s: Seq<char>, q: int)
    ensures
        simple_body_item_next(s, q) is Some ==> tok_at(s, q),
{
    reveal(simple_body_item_next);
}

proof fn lemma_body_close_rbrace(s: Seq<char>, q: int)
    ensures
        simple_body_close(s, q) matches Some(cl) ==> tok_is(s, cl, TokenKind::RBrace),
    decreases s.len() - q,
{
    if !tok_is(s, q, TokenKind::RBrace) {
        if let Some(n) = simple_body_item_next(s, q) {
            if q < n <= s.len() {
                lemma_body_close_rbrace(s, n);
            }
        }
    }
}

proof fn lemma_component_goal(s: Seq<char>, q: int)
    requires
        simple_component_next(s, q) is Some,
    ensures
        tok_is(s, q, TokenKind::Backslash),
        tok_is(s, after(s, q), TokenKind::Component),
        name_tok(s, after(s, after(s, q))),
        after(s, after(s, after(s, q))) >= s.len() || tok_at(s, after(s, after(s, after(s, q)))),
        tok_is(s, component_lbrace(s, q), TokenKind::LBrace),
        simple_body_close(s, after(s, component_lbrace(s, q))) matches Some(cl) && simple_component_next(s, q)
            == Some(after(s, cl)),
{
    reveal(simple_component_next);
}

fn starts_uppercase(name: &String) -> (b: bool)
    ensures
        b == is_ty_name(name@),
{
    let v = crate::chars::str_chars(name.as_str());
    v.len() > 0 && 'A' <= v[0] && v[0] <= 'Z'
}

/// What follows the `:` of a parameter: `Type: expr`, `Type = expr`, `Type`
/// before `,` or `)`, or a default expression.
fn parse_typed_tail(cursor: &mut ParserCursor<'_>) -> (r: Result<(Option<TypeRef>, Option<Expr>), ParseError>)
    requires
        old(cursor).wf(),
    ensures
        r matches Err(e) ==> error_fits(old(cursor).text(), e),
        cursor_step(*old(cursor), *final(cursor)),
        r is Ok ==> final(cursor).lpos() > old(cursor).apos(),
        r matches Ok((ty, d)) ==> {
            let s = old(cursor).text();
            let a0 = old(cursor).apos();
            &&& typed_tail_reads(s, a0, ty, d)
            &&& a0 < tail_end(ty, d, a0) <= s.len()
            &&& final(cursor).apos() == next_start(s, tail_end(ty, d, a0))
        },
        simple_tail_end(old(cursor).text(), old(cursor).apos()) matches Some(e) ==> r is Ok
            && final(cursor).apos() == e,
{
    let ghost a0 = cursor.apos();
    let ghost s = cursor.text();
    proof {
        cursor.lemma_wf_bounds();
        lemma_next(s, cursor.lpos());
        crate::parser::grammar::lemma_owed_tok(s, a0, 0);
        crate::parser::grammar::lemma_owed_next(s, a0, 0);
    }
    let tok0 = cursor.peek_token()?;
    let tok1 = cursor.peek_nth(1)?;
    proof {
        if tok0 is Some {
            lemma_after(s, a0);
            assert(crate::parser::cursor::nth_start(s, a0, 0) == a0);
            assert(crate::parser::cursor::nth_start(s, a0, 1) == after(s, a0));
        }
    }
    match (tok0, tok1) {
        (Some((Token::Ident(ty_name), span0)), Some((t1, _))) => {
            let k1 = t1.kind();
            if starts_uppercase(&ty_name) {
                if k1 == TokenKind::Colon || k1 == TokenKind::Eq {
                    cursor.next_token()?;
                    let ghost c = cursor.apos();
                    let ty = TypeRef { name: Ident { name: ty_name, span: span0 }, span: span0 };
                    let then_eq = match cursor.peek_token()? {
                        Some((Token::Eq, _)) => true,
                        _ => false,
                    };
                    if then_eq {
                        cursor.consume_token(&Token::Eq)?;
                    } else {
                        cursor.consume_token(&Token::Colon)?;
                    }
                    proof {
                        lemma_after(s, c);
                    }
                    let e = parse_expr(cursor)?;
                    return Ok((Some(ty), Some(e)));
                } else if k1 == TokenKind::Comma || k1 == TokenKind::RParen {
                    cursor.next_token()?;
                    let ty = TypeRef { name: Ident { name: ty_name, span: span0 }, span: span0 };
                    return Ok((Some(ty), None));
                }
            }
        },
        _ => {},
    }
    let e = parse_expr(cursor)?;
    Ok((None, Some(e)))
}

/// Parses a parameter of a component signature:
/// `[env] name`, `name: Type`, `name: Type: expr`, `name: Type = expr`,
/// `name: expr` or `name = expr`.
#[verifier::spinoff_prover]
#[verifier::rlimit(60)]
pub fn parse_param_def(cursor: &mut ParserCursor<'_>) -> (r: Result<ParamDef, ParseError>)
    requires
        old(cursor).wf(),
    ensures
        r matches Err(e) ==> error_fits(old(cursor).text(), e),
        cursor_step(*old(cursor), *final(cursor)),
        r is Ok ==> final(cursor).lpos() > old(cursor).apos(),
        r matches Ok(p) ==> {
            let s = old(cursor).text();
            &&& param_reads(s, p, old(cursor).apos())
            &&& param_end(p) <= s.len()
            &&& final(cursor).apos() == next_start(s, param_end(p))
        },
        simple_param_end(old(cursor).text(), old(cursor).apos()) matches Some(e) ==> r is Ok
            && final(cursor).apos() == e,
{
    proof {
        reveal(simple_param_end);
    }
    let ghost a0 = cursor.apos();
    let ghost s = cursor.text();
    proof {
        cursor.lemma_wf_bounds();
    }
    let is_env = match cursor.peek_token()? {
        Some((Token::Env, _)) => true,
        _ => false,
    };
    if is_env {
        cursor.consume_token(&Token::Env)?;
        proof {
            lemma_after(s, a0);
        }
    }
    let name = parse_ident(cursor)?;
    let ghost p1 = cursor.apos();
    proof {
        cursor.lemma_wf_bounds();
        lemma_next(s, name.span.end as int);
        lemma_after(s, name.span.start as int);
    }
    let has_colon = match cursor.peek_token()? {
        Some((Token::Colon, _)) => true,
        _ => false,
    };
    let has_eq = match cursor.peek_token()? {
        Some((Token::Eq, _)) => true,
        _ => false,
    };
    let (type_annotation, default_edge) = if has_colon {
        cursor.consume_token(&Token::Colon)?;
        proof {
            lemma_after(s, p1);
        }
        parse_typed_tail(cursor)?
    } else if has_eq {
        cursor.consume_token(&Token::Eq)?;
        proof {
            lemma_after(s, p1);
        }
        let e = parse_expr(cursor)?;
        (None, Some(e))
    } else {
        (None, None)
    };
    let end_span = match &default_edge {
        Some(e) => e.span(),
        None => match &type_annotation {
            Some(t) => t.span,
            None => name.span,
        },
    };
    let span = name.span.merge(end_span);
    let p = ParamDef { name, type_annotation, default_edge, is_env, span };
    proof {
        let t0 = after(s, p1);
        if has_colon {
            lemma_after(s, p1);
            if p.type_annotation is Some {
                assert(p.type_annotation->Some_0.span.start == t0);
                lemma_after(s, t0);
            }
            if p.default_edge is Some && p.type_annotation is Some {
                lemma_after(s, t0);
                lemma_after(s, after(s, t0));
            }
            assert(tail_end(p.type_annotation, p.default_edge, t0) == param_end(p));
        }
    }
    Ok(p)
}

/// Parses a parameter list: `(param1, param2, ...)`.
pub fn parse_param_list(cursor: &mut ParserCursor<'_>) -> (r: Result<(Vec<ParamDef>, Span), ParseError>)
    requires
        old(cursor).wf(),
    ensures
        r matches Err(e) ==> error_fits(old(cursor).text(), e),
        cursor_step(*old(cursor), *final(cursor)),
        r is Ok ==> final(cursor).lpos() > old(cursor).apos(),
        r matches Ok((params, sp)) ==> {
            let s = old(cursor).text();
            &&& tok_is(s, sp.start as int, TokenKind::LParen)
            &&& params_read(s, params@, after(s, sp.start as int)) matches Some((cl, _))
            &&& tok_is(s, cl, TokenKind::RParen)
            &&& sp.end == lex_end(s, cl)
            &&& read_span(*old(cursor), *final(cursor), sp)
        },
        tok_is(old(cursor).text(), old(cursor).apos(), TokenKind::LParen) ==> (simple_params_close(
            old(cursor).text(),
            after(old(cursor).text(), old(cursor).apos()),
        ) matches Some(cl) ==> r is Ok && final(cursor).apos() == after(old(cursor).text(), cl)),
{
    let ghost a0 = cursor.apos();
    let ghost s = cursor.text();
    let ghost goal = if tok_is(s, a0, TokenKind::LParen) {
        simple_params_close(s, after(s, a0))
    } else {
        None
    };
    let open_span = cursor.consume_token(&Token::LParen)?;
    let ghost p0 = cursor.apos();
    proof {
        lemma_after(s, a0);
    }
    let mut params: Vec<ParamDef> = Vec::new();
    loop
        invariant_except_break
            params_read(s, params@, p0) == Some((cursor.apos(), true)),
        invariant
            cursor_step(*old(cursor), *cursor),
            cursor.lpos() > a0,
            a0 == old(cursor).apos(),
            s == old(cursor).text(),
            p0 <= cursor.apos() <= s.len(),
            params_read(s, params@, p0) matches Some((e, _)) && e == cursor.apos(),
            goal == (if tok_is(s, a0, TokenKind::LParen) { simple_params_close(s, after(s, a0)) } else { None }),
            goal matches Some(cl) ==> simple_params_close(s, cursor.apos()) == Some(cl),
        ensures
            cursor_step(*old(cursor), *cursor),
            cursor.lpos() > a0,
            p0 <= cursor.apos() <= s.len(),
            params_read(s, params@, p0) matches Some((e, _)) && e == cursor.apos(),
            goal == (if tok_is(s, a0, TokenKind::LParen) { simple_params_close(s, after(s, a0)) } else { None }),
            goal matches Some(cl) ==> cursor.apos() == cl && tok_is(s, cl, TokenKind::RParen),
        decreases measure(*cursor),
    {
        proof {
            cursor.lemma_wf_bounds();
            lemma_param_end_tok(s, cursor.apos());
        }
        match cursor.peek_token()? {
            Some((tok, _)) => {
                if tok.kind() == TokenKind::RParen {
                    break;
                }
            },
            None => break,
        }
        let ghost before = params@;
        let param = parse_param_def(cursor)?;
        params.push(param);
        proof {
            assert(params@.drop_last() =~= before);
            cursor.lemma_wf_bounds();
            lemma_next(s, param_end(param));
        }
        let ghost r0 = cursor.apos();
        let is_comma = match cursor.peek_token()? {
            Some((Token::Comma, _)) => true,
            _ => false,
        };
        if is_comma {
            cursor.consume_token(&Token::Comma)?;
            proof {
                lemma_after(s, r0);
            }
        } else {
            break;
        }
    }
    let ghost cl = cursor.apos();
    let close_span = cursor.consume_token(&Token::RParen)?;
    proof {
        lemma_after(s, cl);
        cursor.lemma_wf_bounds();
    }
    let span = open_span.merge(close_span);
    Ok((params, span))
}

/// One item of a component body: a `let` or `env` binding, a `\\Children`
/// directive or an element node.
fn parse_body_item(cursor: &mut ParserCursor<'_>, k: TokenKind) -> (r: Result<ComponentBodyItem, ParseError>)
    requires
        old(cursor).wf(),
        tok_is(old(cursor).text(), old(cursor).apos(), k),
        k != TokenKind::RBrace,
    ensures
        r matches Err(e) ==> error_fits(old(cursor).text(), e),
        cursor_step(*old(cursor), *final(cursor)),
        r is Ok ==> final(cursor).lpos() > old(cursor).apos(),
        r matches Ok(item) ==> body_item_next(old(cursor).text(), item, old(cursor).apos()) == Some(
            final(cursor).apos(),
        ),
        simple_body_item_next(old(cursor).text(), old(cursor).apos()) matches Some(n) ==> r is Ok
            && final(cursor).apos() == n,
        k != TokenKind::Let && k != TokenKind::Env && k != TokenKind::Backslash ==> (r matches Err(e)
            && consume_error(old(cursor).text(), old(cursor).apos(), old(cursor).apos(), &Token::Backslash, e)),
{
    proof {
        reveal(simple_body_item_next);
    }
    let ghost r = cursor.apos();
    let ghost s = cursor.text();
    proof {
        cursor.lemma_wf_bounds();
        lemma_next(s, cursor.lpos());
    }
    if k == TokenKind::Let {
        let b = parse_let_binding(cursor)?;
        return Ok(ComponentBodyItem::Let(b));
    }
    if k == TokenKind::Env {
        let b = parse_env_binding(cursor)?;
        return Ok(ComponentBodyItem::Env(b));
    }
    let is_children = k == TokenKind::Backslash && match cursor.peek_nth(1)? {
        Some((t, sp1)) => {
            proof {
                assert(crate::parser::cursor::nth_start(s, r, 0) == r);
            }
            t.kind() == TokenKind::Children
        },
        None => false,
    };
    proof {
        if k == TokenKind::Backslash {
            lemma_after(s, r);
            assert(crate::parser::cursor::nth_start(s, r, 0) == r);
        }
    }
    if is_children {
        let d = parse_children_directive(cursor)?;
        Ok(ComponentBodyItem::Children(d))
    } else {
        let n = parse_element_node(cursor)?;
        Ok(ComponentBodyItem::Node(n))
    }
}

/// The items of a component body, up to (not including) its closing `}`.
fn parse_component_body(cursor: &mut ParserCursor<'_>) -> (r: Result<Vec<ComponentBodyItem>, ParseError>)
    requires
        old(cursor).wf(),
    ensures
        r matches Err(e) ==> error_fits(old(cursor).text(), e),
        cursor_step(*old(cursor), *final(cursor)),
        r is Ok ==> final(cursor).lpos() >= old(cursor).lpos(),
        r matches Ok(body) ==> body_read(old(cursor).text(), body@, old(cursor).apos()) == Some(
            final(cursor).apos(),
        ),
        r is Ok ==> final(cursor).apos() >= old(cursor).text().len() || tok_is(
            old(cursor).text(),
            final(cursor).apos(),
            TokenKind::RBrace,
        ),
        simple_body_close(old(cursor).text(), old(cursor).apos()) matches Some(cl) ==> r is Ok
            && final(cursor).apos() == cl,
        body_bad_start(old(cursor).text(), old(cursor).apos()) matches Some(t) ==> (r matches Err(e)
            && consume_error(old(cursor).text(), t, t, &Token::Backslash, e)),
{
    let ghost a0 = cursor.apos();
    let ghost l0 = cursor.lpos();
    let ghost s = cursor.text();
    let mut body: Vec<ComponentBodyItem> = Vec::new();
    loop
        invariant
            cursor_step(*old(cursor), *cursor),
            cursor.lpos() >= l0,
            l0 == old(cursor).lpos(),
            a0 == old(cursor).apos(),
            s == old(cursor).text(),
            body_read(s, body@, a0) == Some(cursor.apos()),
            simple_body_close(s, a0) matches Some(cl) ==> simple_body_close(s, cursor.apos()) == Some(cl),
            body_bad_start(s, a0) matches Some(t) ==> body_bad_start(s, cursor.apos()) == Some(t),
        ensures
            cursor_step(*old(cursor), *cursor),
            cursor.lpos() >= l0,
            body_read(s, body@, a0) == Some(cursor.apos()),
            cursor.apos() >= s.len() || tok_is(s, cursor.apos(), TokenKind::RBrace),
            simple_body_close(s, a0) matches Some(cl) ==> cursor.apos() == cl,
            body_bad_start(s, a0) is None,
        decreases measure(*cursor),
    {
        proof {
            cursor.lemma_wf_bounds();
            lemma_body_item_tok(s, cursor.apos());
        }
        let tok = match cursor.peek_token()? {
            Some((t, _)) => t,
            None => break,
        };
        let k = tok.kind();
        if k == TokenKind::RBrace {
            break;
        }
        let ghost before = body@;
        let item = parse_body_item(cursor, k)?;
        body.push(item);
        proof {
            assert(body@.drop_last() =~= before);
        }
    }
    Ok(body)
}

/// Parses a component definition: `\Component Name(params) { body }`.
#[verifier::spinoff_prover]
#[verifier::rlimit(100)]
pub fn parse_component_def(cursor: &mut ParserCursor<'_>) -> (r: Result<ComponentDef, ParseError>)
    requires
        old(cursor).wf(),
    ensures
        r matches Err(e) ==> error_fits(old(cursor).text(), e),
        cursor_step(*old(cursor), *final(cursor)),
        r is Ok ==> final(cursor).lpos() > old(cursor).apos(),
        r matches Ok(c) ==> component_reads(old(cursor).text(), c) && read_span(
            *old(cursor),
            *final(cursor),
            c.span,
        ),
        simple_component_next(old(cursor).text(), old(cursor).apos()) matches Some(n) ==> r is Ok
            && final(cursor).apos() == n,
        component_body_start(old(cursor).text(), old(cursor).apos()) matches Some(b) ==> (body_bad_start(
            old(cursor).text(),
            b,
        ) matches Some(t) ==> r matches Err(e) && consume_error(old(cursor).text(), t, t, &Token::Backslash, e)),
{
    let ghost a0 = cursor.apos();
    let ghost s = cursor.text();
    let ghost goal = simple_component_next(s, a0);
    proof {
        if goal is Some {
            lemma_component_goal(s, a0);
        }
        if component_body_start(s, a0) is Some {
            lemma_component_head(s, a0);
        }
    }
    let slash_span = cursor.consume_token(&Token::Backslash)?;
    let ghost k = cursor.apos();
    proof {
        lemma_after(s, a0);
    }
    cursor.consume_token(&Token::Component)?;
    let ghost nq = cursor.apos();
    proof {
        lemma_after(s, k);
        assert(k == after(s, a0));
        assert(nq == after(s, k));
    }
    let name = parse_ident(cursor)?;
    let ghost p1 = cursor.apos();
    proof {
        cursor.lemma_wf_bounds();
        lemma_next(s, name.span.end as int);
        assert(p1 == after(s, nq));
    }
    let has_paren = match cursor.peek_token()? {
        Some((Token::LParen, _)) => true,
        _ => false,
    };
    let params = if has_paren {
        let (p, _) = parse_param_list(cursor)?;
        p
    } else {
        Vec::new()
    };
    proof {
        if !has_paren {
            assert(params@ =~= Seq::<ParamDef>::empty());
        }
    }
    let ghost lb = cursor.apos();
    proof {
        if goal is Some {
            assert(tok_is(s, lb, TokenKind::LBrace));
            assert(simple_body_close(s, after(s, lb)) is Some);
        }
        if component_body_start(s, a0) is Some {
            assert(tok_is(s, lb, TokenKind::LBrace));
            assert(component_body_start(s, a0) == Some(after(s, lb)));
        }
    }
    let lbrace_span = cursor.consume_token(&Token::LBrace)?;
    proof {
        lemma_after(s, lb);
    }
    let ghost b0 = cursor.apos();
    proof {
        assert(b0 == after(s, lb));
    }
    let body = parse_component_body(cursor)?;
    let ghost cl = cursor.apos();
    proof {
        if goal is Some {
            assert(simple_body_close(s, b0) == Some(cl));
            lemma_body_close_rbrace(s, b0);
        }
    }
    let rbrace_span = cursor.consume_token(&Token::RBrace)?;
    proof {
        lemma_after(s, cl);
        cursor.lemma_wf_bounds();
    }
    let span = slash_span.merge(lbrace_span).merge(rbrace_span);
    let c = ComponentDef { name, params, body, span };
    proof {
        assert(c.span.end == lex_end(s, cl));
    }
    Ok(c)
}

/// The head of a binding: `keyword name [: Type]`.
fn binding_head(cursor: &mut ParserCursor<'_>, keyword: &Token) -> (r: Result<(Span, Ident, Option<TypeRef>), ParseError>)
    requires
        old(cursor).wf(),
    ensures
        r matches Err(e) ==> error_fits(old(cursor).text(), e),
        cursor_step(*old(cursor), *final(cursor)),
        r is Ok ==> final(cursor).lpos() > old(cursor).apos(),
        r matches Ok((kw, name, ty)) ==> {
            let s = old(cursor).text();
            let a0 = old(cursor).apos();
            let p1 = next_start(s, name.span.end as int);
            let h = match ty {
                Some(t) => t.span.end as int,
                None => name.span.end as int,
            };
            &&& tok_is(s, a0, keyword.spec_kind())
            &&& kw.start == a0 && kw.end == lex_end(s, a0)
            &&& name.span.start == after(s, a0)
            &&& name_reads(s, name)
            &&& match ty {
                Some(t) => tok_is(s, p1, TokenKind::Colon) && t.span.start == after(s, p1)
                    && type_reads(s, t),
                None => !tok_is(s, p1, TokenKind::Colon),
            }
            &&& h <= s.len()
            &&& final(cursor).apos() == next_start(s, h)
        },
        ({
            let s = old(cursor).text();
            let q = old(cursor).apos();
            let p1 = after(s, after(s, q));
            keyword.spec_payload().len() == 0 && (keyword.spec_kind() == TokenKind::Let || keyword.spec_kind()
                == TokenKind::Env) && tok_is(s, q, keyword.spec_kind()) && (tok_is(s, after(s, q), TokenKind::Ident) || tok_is(s, after(s, q), TokenKind::Children) || tok_is(
                s,
                after(s, q),
                TokenKind::Component,
            )) && (p1 >= s.len() || tok_at(s, p1)) && !tok_is(s, p1, TokenKind::Colon)
                ==> r is Ok
        }),
        keyword.spec_payload().len() == 0 && (keyword.spec_kind() == TokenKind::Let || keyword.spec_kind()
            == TokenKind::Env) && tok_is(old(cursor).text(), old(cursor).apos(), keyword.spec_kind()) ==> (
        binding_head_pos(old(cursor).text(), old(cursor).apos()) matches Some(h) ==> r is Ok
            && final(cursor).apos() == h),
{
    let ghost a0 = cursor.apos();
    let ghost s = cursor.text();
    let kw_span = cursor.consume_token(keyword)?;
    proof {
        lemma_after(s, a0);
    }
    let name = parse_ident(cursor)?;
    let ghost p1 = cursor.apos();
    proof {
        cursor.lemma_wf_bounds();
        lemma_next(s, name.span.end as int);
    }
    let has_colon = match cursor.peek_token()? {
        Some((Token::Colon, _)) => true,
        _ => false,
    };
    if has_colon {
        cursor.consume_token(&Token::Colon)?;
        proof {
            lemma_after(s, p1);
        }
        let (tok, span) = cursor.expect_token("type name")?;
        proof {
            cursor.lemma_wf_bounds();
        }
        match tok {
            Token::Ident(ty_name) => {
                let t = TypeRef { name: Ident { name: ty_name, span }, span };
                Ok((kw_span, name, Some(t)))
            },
            other => Err(
                ParseError::UnexpectedToken {
                    expected: "type name identifier".to_owned(),
                    found: other.to_text(),
                    span,
                },
            ),
        }
    } else {
        Ok((kw_span, name, None))
    }
}

/// The optional `= value` of a binding: an element node when `\` follows,
/// an expression otherwise.
fn binding_value(cursor: &mut ParserCursor<'_>) -> (r: Result<Option<LetValue>, ParseError>)
    requires
        old(cursor).wf(),
    ensures
        r matches Err(e) ==> error_fits(old(cursor).text(), e),
        cursor_step(*old(cursor), *final(cursor)),
        r is Ok ==> final(cursor).lpos() >= old(cursor).lpos(),
        r matches Ok(v) ==> {
            let s = old(cursor).text();
            let a0 = old(cursor).apos();
            match v {
                Some(v) => {
                    &&& tok_is(s, a0, TokenKind::Eq)
                    &&& value_reads(s, v, after(s, a0))
                    &&& value_span(v).start < value_span(v).end <= s.len()
                    &&& final(cursor).apos() == next_start(s, value_span(v).end as int)
                },
                None => !tok_is(s, a0, TokenKind::Eq) && final(cursor).apos() == a0,
            }
        },
        ({
            let s = old(cursor).text();
            let q = old(cursor).apos();
            (q >= s.len() || tok_at(s, q)) && !tok_is(s, q, TokenKind::Eq) ==> r is Ok
        }),
        tok_is(old(cursor).text(), old(cursor).apos(), TokenKind::Eq) ==> (owed_expr(
            old(cursor).text(),
            after(old(cursor).text(), old(cursor).apos()),
            0,
        ) matches Some(e) ==> r is Ok && final(cursor).apos() == e && (e >= old(cursor).text().len() || tok_at(
            old(cursor).text(),
            e,
        ))),
        tok_is(old(cursor).text(), old(cursor).apos(), TokenKind::Eq) ==> (node_next(
            old(cursor).text(),
            after(old(cursor).text(), old(cursor).apos()),
        ) matches Some(e) ==> r is Ok && final(cursor).apos() == e),
{
    let ghost a0 = cursor.apos();
    let ghost s = cursor.text();
    proof {
        cursor.lemma_wf_bounds();
    }
    let has_eq = match cursor.peek_token()? {
        Some((Token::Eq, _)) => true,
        _ => false,
    };
    if has_eq {
        cursor.consume_token(&Token::Eq)?;
        proof {
            lemma_after(s, a0);
            cursor.lemma_wf_bounds();
            crate::parser::grammar::lemma_owed_expr_step(s, after(s, a0), 0);
            crate::parser::grammar::lemma_owed_prefix_step(s, after(s, a0));
        }
        let is_node = match cursor.peek_token()? {
            Some((Token::Backslash, _)) => true,
            _ => false,
        };
        if is_node {
            Ok(Some(LetValue::Node(parse_element_node(cursor)?)))
        } else {
            Ok(Some(LetValue::Expr(parse_expr(cursor)?)))
        }
    } else {
        Ok(None)
    }
}

/// Parses a binding introduced by `keyword`: `keyword name [: Type] [= value] [;]`
/// where the value is an element node or an expression.
#[verifier::spinoff_prover]
#[verifier::rlimit(60)]
fn parse_binding(cursor: &mut ParserCursor<'_>, keyword: &Token) -> (r: Result<LetBinding, ParseError>)
    requires
        old(cursor).wf(),
    ensures
        r matches Err(e) ==> error_fits(old(cursor).text(), e),
        cursor_step(*old(cursor), *final(cursor)),
        r is Ok ==> final(cursor).lpos() > old(cursor).apos(),
        r matches Ok(b) ==> {
            let s = old(cursor).text();
            &&& let_reads(s, b, keyword.spec_kind())
            &&& b.span.start == old(cursor).apos()
            &&& b.span.end <= s.len()
            &&& final(cursor).apos() == binding_next(s, b)
        },
        keyword.spec_payload().len() == 0 && (keyword.spec_kind() == TokenKind::Let || keyword.spec_kind()
            == TokenKind::Env) && tok_is(old(cursor).text(), old(cursor).apos(), keyword.spec_kind()) ==> (
        simple_let_end(old(cursor).text(), old(cursor).apos()) matches Some(e) ==> r is Ok && final(cursor).apos()
            == past_semicolon(old(cursor).text(), e)),
{
    let ghost a0 = cursor.apos();
    let ghost s = cursor.text();
    let (kw_span, name, type_annotation) = binding_head(cursor, keyword)?;
    let ghost p2 = cursor.apos();
    let value = binding_value(cursor)?;
    let ghost p3 = cursor.apos();
    proof {
        cursor.lemma_wf_bounds();
    }
    let has_semi = match cursor.peek_token()? {
        Some((Token::Semicolon, _)) => true,
        _ => false,
    };
    if has_semi {
        cursor.consume_token(&Token::Semicolon)?;
        proof {
            lemma_after(s, p3);
        }
    }
    let end_span = match &value {
        Some(v) => v.span(),
        None => match &type_annotation {
            Some(t) => t.span,
            None => name.span,
        },
    };
    let span = kw_span.merge(end_span);
    let b = LetBinding { name, type_annotation, value, span };
    proof {
        lemma_after(s, a0);
        lemma_after(s, b.name.span.start as int);
        lemma_next(s, b.name.span.end as int);
        assert(binding_head_end(s, b) <= s.len());
        if b.type_annotation is Some {
            lemma_after(s, next_start(s, b.name.span.end as int));
            lemma_after(s, b.type_annotation->Some_0.span.start as int);
        }
        lemma_next(s, binding_head_end(s, b));
        if b.type_annotation is Some {
            lemma_after(s, next_start(s, b.name.span.end as int));
        }
        if b.value is Some {
            lemma_after(s, p2);
        }
        assert(p3 == next_start(s, binding_end(s, b)));
    }
    Ok(b)
}

/// Parses a local binding: `let name [: Type] [= value] [;]`.
pub fn parse_let_binding(cursor: &mut ParserCursor<'_>) -> (r: Result<LetBinding, ParseError>)
    requires
        old(cursor).wf(),
    ensures
        r matches Err(e) ==> error_fits(old(cursor).text(), e),
        cursor_step(*old(cursor), *final(cursor)),
        r is Ok ==> final(cursor).lpos() > old(cursor).apos(),
        r matches Ok(b) ==> {
            let s = old(cursor).text();
            &&& let_reads(s, b, TokenKind::Let)
            &&& b.span.start == old(cursor).apos()
            &&& b.span.end <= s.len()
            &&& final(cursor).apos() == binding_next(s, b)
        },
        tok_is(old(cursor).text(), old(cursor).apos(), TokenKind::Let) ==> (simple_let_end(
            old(cursor).text(),
            old(cursor).apos(),
        ) matches Some(e) ==> r is Ok && final(cursor).apos() == past_semicolon(old(cursor).text(), e)),
{
    parse_binding(cursor, &Token::Let)
}

/// Parses an environmental binding: `env name [: Type] [= value] [;]`.
pub fn parse_env_binding(cursor: &mut ParserCursor<'_>) -> (r: Result<LetBinding, ParseError>)
    requires
        old(cursor).wf(),
    ensures
        r matches Err(e) ==> error_fits(old(cursor).text(), e),
        cursor_step(*old(cursor), *final(cursor)),
        r is Ok ==> final(cursor).lpos() > old(cursor).apos(),
        r matches Ok(b) ==> {
            let s = old(cursor).text();
            &&& let_reads(s, b, TokenKind::Env)
            &&& b.span.start == old(cursor).apos()
            &&& b.span.end <= s.len()
            &&& final(cursor).apos() == binding_next(s, b)
        },
        tok_is(old(cursor).text(), old(cursor).apos(), TokenKind::Env) ==> (simple_let_end(
            old(cursor).text(),
            old(cursor).apos(),
        ) matches Some(e) ==> r is Ok && final(cursor).apos() == past_semicolon(old(cursor).text(), e)),
{
    parse_binding(cursor, &Token::Env)
}

} // verus!
