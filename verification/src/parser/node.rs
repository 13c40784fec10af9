use vstd::prelude::*;
use crate::parser::cursor::{error_fits, quiet, quiet_upto};
use crate::ast::{ChildrenDirective, ContentItem, ContentSlot, ElementNode, PortBinding};
use crate::error::ParseError;
use crate::lexer::next_start;
use crate::parser::cursor::{consume_error, lex_end, tok_at, ParserCursor};
use crate::parser::expr::{cursor_step, measure, parse_expr, parse_ident, read_span};
use crate::parser::grammar::{
    after, binding_reads, scan_stop, ScanStop, directive_reads, inline_item_at, item_resume, lemma_after, lemma_next, node_reads, ports_read,
    inline_next, node_head_end, owed_rules_close, rules_read, simple_binding_end, simple_ports_close, tok_is,
};
use crate::span::Span;
use crate::token::{Token, TokenKind};

verus! {

broadcast use ParserCursor::lemma_wf_apos;

/// Parses a single port binding: `name: expr`.
pub fn parse_port_binding(cursor: &mut ParserCursor<'_>) -> (r: Result<PortBinding, ParseError>)
    requires
        old(cursor).wf(),
    ensures
        r is Ok && quiet_upto(*old(cursor), 2) ==> quiet(*final(cursor)),
        r matches Err(e) ==> error_fits(old(cursor).text(), e),
        cursor_step(*old(cursor), *final(cursor)),
        r is Ok ==> final(cursor).lpos() > old(cursor).apos(),
        r matches Ok(b) ==> binding_reads(old(cursor).text(), b) && read_span(
            *old(cursor),
            *final(cursor),
            b.span,
        ),
        simple_binding_end(old(cursor).text(), old(cursor).apos()) matches Some(q) ==> r is Ok
            && final(cursor).apos() == q,
    decreases measure(*old(cursor)), 4int,
{
    let ghost a0 = cursor.apos();
    let ghost s = cursor.text();
    let name = parse_ident(cursor)?;
    let ghost c = cursor.apos();
    assert(c == after(s, a0));
    proof {
        cursor.lemma_wf_bounds();
        lemma_next(s, name.span.end as int);
    }
    cursor.consume_token(&Token::Colon)?;
    proof {
        cursor.lemma_wf_bounds();
        lemma_after(s, c);
    }
    let expr = parse_expr(cursor)?;
    let span = name.span.merge(expr.span());
    Ok(PortBinding { name, expr, span })
}

/// Parses port bindings enclosed in parentheses: `(port1: expr1, port2: expr2)`.
#[verifier::spinoff_prover]
#[verifier::rlimit(30)]
pub fn parse_port_list(cursor: &mut ParserCursor<'_>) -> (r: Result<(Vec<PortBinding>, Span), ParseError>)
    requires
        old(cursor).wf(),
    ensures
        r is Ok && quiet_upto(*old(cursor), 2) ==> quiet(*final(cursor)),
        r matches Err(e) ==> error_fits(old(cursor).text(), e),
        cursor_step(*old(cursor), *final(cursor)),
        r is Ok ==> final(cursor).lpos() > old(cursor).apos(),
        r matches Ok((ports, sp)) ==> {
            let s = old(cursor).text();
            &&& tok_is(s, sp.start as int, TokenKind::LParen)
            &&& ports_read(s, ports@, after(s, sp.start as int)) matches Some((cl, _))
            &&& tok_is(s, cl, TokenKind::RParen)
            &&& sp.end == lex_end(s, cl)
            &&& read_span(*old(cursor), *final(cursor), sp)
        },
        tok_is(old(cursor).text(), old(cursor).apos(), TokenKind::LParen) ==> (simple_ports_close(
            old(cursor).text(),
            after(old(cursor).text(), old(cursor).apos()),
        ) matches Some(cl) ==> r is Ok && final(cursor).apos() == after(old(cursor).text(), cl)),
    decreases measure(*old(cursor)), 5int,
{
    let ghost a0 = cursor.apos();
    let ghost s = cursor.text();
    let ghost goal = if tok_is(s, a0, TokenKind::LParen) {
        simple_ports_close(s, after(s, a0))
    } else {
        None
    };
    let open_span = cursor.consume_token(&Token::LParen)?;
    let ghost p0 = cursor.apos();
    proof {
        lemma_after(s, a0);
    }
    let mut ports: Vec<PortBinding> = Vec::new();
    loop
        invariant_except_break
            ports_read(s, ports@, p0) == Some((cursor.apos(), true)),
        invariant
            cursor_step(*old(cursor), *cursor),
            cursor.lpos() > a0,
            a0 == old(cursor).apos(),
            s == old(cursor).text(),
            p0 <= cursor.apos() <= s.len(),
            quiet_upto(*old(cursor), 2) ==> quiet(*cursor),
            ports_read(s, ports@, p0) matches Some((e, _)) && e == cursor.apos(),
            goal == (if tok_is(s, a0, TokenKind::LParen) { simple_ports_close(s, after(s, a0)) } else { None }),
            goal matches Some(cl) ==> simple_ports_close(s, cursor.apos()) == Some(cl),
        ensures
            cursor_step(*old(cursor), *cursor),
            cursor.lpos() > a0,
            p0 <= cursor.apos() <= s.len(),
            quiet_upto(*old(cursor), 2) ==> quiet(*cursor),
            ports_read(s, ports@, p0) matches Some((e, _)) && e == cursor.apos(),
            goal == (if tok_is(s, a0, TokenKind::LParen) { simple_ports_close(s, after(s, a0)) } else { None }),
            goal matches Some(cl) ==> cursor.apos() == cl && tok_is(s, cl, TokenKind::RParen),
        decreases measure(*cursor),
    {
        proof {
            cursor.lemma_wf_bounds();
        }
        match cursor.peek_token()? {
            Some((tok, _)) => {
                if tok.kind() == TokenKind::RParen {
                    break;
                }
            },
            None => break,
        }
        let ghost before = ports@;
        let port = parse_port_binding(cursor)?;
        ports.push(port);
        proof {
            assert(ports@.drop_last() =~= before);
            cursor.lemma_wf_bounds();
            lemma_next(s, port.span.end as int);
        }
        let ghost r0 = cursor.apos();
        let is_comma = match cursor.peek_token()? {
            Some((Token::Comma, _)) => true,
            _ => false,
        };
        if is_comma {
            cursor.consume_token(&Token::Comma)?;
            proof {
                lemma_after(s, r0);
            }
        } else {
            break;
        }
    }
    let ghost cl = cursor.apos();
    let close_span = cursor.consume_token(&Token::RParen)?;
    proof {
        lemma_after(s, cl);
        cursor.lemma_wf_bounds();
    }
    let span = open_span.merge(close_span);
    Ok((ports, span))
}

/// The port rules inside the braces of a `\\Children` directive, up to
/// (not including) the closing `}`; commas between them are optional.
fn parse_rules(cursor: &mut ParserCursor<'_>) -> (r: Result<Vec<PortBinding>, ParseError>)
    requires
        old(cursor).wf(),
    ensures
        r is Ok && quiet(*old(cursor)) ==> quiet(*final(cursor)),
        r matches Err(e) ==> error_fits(old(cursor).text(), e),
        cursor_step(*old(cursor), *final(cursor)),
        r is Ok ==> final(cursor).lpos() >= old(cursor).lpos(),
        r matches Ok(ports) ==> rules_read(old(cursor).text(), ports@, old(cursor).apos()) == Some(
            final(cursor).apos(),
        ) && old(cursor).apos() <= final(cursor).apos() <= old(cursor).text().len(),
        r is Ok ==> final(cursor).apos() >= old(cursor).text().len() || tok_is(
            old(cursor).text(),
            final(cursor).apos(),
            TokenKind::RBrace,
        ),
        owed_rules_close(old(cursor).text(), old(cursor).apos()) matches Some(cl) ==> r is Ok
            && final(cursor).apos() == cl,
    decreases measure(*old(cursor)), 5int,
{
    let ghost a0 = cursor.apos();
    let ghost l0 = cursor.lpos();
    let ghost s = cursor.text();
    let mut ports: Vec<PortBinding> = Vec::new();
    loop
        invariant
            cursor_step(*old(cursor), *cursor),
            cursor.lpos() >= l0,
            l0 == old(cursor).lpos(),
            a0 == old(cursor).apos(),
            s == old(cursor).text(),
            a0 <= cursor.apos() <= s.len(),
            quiet(*old(cursor)) ==> quiet(*cursor),
            rules_read(s, ports@, a0) == Some(cursor.apos()),
            owed_rules_close(s, a0) matches Some(cl) ==> owed_rules_close(s, cursor.apos()) == Some(cl),
        ensures
            cursor_step(*old(cursor), *cursor),
            cursor.lpos() >= l0,
            a0 <= cursor.apos() <= s.len(),
            quiet(*old(cursor)) ==> quiet(*cursor),
            rules_read(s, ports@, a0) == Some(cursor.apos()),
            cursor.apos() >= s.len() || tok_is(s, cursor.apos(), TokenKind::RBrace),
            owed_rules_close(s, a0) matches Some(cl) ==> cursor.apos() == cl,
        decreases measure(*cursor),
    {
        proof {
            cursor.lemma_wf_bounds();
        }
        match cursor.peek_token()? {
            Some((tok, _)) => {
                if tok.kind() == TokenKind::RBrace {
                    break;
                }
            },
            None => break,
        }
        let ghost before = ports@;
        let port = parse_port_binding(cursor)?;
        ports.push(port);
        proof {
            assert(ports@.drop_last() =~= before);
            cursor.lemma_wf_bounds();
            lemma_next(s, port.span.end as int);
        }
        let ghost r0 = cursor.apos();
        let is_comma = match cursor.peek_token()? {
            Some((Token::Comma, _)) => true,
            _ => false,
        };
        if is_comma {
            cursor.consume_token(&Token::Comma)?;
            proof {
                lemma_after(s, r0);
            }
        }
    }
    Ok(ports)
}

/// Parses the `\Children [ { ... } ]` directive with its port bindings.
pub fn parse_children_directive(cursor: &mut ParserCursor<'_>) -> (r: Result<ChildrenDirective, ParseError>)
    requires
        old(cursor).wf(),
    ensures
        r is Ok && quiet_upto(*old(cursor), 2) ==> quiet(*final(cursor)),
        r matches Err(e) ==> error_fits(old(cursor).text(), e),
        cursor_step(*old(cursor), *final(cursor)),
        r is Ok ==> final(cursor).lpos() > old(cursor).apos(),
        r matches Ok(d) ==> directive_reads(old(cursor).text(), d) && read_span(
            *old(cursor),
            *final(cursor),
            d.span,
        ),
        r matches Ok(d) ==> if tok_is(
            old(cursor).text(),
            after(old(cursor).text(), after(old(cursor).text(), d.span.start as int)),
            TokenKind::LBrace,
        ) {
            quiet_upto(*old(cursor), 2) ==> final(cursor).lpos() == d.span.end || final(cursor).lpos()
                >= old(cursor).text().len()
        } else {
            final(cursor).lpos() == final(cursor).apos()
        },
        ({
            let s = old(cursor).text();
            let q = old(cursor).apos();
            let b = after(s, after(s, q));
            tok_is(s, q, TokenKind::Backslash) && tok_is(s, after(s, q), TokenKind::Children) && (b >= s.len()
                || tok_at(s, b)) && !tok_is(s, b, TokenKind::LBrace) ==> r is Ok && final(cursor).apos() == b
        }),
        ({
            let s = old(cursor).text();
            let q = old(cursor).apos();
            let b = after(s, after(s, q));
            tok_is(s, q, TokenKind::Backslash) && tok_is(s, after(s, q), TokenKind::Children) && tok_is(
                s,
                b,
                TokenKind::LBrace,
            ) ==> (owed_rules_close(s, after(s, b)) matches Some(cl) ==> r matches Ok(d) && final(cursor).apos()
                == after(s, cl) && d.span.end == lex_end(s, cl))
        }),
    decreases measure(*old(cursor)), 0int,
{
    let ghost a0 = cursor.apos();
    let ghost s = cursor.text();
    let slash_span = cursor.consume_token(&Token::Backslash)?;
    let ghost c = cursor.apos();
    proof {
        lemma_after(s, a0);
    }
    let children_span = cursor.consume_token(&Token::Children)?;
    let ghost b = cursor.apos();
    proof {
        cursor.lemma_wf_bounds();
        lemma_after(s, c);
    }
    let has_brace = match cursor.peek_token()? {
        Some((Token::LBrace, _)) => true,
        _ => false,
    };
    if has_brace {
        cursor.consume_token(&Token::LBrace)?;
        proof {
            lemma_after(s, b);
        }
        let ports = parse_rules(cursor)?;
        let ghost cl = cursor.apos();
        proof {
            crate::parser::grammar::lemma_rules_close(s, after(s, b));
        }
        let rbrace_span = cursor.consume_token(&Token::RBrace)?;
        proof {
            lemma_after(s, cl);
            cursor.lemma_wf_bounds();
        }
        let span = slash_span.merge(rbrace_span);
        Ok(ChildrenDirective { ports, span })
    } else {
        let span = slash_span.merge(children_span);
        let d = ChildrenDirective { ports: Vec::new(), span };
        proof {
            assert(d.ports@ =~= Seq::<PortBinding>::empty());
        }
        Ok(d)
    }
}

/// Parses an element node: `\Name [ ( ports ) ] [ { content } ]`.
#[verifier::spinoff_prover]
#[verifier::rlimit(60)]
pub fn parse_element_node(cursor: &mut ParserCursor<'_>) -> (r: Result<ElementNode, ParseError>)
    requires
        old(cursor).wf(),
    ensures
        r is Ok && quiet_upto(*old(cursor), 2) ==> quiet(*final(cursor)),
        r matches Err(e) ==> error_fits(old(cursor).text(), e),
        cursor_step(*old(cursor), *final(cursor)),
        r is Ok ==> final(cursor).lpos() > old(cursor).apos(),
        r matches Ok(n) ==> node_reads(old(cursor).text(), n) && read_span(
            *old(cursor),
            *final(cursor),
            n.span,
        ),
        r matches Ok(n) ==> (n.content is Some ==> final(cursor).lpos() == n.span.end) && (n.content is None
            ==> final(cursor).lpos() == final(cursor).apos()),
        node_head_end(old(cursor).text(), old(cursor).apos()) matches Some(p2) ==> ({
            let s = old(cursor).text();
            if tok_is(s, p2, TokenKind::LBrace) {
                &&& !(scan_stop(s, p2 + 1).0 is Item) ==> (r is Ok <==> scan_stop(s, p2 + 1).0 is Close)
                &&& scan_stop(s, p2 + 1).0 is Close ==> (r matches Ok(n) && n.span.end == scan_stop(s, p2 + 1).1 + 1
                    && n.content is Some)
            } else {
                r matches Ok(n) && final(cursor).apos() == p2 && n.content is None
            }
        }),
        node_head_end(old(cursor).text(), old(cursor).apos()) matches Some(p2) ==> (tok_is(
            old(cursor).text(),
            p2,
            TokenKind::LBrace,
        ) ==> (crate::parser::grammar::slot_close(old(cursor).text(), p2 + 1) matches Some(cl) ==> r matches Ok(n)
            && n.span.end == cl + 1 && n.content is Some)),
        !tok_is(old(cursor).text(), old(cursor).apos(), TokenKind::Backslash) ==> (r matches Err(e)
            && consume_error(old(cursor).text(), old(cursor).apos(), old(cursor).raw_pos(), &Token::Backslash, e)),
    decreases measure(*old(cursor)), 0int,
{
    let ghost a0 = cursor.apos();
    let ghost s = cursor.text();
    let slash_span = cursor.consume_token(&Token::Backslash)?;
    proof {
        lemma_after(s, a0);
    }
    let name = parse_ident(cursor)?;
    let ghost p1 = cursor.apos();
    proof {
        cursor.lemma_wf_bounds();
        lemma_next(s, name.span.end as int);
    }
    let has_paren = match cursor.peek_token()? {
        Some((Token::LParen, _)) => true,
        _ => false,
    };
    let (ports, port_span) = if has_paren {
        let (p, sp) = parse_port_list(cursor)?;
        (p, Some(sp))
    } else {
        (Vec::new(), None)
    };
    let ghost h: int = match port_span {
        Some(sp) => sp.end as int,
        None => name.span.end as int,
    };
    proof {
        cursor.lemma_wf_bounds();
        lemma_next(s, h);
        if !has_paren {
            assert(ports@ =~= Seq::<PortBinding>::empty());
        }
    }
    let ghost p2 = cursor.apos();
    let has_brace = match cursor.peek_token()? {
        Some((Token::LBrace, _)) => true,
        _ => false,
    };
    let (content, content_span) = if has_brace {
        let slot = cursor.parse_content_slot()?;
        let sp = slot.span;
        (Some(slot), Some(sp))
    } else {
        (None, None)
    };
    let ps = match port_span {
        Some(sp) => sp,
        None => slash_span,
    };
    let cs = match content_span {
        Some(sp) => sp,
        None => slash_span,
    };
    let total_span = slash_span.merge(name.span).merge(ps).merge(cs);
    let n = ElementNode { name, ports, content, span: total_span };
    proof {
        cursor.lemma_wf_bounds();
        assert(crate::parser::grammar::content_reads(s, n, h));
        if has_brace {
            assert(slash_span.end <= name.span.end);
            assert(ps.end <= h);
            assert(h <= p2);
            assert(cs.start as int == p2);
            assert(total_span.end == cs.end);
            assert(name.span.start == after(s, a0));
            assert(p1 == after(s, after(s, a0)));
            if node_head_end(s, a0) is Some {
                crate::parser::grammar::lemma_scan_stop_bounds(s, p2 + 1);
                cursor.lemma_wf_bounds();
                assert(p2 == node_head_end(s, a0)->Some_0);
                assert(crate::parser::cursor::slot_outcome(s, p2, Ok::<ContentSlot, ParseError>(content->Some_0)));
                if scan_stop(s, p2 + 1).0 is Close {
                    assert(cs.end as int == scan_stop(s, p2 + 1).1 + 1);
                    assert(total_span.end as int == scan_stop(s, p2 + 1).1 + 1);
                }
            }
        }
    }
    Ok(n)
}

/// Parses an inline item met at `\` inside a content slot: a `\Children`
/// directive or an element node.
#[verifier::spinoff_prover]
#[verifier::rlimit(60)]
pub fn parse_content_item(cursor: &mut ParserCursor<'_>) -> (r: Result<ContentItem, ParseError>)
    requires
        old(cursor).wf(),
    ensures
        r is Ok && quiet_upto(*old(cursor), 2) ==> quiet(*final(cursor)),
        r matches Err(e) ==> error_fits(old(cursor).text(), e),
        cursor_step(*old(cursor), *final(cursor)),
        r is Ok ==> final(cursor).lpos() > old(cursor).apos(),
        r matches Ok(item) ==> match item {
            ContentItem::Node(n) => node_reads(old(cursor).text(), n) && read_span(
                *old(cursor),
                *final(cursor),
                n.span,
            ),
            ContentItem::Children(d) => directive_reads(old(cursor).text(), d) && read_span(
                *old(cursor),
                *final(cursor),
                d.span,
            ),
            ContentItem::Text(_) => false,
        },
        r matches Ok(item) ==> inline_item_at(old(cursor).text(), item, old(cursor).apos()),
        r matches Ok(item) ==> quiet(*old(cursor)) ==> final(cursor).lpos() == item_resume(
            old(cursor).text(),
            item,
        ) || final(cursor).lpos() >= old(cursor).text().len(),
        ({
            let s = old(cursor).text();
            let q = old(cursor).apos();
            let nq = after(s, q);
            let p1 = after(s, nq);
            tok_is(s, q, TokenKind::Backslash) && (tok_is(s, nq, TokenKind::Ident) || tok_is(s, nq, TokenKind::Children)
                || tok_is(s, nq, TokenKind::Component)) && (p1 >= s.len() || tok_at(s, p1)) && !tok_is(
                s,
                p1,
                TokenKind::LParen,
            ) && !tok_is(s, p1, TokenKind::LBrace) ==> r is Ok
        }),
        inline_next(old(cursor).text(), old(cursor).apos()) matches Some(n) ==> r is Ok && final(cursor).lpos()
            == n,
    decreases measure(*old(cursor)), 1int,
{
    let ghost a0 = cursor.apos();
    let ghost s = cursor.text();
    proof {
        reveal(inline_next);
        cursor.lemma_wf_bounds();
        crate::lexer::lemma_skip_idempotent(s, cursor.lpos(), crate::lexer::SkipMode::Normal);
    }
    let first_is_backslash = match cursor.peek_token()? {
        Some((Token::Backslash, _)) => true,
        _ => false,
    };
    let is_children = if first_is_backslash {
        match cursor.peek_nth(1)? {
            Some((t, _)) => t.kind() == TokenKind::Children,
            None => false,
        }
    } else {
        false
    };
    proof {
        assert(crate::parser::cursor::nth_start(s, a0, 0) == a0);
        if first_is_backslash && !is_children {
            assert(!tok_is(s, after(s, a0), TokenKind::Children));
        }
        if inline_next(s, a0) is Some && !is_children {
            assert(node_head_end(s, a0) is Some);
        }
    }
    if is_children {
        let directive = parse_children_directive(cursor)?;
        return Ok(ContentItem::Children(directive));
    }
    let node = parse_element_node(cursor)?;
    Ok(ContentItem::Node(node))
}

} // verus!
