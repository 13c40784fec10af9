pub mod component;
pub mod cursor;
pub mod expr;
pub mod grammar;
pub mod node;
pub mod whitespace;

use vstd::prelude::*;
use crate::parser::cursor::error_fits;
use crate::ast::{Document, Item};
use crate::error::ParseError;
use crate::parser::component::{
    body_bad_start, component_body_start, parse_component_def, parse_env_binding, parse_let_binding,
};
use crate::parser::cursor::ParserCursor;
use crate::lexer::{next_start, spec_lex, token_at};
use crate::parser::cursor::{consume_error, display_at, kind_at, lex_end, lex_error_at, tok_at};
use crate::parser::expr::{cursor_step, measure};
use crate::parser::grammar::{
    after, doc_body_error, document_reads, lemma_after, lemma_next, plain_doc, plain_item_next, tok_is,
    top_item_next, top_read,
};
use crate::parser::node::parse_element_node;
use crate::span::Span;
use crate::token::{Token, TokenKind};

verus! {

broadcast use ParserCursor::lemma_wf_apos;

/// One top-level item whose first token, of kind `k`, was peeked: a `let`
/// or `env` binding, a component definition or an element node.
fn parse_top_item(cursor: &mut ParserCursor<'_>, k: TokenKind, first: &Token, span: Span) -> (r: Result<Item, ParseError>)
    requires
        old(cursor).wf(),
        tok_is(old(cursor).text(), old(cursor).apos(), k),
        first.spec_kind() == k,
        span.start == old(cursor).apos(),
        token_at(old(cursor).text(), span.start as int, *first, span.end as int),
    ensures
        r matches Err(e) ==> error_fits(old(cursor).text(), e),
        cursor_step(*old(cursor), *final(cursor)),
        r is Ok ==> final(cursor).lpos() > old(cursor).apos(),
        r matches Ok(item) ==> top_item_next(old(cursor).text(), item, old(cursor).apos()) == Some(
            final(cursor).apos(),
        ),
        plain_item_next(old(cursor).text(), old(cursor).apos()) matches Some(n) ==> (r is Ok && final(cursor).apos()
            == n),
        tok_is(old(cursor).text(), old(cursor).apos(), TokenKind::Backslash) && tok_is(
            old(cursor).text(),
            after(old(cursor).text(), old(cursor).apos()),
            TokenKind::Component,
        ) ==> (component_body_start(old(cursor).text(), old(cursor).apos()) matches Some(b) ==> (body_bad_start(
            old(cursor).text(),
            b,
        ) matches Some(t) ==> r matches Err(e) && consume_error(old(cursor).text(), t, t, &Token::Backslash, e))),
        k != TokenKind::Backslash && k != TokenKind::Let && k != TokenKind::Env ==> (r matches Err(
            ParseError::UnexpectedToken { expected, found, span: sp },
        ) && expected@ == "top-level declaration starting with '\\' or 'let'"@ && found@
            == first.spec_display() && sp == span),
{
    let ghost q = cursor.apos();
    let ghost s = cursor.text();
    proof {
        cursor.lemma_wf_bounds();
        lemma_next(s, cursor.lpos());
    }
    if k == TokenKind::Let {
        let let_binding = parse_let_binding(cursor)?;
        Ok(Item::Let(let_binding))
    } else if k == TokenKind::Env {
        let env_binding = parse_env_binding(cursor)?;
        Ok(Item::Env(env_binding))
    } else if k == TokenKind::Backslash {
        proof {
            lemma_after(s, q);
            assert(crate::parser::cursor::nth_start(s, q, 0) == q);
        }
        match cursor.peek_nth(1)? {
            Some((next, next_span)) => {
                let nk = next.kind();
                if nk == TokenKind::Component {
                    let comp = parse_component_def(cursor)?;
                    Ok(Item::Component(comp))
                } else if nk == TokenKind::Ident || nk == TokenKind::Children {
                    let node = parse_element_node(cursor)?;
                    Ok(Item::Node(node))
                } else {
                    Err(
                        ParseError::UnexpectedToken {
                            expected: "Component or element name after '\\'".to_owned(),
                            found: next.to_text(),
                            span: next_span,
                        },
                    )
                }
            },
            None => {
                Err(
                    ParseError::UnexpectedEof {
                        expected: "Component or element name after '\\'".to_owned(),
                        span,
                    },
                )
            },
        }
    } else {
        Err(
            ParseError::UnexpectedToken {
                expected: "top-level declaration starting with '\\' or 'let'".to_owned(),
                found: first.to_text(),
                span,
            },
        )
    }
}

/// Parses a full DirectedType source text into an un-evaluated `Document`.
#[verifier::spinoff_prover]
#[verifier::rlimit(40)]
pub fn parse_document(source: &str) -> (r: Result<Document, ParseError>)
    ensures
        r matches Err(e) ==> error_fits(source@, e),
        r matches Ok(doc) ==> document_reads(source@, doc),
        plain_doc(source@, next_start(source@, 0)) ==> r is Ok,
        doc_body_error(source@, next_start(source@, 0)) matches Some(t) ==> (r matches Err(e) && consume_error(
            source@,
            t,
            t,
            &Token::Backslash,
            e,
        )),
        ({
            let s = source@;
            let q = next_start(s, 0);
            &&& q >= s.len() ==> (r matches Ok(doc) && doc.items@.len() == 0)
            &&& q < s.len() && spec_lex(s, q) is None ==> r == Err::<Document, ParseError>(lex_error_at(s, q))
            &&& tok_at(s, q) && kind_at(s, q) != TokenKind::Backslash && kind_at(s, q) != TokenKind::Let
                && kind_at(s, q) != TokenKind::Env ==> (r matches Err(
                ParseError::UnexpectedToken { expected, found, span },
            ) && expected@ == "top-level declaration starting with '\\' or 'let'"@ && found@
                == display_at(s, q) && span == Span { start: q as usize, end: lex_end(s, q) as usize })
        }),
{
    let mut cursor = ParserCursor::new(source);
    let ghost s = source@;
    let mut items: Vec<Item> = Vec::new();
    let start_pos = cursor.pos();
    let ghost q0 = cursor.apos();
    proof {
        crate::parser::grammar::lemma_next(s, 0);
    }
    loop
        invariant
            cursor.wf(),
            cursor.text() == s,
            s == source@,
            start_pos == 0,
            q0 == next_start(s, 0),
            top_read(s, items@, q0) == Some(cursor.apos()),
            items@.len() > 0 ==> tok_at(s, q0) && (kind_at(s, q0) == TokenKind::Backslash || kind_at(s, q0)
                == TokenKind::Let || kind_at(s, q0) == TokenKind::Env),
            plain_doc(s, q0) ==> plain_doc(s, cursor.apos()),
            doc_body_error(s, q0) matches Some(t) ==> doc_body_error(s, cursor.apos()) == Some(t),
        decreases measure(cursor),
    {
        let ghost before = items@;
        let (tok, span) = match cursor.peek_token()? {
            Some(p) => p,
            None => {
                let end_pos = cursor.pos();
                let doc_span = Span::new(start_pos, end_pos);
                return Ok(Document { items, span: doc_span });
            },
        };
        let k = tok.kind();
        let item = parse_top_item(&mut cursor, k, &tok, span)?;
        items.push(item);
        proof {
            assert(items@.drop_last() =~= before);
            if before.len() == 0 {
                assert(items@[0] == item);
            }
        }
    }
}

} // verus!
