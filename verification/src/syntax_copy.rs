use vstd::prelude::*;
use crate::ast::{
    BinaryExpr, CallExpr, ChildrenDirective, ContentItem, ContentSlot, ElementNode, Expr, Ident,
    Literal, MemberAccessExpr, PortBinding, TernaryExpr, TextChunk, UnaryExpr,
};

verus! {

// Two syntax trees are the same when they have the same shape, names,
// literals and spans; vectors are compared by their contents.

pub open spec fn same_expr(a: Expr, b: Expr) -> bool
    decreases a,
{
    match a {
        Expr::Literal(_) => b == a,
        Expr::Ident(_) => b == a,
        Expr::MemberAccess(m) => match b {
            Expr::MemberAccess(n) => same_expr(*m.target, *n.target) && n.member == m.member
                && n.span == m.span,
            _ => false,
        },
        Expr::Ternary(t) => match b {
            Expr::Ternary(u) => same_expr(*t.condition, *u.condition) && same_expr(
                *t.then_expr,
                *u.then_expr,
            ) && same_expr(*t.else_expr, *u.else_expr) && u.span == t.span,
            _ => false,
        },
        Expr::Call(c) => match b {
            Expr::Call(d) => d.callee == c.callee && d.span == c.span && same_exprs(
                c.args@,
                d.args@,
            ),
            _ => false,
        },
        Expr::Binary(x) => match b {
            Expr::Binary(y) => y.op == x.op && same_expr(*x.left, *y.left) && same_expr(
                *x.right,
                *y.right,
            ) && y.span == x.span,
            _ => false,
        },
        Expr::Unary(x) => match b {
            Expr::Unary(y) => y.op == x.op && same_expr(*x.operand, *y.operand) && y.span
                == x.span,
            _ => false,
        },
        Expr::Paren(x, s) => match b {
            Expr::Paren(y, t) => same_expr(*x, *y) && t == s,
            _ => false,
        },
        Expr::Node(n) => match b {
            Expr::Node(m) => same_elem(*n, *m),
            _ => false,
        },
    }
}

pub open spec fn same_exprs(s: Seq<Expr>, t: Seq<Expr>) -> bool
    decreases s,
{
    &&& s.len() == t.len()
    &&& s.len() > 0 ==> same_exprs(s.drop_last(), t.drop_last()) && same_expr(s.last(), t.last())
}

pub open spec fn same_elem(a: ElementNode, b: ElementNode) -> bool
    decreases a,
{
    &&& b.name == a.name
    &&& b.span == a.span
    &&& same_ports(a.ports@, b.ports@)
    &&& match a.content {
        None => b.content is None,
        Some(c) => match b.content {
            Some(d) => d.span == c.span && same_items(c.items@, d.items@),
            None => false,
        },
    }
}

pub open spec fn same_ports(s: Seq<PortBinding>, t: Seq<PortBinding>) -> bool
    decreases s,
{
    &&& s.len() == t.len()
    &&& s.len() > 0 ==> same_ports(s.drop_last(), t.drop_last()) && t.last().name == s.last().name
        && t.last().span == s.last().span && same_expr(s.last().expr, t.last().expr)
}

pub open spec fn same_items(s: Seq<ContentItem>, t: Seq<ContentItem>) -> bool
    decreases s,
{
    &&& s.len() == t.len()
    &&& s.len() > 0 ==> same_items(s.drop_last(), t.drop_last()) && match s.last() {
        ContentItem::Text(x) => t.last() == s.last(),
        ContentItem::Node(n) => match t.last() {
            ContentItem::Node(m) => same_elem(n, m),
            _ => false,
        },
        ContentItem::Children(d) => match t.last() {
            ContentItem::Children(e) => e.span == d.span && same_ports(d.ports@, e.ports@),
            _ => false,
        },
    }
}

pub fn copy_ident(i: &Ident) -> (r: Ident)
    ensures
        r == *i,
{
    Ident { name: i.name.clone(), span: i.span }
}

pub fn copy_literal(l: &Literal) -> (r: Literal)
    ensures
        r == *l,
{
    match l {
        Literal::Number(s, sp) => Literal::Number(s.clone(), *sp),
        Literal::String(s, sp) => Literal::String(s.clone(), *sp),
        Literal::Bool(b, sp) => Literal::Bool(*b, *sp),
        Literal::Color(s, sp) => Literal::Color(s.clone(), *sp),
    }
}

/// A fresh tree that is the same as `e`.
pub fn copy_expr(e: &Expr) -> (r: Expr)
    ensures
        same_expr(*e, r),
    decreases e,
{
    match e {
        Expr::Literal(l) => Expr::Literal(copy_literal(l)),
        Expr::Ident(i) => Expr::Ident(copy_ident(i)),
        Expr::MemberAccess(m) => Expr::MemberAccess(
            MemberAccessExpr {
                target: Box::new(copy_expr(&m.target)),
                member: copy_ident(&m.member),
                span: m.span,
            },
        ),
        Expr::Ternary(t) => Expr::Ternary(
            TernaryExpr {
                condition: Box::new(copy_expr(&t.condition)),
                then_expr: Box::new(copy_expr(&t.then_expr)),
                else_expr: Box::new(copy_expr(&t.else_expr)),
                span: t.span,
            },
        ),
        Expr::Call(c) => {
            let args = copy_exprs(&c.args);
            Expr::Call(CallExpr { callee: copy_ident(&c.callee), args, span: c.span })
        },
        Expr::Binary(b) => Expr::Binary(
            BinaryExpr {
                op: b.op,
                left: Box::new(copy_expr(&b.left)),
                right: Box::new(copy_expr(&b.right)),
                span: b.span,
            },
        ),
        Expr::Unary(u) => Expr::Unary(
            UnaryExpr { op: u.op, operand: Box::new(copy_expr(&u.operand)), span: u.span },
        ),
        Expr::Paren(x, s) => Expr::Paren(Box::new(copy_expr(x)), *s),
        Expr::Node(n) => Expr::Node(Box::new(copy_elem(n))),
    }
}

pub fn copy_exprs(v: &Vec<Expr>) -> (r: Vec<Expr>)
    ensures
        same_exprs(v@, r@),
    decreases v,
{
    let mut r: Vec<Expr> = Vec::new();
    let mut i: usize = 0;
    while i < v.len()
        invariant
            i <= v@.len(),
            same_exprs(v@.take(i as int), r@),
        decreases v@.len() - i,
    {
        proof {
            assert(decreases_to!(v => v@));
            assert(decreases_to!(v@ => v@[i as int]));
        }
        let e = copy_expr(&v[i]);
        let ghost before = r@;
        r.push(e);
        proof {
            assert(v@.take(i + 1).drop_last() =~= v@.take(i as int));
            assert(r@.drop_last() =~= before);
        }
        i = i + 1;
    }
    assert(v@.take(i as int) =~= v@);
    r
}

pub fn copy_ports(v: &Vec<PortBinding>) -> (r: Vec<PortBinding>)
    ensures
        same_ports(v@, r@),
    decreases v,
{
    let mut r: Vec<PortBinding> = Vec::new();
    let mut i: usize = 0;
    while i < v.len()
        invariant
            i <= v@.len(),
            same_ports(v@.take(i as int), r@),
        decreases v@.len() - i,
    {
        proof {
            assert(decreases_to!(v => v@));
            assert(decreases_to!(v@ => v@[i as int]));
            assert(decreases_to!(v@[i as int] => v@[i as int].expr));
        }
        let p = PortBinding { name: copy_ident(&v[i].name), expr: copy_expr(&v[i].expr), span: v[i].span };
        let ghost before = r@;
        r.push(p);
        proof {
            assert(v@.take(i + 1).drop_last() =~= v@.take(i as int));
            assert(r@.drop_last() =~= before);
        }
        i = i + 1;
    }
    assert(v@.take(i as int) =~= v@);
    r
}

pub fn copy_items(v: &Vec<ContentItem>) -> (r: Vec<ContentItem>)
    ensures
        same_items(v@, r@),
    decreases v,
{
    let mut r: Vec<ContentItem> = Vec::new();
    let mut i: usize = 0;
    while i < v.len()
        invariant
            i <= v@.len(),
            same_items(v@.take(i as int), r@),
        decreases v@.len() - i,
    {
        proof {
            assert(decreases_to!(v => v@));
            assert(decreases_to!(v@ => v@[i as int]));
        }
        let item = match &v[i] {
            ContentItem::Text(t) => ContentItem::Text(TextChunk { text: t.text.clone(), span: t.span }),
            ContentItem::Node(n) => ContentItem::Node(copy_elem(n)),
            ContentItem::Children(d) => ContentItem::Children(
                ChildrenDirective { ports: copy_ports(&d.ports), span: d.span },
            ),
        };
        let ghost before = r@;
        r.push(item);
        proof {
            assert(v@.take(i + 1).drop_last() =~= v@.take(i as int));
            assert(r@.drop_last() =~= before);
        }
        i = i + 1;
    }
    assert(v@.take(i as int) =~= v@);
    r
}

pub fn copy_elem(e: &ElementNode) -> (r: ElementNode)
    ensures
        same_elem(*e, r),
    decreases e,
{
    let content = match &e.content {
        None => None,
        Some(c) => Some(ContentSlot { items: copy_items(&c.items), span: c.span }),
    };
    ElementNode { name: copy_ident(&e.name), ports: copy_ports(&e.ports), content, span: e.span }
}

} // verus!
