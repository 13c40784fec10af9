use vstd::prelude::*;
use crate::ast::{
    BinaryExpr, BinaryOp, CallExpr, ComponentBodyItem, ComponentDef, ContentItem, Document,
    ElementNode, Expr, Ident, Item, Literal, MemberAccessExpr, ParamDef, PortBinding, TernaryExpr,
    UnaryExpr,
};
use crate::chars::{spec_decimal, str_eq, utf8_len};
use crate::compiler::expanded::{ExpandedDocument, ExpandedNode, NodeId};
use crate::compiler::error::CompileError;
use crate::compiler::ports::PortMap;
use crate::compiler::required::{document_missing, missing_in_roots};
use crate::span::Span;
use crate::syntax_copy::{copy_elem, copy_ident, copy_literal, same_elem};

verus! {

/// Where an expression is rewritten: the node that owns it, its parent and
/// previous sibling, the node's instantiated children, and the port names
/// in scope on the parent.
#[derive(Debug)]
pub struct ScopeContext<'a> {
    pub current_node: NodeId,
    pub parent_node: Option<NodeId>,
    pub prev_sibling: Option<NodeId>,
    pub child_ids: &'a [NodeId],
    pub parent_ports: &'a [String],
}

/// What a scope denotes.
pub struct ScopeModel {
    pub current: NodeId,
    pub parent: Option<NodeId>,
    pub prev: Option<NodeId>,
    pub children: Seq<NodeId>,
    pub parent_ports: Set<Seq<char>>,
}

/// The names held by a list of strings.
pub open spec fn name_set(s: Seq<String>) -> Set<Seq<char>> {
    Set::new(|n: Seq<char>| exists|i: int| 0 <= i < s.len() && s[i]@ == n)
}

impl<'a> ScopeContext<'a> {
    pub open spec fn model(&self) -> ScopeModel {
        ScopeModel {
            current: self.current_node,
            parent: self.parent_node,
            prev: self.prev_sibling,
            children: self.child_ids@,
            parent_ports: name_set(self.parent_ports@),
        }
    }
}

/// `e` is the identifier `name` at `span`.
pub open spec fn is_named_ident(e: Expr, name: Seq<char>, span: Span) -> bool {
    e matches Expr::Ident(i) && i.name@ == name && i.span == span
}

/// `e` is `target.member` at `span`, with the target the identifier `name`.
pub open spec fn is_node_access(e: Expr, name: Seq<char>, target_span: Span, member: Ident, span: Span) -> bool {
    e matches Expr::MemberAccess(m) && is_named_ident(*m.target, name, target_span) && m.member
        == member && m.span == span
}

/// A bare identifier after rewriting: a port of the enclosing node becomes an
/// access on the parent; `self`, `parent` and `prev` become node names.
pub open spec fn ident_rewrite(id: Ident, ctx: ScopeModel, r: Expr) -> bool {
    if ctx.parent_ports.contains(id.name@) && ctx.parent is Some {
        is_node_access(r, ctx.parent->Some_0.spec_canonical(), id.span, id, id.span)
    } else if id.name@ == "self"@ {
        is_named_ident(r, ctx.current.spec_canonical(), id.span)
    } else if id.name@ == "parent"@ && ctx.parent is Some {
        is_named_ident(r, ctx.parent->Some_0.spec_canonical(), id.span)
    } else if id.name@ == "prev"@ && ctx.prev is Some {
        is_named_ident(r, ctx.prev->Some_0.spec_canonical(), id.span)
    } else {
        r == Expr::Ident(id)
    }
}

/// The node a member-access target names directly: `parent`, `prev` (when
/// they exist) and `self`.
pub open spec fn special_target(t: Expr, ctx: ScopeModel) -> Option<NodeId> {
    match t {
        Expr::Ident(i) => if i.name@ == "parent"@ && ctx.parent is Some {
            ctx.parent
        } else if i.name@ == "prev"@ && ctx.prev is Some {
            ctx.prev
        } else if i.name@ == "self"@ {
            Some(ctx.current)
        } else {
            None
        },
        _ => None,
    }
}

/// The access `children.m` inside a call argument list, if `a` is one.
pub open spec fn children_access(a: Expr) -> bool {
    a matches Expr::MemberAccess(m) && (*m.target matches Expr::Ident(t) && t.name@
        == "children"@)
}

/// How many arguments `args` becomes: a `children.m` access becomes one
/// argument per child.
pub open spec fn args_len(args: Seq<Expr>, ctx: ScopeModel) -> nat
    decreases args.len(),
{
    if args.len() == 0 {
        0
    } else {
        args_len(args.drop_last(), ctx) + if children_access(args.last()) {
            ctx.children.len()
        } else {
            1
        }
    }
}

/// `r` is the member access `target.<member>` with `member` named `name` at
/// the span of the member it replaces.
pub open spec fn access_to(r: Expr, t: Expr, ctx: ScopeModel, name: Seq<char>, member: Ident, span: Span) -> bool
    decreases t, 2nat,
{
    r matches Expr::MemberAccess(a) && target_rewrite(t, ctx, *a.target) && a.member.name@ == name
        && a.member.span == member.span && a.span == span
}

/// The target of a member access after rewriting.
pub open spec fn target_rewrite(t: Expr, ctx: ScopeModel, x: Expr) -> bool
    decreases t, 1nat,
{
    match special_target(t, ctx) {
        Some(n) => is_named_ident(x, n.spec_canonical(), t.spec_span()),
        None => rewrites_to(t, ctx, x),
    }
}

/// `r` is `e` rewritten in scope `ctx`: node-relative names resolved to
/// canonical node names, `prev ? a : b` resolved by whether a previous
/// sibling exists, the aliases `left`, `top`, `right`, `bottom` replaced by
/// `x`, `y`, `x + width`, `y + height`, and `children.m` in a call spread
/// over the children.
pub open spec fn rewrites_to(e: Expr, ctx: ScopeModel, r: Expr) -> bool
    decreases e, 0nat,
{
    match e {
        Expr::Ident(id) => ident_rewrite(id, ctx, r),
        Expr::Ternary(t) => if (*t.condition matches Expr::Ident(c) && c.name@ == "prev"@) {
            if ctx.prev is None {
                rewrites_to(*t.else_expr, ctx, r)
            } else {
                rewrites_to(*t.then_expr, ctx, r)
            }
        } else {
            r matches Expr::Ternary(u) && rewrites_to(*t.condition, ctx, *u.condition) && rewrites_to(
                *t.then_expr,
                ctx,
                *u.then_expr,
            ) && rewrites_to(*t.else_expr, ctx, *u.else_expr) && u.span == t.span
        },
        Expr::MemberAccess(m) => {
            let name = m.member.name@;
            if name == "left"@ {
                access_to(r, *m.target, ctx, "x"@, m.member, m.span)
            } else if name == "top"@ {
                access_to(r, *m.target, ctx, "y"@, m.member, m.span)
            } else if name == "right"@ {
                r matches Expr::Binary(b) && b.op == BinaryOp::Add && b.span == m.span && access_to(
                    *b.left,
                    *m.target,
                    ctx,
                    "x"@,
                    m.member,
                    m.span,
                ) && access_to(*b.right, *m.target, ctx, "width"@, m.member, m.span)
            } else if name == "bottom"@ {
                r matches Expr::Binary(b) && b.op == BinaryOp::Add && b.span == m.span && access_to(
                    *b.left,
                    *m.target,
                    ctx,
                    "y"@,
                    m.member,
                    m.span,
                ) && access_to(*b.right, *m.target, ctx, "height"@, m.member, m.span)
            } else {
                r matches Expr::MemberAccess(a) && target_rewrite(*m.target, ctx, *a.target)
                    && a.member == m.member && a.span == m.span
            }
        },
        Expr::Call(c) => if args_len(c.args@, ctx) == 0 && ctx.children.len() > 0 {
            r matches Expr::Literal(Literal::Number(s, sp)) && s@ == "0"@ && sp == c.span
        } else {
            r matches Expr::Call(d) && d.callee == c.callee && d.span == c.span && args_rewrite(
                c.args@,
                ctx,
                d.args@,
            )
        },
        Expr::Binary(b) => r matches Expr::Binary(x) && x.op == b.op && rewrites_to(
            *b.left,
            ctx,
            *x.left,
        ) && rewrites_to(*b.right, ctx, *x.right) && x.span == b.span,
        Expr::Unary(u) => r matches Expr::Unary(x) && x.op == u.op && rewrites_to(
            *u.operand,
            ctx,
            *x.operand,
        ) && x.span == u.span,
        Expr::Paren(inner, s) => r matches Expr::Paren(x, t) && rewrites_to(*inner, ctx, *x) && t
            == s,
        Expr::Literal(_) => r == e,
        Expr::Node(n) => r matches Expr::Node(m) && same_elem(*n, *m),
    }
}

/// Rewriting `prev ? a : b` is rewriting the branch the scope picks: `a`
/// when the node has a previous sibling, `b` when it has none.
pub proof fn lemma_prev_ternary_rewrite(t: TernaryExpr, ctx: ScopeModel, r: Expr)
    requires
        *t.condition matches Expr::Ident(c) && c.name@ == "prev"@,
    ensures
        rewrites_to(Expr::Ternary(t), ctx, r) <==> rewrites_to(
            if ctx.prev is None {
                *t.else_expr
            } else {
                *t.then_expr
            },
            ctx,
            r,
        ),
{
}

/// `out` is the argument list `args` rewritten: each argument in turn, with
/// `children.m` spread into `__node_K.m` for every child `K`.
pub open spec fn args_rewrite(args: Seq<Expr>, ctx: ScopeModel, out: Seq<Expr>) -> bool
    decreases args, 3nat,
{
    &&& out.len() == args_len(args, ctx)
    &&& args.len() > 0 ==> {
        let k = args_len(args.drop_last(), ctx) as int;
        let a = args.last();
        &&& args_rewrite(args.drop_last(), ctx, out.take(k))
        &&& if children_access(a) {
            let m = a->MemberAccess_0;
            forall|i: int|
                0 <= i < ctx.children.len() ==> is_node_access(
                    #[trigger] out[k + i],
                    ctx.children[i].spec_canonical(),
                    (*m.target).spec_span(),
                    m.member,
                    m.span,
                )
        } else {
            rewrites_to(a, ctx, out[k])
        }
    }
}


/// Whether `name` is among `ports`.
fn in_ports(ports: &[String], name: &str) -> (b: bool)
    ensures
        b == name_set(ports@).contains(name@),
{
    let mut i: usize = 0;
    while i < ports.len()
        invariant
            i <= ports@.len(),
            forall|j: int| 0 <= j < i ==> ports@[j]@ != name@,
        decreases ports@.len() - i,
    {
        if str_eq(ports[i].as_str(), name) {
            return true;
        }
        i = i + 1;
    }
    proof {
        if name_set(ports@).contains(name@) {
            let j = choose|j: int| 0 <= j < ports@.len() && ports@[j]@ == name@;
        }
    }
    false
}

/// The identifier naming node `n`.
fn node_ident(n: NodeId, span: Span) -> (e: Expr)
    ensures
        is_named_ident(e, n.spec_canonical(), span),
{
    let name = n.canonical_name();
    Expr::Ident(Ident { name, span })
}

/// `target.name` with the member at `member_span`.
fn access(target: Expr, name: &str, member_span: Span, span: Span) -> (e: Expr)
    ensures
        e matches Expr::MemberAccess(a) && *a.target == target && a.member.name@ == name@
            && a.member.span == member_span && a.span == span,
{
    Expr::MemberAccess(
        MemberAccessExpr {
            target: Box::new(target),
            member: Ident::new(name, member_span),
            span,
        },
    )
}

/// The target of a member access, rewritten.
fn resolve_target(t: &Expr, ctx: &ScopeContext) -> (x: Expr)
    ensures
        target_rewrite(*t, ctx.model(), x),
    decreases t, 1nat,
{
    match t {
        Expr::Ident(i) => {
            if str_eq(i.name.as_str(), "parent") && ctx.parent_node.is_some() {
                return node_ident(ctx.parent_node.unwrap(), i.span);
            }
            if str_eq(i.name.as_str(), "prev") && ctx.prev_sibling.is_some() {
                return node_ident(ctx.prev_sibling.unwrap(), i.span);
            }
            if str_eq(i.name.as_str(), "self") {
                return node_ident(ctx.current_node, i.span);
            }
            rewrite_expr(t, ctx)
        },
        _ => rewrite_expr(t, ctx),
    }
}

/// Rewrites `expr` in scope `ctx` into canonical node references, resolving
/// `prev` recurrences, spatial aliases and `children.m` spreads.
pub fn rewrite_expr(expr: &Expr, ctx: &ScopeContext) -> (r: Expr)
    ensures
        rewrites_to(*expr, ctx.model(), r),
    decreases expr, 0nat,
{
    match expr {
        Expr::Ident(id) => {
            if in_ports(ctx.parent_ports, id.name.as_str()) && ctx.parent_node.is_some() {
                let p = ctx.parent_node.unwrap();
                let r = Expr::MemberAccess(
                    MemberAccessExpr {
                        target: Box::new(node_ident(p, id.span)),
                        member: copy_ident(id),
                        span: id.span,
                    },
                );
                return r;
            }
            if str_eq(id.name.as_str(), "self") {
                let r = node_ident(ctx.current_node, id.span);
                return r;
            }
            if str_eq(id.name.as_str(), "parent") && ctx.parent_node.is_some() {
                let r = node_ident(ctx.parent_node.unwrap(), id.span);
                return r;
            }
            if str_eq(id.name.as_str(), "prev") && ctx.prev_sibling.is_some() {
                let r = node_ident(ctx.prev_sibling.unwrap(), id.span);
                return r;
            }
            let r = Expr::Ident(copy_ident(id));
            proof {
                let cm = ctx.model();
                assert(!(cm.parent_ports.contains(id.name@) && cm.parent is Some));
                assert(id.name@ != "self"@);
                assert(!(id.name@ == "parent"@ && cm.parent is Some));
                assert(!(id.name@ == "prev"@ && cm.prev is Some));
                assert(r == Expr::Ident(*id));
            }
            r
        },
        Expr::Ternary(t) => {
            let is_prev = match &*t.condition {
                Expr::Ident(c) => str_eq(c.name.as_str(), "prev"),
                _ => false,
            };
            if is_prev {
                if ctx.prev_sibling.is_none() {
                    return rewrite_expr(&t.else_expr, ctx);
                } else {
                    return rewrite_expr(&t.then_expr, ctx);
                }
            }
            Expr::Ternary(
                TernaryExpr {
                    condition: Box::new(rewrite_expr(&t.condition, ctx)),
                    then_expr: Box::new(rewrite_expr(&t.then_expr, ctx)),
                    else_expr: Box::new(rewrite_expr(&t.else_expr, ctx)),
                    span: t.span,
                },
            )
        },
        Expr::MemberAccess(m) => {
            let name = m.member.name.as_str();
            if str_eq(name, "left") {
                let r = access(resolve_target(&m.target, ctx), "x", m.member.span, m.span);
                assert(access_to(r, *m.target, ctx.model(), "x"@, m.member, m.span));
                r
            } else if str_eq(name, "top") {
                let r = access(resolve_target(&m.target, ctx), "y", m.member.span, m.span);
                assert(access_to(r, *m.target, ctx.model(), "y"@, m.member, m.span));
                r
            } else if str_eq(name, "right") {
                let x = access(resolve_target(&m.target, ctx), "x", m.member.span, m.span);
                let w = access(resolve_target(&m.target, ctx), "width", m.member.span, m.span);
                assert(access_to(x, *m.target, ctx.model(), "x"@, m.member, m.span));
                assert(access_to(w, *m.target, ctx.model(), "width"@, m.member, m.span));
                let r = Expr::Binary(
                    BinaryExpr { op: BinaryOp::Add, left: Box::new(x), right: Box::new(w), span: m.span },
                );
                r
            } else if str_eq(name, "bottom") {
                let y = access(resolve_target(&m.target, ctx), "y", m.member.span, m.span);
                let h = access(resolve_target(&m.target, ctx), "height", m.member.span, m.span);
                assert(access_to(y, *m.target, ctx.model(), "y"@, m.member, m.span));
                assert(access_to(h, *m.target, ctx.model(), "height"@, m.member, m.span));
                let r = Expr::Binary(
                    BinaryExpr { op: BinaryOp::Add, left: Box::new(y), right: Box::new(h), span: m.span },
                );
                r
            } else {
                let r = Expr::MemberAccess(
                    MemberAccessExpr {
                        target: Box::new(resolve_target(&m.target, ctx)),
                        member: copy_ident(&m.member),
                        span: m.span,
                    },
                );
                r
            }
        },
        Expr::Call(c) => {
            let ghost cm = ctx.model();
            let mut out: Vec<Expr> = Vec::new();
            let mut i: usize = 0;
            while i < c.args.len()
                invariant
                    i <= c.args@.len(),
                    *expr == Expr::Call(*c),
                    cm == ctx.model(),
                    args_rewrite(c.args@.take(i as int), cm, out@),
                decreases c.args@.len() - i,
            {
                let ghost before = out@;
                let ghost k = out@.len() as int;
                proof {
                    assert(c.args@.take(i + 1).drop_last() =~= c.args@.take(i as int));
                    assert(c.args@.take(i + 1).last() == c.args@[i as int]);
                }
                let arg = &c.args[i];
                let mut spread = false;
                match arg {
                    Expr::MemberAccess(m) => {
                        match &*m.target {
                            Expr::Ident(t) => {
                                if str_eq(t.name.as_str(), "children") {
                                    spread = true;
                                    let mut j: usize = 0;
                                    while j < ctx.child_ids.len()
                                        invariant
                                            j <= ctx.child_ids@.len(),
                                            cm == ctx.model(),
                                            out@.len() == k + j,
                                            0 <= k,
                                            before.len() == k,
                                            out@.take(k) == before,
                                            forall|q: int|
                                                0 <= q < j ==> is_node_access(
                                                    #[trigger] out@[k + q],
                                                    cm.children[q].spec_canonical(),
                                                    t.span,
                                                    m.member,
                                                    m.span,
                                                ),
                                        decreases ctx.child_ids@.len() - j,
                                    {
                                        let e = Expr::MemberAccess(
                                            MemberAccessExpr {
                                                target: Box::new(node_ident(ctx.child_ids[j], t.span)),
                                                member: copy_ident(&m.member),
                                                span: m.span,
                                            },
                                        );
                                        let ghost o2 = out@;
                                        out.push(e);
                                        proof {
                                            assert(out@ == o2.push(e));
                                            assert(out@.take(k) =~= o2.take(k));
                                            assert(out@[k + j] == e);
                                            assert forall|q: int| 0 <= q < j + 1 implies is_node_access(
                                                    #[trigger] out@[k + q],
                                                    cm.children[q].spec_canonical(),
                                                    t.span,
                                                    m.member,
                                                    m.span,
                                                ) by {
                                                if q < j {
                                                    assert(out@[k + q] == o2[k + q]);
                                                }
                                            }
                                        }
                                        j = j + 1;
                                    }
                                }
                            },
                            _ => {},
                        }
                    },
                    _ => {},
                }
                if !spread {
                    proof {
                        assert(decreases_to!(*expr => expr->Call_0));
                        assert(decreases_to!(expr->Call_0 => expr->Call_0.args));
                        assert(decreases_to!(expr->Call_0.args => expr->Call_0.args@));
                        assert(decreases_to!(expr->Call_0.args@ => c.args@[i as int]));
                    }
                    let e = rewrite_expr(arg, ctx);
                    out.push(e);
                    proof {
                        assert(out@.take(k) =~= before);
                    }
                }
                proof {
                    let a2 = c.args@.take(i + 1);
                    assert(a2.drop_last() =~= c.args@.take(i as int));
                }
                i = i + 1;
            }
            proof {
                assert(c.args@.take(i as int) =~= c.args@);
            }
            if out.len() == 0 && ctx.child_ids.len() > 0 {
                return Expr::Literal(Literal::Number("0".to_owned(), c.span));
            }
            Expr::Call(CallExpr { callee: copy_ident(&c.callee), args: out, span: c.span })
        },
        Expr::Binary(b) => Expr::Binary(
            BinaryExpr {
                op: b.op,
                left: Box::new(rewrite_expr(&b.left, ctx)),
                right: Box::new(rewrite_expr(&b.right, ctx)),
                span: b.span,
            },
        ),
        Expr::Unary(u) => Expr::Unary(
            UnaryExpr { op: u.op, operand: Box::new(rewrite_expr(&u.operand, ctx)), span: u.span },
        ),
        Expr::Paren(inner, span) => Expr::Paren(Box::new(rewrite_expr(inner, ctx)), *span),
        Expr::Literal(l) => Expr::Literal(copy_literal(l)),
        Expr::Node(n) => Expr::Node(Box::new(copy_elem(n))),
    }
}


// ---------------------------------------------------------------------------
// What expansion produces.
// ---------------------------------------------------------------------------

/// A node as expansion defines it. Its ports are the rewritten `sources`;
/// a primitive also gets default `height` and `width` when it sets none.
pub struct NodeModel {
    pub name: Seq<char>,
    pub parent: Option<NodeId>,
    pub prev: Option<NodeId>,
    pub children: Seq<NodeId>,
    pub text: Option<Seq<char>>,
    pub span: Span,
    pub sources: Map<Seq<char>, Expr>,
    pub scope: ScopeModel,
    pub primitive: bool,
}

/// The port equations named by `(name, expression)` pairs; later pairs win.
pub open spec fn pairs_map(s: Seq<(Seq<char>, Expr)>) -> Map<Seq<char>, Expr>
    decreases s.len(),
{
    if s.len() == 0 {
        Map::empty()
    } else {
        pairs_map(s.drop_last()).insert(s.last().0, s.last().1)
    }
}

/// The `(name, expression)` pairs of port bindings.
pub open spec fn binding_pairs(s: Seq<PortBinding>) -> Seq<(Seq<char>, Expr)> {
    s.map_values(|b: PortBinding| (b.name.name@, b.expr))
}

/// The `(name, default)` pairs of the parameters that have a default.
pub open spec fn default_pairs(s: Seq<ParamDef>) -> Seq<(Seq<char>, Expr)>
    decreases s.len(),
{
    if s.len() == 0 {
        Seq::empty()
    } else {
        default_pairs(s.drop_last()) + match s.last().default_edge {
            Some(e) => seq![(s.last().name.name@, e)],
            None => Seq::empty(),
        }
    }
}

/// The component a name refers to: the last definition with that name.
pub open spec fn comp_lookup(reg: Seq<ComponentDef>, name: Seq<char>) -> Option<ComponentDef>
    decreases reg.len(),
{
    if reg.len() == 0 {
        None
    } else if reg.last().name.name@ == name {
        Some(reg.last())
    } else {
        comp_lookup(reg.drop_last(), name)
    }
}

/// The port names in scope inside a component instance: the spatial ports,
/// the parameters and the ports the instance sets.
pub open spec fn comp_scope(c: ComponentDef, ports: Seq<PortBinding>) -> Set<Seq<char>> {
    set!["x"@, "y"@, "width"@, "height"@, "z"@].union(param_names(c.params@)).union(
        binding_names(ports),
    )
}

/// The names of a list of parameters.
pub open spec fn param_names(s: Seq<ParamDef>) -> Set<Seq<char>>
    decreases s.len(),
{
    if s.len() == 0 {
        Set::empty()
    } else {
        param_names(s.drop_last()).insert(s.last().name.name@)
    }
}

/// The names of a list of port bindings.
pub open spec fn binding_names(s: Seq<PortBinding>) -> Set<Seq<char>>
    decreases s.len(),
{
    if s.len() == 0 {
        Set::empty()
    } else {
        binding_names(s.drop_last()).insert(s.last().name.name@)
    }
}

/// The texts of the text chunks among `items`.
pub open spec fn text_parts(items: Seq<ContentItem>) -> Seq<Seq<char>>
    decreases items.len(),
{
    if items.len() == 0 {
        Seq::empty()
    } else {
        text_parts(items.drop_last()) + match items.last() {
            ContentItem::Text(t) => seq![t.text@],
            _ => Seq::empty(),
        }
    }
}

/// `parts` joined by single spaces.
pub open spec fn join_spaced(parts: Seq<Seq<char>>) -> Seq<char>
    decreases parts.len(),
{
    if parts.len() == 0 {
        Seq::empty()
    } else if parts.len() == 1 {
        parts[0]
    } else {
        join_spaced(parts.drop_last()) + " "@ + parts.last()
    }
}

/// The text an element shows: its text chunks joined by spaces, if it has any.
pub open spec fn text_of(e: ElementNode) -> Option<Seq<char>> {
    match e.content {
        Some(c) => if text_parts(c.items@).len() > 0 {
            Some(join_spaced(text_parts(c.items@)))
        } else {
            None
        },
        None => None,
    }
}

/// How deeply elements nest inside `e`.
pub open spec fn elem_height(e: ElementNode) -> nat
    decreases e, 1nat,
{
    1 + match e.content {
        Some(c) => items_height(c.items@),
        None => 0,
    }
}

/// One more than the greatest height of the elements among `items`.
pub open spec fn items_height(items: Seq<ContentItem>) -> nat
    decreases items, 0nat,
{
    if items.len() == 0 {
        0
    } else {
        let here = match items[0] {
            ContentItem::Node(k) => elem_height(k) + 1,
            _ => 0,
        };
        let rest = items_height(items.skip(1));
        if here > rest {
            here
        } else {
            rest
        }
    }
}

/// One more than the greatest height of the elements of a component body.
pub open spec fn body_height(body: Seq<ComponentBodyItem>) -> nat
    decreases body.len(),
{
    if body.len() == 0 {
        0
    } else {
        let here = match body[0] {
            ComponentBodyItem::Node(b) => elem_height(b) + 1,
            _ => 0,
        };
        let rest = body_height(body.skip(1));
        if here > rest {
            here
        } else {
            rest
        }
    }
}

/// Expanding `e` stops: every component it instantiates, directly or
/// through nested instances, is at most `fuel` levels deep.
pub open spec fn elem_ok(reg: Seq<ComponentDef>, e: ElementNode, fuel: nat) -> bool
    decreases fuel, elem_height(e), 2nat, 0nat,
{
    &&& match e.content {
        Some(c) => items_ok(reg, c.items@, fuel),
        None => true,
    }
    &&& match comp_lookup(reg, e.name.name@) {
        Some(c) => fuel > 0 && body_ok(reg, c.body@, (fuel - 1) as nat),
        None => true,
    }
}

pub open spec fn items_ok(reg: Seq<ComponentDef>, items: Seq<ContentItem>, fuel: nat) -> bool
    decreases fuel, items_height(items), 1nat, items.len(),
{
    items.len() > 0 ==> {
        &&& match items[0] {
            ContentItem::Node(k) => elem_ok(reg, k, fuel),
            _ => true,
        }
        &&& items_ok(reg, items.skip(1), fuel)
    }
}

pub open spec fn body_ok(reg: Seq<ComponentDef>, body: Seq<ComponentBodyItem>, fuel: nat) -> bool
    decreases fuel, body_height(body), 1nat, body.len(),
{
    body.len() > 0 ==> {
        &&& match body[0] {
            ComponentBodyItem::Node(b) => elem_ok(reg, b, fuel),
            _ => true,
        }
        &&& body_ok(reg, body.skip(1), fuel)
    }
}

proof fn lemma_elem_ok_monotone(reg: Seq<ComponentDef>, e: ElementNode, f: nat, g: nat)
    requires
        elem_ok(reg, e, f),
        f <= g,
    ensures
        elem_ok(reg, e, g),
    decreases f, elem_height(e), 2nat, 0nat,
{
    match e.content {
        Some(c) => lemma_items_ok_monotone(reg, c.items@, f, g),
        None => {},
    }
    match comp_lookup(reg, e.name.name@) {
        Some(c) => lemma_body_ok_monotone(reg, c.body@, (f - 1) as nat, (g - 1) as nat),
        None => {},
    }
}

proof fn lemma_items_ok_monotone(reg: Seq<ComponentDef>, items: Seq<ContentItem>, f: nat, g: nat)
    requires
        items_ok(reg, items, f),
        f <= g,
    ensures
        items_ok(reg, items, g),
    decreases f, items_height(items), 1nat, items.len(),
{
    if items.len() > 0 {
        match items[0] {
            ContentItem::Node(k) => {
                lemma_items_height(items, 0);
                lemma_elem_ok_monotone(reg, k, f, g);
            },
            _ => {},
        }
        lemma_items_height_skip(items);
        lemma_items_ok_monotone(reg, items.skip(1), f, g);
    }
}

proof fn lemma_body_ok_monotone(reg: Seq<ComponentDef>, body: Seq<ComponentBodyItem>, f: nat, g: nat)
    requires
        body_ok(reg, body, f),
        f <= g,
    ensures
        body_ok(reg, body, g),
    decreases f, body_height(body), 1nat, body.len(),
{
    if body.len() > 0 {
        match body[0] {
            ComponentBodyItem::Node(b) => {
                lemma_elem_ok_monotone(reg, b, f, g);
            },
            _ => {},
        }
        lemma_body_ok_monotone(reg, body.skip(1), f, g);
    }
}

/// A document that expands within some depth of component nesting expands
/// within any greater depth.
pub proof fn lemma_depth_monotone(doc: Document, f: nat, g: nat)
    requires
        roots_ok(doc_registry(doc.items@), doc.items@, f),
        f <= g,
    ensures
        roots_ok(doc_registry(doc.items@), doc.items@, g),
{
    let reg = doc_registry(doc.items@);
    let items = doc.items@;
    assert forall|i: int| 0 <= i < items.len() && items[i] is Node implies elem_ok(reg, #[trigger] items[i]->Node_0, g) by {
        lemma_elem_ok_monotone(reg, items[i]->Node_0, f, g);
    }
}

/// The nodes expanding `e` creates, numbered from `base`: first `e`'s own
/// node, then, in order, the nodes of its children.
pub open spec fn expand_elem(
    reg: Seq<ComponentDef>,
    e: ElementNode,
    ports: Seq<PortBinding>,
    base: nat,
    parent: Option<NodeId>,
    prev: Option<NodeId>,
    pports: Set<Seq<char>>,
    fuel: nat,
) -> Seq<NodeModel>
    decreases fuel, elem_height(e), 3nat, 0nat,
{
    let id = NodeId(#[verifier::truncate] (base as usize));
    match comp_lookup(reg, e.name.name@) {
        Some(c) => if fuel == 0 {
            Seq::empty()
        } else {
            let r = expand_body(reg, c.body@, e, base + 1, id, None, comp_scope(c, ports), fuel);
            let root = NodeModel {
                name: e.name.name@,
                parent,
                prev,
                children: r.1,
                text: text_of(e),
                span: e.span,
                sources: pairs_map(default_pairs(c.params@) + binding_pairs(ports)),
                scope: ScopeModel { current: id, parent, prev, children: r.2, parent_ports: pports },
                primitive: false,
            };
            seq![root] + r.0
        },
        None => {
            let r = match e.content {
                Some(cs) => expand_content(reg, cs.items@, base + 1, id, None, pports, fuel),
                None => (Seq::empty(), Seq::empty()),
            };
            let root = NodeModel {
                name: e.name.name@,
                parent,
                prev,
                children: r.1,
                text: text_of(e),
                span: e.span,
                sources: pairs_map(binding_pairs(ports)),
                scope: ScopeModel { current: id, parent, prev, children: r.1, parent_ports: pports },
                primitive: true,
            };
            seq![root] + r.0
        },
    }
}

/// The nodes of the elements among `items`, expanded in order as children
/// of `pid` starting at `base`, with their ids.
pub open spec fn expand_content(
    reg: Seq<ComponentDef>,
    items: Seq<ContentItem>,
    base: nat,
    pid: NodeId,
    last: Option<NodeId>,
    pports: Set<Seq<char>>,
    fuel: nat,
) -> (Seq<NodeModel>, Seq<NodeId>)
    decreases fuel, items_height(items), 1nat, items.len(),
{
    if items.len() == 0 {
        (Seq::empty(), Seq::empty())
    } else {
        match items[0] {
            ContentItem::Node(k) => {
                let sub = expand_elem(reg, k, k.ports@, base, Some(pid), last, pports, fuel);
                let rest = expand_content(reg, items.skip(1), base + sub.len(), pid, Some(NodeId(#[verifier::truncate] (base as usize))), pports, fuel);
                (sub + rest.0, seq![NodeId(#[verifier::truncate] (base as usize))] + rest.1)
            },
            _ => expand_content(reg, items.skip(1), base, pid, last, pports, fuel),
        }
    }
}

/// The consumer's elements among `items`, each with the ambient ports
/// `ambient` before its own, expanded as children of component node `cid`.
pub open spec fn expand_wired(
    reg: Seq<ComponentDef>,
    ambient: Seq<PortBinding>,
    items: Seq<ContentItem>,
    base: nat,
    cid: NodeId,
    last: Option<NodeId>,
    scope: Set<Seq<char>>,
    fuel: nat,
) -> (Seq<NodeModel>, Seq<NodeId>)
    decreases fuel, items_height(items), 1nat, items.len(),
{
    if items.len() == 0 {
        (Seq::empty(), Seq::empty())
    } else {
        match items[0] {
            ContentItem::Node(k) => {
                let sub = expand_elem(reg, k, ambient + k.ports@, base, Some(cid), last, scope, fuel);
                let rest = expand_wired(reg, ambient, items.skip(1), base + sub.len(), cid, Some(NodeId(#[verifier::truncate] (base as usize))), scope, fuel);
                (sub + rest.0, seq![NodeId(#[verifier::truncate] (base as usize))] + rest.1)
            },
            _ => expand_wired(reg, ambient, items.skip(1), base, cid, last, scope, fuel),
        }
    }
}

/// The nodes of a component body, in declaration order: body elements, and
/// at each `\Children` the elements of the consumer `e`. Also the ids of all
/// children, and of the consumer's elements alone.
pub open spec fn expand_body(
    reg: Seq<ComponentDef>,
    body: Seq<ComponentBodyItem>,
    e: ElementNode,
    base: nat,
    cid: NodeId,
    last: Option<NodeId>,
    scope: Set<Seq<char>>,
    fuel: nat,
) -> (Seq<NodeModel>, Seq<NodeId>, Seq<NodeId>)
    decreases fuel, elem_height(e), 2nat, body.len(),
{
    if body.len() == 0 || fuel == 0 {
        (Seq::empty(), Seq::empty(), Seq::empty())
    } else {
        match body[0] {
            ComponentBodyItem::Node(b) => {
                let sub = expand_elem(reg, b, b.ports@, base, Some(cid), last, scope, (fuel - 1) as nat);
                let rest = expand_body(reg, body.skip(1), e, base + sub.len(), cid, Some(NodeId(#[verifier::truncate] (base as usize))), scope, fuel);
                (sub + rest.0, seq![NodeId(#[verifier::truncate] (base as usize))] + rest.1, rest.2)
            },
            ComponentBodyItem::Children(d) => {
                let w = match e.content {
                    Some(cs) => expand_wired(reg, d.ports@, cs.items@, base, cid, last, scope, fuel),
                    None => (Seq::empty(), Seq::empty()),
                };
                let next = if w.1.len() > 0 {
                    Some(w.1.last())
                } else {
                    last
                };
                let rest = expand_body(reg, body.skip(1), e, base + w.0.len(), cid, next, scope, fuel);
                (w.0 + rest.0, w.1 + rest.1, w.1 + rest.2)
            },
            _ => expand_body(reg, body.skip(1), e, base, cid, last, scope, fuel),
        }
    }
}


// ---------------------------------------------------------------------------
// How expanded nodes relate to the model.
// ---------------------------------------------------------------------------

/// The number `n2 / 2` in decimal: digits, then `.5` when `n2` is odd.
pub open spec fn half_decimal(n2: nat) -> Seq<char> {
    spec_decimal(n2 / 2) + if n2 % 2 == 1 {
        ".5"@
    } else {
        Seq::empty()
    }
}

/// The UTF-8 length of a node's text (0 without text).
pub open spec fn text_bytes(m: NodeModel) -> nat {
    match m.text {
        Some(t) => if utf8_len(t) <= usize::MAX {
            utf8_len(t)
        } else {
            usize::MAX as nat
        },
        None => 0,
    }
}

pub open spec fn max_nat(a: nat, b: nat) -> nat {
    if a >= b {
        a
    } else {
        b
    }
}

/// `e` is the number literal `lexeme` at `span`.
pub open spec fn is_number(e: Expr, lexeme: Seq<char>, span: Span) -> bool {
    e matches Expr::Literal(Literal::Number(s, sp)) && s@ == lexeme && sp == span
}

/// `e` reads port `port` of node `cur`, all at `span`.
pub open spec fn is_self_port(e: Expr, cur: NodeId, span: Span, port: Seq<char>) -> bool {
    e matches Expr::MemberAccess(a) && is_named_ident(*a.target, cur.spec_canonical(), span)
        && a.member.name@ == port && a.member.span == span && a.span == span
}

/// The line height a primitive uses: its `size` port if set, else 20.
pub open spec fn line_height_ok(e: Expr, cur: NodeId, span: Span, has_size: bool) -> bool {
    if has_size {
        is_self_port(e, cur, span, "size"@)
    } else {
        is_number(e, "20"@, span)
    }
}

/// The wrapped-text height formula for text of `t` bytes.
pub open spec fn text_height_ok(h: Expr, cur: NodeId, span: Span, has_size: bool, t: nat) -> bool {
    h matches Expr::Binary(add) && add.op == BinaryOp::Add && add.span == span && line_height_ok(*add.right, cur, span, has_size)
        && (*add.left matches Expr::Binary(mul) && mul.op == BinaryOp::Mul && mul.span == span
        && line_height_ok(*mul.right, cur, span, has_size) && (*mul.left matches Expr::Binary(div) && div.op
        == BinaryOp::Div && div.span == span && is_number(*div.left, half_decimal(max_nat(17 * (t as nat), 48)), span)
        && is_self_port(*div.right, cur, span, "width"@)))
}

/// The height a primitive gets when it sets none: wrapped text
/// (`max(len * 8.5, 24) / width * line + line`) for `Text` and for text
/// with a set width, else its `size`, else 24.
pub open spec fn default_height_ok(h: Expr, m: NodeModel) -> bool {
    let t = text_bytes(m);
    if m.name == "Text"@ || (t > 0 && m.sources.contains_key("width"@)) {
        text_height_ok(h, m.scope.current, m.span, m.sources.contains_key("size"@), t)
    } else if m.sources.contains_key("size"@) {
        is_self_port(h, m.scope.current, m.span, "size"@)
    } else {
        is_number(h, "24"@, m.span)
    }
}

/// The width a `\\Text` primitive gets when it sets none, measured from
/// its text: `max(len * 8, 100)` with text, else 100.
pub open spec fn default_width_ok(w: Expr, m: NodeModel) -> bool {
    let t = text_bytes(m);
    is_number(w, spec_decimal(if t > 0 { max_nat(8 * (t as nat), 100) } else { 100 }), m.span)
}

/// Port equations `p` are what the model defines.
pub open spec fn ports_match(p: Map<Seq<char>, Expr>, m: NodeModel) -> bool {
    &&& forall|k: Seq<char>| #[trigger] m.sources.contains_key(k) ==> p.contains_key(k) && rewrites_to(m.sources[k], m.scope, p[k])
    &&& forall|k: Seq<char>| #[trigger] p.contains_key(k) ==> m.sources.contains_key(k) || (m.primitive && (k == "height"@ || (k
        == "width"@ && m.name == "Text"@)))
    &&& m.primitive && !m.sources.contains_key("height"@) ==> p.contains_key("height"@) && default_height_ok(p["height"@], m)
    &&& m.primitive && m.name == "Text"@ && !m.sources.contains_key("width"@) ==> p.contains_key("width"@)
        && default_width_ok(p["width"@], m)
}

/// Node `n`, at position `i`, is the model node `m`.
pub open spec fn node_matches(n: ExpandedNode, m: NodeModel, i: int) -> bool {
    &&& n.id == NodeId(#[verifier::truncate] (i as usize))
    &&& n.name@ == m.name
    &&& n.parent == m.parent
    &&& n.prev_sibling == m.prev
    &&& n.children@ == m.children
    &&& match n.text_content {
        Some(t) => m.text == Some(t@),
        None => m.text is None,
    }
    &&& n.span == m.span
    &&& n.ports.wf()
    &&& ports_match(n.ports@, m)
}

/// The nodes from `base` on are the model nodes `ms`.
pub open spec fn nodes_match(nodes: Seq<ExpandedNode>, base: int, ms: Seq<NodeModel>) -> bool {
    &&& nodes.len() == base + ms.len()
    &&& forall|j: int| 0 <= j < ms.len() ==> node_matches(#[trigger] nodes[base + j], ms[j], base + j)
}

/// The definitions a list of component references denotes.
pub open spec fn defs(r: Seq<&ComponentDef>) -> Seq<ComponentDef> {
    r.map_values(|c: &ComponentDef| *c)
}

/// The bindings a list of binding references denotes.
pub open spec fn bindings(r: Seq<&PortBinding>) -> Seq<PortBinding> {
    r.map_values(|b: &PortBinding| *b)
}

pub(crate) proof fn lemma_items_height(items: Seq<ContentItem>, i: int)
    requires
        0 <= i < items.len(),
        items[i] is Node,
    ensures
        elem_height(items[i]->Node_0) < items_height(items),
        items_height(items.skip(i)) <= items_height(items),
    decreases i,
{
    if i > 0 {
        lemma_items_height(items.skip(1), i - 1);
        assert(items.skip(1)[i - 1] == items[i]);
        assert(items.skip(1).skip(i - 1) =~= items.skip(i));
    } else {
        assert(items.skip(0) =~= items);
    }
}

/// The component `name` refers to in `registry`.
pub(crate) fn lookup_component<'a>(registry: &Vec<&'a ComponentDef>, name: &str) -> (r: Option<&'a ComponentDef>)
    ensures
        match r {
            Some(c) => comp_lookup(defs(registry@), name@) == Some(*c),
            None => comp_lookup(defs(registry@), name@) is None,
        },
{
    let mut i = registry.len();
    assert(registry@.take(i as int) =~= registry@);
    while i > 0
        invariant
            i <= registry@.len(),
            comp_lookup(defs(registry@), name@) == comp_lookup(defs(registry@.take(i as int)), name@),
        decreases i,
    {
        let c = registry[i - 1];
        proof {
            assert(defs(registry@.take(i as int)).drop_last() =~= defs(registry@.take(i - 1)));
            assert(defs(registry@.take(i as int)).last() == *c);
        }
        if str_eq(c.name.name.as_str(), name) {
            return Some(c);
        }
        i = i - 1;
    }
    None
}

/// The element's text chunks joined by spaces, if it has any.
fn text_content_of(elem: &ElementNode) -> (r: Option<String>)
    ensures
        match r {
            Some(t) => text_of(*elem) == Some(t@),
            None => text_of(*elem) is None,
        },
{
    match &elem.content {
        None => None,
        Some(slot) => {
            let mut out: Vec<char> = Vec::new();
            let mut count: usize = 0;
            let mut i: usize = 0;
            while i < slot.items.len()
                invariant
                    i <= slot.items@.len(),
                    count <= i,
                    count == text_parts(slot.items@.take(i as int)).len(),
                    count > 0 ==> out@ == join_spaced(text_parts(slot.items@.take(i as int))),
                    count == 0 ==> out@.len() == 0,
                decreases slot.items@.len() - i,
            {
                proof {
                    assert(slot.items@.take(i + 1).drop_last() =~= slot.items@.take(i as int));
                }
                match &slot.items[i] {
                    ContentItem::Text(chunk) => {
                        let ghost parts = text_parts(slot.items@.take(i as int));
                        if count > 0 {
                            crate::chars::push_str(&mut out, " ");
                        }
                        crate::chars::push_str(&mut out, chunk.text.as_str());
                        proof {
                            let np = text_parts(slot.items@.take(i + 1));
                            assert(np =~= parts.push(chunk.text@));
                            if count > 0 {
                                assert(np.drop_last() =~= parts);
                            } else {
                                assert(parts.len() == 0);
                                assert(np =~= seq![chunk.text@]);
                            }
                        }
                        count = count + 1;
                    },
                    _ => {
                        proof {
                            assert(text_parts(slot.items@.take(i + 1)) =~= text_parts(slot.items@.take(i as int)));
                        }
                    },
                }
                i = i + 1;
            }
            proof {
                assert(slot.items@.take(i as int) =~= slot.items@);
            }
            if count > 0 {
                Some(crate::chars::string_from_chars(out.as_slice()))
            } else {
                None
            }
        },
    }
}

/// References to each binding of `v`, in order.
pub(crate) fn binding_refs(v: &Vec<PortBinding>) -> (r: Vec<&PortBinding>)
    ensures
        bindings(r@) == v@,
{
    let mut r: Vec<&PortBinding> = Vec::new();
    let mut i: usize = 0;
    while i < v.len()
        invariant
            i <= v@.len(),
            bindings(r@) == v@.take(i as int),
        decreases v@.len() - i,
    {
        let ghost before = r@;
        r.push(&v[i]);
        proof {
            assert(r@ == before.push(&v@[i as int]));
            assert(bindings(r@) =~= bindings(before).push(v@[i as int]));
            assert(v@.take(i + 1) =~= v@.take(i as int).push(v@[i as int]));
        }
        i = i + 1;
    }
    assert(v@.take(i as int) =~= v@);
    r
}


/// Port equations `p` are the rewrites, in `scope`, of the sources `src`.
pub open spec fn rewritten_map(p: Map<Seq<char>, Expr>, src: Map<Seq<char>, Expr>, scope: ScopeModel) -> bool {
    &&& forall|k: Seq<char>| #[trigger] p.contains_key(k) == src.contains_key(k)
    &&& forall|k: Seq<char>| #[trigger] src.contains_key(k) ==> rewrites_to(src[k], scope, p[k])
}

/// Sets port `name` to `e` rewritten in `ctx`.
fn insert_rewritten(
    pm: &mut PortMap,
    name: &String,
    e: &Expr,
    ctx: &ScopeContext,
    Ghost(srcs): Ghost<Seq<(Seq<char>, Expr)>>,
)
    requires
        old(pm).wf(),
        rewritten_map(old(pm)@, pairs_map(srcs), ctx.model()),
    ensures
        final(pm).wf(),
        rewritten_map(final(pm)@, pairs_map(srcs.push((name@, *e))), ctx.model()),
{
    let r = rewrite_expr(e, ctx);
    pm.insert(name.clone(), r);
    proof {
        assert(srcs.push((name@, *e)).drop_last() =~= srcs);
    }
}

/// The node `id` as an identifier at `span`, followed by `.port`.
fn self_port(id: NodeId, port: &str, span: Span) -> (e: Expr)
    ensures
        is_self_port(e, id, span, port@),
{
    access(node_ident(id, span), port, span, span)
}

/// A number literal with the given digits.
fn number(digits: Vec<char>, span: Span) -> (e: Expr)
    ensures
        is_number(e, digits@, span),
{
    Expr::Literal(Literal::Number(crate::chars::string_from_chars(digits.as_slice()), span))
}

/// The line height: the node's `size` if set, else 20.
fn line_height(id: NodeId, span: Span, has_size: bool) -> (e: Expr)
    ensures
        line_height_ok(e, id, span, has_size),
{
    if has_size {
        self_port(id, "size", span)
    } else {
        proof {
            reveal_strlit("20");
        }
        number(crate::chars::str_chars("20"), span)
    }
}

/// `max(t * 8.5, 24) / self.width * line + line`.
fn text_height(id: NodeId, span: Span, has_size: bool, t: usize) -> (e: Expr)
    ensures
        text_height_ok(e, id, span, has_size, t as nat),
{
    let wide: u128 = (t as u128) * 17;
    let n2: u128 = if wide >= 48 { wide } else { 48 };
    let mut digits: Vec<char> = Vec::new();
    crate::chars::push_decimal_wide(&mut digits, n2 / 2);
    if n2 % 2 == 1 {
        crate::chars::push_str(&mut digits, ".5");
    }
    proof {
        assert(n2 as nat == max_nat(17 * (t as nat), 48));
        assert(digits@ =~= half_decimal(n2 as nat));
    }
    let div = Expr::Binary(
        BinaryExpr {
            op: BinaryOp::Div,
            left: Box::new(number(digits, span)),
            right: Box::new(self_port(id, "width", span)),
            span,
        },
    );
    let mul = Expr::Binary(
        BinaryExpr {
            op: BinaryOp::Mul,
            left: Box::new(div),
            right: Box::new(line_height(id, span, has_size)),
            span,
        },
    );
    Expr::Binary(
        BinaryExpr {
            op: BinaryOp::Add,
            left: Box::new(mul),
            right: Box::new(line_height(id, span, has_size)),
            span,
        },
    )
}

/// The width a primitive gets without one: `max(t * 8, 100)` with text,
/// else 100.
fn default_width(t: usize, span: Span) -> (e: Expr)
    ensures
        is_number(e, spec_decimal(if t > 0 { max_nat(8 * (t as nat), 100) } else { 100 }), span),
{
    let w: u128 = if t > 0 {
        let e = (t as u128) * 8;
        if e >= 100 {
            e
        } else {
            100
        }
    } else {
        100
    };
    let mut digits: Vec<char> = Vec::new();
    crate::chars::push_decimal_wide(&mut digits, w);
    assert(digits@ =~= spec_decimal(w as nat));
    number(digits, span)
}


/// The node an element's expansion starts with, before its children and
/// ports are filled in.
pub open spec fn placeholder_ok(n: ExpandedNode, e: ElementNode, base: int, parent: Option<NodeId>, prev: Option<NodeId>) -> bool {
    &&& n.id == NodeId(#[verifier::truncate] (base as usize))
    &&& n.name@ == e.name.name@
    &&& n.parent == parent
    &&& n.prev_sibling == prev
    &&& match n.text_content {
        Some(t) => text_of(e) == Some(t@),
        None => text_of(e) is None,
    }
    &&& n.span == e.span
}

/// The UTF-8 length of an optional text, saturating.
fn text_len_of(t: &Option<String>) -> (n: usize)
    ensures
        n == match t {
            Some(s) => if utf8_len(s@) <= usize::MAX {
                utf8_len(s@)
            } else {
                usize::MAX as nat
            },
            None => 0,
        },
{
    match t {
        Some(s) => crate::chars::utf8_length(s.as_str()),
        None => 0,
    }
}

/// Expands a primitive element: its nested elements in order, then its
/// ports rewritten, with a default `height` where it sets none and, for a
/// `\\Text`, a `width` measured from its text.
fn expand_primitive_element(
    node_id: NodeId,
    elem: &ElementNode,
    ports: &Vec<&PortBinding>,
    parent: Option<NodeId>,
    prev: Option<NodeId>,
    parent_ports: &Vec<String>,
    registry: &Vec<&ComponentDef>,
    doc: &mut ExpandedDocument,
    Ghost(fuel): Ghost<nat>,
)
    requires
        old(doc).nodes@.len() == node_id.0 + 1,
        placeholder_ok(old(doc).nodes@[node_id.0 as int], *elem, node_id.0 as int, parent, prev),
        comp_lookup(defs(registry@), elem.name.name@) is None,
        match elem.content {
            Some(c) => items_ok(defs(registry@), c.items@, fuel),
            None => true,
        },
    ensures
        nodes_match(
            final(doc).nodes@,
            node_id.0 as int,
            expand_elem(defs(registry@), *elem, bindings(ports@), node_id.0 as nat, parent, prev, name_set(parent_ports@), fuel),
        ),
        forall|j: int| 0 <= j < node_id.0 ==> final(doc).nodes@[j] == old(doc).nodes@[j],
        final(doc).roots == old(doc).roots,
    decreases fuel, elem_height(*elem), 2nat, 0nat,
{
    let ghost reg = defs(registry@);
    let ghost pp = name_set(parent_ports@);
    let ghost base = node_id.0 as nat;
    let mut child_ids: Vec<NodeId> = Vec::new();
    let ghost mut produced: Seq<NodeModel> = Seq::empty();
    match &elem.content {
        Some(slot) => {
            let ghost items = slot.items@;
            let ghost full = expand_content(reg, items, base + 1, node_id, None, pp, fuel);
            let mut last: Option<NodeId> = None;
            let mut t: usize = 0;
            assert(items.skip(0) =~= items);
            while t < slot.items.len()
                invariant
                    t <= items.len(),
                    items == slot.items@,
                    elem.content == Some(*slot),
                    reg == defs(registry@),
                    pp == name_set(parent_ports@),
                    base == node_id.0,
                    doc.nodes@.len() == base + 1 + produced.len(),
                    doc.nodes@[base as int] == old(doc).nodes@[base as int],
                    forall|j: int| 0 <= j < base ==> doc.nodes@[j] == old(doc).nodes@[j],
                    doc.roots == old(doc).roots,
                    forall|j: int| 0 <= j < produced.len() ==> node_matches(#[trigger] doc.nodes@[base + 1 + j], produced[j], base + 1 + j),
                    ({
                        let rest = expand_content(reg, items.skip(t as int), base + 1 + produced.len(), node_id, last, pp, fuel);
                        &&& full.0 == produced + rest.0
                        &&& full.1 == child_ids@ + rest.1
                    }),
                    items_ok(reg, items.skip(t as int), fuel),
                decreases items.len() - t,
            {
                let ghost cursor = base + 1 + produced.len();
                let ghost rest = expand_content(reg, items.skip(t as int), cursor, node_id, last, pp, fuel);
                proof {
                    assert(items.skip(t as int)[0] == items[t as int]);
                    assert(items.skip(t as int).skip(1) =~= items.skip(t + 1));
                }
                match &slot.items[t] {
                    ContentItem::Node(k) => {
                        proof {
                            lemma_items_height(items, t as int);
                        }
                        let refs = binding_refs(&k.ports);
                        let id = expand_element(k, &refs, Some(node_id), last, parent_ports, registry, doc, Ghost(fuel));
                        let ghost sub = expand_elem(reg, *k, k.ports@, cursor, Some(node_id), last, pp, fuel);
                        proof {
                            assert(bindings(refs@) == k.ports@);
                            let rest2 = expand_content(reg, items.skip(t + 1), cursor + sub.len(), node_id, Some(id), pp, fuel);
                            assert(rest.0 == sub + rest2.0);
                            assert(rest.1 == seq![id] + rest2.1);
                            let np = produced + sub;
                            assert forall|j: int| 0 <= j < np.len() implies node_matches(#[trigger] doc.nodes@[base + 1 + j], np[j], base + 1 + j) by {
                                if j < produced.len() {
                                    assert(np[j] == produced[j]);
                                } else {
                                    assert(np[j] == sub[j - produced.len()]);
                                    assert(doc.nodes@[base + 1 + j] == doc.nodes@[cursor + (j - produced.len())]);
                                }
                            }
                            assert(full.0 =~= np + rest2.0);
                            assert(full.1 =~= child_ids@.push(id) + rest2.1);
                            produced = np;
                        }
                        child_ids.push(id);
                        last = Some(id);
                    },
                    _ => {},
                }
                t = t + 1;
            }
            proof {
                assert(items.skip(t as int) =~= Seq::<ContentItem>::empty());
                assert(full.0 =~= produced);
                assert(full.1 =~= child_ids@);
            }
        },
        None => {},
    }
    let ctx = ScopeContext {
        current_node: node_id,
        parent_node: parent,
        prev_sibling: prev,
        child_ids: child_ids.as_slice(),
        parent_ports: parent_ports.as_slice(),
    };
    let ghost srcs = binding_pairs(bindings(ports@));
    let mut pm = PortMap::new();
    let mut i: usize = 0;
    proof {
        assert(srcs.take(0) =~= Seq::<(Seq<char>, Expr)>::empty());
        assert(pm@ =~= pairs_map(srcs.take(0)));
    }
    while i < ports.len()
        invariant
            i <= ports@.len(),
            srcs == binding_pairs(bindings(ports@)),
            pm.wf(),
            rewritten_map(pm@, pairs_map(srcs.take(i as int)), ctx.model()),
        decreases ports@.len() - i,
    {
        let b = ports[i];
        proof {
            assert(srcs.take(i + 1) =~= srcs.take(i as int).push((b.name.name@, b.expr)));
        }
        insert_rewritten(&mut pm, &b.name.name, &b.expr, &ctx, Ghost(srcs.take(i as int)));
        i = i + 1;
    }
    proof {
        assert(srcs.take(i as int) =~= srcs);
    }
    let t = text_len_of(&doc.nodes[node_id.0].text_content);
    let ghost model = expand_elem(reg, *elem, bindings(ports@), base, parent, prev, pp, fuel);
    let ghost root = model[0];
    let ghost pm0 = pm@;
    proof {
        reveal_strlit("width");
        reveal_strlit("height");
        reveal_strlit("size");
        assert("width"@.len() != "height"@.len());
        assert("size"@.len() != "height"@.len());
        assert(root.sources == pairs_map(srcs));
        assert(root.scope == ctx.model());
        assert(t == text_bytes(root));
    }
    let has_size = pm.contains_key("size");
    if !pm.contains_key("height") {
        let is_text = str_eq(elem.name.name.as_str(), "Text");
        let has_width = pm.contains_key("width");
        let h = if is_text || (t > 0 && has_width) {
            text_height(node_id, elem.span, has_size, t)
        } else if has_size {
            self_port(node_id, "size", elem.span)
        } else {
            proof {
                reveal_strlit("24");
            }
            number(crate::chars::str_chars("24"), elem.span)
        };
        proof {
            assert(default_height_ok(h, root));
        }
        pm.insert("height".to_owned(), h);
    }
    let ghost pm1 = pm@;
    proof {
        assert(pm1.contains_key("width"@) == pm0.contains_key("width"@));
        assert(!pm0.contains_key("height"@) ==> pm1.contains_key("height"@) && default_height_ok(pm1["height"@], root));
    }
    if !pm.contains_key("width") && str_eq(elem.name.name.as_str(), "Text") {
        let w = default_width(t, elem.span);
        proof {
            assert(default_width_ok(w, root));
        }
        pm.insert("width".to_owned(), w);
    }
    proof {
        let p = pm@;
        assert forall|k: Seq<char>| #[trigger] root.sources.contains_key(k) implies p.contains_key(k) && rewrites_to(root.sources[k], root.scope, p[k]) by {
            assert(pm0.contains_key(k));
        }
        assert(ports_match(pm@, root));
    }
    let ghost ids = child_ids@;
    let ghost pm_final = pm;
    doc.nodes[node_id.0].children = child_ids;
    doc.nodes[node_id.0].ports = pm;
    proof {
        assert(model == seq![root] + produced);
        assert(root.children == ids);
        assert(root.scope == ctx.model());
        assert(root.sources == pairs_map(srcs));
        assert(ports_match(pm_final@, root));
        assert(node_matches(doc.nodes@[base as int], root, base as int));
        assert forall|j: int| 0 <= j < model.len() implies node_matches(#[trigger] doc.nodes@[base + j], model[j], base + j) by {
            if j > 0 {
                assert(model[j] == produced[j - 1]);
                assert(doc.nodes@[base + j] == doc.nodes@[base + 1 + (j - 1)]);
            }
        }
    }
}

/// Expands one element: records its node, then expands it as a component
/// instance or as a primitive.
fn expand_element(
    elem: &ElementNode,
    ports: &Vec<&PortBinding>,
    parent: Option<NodeId>,
    prev: Option<NodeId>,
    parent_ports: &Vec<String>,
    registry: &Vec<&ComponentDef>,
    doc: &mut ExpandedDocument,
    Ghost(fuel): Ghost<nat>,
) -> (id: NodeId)
    requires
        elem_ok(defs(registry@), *elem, fuel),
    ensures
        id.0 == old(doc).nodes@.len(),
        nodes_match(
            final(doc).nodes@,
            old(doc).nodes@.len() as int,
            expand_elem(defs(registry@), *elem, bindings(ports@), old(doc).nodes@.len(), parent, prev, name_set(parent_ports@), fuel),
        ),
        forall|j: int| 0 <= j < old(doc).nodes@.len() ==> final(doc).nodes@[j] == old(doc).nodes@[j],
        final(doc).roots == old(doc).roots,
    decreases fuel, elem_height(*elem), 3nat, 0nat,
{
    let node_id = NodeId(doc.nodes.len());
    let mut node = ExpandedNode::new(node_id, elem.name.name.as_str(), elem.span);
    node.parent = parent;
    node.prev_sibling = prev;
    node.text_content = text_content_of(elem);
    doc.nodes.push(node);
    match lookup_component(registry, elem.name.name.as_str()) {
        Some(comp) => {
            expand_component_instance(node_id, elem, ports, comp, parent, prev, parent_ports, registry, doc, Ghost(fuel));
        },
        None => {
            expand_primitive_element(node_id, elem, ports, parent, prev, parent_ports, registry, doc, Ghost(fuel));
        },
    }
    node_id
}

proof fn lemma_name_set_push(s: Seq<String>, x: String)
    ensures
        name_set(s.push(x)) == name_set(s).insert(x@),
{
    assert forall|n: Seq<char>| name_set(s.push(x)).contains(n) <==> name_set(s).insert(x@).contains(n) by {
        if name_set(s.push(x)).contains(n) {
            let j = choose|j: int| 0 <= j < s.push(x).len() && s.push(x)[j]@ == n;
            if j < s.len() {
                assert(s[j]@ == n);
            }
        }
        if name_set(s).contains(n) {
            let j = choose|j: int| 0 <= j < s.len() && s[j]@ == n;
            assert(s.push(x)[j]@ == n);
        }
        if n == x@ {
            assert(s.push(x)[s.len() as int]@ == n);
        }
    }
    assert(name_set(s.push(x)) =~= name_set(s).insert(x@));
}

/// Adds `name` to `r` unless it is there.
fn add_name(r: &mut Vec<String>, name: &String)
    ensures
        name_set(final(r)@) == name_set(old(r)@).insert(name@),
{
    if !in_ports(r.as_slice(), name.as_str()) {
        let ghost before = r@;
        r.push(name.clone());
        proof {
            lemma_name_set_push(before, r@.last());
        }
    } else {
        assert(name_set(r@) =~= name_set(r@).insert(name@));
    }
}

/// The port names in scope inside an instance of `comp` that sets `ports`.
fn scope_names(comp: &ComponentDef, ports: &Vec<&PortBinding>) -> (r: Vec<String>)
    ensures
        name_set(r@) == comp_scope(*comp, bindings(ports@)),
{
    let mut r: Vec<String> = Vec::new();
    add_name(&mut r, &"x".to_owned());
    add_name(&mut r, &"y".to_owned());
    add_name(&mut r, &"width".to_owned());
    add_name(&mut r, &"height".to_owned());
    add_name(&mut r, &"z".to_owned());
    proof {
        assert(name_set(Seq::<String>::empty()) =~= Set::empty());
        assert(name_set(r@) =~= set!["x"@, "y"@, "width"@, "height"@, "z"@]);
    }
    let ghost five = name_set(r@);
    let mut i: usize = 0;
    proof {
        assert(comp.params@.take(0) =~= Seq::<ParamDef>::empty());
    }
    while i < comp.params.len()
        invariant
            i <= comp.params@.len(),
            name_set(r@) == five.union(param_names(comp.params@.take(i as int))),
        decreases comp.params@.len() - i,
    {
        add_name(&mut r, &comp.params[i].name.name);
        proof {
            assert(comp.params@.take(i + 1).drop_last() =~= comp.params@.take(i as int));
        }
        i = i + 1;
        assert(name_set(r@) =~= five.union(param_names(comp.params@.take(i as int))));
    }
    proof {
        assert(comp.params@.take(i as int) =~= comp.params@);
    }
    let ghost mid = name_set(r@);
    let mut q: usize = 0;
    proof {
        assert(bindings(ports@).take(0) =~= Seq::<PortBinding>::empty());
    }
    while q < ports.len()
        invariant
            q <= ports@.len(),
            name_set(r@) == mid.union(binding_names(bindings(ports@).take(q as int))),
        decreases ports@.len() - q,
    {
        add_name(&mut r, &ports[q].name.name);
        proof {
            assert(bindings(ports@).take(q + 1).drop_last() =~= bindings(ports@).take(q as int));
        }
        q = q + 1;
        assert(name_set(r@) =~= mid.union(binding_names(bindings(ports@).take(q as int))));
    }
    proof {
        assert(bindings(ports@).take(q as int) =~= bindings(ports@));
    }
    r
}

/// Expands an instance of `comp`: its body in declaration order, with the
/// instance's own elements placed at each `\\Children` (their ports over the
/// ambient ones), then the parameter defaults and the instance's ports,
/// rewritten in the instance's scope.
fn expand_component_instance(
    node_id: NodeId,
    elem: &ElementNode,
    ports: &Vec<&PortBinding>,
    comp: &ComponentDef,
    parent: Option<NodeId>,
    prev: Option<NodeId>,
    parent_ports: &Vec<String>,
    registry: &Vec<&ComponentDef>,
    doc: &mut ExpandedDocument,
    Ghost(fuel): Ghost<nat>,
)
    requires
        old(doc).nodes@.len() == node_id.0 + 1,
        placeholder_ok(old(doc).nodes@[node_id.0 as int], *elem, node_id.0 as int, parent, prev),
        comp_lookup(defs(registry@), elem.name.name@) == Some(*comp),
        fuel > 0,
        body_ok(defs(registry@), comp.body@, (fuel - 1) as nat),
        match elem.content {
            Some(c) => items_ok(defs(registry@), c.items@, fuel),
            None => true,
        },
    ensures
        nodes_match(
            final(doc).nodes@,
            node_id.0 as int,
            expand_elem(defs(registry@), *elem, bindings(ports@), node_id.0 as nat, parent, prev, name_set(parent_ports@), fuel),
        ),
        forall|j: int| 0 <= j < node_id.0 ==> final(doc).nodes@[j] == old(doc).nodes@[j],
        final(doc).roots == old(doc).roots,
    decreases fuel, elem_height(*elem), 2nat, 0nat,
{
    let ghost reg = defs(registry@);
    let ghost pp = name_set(parent_ports@);
    let ghost base = node_id.0 as nat;
    let ghost body = comp.body@;
    let scope = scope_names(comp, ports);
    let ghost sc = name_set(scope@);
    let ghost full = expand_body(reg, body, *elem, base + 1, node_id, None, sc, fuel);
    let mut all: Vec<NodeId> = Vec::new();
    let mut inst: Vec<NodeId> = Vec::new();
    let mut last: Option<NodeId> = None;
    let ghost mut produced: Seq<NodeModel> = Seq::empty();
    let mut t: usize = 0;
    assert(body.skip(0) =~= body);
    while t < comp.body.len()
        invariant
            t <= body.len(),
            body == comp.body@,
            reg == defs(registry@),
            sc == name_set(scope@),
            base == node_id.0,
            fuel > 0,
            match elem.content {
                Some(c) => items_ok(reg, c.items@, fuel),
                None => true,
            },
            doc.nodes@.len() == base + 1 + produced.len(),
            doc.nodes@[base as int] == old(doc).nodes@[base as int],
            forall|j: int| 0 <= j < base ==> doc.nodes@[j] == old(doc).nodes@[j],
            doc.roots == old(doc).roots,
            forall|j: int| 0 <= j < produced.len() ==> node_matches(#[trigger] doc.nodes@[base + 1 + j], produced[j], base + 1 + j),
            ({
                let rest = expand_body(reg, body.skip(t as int), *elem, base + 1 + produced.len(), node_id, last, sc, fuel);
                &&& full.0 == produced + rest.0
                &&& full.1 == all@ + rest.1
                &&& full.2 == inst@ + rest.2
            }),
            body_ok(reg, body.skip(t as int), (fuel - 1) as nat),
        decreases body.len() - t,
    {
        let ghost cursor = base + 1 + produced.len();
        let ghost rest = expand_body(reg, body.skip(t as int), *elem, cursor, node_id, last, sc, fuel);
        proof {
            assert(body.skip(t as int)[0] == body[t as int]);
            assert(body.skip(t as int).skip(1) =~= body.skip(t + 1));
        }
        match &comp.body[t] {
            ComponentBodyItem::Node(b) => {
                let refs = binding_refs(&b.ports);
                let id = expand_element(b, &refs, Some(node_id), last, &scope, registry, doc, Ghost((fuel - 1) as nat));
                let ghost sub = expand_elem(reg, *b, b.ports@, cursor, Some(node_id), last, sc, (fuel - 1) as nat);
                proof {
                    let rest2 = expand_body(reg, body.skip(t + 1), *elem, cursor + sub.len(), node_id, Some(id), sc, fuel);
                    assert(rest.0 == sub + rest2.0);
                    let np = produced + sub;
                    assert forall|j: int| 0 <= j < np.len() implies node_matches(#[trigger] doc.nodes@[base + 1 + j], np[j], base + 1 + j) by {
                        if j < produced.len() {
                            assert(np[j] == produced[j]);
                        } else {
                            assert(np[j] == sub[j - produced.len()]);
                            assert(doc.nodes@[base + 1 + j] == doc.nodes@[cursor + (j - produced.len())]);
                        }
                    }
                    assert(full.0 =~= np + rest2.0);
                    assert(full.1 =~= all@.push(id) + rest2.1);
                    produced = np;
                }
                all.push(id);
                last = Some(id);
            },
            ComponentBodyItem::Children(d) => {
                match &elem.content {
                    Some(slot) => {
                        let ghost items = slot.items@;
                        let ghost last0 = last;
                        let ghost w = expand_wired(reg, d.ports@, items, cursor, node_id, last0, sc, fuel);
                        let ghost mut wp: Seq<NodeModel> = Seq::empty();
                        let ghost wids0 = all@;
                        let ghost inst0 = inst@;
                        let ghost mut wids: Seq<NodeId> = Seq::empty();
                        let ambient = binding_refs(&d.ports);
                        let mut q: usize = 0;
                        assert(items.skip(0) =~= items);
                        while q < slot.items.len()
                            invariant
                                q <= items.len(),
                                items == slot.items@,
                                elem.content == Some(*slot),
                                reg == defs(registry@),
                                sc == name_set(scope@),
                                base == node_id.0,
                                bindings(ambient@) == d.ports@,
                                doc.nodes@.len() == cursor + wp.len(),
                                doc.nodes@.len() == base + 1 + produced.len() + wp.len(),
                                doc.nodes@[base as int] == old(doc).nodes@[base as int],
                                forall|j: int| 0 <= j < base ==> doc.nodes@[j] == old(doc).nodes@[j],
                                doc.roots == old(doc).roots,
                                forall|j: int| 0 <= j < produced.len() ==> node_matches(#[trigger] doc.nodes@[base + 1 + j], produced[j], base + 1 + j),
                                forall|j: int| 0 <= j < wp.len() ==> node_matches(#[trigger] doc.nodes@[cursor + j], wp[j], cursor + j),
                                all@ == wids0 + wids,
                                inst@ == inst0 + wids,
                                last == (if wids.len() > 0 { Some(wids.last()) } else { last0 }),
                                ({
                                    let wr = expand_wired(reg, d.ports@, items.skip(q as int), cursor + wp.len(), node_id, last, sc, fuel);
                                    &&& w.0 == wp + wr.0
                                    &&& w.1 == wids + wr.1
                                }),
                                items_ok(reg, items.skip(q as int), fuel),
                            decreases items.len() - q,
                        {
                            let ghost wc = cursor + wp.len();
                            let ghost wr = expand_wired(reg, d.ports@, items.skip(q as int), wc, node_id, last, sc, fuel);
                            proof {
                                assert(items.skip(q as int)[0] == items[q as int]);
                                assert(items.skip(q as int).skip(1) =~= items.skip(q + 1));
                            }
                            match &slot.items[q] {
                                ContentItem::Node(k) => {
                                    proof {
                                        lemma_items_height(items, q as int);
                                    }
                                    let own = binding_refs(&k.ports);
                                    let mut wired: Vec<&PortBinding> = Vec::new();
                                    let mut a: usize = 0;
                                    while a < ambient.len()
                                        invariant
                                            a <= ambient@.len(),
                                            wired@ == ambient@.take(a as int),
                                        decreases ambient@.len() - a,
                                    {
                                        wired.push(ambient[a]);
                                        a = a + 1;
                                        assert(wired@ =~= ambient@.take(a as int));
                                    }
                                    let mut b: usize = 0;
                                    while b < own.len()
                                        invariant
                                            b <= own@.len(),
                                            a == ambient@.len(),
                                            wired@ == ambient@.take(a as int) + own@.take(b as int),
                                        decreases own@.len() - b,
                                    {
                                        wired.push(own[b]);
                                        b = b + 1;
                                        assert(wired@ =~= ambient@.take(a as int) + own@.take(b as int));
                                    }
                                    proof {
                                        assert(ambient@.take(a as int) =~= ambient@);
                                        assert(own@.take(b as int) =~= own@);
                                        assert(bindings(wired@) =~= bindings(ambient@) + bindings(own@));
                                    }
                                    let id = expand_element(k, &wired, Some(node_id), last, &scope, registry, doc, Ghost(fuel));
                                    let ghost sub = expand_elem(reg, *k, d.ports@ + k.ports@, wc, Some(node_id), last, sc, fuel);
                                    proof {
                                        let wr2 = expand_wired(reg, d.ports@, items.skip(q + 1), wc + sub.len(), node_id, Some(id), sc, fuel);
                                        assert(wr.0 == sub + wr2.0);
                                        let nwp = wp + sub;
                                        assert forall|j: int| 0 <= j < nwp.len() implies node_matches(#[trigger] doc.nodes@[cursor + j], nwp[j], cursor + j) by {
                                            if j < wp.len() {
                                                assert(nwp[j] == wp[j]);
                                            } else {
                                                assert(nwp[j] == sub[j - wp.len()]);
                                                assert(doc.nodes@[cursor + j] == doc.nodes@[wc + (j - wp.len())]);
                                            }
                                        }
                                        assert(w.0 =~= nwp + wr2.0);
                                        assert(w.1 =~= wids.push(id) + wr2.1);
                                        wp = nwp;
                                        wids = wids.push(id);
                                    }
                                    inst.push(id);
                                    all.push(id);
                                    last = Some(id);
                                    proof {
                                        assert(all@ =~= wids0 + wids);
                                        assert(inst@ =~= inst0 + wids);
                                    }
                                },
                                _ => {},
                            }
                            q = q + 1;
                        }
                        proof {
                            assert(items.skip(q as int) =~= Seq::<ContentItem>::empty());
                            assert(w.0 =~= wp);
                            assert(w.1 =~= wids);
                            let rest2 = expand_body(reg, body.skip(t + 1), *elem, cursor + wp.len(), node_id, last, sc, fuel);
                            assert(rest.0 == w.0 + rest2.0);
                            let np = produced + wp;
                            assert forall|j: int| 0 <= j < np.len() implies node_matches(#[trigger] doc.nodes@[base + 1 + j], np[j], base + 1 + j) by {
                                if j < produced.len() {
                                    assert(np[j] == produced[j]);
                                } else {
                                    assert(np[j] == wp[j - produced.len()]);
                                    assert(doc.nodes@[base + 1 + j] == doc.nodes@[cursor + (j - produced.len())]);
                                }
                            }
                            assert(full.0 =~= np + rest2.0);
                            assert(full.1 =~= all@ + rest2.1);
                            assert(full.2 =~= inst@ + rest2.2);
                            produced = np;
                        }
                    },
                    None => {
                        proof {
                            let rest2 = expand_body(reg, body.skip(t + 1), *elem, cursor, node_id, last, sc, fuel);
                            assert(rest == rest2);
                        }
                    },
                }
            },
            _ => {
                proof {
                    let rest2 = expand_body(reg, body.skip(t + 1), *elem, cursor, node_id, last, sc, fuel);
                    assert(rest == rest2);
                }
            },
        }
        t = t + 1;
    }
    proof {
        assert(body.skip(t as int) =~= Seq::<ComponentBodyItem>::empty());
        assert(full.0 =~= produced);
        assert(full.1 =~= all@);
        assert(full.2 =~= inst@);
    }
    let ctx = ScopeContext {
        current_node: node_id,
        parent_node: parent,
        prev_sibling: prev,
        child_ids: inst.as_slice(),
        parent_ports: parent_ports.as_slice(),
    };
    let ghost dsrc = default_pairs(comp.params@);
    let ghost bsrc = binding_pairs(bindings(ports@));
    let mut pm = PortMap::new();
    let mut i: usize = 0;
    proof {
        assert(default_pairs(comp.params@.take(0)) =~= Seq::<(Seq<char>, Expr)>::empty());
        assert(pm@ =~= pairs_map(default_pairs(comp.params@.take(0))));
    }
    while i < comp.params.len()
        invariant
            i <= comp.params@.len(),
            pm.wf(),
            rewritten_map(pm@, pairs_map(default_pairs(comp.params@.take(i as int))), ctx.model()),
        decreases comp.params@.len() - i,
    {
        let param = &comp.params[i];
        proof {
            assert(comp.params@.take(i + 1).drop_last() =~= comp.params@.take(i as int));
        }
        match &param.default_edge {
            Some(e) => {
                insert_rewritten(&mut pm, &param.name.name, e, &ctx, Ghost(default_pairs(comp.params@.take(i as int))));
                proof {
                    assert(default_pairs(comp.params@.take(i + 1)) =~= default_pairs(comp.params@.take(i as int)).push((param.name.name@, *e)));
                }
            },
            None => {
                proof {
                    assert(default_pairs(comp.params@.take(i + 1)) =~= default_pairs(comp.params@.take(i as int)));
                }
            },
        }
        i = i + 1;
    }
    proof {
        assert(comp.params@.take(i as int) =~= comp.params@);
        assert(dsrc + bsrc.take(0) =~= dsrc);
    }
    let mut q: usize = 0;
    while q < ports.len()
        invariant
            q <= ports@.len(),
            bsrc == binding_pairs(bindings(ports@)),
            pm.wf(),
            rewritten_map(pm@, pairs_map(dsrc + bsrc.take(q as int)), ctx.model()),
        decreases ports@.len() - q,
    {
        let b = ports[q];
        proof {
            assert(dsrc + bsrc.take(q + 1) =~= (dsrc + bsrc.take(q as int)).push((b.name.name@, b.expr)));
        }
        insert_rewritten(&mut pm, &b.name.name, &b.expr, &ctx, Ghost(dsrc + bsrc.take(q as int)));
        q = q + 1;
    }
    proof {
        assert(bsrc.take(q as int) =~= bsrc);
    }
    let ghost model = expand_elem(reg, *elem, bindings(ports@), base, parent, prev, pp, fuel);
    let ghost ids = all@;
    let ghost pm_final = pm;
    doc.nodes[node_id.0].children = all;
    doc.nodes[node_id.0].ports = pm;
    proof {
        let root = model[0];
        assert(model == seq![root] + produced);
        assert(root.children == ids);
        assert(root.scope == ctx.model());
        assert(root.sources == pairs_map(dsrc + bsrc));
        assert(ports_match(pm_final@, root));
        assert(node_matches(doc.nodes@[base as int], root, base as int));
        assert forall|j: int| 0 <= j < model.len() implies node_matches(#[trigger] doc.nodes@[base + j], model[j], base + j) by {
            if j > 0 {
                assert(model[j] == produced[j - 1]);
                assert(doc.nodes@[base + j] == doc.nodes@[base + 1 + (j - 1)]);
            }
        }
    }
}


// ---------------------------------------------------------------------------
// Whole documents.
// ---------------------------------------------------------------------------

/// The component definitions of a document, in order.
pub open spec fn doc_registry(items: Seq<Item>) -> Seq<ComponentDef>
    decreases items.len(),
{
    if items.len() == 0 {
        Seq::empty()
    } else {
        doc_registry(items.drop_last()) + match items.last() {
            Item::Component(c) => seq![c],
            _ => Seq::empty(),
        }
    }
}

/// Every top-level element expands within `fuel` levels of components.
pub open spec fn roots_ok(reg: Seq<ComponentDef>, items: Seq<Item>, fuel: nat) -> bool {
    forall|i: int| 0 <= i < items.len() && items[i] is Node ==> elem_ok(reg, #[trigger] items[i]->Node_0, fuel)
}

/// Expanding the document stops: some depth bounds its component nesting.
pub open spec fn expansion_terminates(doc: Document) -> bool {
    exists|fuel: nat| roots_ok(doc_registry(doc.items@), doc.items@, fuel)
}

/// A depth within which the document expands.
pub open spec fn expansion_fuel(doc: Document) -> nat {
    choose|fuel: nat| roots_ok(doc_registry(doc.items@), doc.items@, fuel)
}

/// The nodes of the top-level elements among `items`, expanded in order
/// from `base`, and the ids of those elements.
pub open spec fn expand_roots(reg: Seq<ComponentDef>, items: Seq<Item>, base: nat, fuel: nat) -> (Seq<NodeModel>, Seq<NodeId>)
    decreases items.len(),
{
    if items.len() == 0 {
        (Seq::empty(), Seq::empty())
    } else {
        match items[0] {
            Item::Node(n) => {
                let sub = expand_elem(reg, n, n.ports@, base, Some(NodeId(usize::MAX)), None, Set::empty(), fuel);
                let rest = expand_roots(reg, items.skip(1), base + sub.len(), fuel);
                (sub + rest.0, seq![NodeId(#[verifier::truncate] (base as usize))] + rest.1)
            },
            _ => expand_roots(reg, items.skip(1), base, fuel),
        }
    }
}

/// The expansion of a whole document: its nodes and its roots.
pub open spec fn document_model(doc: Document) -> (Seq<NodeModel>, Seq<NodeId>) {
    expand_roots(doc_registry(doc.items@), doc.items@, 0, expansion_fuel(doc))
}

/// Expands a parsed document: every top-level element, with component
/// instances replaced by their bodies, node ids in pre-order, and port
/// equations rewritten onto canonical node names. `let` and `env` items
/// take no part.
pub fn expand_document(doc: &Document) -> (r: Result<ExpandedDocument, CompileError>)
    requires
        expansion_terminates(*doc),
    ensures
        match document_missing(*doc) {
            None => r matches Ok(d) && nodes_match(d.nodes@, 0, document_model(*doc).0) && d.roots@
                == document_model(*doc).1,
            Some(m) => r matches Err(CompileError::MissingPort { node, port, span }) && node@ == m.0
                && port@ == m.1 && span == m.2,
        },
{
    let ghost items = doc.items@;
    let ghost fuel = expansion_fuel(*doc);
    let mut registry: Vec<&ComponentDef> = Vec::new();
    let mut i: usize = 0;
    while i < doc.items.len()
        invariant
            i <= items.len(),
            items == doc.items@,
            defs(registry@) == doc_registry(items.take(i as int)),
        decreases items.len() - i,
    {
        proof {
            assert(items.take(i + 1).drop_last() =~= items.take(i as int));
        }
        match &doc.items[i] {
            Item::Component(c) => {
                let ghost before = registry@;
                registry.push(c);
                proof {
                    assert(defs(registry@) =~= defs(before).push(*c));
                }
            },
            _ => {},
        }
        i = i + 1;
    }
    proof {
        assert(items.take(i as int) =~= items);
    }
    let ghost reg = defs(registry@);
    proof {
        assert(items.skip(0) =~= items);
    }
    match missing_in_roots(&doc.items, 0, &registry, Ghost(fuel)) {
        Some((node, port, span)) => {
            return Err(CompileError::MissingPort { node, port, span });
        },
        None => {},
    }
    let ghost full = expand_roots(reg, items, 0, fuel);
    let no_ports: Vec<String> = Vec::new();
    proof {
        assert(name_set(no_ports@) =~= Set::<Seq<char>>::empty());
    }
    let mut out = ExpandedDocument::new();
    let ghost mut produced: Seq<NodeModel> = Seq::empty();
    let mut t: usize = 0;
    assert(items.skip(0) =~= items);
    while t < doc.items.len()
        invariant
            t <= items.len(),
            items == doc.items@,
            reg == defs(registry@),
            name_set(no_ports@) == Set::<Seq<char>>::empty(),
            roots_ok(reg, items, fuel),
            nodes_match(out.nodes@, 0, produced),
            ({
                let rest = expand_roots(reg, items.skip(t as int), produced.len(), fuel);
                &&& full.0 == produced + rest.0
                &&& full.1 == out.roots@ + rest.1
            }),
        decreases items.len() - t,
    {
        let ghost cursor = produced.len();
        let ghost rest = expand_roots(reg, items.skip(t as int), cursor, fuel);
        proof {
            assert(items.skip(t as int)[0] == items[t as int]);
            assert(items.skip(t as int).skip(1) =~= items.skip(t + 1));
        }
        match &doc.items[t] {
            Item::Node(n) => {
                let refs = binding_refs(&n.ports);
                proof {
                    assert(items[t as int] is Node);
                }
                let id = expand_element(n, &refs, Some(NodeId::window()), None, &no_ports, &registry, &mut out, Ghost(fuel));
                let ghost sub = expand_elem(reg, *n, n.ports@, cursor, Some(NodeId(usize::MAX)), None, Set::empty(), fuel);
                proof {
                    let rest2 = expand_roots(reg, items.skip(t + 1), cursor + sub.len(), fuel);
                    assert(rest.0 == sub + rest2.0);
                    let np = produced + sub;
                    assert forall|j: int| 0 <= j < np.len() implies node_matches(#[trigger] out.nodes@[0 + j], np[j], 0 + j) by {
                        if j < produced.len() {
                            assert(np[j] == produced[j]);
                        } else {
                            assert(np[j] == sub[j - produced.len()]);
                            assert(out.nodes@[0 + j] == out.nodes@[cursor + (j - produced.len())]);
                        }
                    }
                    assert(full.0 =~= np + rest2.0);
                    assert(full.1 =~= out.roots@.push(id) + rest2.1);
                    produced = np;
                }
                out.roots.push(id);
            },
            _ => {},
        }
        t = t + 1;
    }
    proof {
        assert(items.skip(t as int) =~= Seq::<Item>::empty());
        assert(full.0 =~= produced);
        assert(full.1 =~= out.roots@);
    }
    Ok(out)
}

/// Expands `doc` when every top-level element expands within `depth` levels
/// of component nesting (as `expand_document` does); `None` when some
/// element nests deeper, where the expansion would not stop.
pub fn expand_document_within(doc: &Document, depth: usize) -> (r: Option<Result<ExpandedDocument, CompileError>>)
    ensures
        r is None <==> !roots_ok(doc_registry(doc.items@), doc.items@, depth as nat),
        r matches Some(x) ==> match document_missing(*doc) {
            None => x matches Ok(d) && nodes_match(d.nodes@, 0, document_model(*doc).0) && d.roots@
                == document_model(*doc).1,
            Some(m) => x matches Err(CompileError::MissingPort { node, port, span }) && node@ == m.0
                && port@ == m.1 && span == m.2,
        },
{
    if expansion_depth_ok(doc, depth) {
        Some(expand_document(doc))
    } else {
        None
    }
}

/// Whether every top-level element expands within `depth` levels of
/// component nesting; when it does, `expand_document` may be called.
pub fn expansion_depth_ok(doc: &Document, depth: usize) -> (b: bool)
    ensures
        b == roots_ok(doc_registry(doc.items@), doc.items@, depth as nat),
        b ==> expansion_terminates(*doc),
{
    let ghost items = doc.items@;
    let mut registry: Vec<&ComponentDef> = Vec::new();
    let mut i: usize = 0;
    while i < doc.items.len()
        invariant
            i <= items.len(),
            items == doc.items@,
            defs(registry@) == doc_registry(items.take(i as int)),
        decreases items.len() - i,
    {
        proof {
            assert(items.take(i + 1).drop_last() =~= items.take(i as int));
        }
        match &doc.items[i] {
            Item::Component(c) => {
                let ghost before = registry@;
                registry.push(c);
                proof {
                    assert(defs(registry@) =~= defs(before).push(*c));
                }
            },
            _ => {},
        }
        i = i + 1;
    }
    proof {
        assert(items.take(i as int) =~= items);
    }
    let ghost reg = defs(registry@);
    let mut t: usize = 0;
    while t < doc.items.len()
        invariant
            t <= items.len(),
            items == doc.items@,
            reg == defs(registry@),
            reg == doc_registry(items),
            forall|j: int| 0 <= j < t && items[j] is Node ==> elem_ok(reg, #[trigger] items[j]->Node_0, depth as nat),
        decreases items.len() - t,
    {
        match &doc.items[t] {
            Item::Node(n) => {
                if !check_elem(n, &registry, depth) {
                    return false;
                }
            },
            _ => {},
        }
        t = t + 1;
    }
    proof {
        assert(roots_ok(doc_registry(items), items, depth as nat));
        assert(expansion_terminates(*doc));
    }
    true
}

/// Whether `e` expands within `depth` levels of component nesting.
fn check_elem(e: &ElementNode, registry: &Vec<&ComponentDef>, depth: usize) -> (b: bool)
    ensures
        b == elem_ok(defs(registry@), *e, depth as nat),
    decreases depth, elem_height(*e), 2nat, 0nat,
{
    let items_good = match &e.content {
        Some(c) => {
            proof {
                assert(c.items@.skip(0) =~= c.items@);
            }
            check_items(&c.items, 0, registry, depth, Ghost(e))
        },
        None => true,
    };
    if !items_good {
        return false;
    }
    match lookup_component(registry, e.name.name.as_str()) {
        Some(c) => {
            proof {
                assert(c.body@.skip(0) =~= c.body@);
            }
            depth > 0 && check_body(&c.body, 0, registry, depth - 1)
        },
        None => true,
    }
}

fn check_items(items: &Vec<ContentItem>, from: usize, registry: &Vec<&ComponentDef>, depth: usize, Ghost(owner): Ghost<&ElementNode>) -> (b: bool)
    requires
        from <= items@.len(),
    ensures
        b == items_ok(defs(registry@), items@.skip(from as int), depth as nat),
    decreases depth, items_height(items@.skip(from as int)), 1nat, items@.len() - from,
{
    if from == items.len() {
        return true;
    }
    proof {
        assert(items@.skip(from as int)[0] == items@[from as int]);
        assert(items@.skip(from as int).skip(1) =~= items@.skip(from + 1));
    }
    let here = match &items[from] {
        ContentItem::Node(k) => {
            proof {
                lemma_items_height(items@.skip(from as int), 0);
            }
            check_elem(k, registry, depth)
        },
        _ => true,
    };
    if !here {
        return false;
    }
    proof {
        lemma_items_height_skip(items@.skip(from as int));
    }
    check_items(items, from + 1, registry, depth, Ghost(owner))
}

fn check_body(body: &Vec<ComponentBodyItem>, from: usize, registry: &Vec<&ComponentDef>, depth: usize) -> (b: bool)
    requires
        from <= body@.len(),
    ensures
        b == body_ok(defs(registry@), body@.skip(from as int), depth as nat),
    decreases depth, body_height(body@.skip(from as int)), 1nat, body@.len() - from,
{
    if from == body.len() {
        return true;
    }
    proof {
        assert(body@.skip(from as int)[0] == body@[from as int]);
        assert(body@.skip(from as int).skip(1) =~= body@.skip(from + 1));
    }
    let here = match &body[from] {
        ComponentBodyItem::Node(b) => check_elem(b, registry, depth),
        _ => true,
    };
    if !here {
        return false;
    }
    check_body(body, from + 1, registry, depth)
}

pub(crate) proof fn lemma_items_height_skip(items: Seq<ContentItem>)
    requires
        items.len() > 0,
    ensures
        items_height(items.skip(1)) <= items_height(items),
{
}


// ---------------------------------------------------------------------------
// Precedence.
// ---------------------------------------------------------------------------

/// Joining two lists of port equations: a port set by the later list takes
/// its value there; any other port keeps the earlier list's value.
pub proof fn lemma_pairs_map_concat(a: Seq<(Seq<char>, Expr)>, b: Seq<(Seq<char>, Expr)>, k: Seq<char>)
    ensures
        pairs_map(a + b).contains_key(k) == (pairs_map(a).contains_key(k) || pairs_map(b).contains_key(k)),
        pairs_map(b).contains_key(k) ==> pairs_map(a + b)[k] == pairs_map(b)[k],
        !pairs_map(b).contains_key(k) && pairs_map(a).contains_key(k) ==> pairs_map(a + b)[k] == pairs_map(a)[k],
    decreases b.len(),
{
    if b.len() == 0 {
        assert(a + b =~= a);
    } else {
        lemma_pairs_map_concat(a, b.drop_last(), k);
        assert((a + b).drop_last() =~= a + b.drop_last());
        assert((a + b).last() == b.last());
    }
}

proof fn lemma_binding_names(s: Seq<PortBinding>, k: Seq<char>)
    ensures
        pairs_map(binding_pairs(s)).contains_key(k) == binding_names(s).contains(k),
    decreases s.len(),
{
    if s.len() > 0 {
        lemma_binding_names(s.drop_last(), k);
        assert(binding_pairs(s).drop_last() =~= binding_pairs(s.drop_last()));
    }
}

/// Precedence of port equations on an element placed by `\Children`:
/// a port the element sets itself takes the element's equation (its last
/// binding of that port); a port it leaves unset takes the `\Children`
/// rule; for a component element, parameter defaults come last.
pub proof fn lemma_explicit_overrides_ambient(
    defaults: Seq<(Seq<char>, Expr)>,
    ambient: Seq<PortBinding>,
    own: Seq<PortBinding>,
    k: Seq<char>,
)
    ensures
        binding_names(own).contains(k) ==> pairs_map(defaults + binding_pairs(ambient + own)).contains_key(k)
            && pairs_map(defaults + binding_pairs(ambient + own))[k] == pairs_map(binding_pairs(own))[k],
        !binding_names(own).contains(k) && binding_names(ambient).contains(k) ==> pairs_map(
            defaults + binding_pairs(ambient + own),
        ).contains_key(k) && pairs_map(defaults + binding_pairs(ambient + own))[k] == pairs_map(
            binding_pairs(ambient),
        )[k],
        !binding_names(own).contains(k) && !binding_names(ambient).contains(k) ==> (pairs_map(
            defaults + binding_pairs(ambient + own),
        ).contains_key(k) == pairs_map(defaults).contains_key(k)) && (pairs_map(defaults).contains_key(k)
            ==> pairs_map(defaults + binding_pairs(ambient + own))[k] == pairs_map(defaults)[k]),
{
    assert(binding_pairs(ambient + own) =~= binding_pairs(ambient) + binding_pairs(own));
    lemma_binding_names(own, k);
    lemma_binding_names(ambient, k);
    lemma_pairs_map_concat(binding_pairs(ambient), binding_pairs(own), k);
    lemma_pairs_map_concat(defaults, binding_pairs(ambient) + binding_pairs(own), k);
}

} // verus!
