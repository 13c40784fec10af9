use vstd::prelude::*;
use crate::span::Span;

verus! {

/// An identifier with its source span.
#[derive(Debug, Clone, PartialEq)]
pub struct Ident {
    pub name: String,
    pub span: Span,
}

impl Ident {
    pub fn new(name: &str, span: Span) -> (id: Ident)
        ensures
            id.name@ == name@,
            id.span == span,
    {
        Ident { name: name.to_owned(), span }
    }

    pub fn as_str(&self) -> (s: &str)
        ensures
            s@ == self.name@,
    {
        self.name.as_str()
    }
}

/// A parsed source file: component definitions, node instantiations and
/// top-level `let` / `env` bindings, in source order.
#[derive(Debug, PartialEq)]
pub struct Document {
    pub items: Vec<Item>,
    pub span: Span,
}

#[derive(Debug, PartialEq)]
pub enum Item {
    Component(ComponentDef),
    Node(ElementNode),
    Let(LetBinding),
    Env(LetBinding),
}

impl Item {
    pub fn span(&self) -> (s: Span)
        ensures
            s == match self {
                Item::Component(c) => c.span,
                Item::Node(n) => n.span,
                Item::Let(l) => l.span,
                Item::Env(l) => l.span,
            },
    {
        match self {
            Item::Component(c) => c.span,
            Item::Node(n) => n.span,
            Item::Let(l) => l.span,
            Item::Env(l) => l.span,
        }
    }
}

/// Component definition: `\Component Name(params) { body }`.
#[derive(Debug, PartialEq)]
pub struct ComponentDef {
    pub name: Ident,
    pub params: Vec<ParamDef>,
    pub body: Vec<ComponentBodyItem>,
    pub span: Span,
}

#[derive(Debug, PartialEq)]
pub enum ComponentBodyItem {
    Node(ElementNode),
    Children(ChildrenDirective),
    Let(LetBinding),
    Env(LetBinding),
}

impl ComponentBodyItem {
    pub fn span(&self) -> (s: Span)
        ensures
            s == match self {
                ComponentBodyItem::Node(n) => n.span,
                ComponentBodyItem::Children(c) => c.span,
                ComponentBodyItem::Let(l) => l.span,
                ComponentBodyItem::Env(l) => l.span,
            },
    {
        match self {
            ComponentBodyItem::Node(n) => n.span,
            ComponentBodyItem::Children(c) => c.span,
            ComponentBodyItem::Let(l) => l.span,
            ComponentBodyItem::Env(l) => l.span,
        }
    }
}

/// A `let` or `env` binding: `let name [: Type] [= value] [;]`. Without a
/// value the binding is declared but uninitialized.
#[derive(Debug, PartialEq)]
pub struct LetBinding {
    pub name: Ident,
    pub type_annotation: Option<TypeRef>,
    pub value: Option<LetValue>,
    pub span: Span,
}

#[derive(Debug, PartialEq)]
pub enum LetValue {
    Expr(Expr),
    Node(ElementNode),
}

impl LetValue {
    pub fn span(&self) -> (s: Span)
        ensures
            s == match self {
                LetValue::Expr(e) => e.spec_span(),
                LetValue::Node(n) => n.span,
            },
    {
        match self {
            LetValue::Expr(e) => e.span(),
            LetValue::Node(n) => n.span,
        }
    }
}

/// Parameter of a component signature: `[env] name [: Type] [(: | =) default]`.
#[derive(Debug, PartialEq)]
pub struct ParamDef {
    pub name: Ident,
    pub type_annotation: Option<TypeRef>,
    pub default_edge: Option<Expr>,
    pub is_env: bool,
    pub span: Span,
}

/// A type reference, e.g. `Color`, `Number`, `String`.
#[derive(Debug, Clone, PartialEq)]
pub struct TypeRef {
    pub name: Ident,
    pub span: Span,
}

/// Element node instantiation: `\Name(ports) { content }`.
#[derive(Debug, PartialEq)]
pub struct ElementNode {
    pub name: Ident,
    pub ports: Vec<PortBinding>,
    pub content: Option<ContentSlot>,
    pub span: Span,
}

/// The `\Children` directive: `\Children { x: parent.left, ... }`.
#[derive(Debug, PartialEq)]
pub struct ChildrenDirective {
    pub ports: Vec<PortBinding>,
    pub span: Span,
}

/// Port binding: `name: expr`.
#[derive(Debug, PartialEq)]
pub struct PortBinding {
    pub name: Ident,
    pub expr: Expr,
    pub span: Span,
}

/// Content slot delimited by `{ ... }`.
#[derive(Debug, PartialEq)]
pub struct ContentSlot {
    pub items: Vec<ContentItem>,
    pub span: Span,
}

/// Raw text runs interleaved with inline nodes.
#[derive(Debug, PartialEq)]
pub enum ContentItem {
    Text(TextChunk),
    Node(ElementNode),
    Children(ChildrenDirective),
}

impl ContentItem {
    pub fn span(&self) -> (s: Span)
        ensures
            s == match self {
                ContentItem::Text(t) => t.span,
                ContentItem::Node(n) => n.span,
                ContentItem::Children(c) => c.span,
            },
    {
        match self {
            ContentItem::Text(t) => t.span,
            ContentItem::Node(n) => n.span,
            ContentItem::Children(c) => c.span,
        }
    }
}

/// A whitespace-normalized text chunk inside a content slot.
#[derive(Debug, Clone, PartialEq)]
pub struct TextChunk {
    pub text: String,
    pub span: Span,
}

/// Late-bound algebraic expression: an edge in the layout DAG.
#[derive(Debug, PartialEq)]
pub enum Expr {
    Literal(Literal),
    Ident(Ident),
    MemberAccess(MemberAccessExpr),
    Ternary(TernaryExpr),
    Call(CallExpr),
    Binary(BinaryExpr),
    Unary(UnaryExpr),
    Paren(Box<Expr>, Span),
    Node(Box<ElementNode>),
}

impl Expr {
    pub open spec fn spec_span(&self) -> Span {
        match self {
            Expr::Literal(lit) => lit.spec_span(),
            Expr::Ident(id) => id.span,
            Expr::MemberAccess(m) => m.span,
            Expr::Ternary(t) => t.span,
            Expr::Call(c) => c.span,
            Expr::Binary(b) => b.span,
            Expr::Unary(u) => u.span,
            Expr::Paren(_, span) => *span,
            Expr::Node(n) => n.span,
        }
    }

    #[verifier::when_used_as_spec(spec_span)]
    pub fn span(&self) -> (s: Span)
        ensures
            s == self.spec_span(),
    {
        match self {
            Expr::Literal(lit) => lit.span(),
            Expr::Ident(id) => id.span,
            Expr::MemberAccess(m) => m.span,
            Expr::Ternary(t) => t.span,
            Expr::Call(c) => c.span,
            Expr::Binary(b) => b.span,
            Expr::Unary(u) => u.span,
            Expr::Paren(_, span) => *span,
            Expr::Node(n) => n.span,
        }
    }
}

#[derive(Debug, PartialEq)]
pub struct MemberAccessExpr {
    pub target: Box<Expr>,
    pub member: Ident,
    pub span: Span,
}

#[derive(Debug, PartialEq)]
pub struct TernaryExpr {
    pub condition: Box<Expr>,
    pub then_expr: Box<Expr>,
    pub else_expr: Box<Expr>,
    pub span: Span,
}

#[derive(Debug, PartialEq)]
pub struct CallExpr {
    pub callee: Ident,
    pub args: Vec<Expr>,
    pub span: Span,
}

#[derive(Debug, PartialEq)]
pub struct BinaryExpr {
    pub op: BinaryOp,
    pub left: Box<Expr>,
    pub right: Box<Expr>,
    pub span: Span,
}

#[derive(Debug, Clone, Copy, PartialEq, Eq, Structural)]
pub enum BinaryOp {
    Add,
    Sub,
    Mul,
    Div,
    Rem,
    Eq,
    Ne,
    Lt,
    Le,
    Gt,
    Ge,
    And,
    Or,
}

#[derive(Debug, PartialEq)]
pub struct UnaryExpr {
    pub op: UnaryOp,
    pub operand: Box<Expr>,
    pub span: Span,
}

#[derive(Debug, Clone, Copy, PartialEq, Eq, Structural)]
pub enum UnaryOp {
    Neg,
    Not,
}

/// A literal. Numbers keep the digits exactly as written in the source.
#[derive(Debug, Clone, PartialEq)]
pub enum Literal {
    Number(String, Span),
    String(String, Span),
    Bool(bool, Span),
    Color(String, Span),
}

impl Literal {
    pub open spec fn spec_span(&self) -> Span {
        match self {
            Literal::Number(_, span) => *span,
            Literal::String(_, span) => *span,
            Literal::Bool(_, span) => *span,
            Literal::Color(_, span) => *span,
        }
    }

    #[verifier::when_used_as_spec(spec_span)]
    pub fn span(&self) -> (s: Span)
        ensures
            s == self.spec_span(),
    {
        match self {
            Literal::Number(_, span) => *span,
            Literal::String(_, span) => *span,
            Literal::Bool(_, span) => *span,
            Literal::Color(_, span) => *span,
        }
    }
}

} // verus!
