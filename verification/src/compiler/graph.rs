use vstd::prelude::*;
use crate::ast::{Expr, Ident, Literal, MemberAccessExpr};
use crate::compiler::expand::{is_named_ident, is_number};
use crate::compiler::expanded::{window_name, ExpandedDocument, ExpandedNode};
use crate::syntax_copy::{same_expr, same_exprs};
use crate::chars::{push_str, str_chars, string_from_chars};
use crate::compiler::expanded::{chars_eq, from_canonical_chars, NodeId};
use crate::compiler::error::CompileError;
use crate::span::Span;

verus! {

/// A variable of the layout graph: a port of a node.
#[derive(Debug, Clone, PartialEq, Eq, Hash)]
pub struct VarId {
    pub node: NodeId,
    pub port: String,
}

impl View for VarId {
    type V = (NodeId, Seq<char>);

    open spec fn view(&self) -> (NodeId, Seq<char>) {
        (self.node, self.port@)
    }
}

/// `NODE.PORT`, e.g. `__node_3.width`: how a variable is shown, and the key by
/// which the scheduler orders ready variables.
pub open spec fn var_key(v: (NodeId, Seq<char>)) -> Seq<char> {
    v.0.spec_canonical() + "."@ + v.1
}

impl VarId {
    pub fn new(node: NodeId, port: &str) -> (v: VarId)
        ensures
            v@ == (node, port@),
    {
        VarId { node, port: port.to_owned() }
    }

    pub fn duplicate(&self) -> (v: VarId)
        ensures
            v@ == self@,
    {
        VarId { node: self.node, port: self.port.clone() }
    }

    pub fn same(&self, other: &VarId) -> (b: bool)
        ensures
            b == (self@ == other@),
    {
        self.node == other.node && self.port == other.port
    }

    pub fn key_chars(&self) -> (k: Vec<char>)
        ensures
            k@ == var_key(self@),
    {
        let mut v: Vec<char> = Vec::new();
        self.node.push_canonical(&mut v);
        push_str(&mut v, ".");
        push_str(&mut v, self.port.as_str());
        assert(v@ =~= var_key(self@));
        v
    }

    /// The variable as `Display` shows it: `NODE.PORT`.
    pub fn to_text(&self) -> (s: String)
        ensures
            s@ == var_key(self@),
    {
        let v = self.key_chars();
        string_from_chars(v.as_slice())
    }
}

/// Lexicographic order on characters (by code point, which is also the byte
/// order of their UTF-8 encodings).
pub open spec fn lex_lt(a: Seq<char>, b: Seq<char>) -> bool
    decreases a.len(),
{
    if a.len() == 0 {
        b.len() > 0
    } else if b.len() == 0 {
        false
    } else if a[0] != b[0] {
        a[0] < b[0]
    } else {
        lex_lt(a.skip(1), b.skip(1))
    }
}

pub open spec fn lex_le(a: Seq<char>, b: Seq<char>) -> bool {
    a == b || lex_lt(a, b)
}

pub fn lex_less(a: &Vec<char>, b: &Vec<char>) -> (r: bool)
    ensures
        r == lex_lt(a@, b@),
{
    let mut i: usize = 0;
    assert(a@.skip(0) =~= a@);
    assert(b@.skip(0) =~= b@);
    while i < a.len() && i < b.len() && a[i] == b[i]
        invariant
            i <= a@.len(),
            i <= b@.len(),
            lex_lt(a@, b@) == lex_lt(a@.skip(i as int), b@.skip(i as int)),
        decreases a@.len() - i,
    {
        assert(a@.skip(i as int).skip(1) =~= a@.skip(i + 1));
        assert(b@.skip(i as int).skip(1) =~= b@.skip(i + 1));
        i = i + 1;
    }
    if i == a.len() {
        i < b.len()
    } else if i == b.len() {
        false
    } else {
        a[i] < b[i]
    }
}

/// The variables an expression reads: every `NODE.PORT` member access whose
/// target is an identifier naming a node.
pub open spec fn expr_refs(e: Expr) -> Set<(NodeId, Seq<char>)>
    decreases e,
{
    match e {
        Expr::MemberAccess(m) => {
            let here = match *m.target {
                Expr::Ident(t) => match NodeId::spec_from_canonical(t.name@) {
                    Some(n) => set![(n, m.member.name@)],
                    None => Set::empty(),
                },
                _ => Set::empty(),
            };
            here.union(expr_refs(*m.target))
        },
        Expr::Binary(b) => expr_refs(*b.left).union(expr_refs(*b.right)),
        Expr::Unary(u) => expr_refs(*u.operand),
        Expr::Call(c) => args_refs(c.args@),
        Expr::Ternary(t) => expr_refs(*t.condition).union(expr_refs(*t.then_expr)).union(
            expr_refs(*t.else_expr),
        ),
        Expr::Paren(p, _) => expr_refs(*p),
        _ => Set::empty(),
    }
}

pub open spec fn args_refs(s: Seq<Expr>) -> Set<(NodeId, Seq<char>)>
    decreases s,
{
    if s.len() == 0 {
        Set::empty()
    } else {
        args_refs(s.drop_last()).union(expr_refs(s.last()))
    }
}


/// `sub` occurs in `e`: it is `e`, or occurs in a target, operand, branch,
/// argument or parenthesized inner expression of `e`.
pub open spec fn occurs_in(sub: Expr, e: Expr) -> bool
    decreases e,
{
    sub == e || match e {
        Expr::MemberAccess(m) => occurs_in(sub, *m.target),
        Expr::Binary(b) => occurs_in(sub, *b.left) || occurs_in(sub, *b.right),
        Expr::Unary(u) => occurs_in(sub, *u.operand),
        Expr::Call(c) => occurs_in_args(sub, c.args@),
        Expr::Ternary(x) => occurs_in(sub, *x.condition) || occurs_in(sub, *x.then_expr) || occurs_in(
            sub,
            *x.else_expr,
        ),
        Expr::Paren(p, _) => occurs_in(sub, *p),
        _ => false,
    }
}

/// `sub` occurs in one of the expressions `s`.
pub open spec fn occurs_in_args(sub: Expr, s: Seq<Expr>) -> bool
    decreases s,
{
    s.len() > 0 && (occurs_in_args(sub, s.drop_last()) || occurs_in(sub, s.last()))
}

/// The variable a member access `NAME.port` reads, when `NAME` is the
/// canonical name of a node.
pub open spec fn access_var(sub: Expr) -> Option<(NodeId, Seq<char>)> {
    match sub {
        Expr::MemberAccess(m) => match *m.target {
            Expr::Ident(t) => match NodeId::spec_from_canonical(t.name@) {
                Some(n) => Some((n, m.member.name@)),
                None => None,
            },
            _ => None,
        },
        _ => None,
    }
}

/// Every `NODE.port` access that occurs anywhere in an equation, under
/// parentheses, operators, branches and call arguments too, is among the
/// variables the equation reads.
pub proof fn lemma_refs_cover_accesses(sub: Expr, e: Expr)
    requires
        occurs_in(sub, e),
        access_var(sub) is Some,
    ensures
        expr_refs(e).contains(access_var(sub)->Some_0),
    decreases e,
{
    if sub != e {
        match e {
            Expr::MemberAccess(m) => {
                lemma_refs_cover_accesses(sub, *m.target);
            },
            Expr::Binary(b) => {
                if occurs_in(sub, *b.left) {
                    lemma_refs_cover_accesses(sub, *b.left);
                } else {
                    lemma_refs_cover_accesses(sub, *b.right);
                }
            },
            Expr::Unary(u) => {
                lemma_refs_cover_accesses(sub, *u.operand);
            },
            Expr::Call(c) => {
                lemma_refs_cover_args(sub, c.args@);
            },
            Expr::Ternary(x) => {
                if occurs_in(sub, *x.condition) {
                    lemma_refs_cover_accesses(sub, *x.condition);
                } else if occurs_in(sub, *x.then_expr) {
                    lemma_refs_cover_accesses(sub, *x.then_expr);
                } else {
                    lemma_refs_cover_accesses(sub, *x.else_expr);
                }
            },
            Expr::Paren(p, _) => {
                lemma_refs_cover_accesses(sub, *p);
            },
            _ => {},
        }
    }
}

/// The same for an access that occurs in one of the arguments `s`.
pub proof fn lemma_refs_cover_args(sub: Expr, s: Seq<Expr>)
    requires
        occurs_in_args(sub, s),
        access_var(sub) is Some,
    ensures
        args_refs(s).contains(access_var(sub)->Some_0),
    decreases s,
{
    if occurs_in_args(sub, s.drop_last()) {
        lemma_refs_cover_args(sub, s.drop_last());
    } else {
        lemma_refs_cover_accesses(sub, s.last());
    }
}

pub proof fn lemma_lex_irrefl(a: Seq<char>)
    ensures
        !lex_lt(a, a),
    decreases a.len(),
{
    if a.len() > 0 {
        lemma_lex_irrefl(a.skip(1));
    }
}

pub proof fn lemma_lex_trans(a: Seq<char>, b: Seq<char>, c: Seq<char>)
    requires
        lex_lt(a, b),
        lex_lt(b, c),
    ensures
        lex_lt(a, c),
    decreases a.len(),
{
    if a.len() > 0 && b.len() > 0 && c.len() > 0 && a[0] == b[0] && b[0] == c[0] {
        lemma_lex_trans(a.skip(1), b.skip(1), c.skip(1));
    }
}

pub proof fn lemma_lex_total(a: Seq<char>, b: Seq<char>)
    ensures
        a == b || lex_lt(a, b) || lex_lt(b, a),
    decreases a.len(),
{
    if a.len() > 0 && b.len() > 0 && a[0] == b[0] {
        lemma_lex_total(a.skip(1), b.skip(1));
        if a.skip(1) == b.skip(1) {
            assert(a =~= seq![a[0]] + a.skip(1));
            assert(b =~= seq![b[0]] + b.skip(1));
        }
    } else if a.len() == 0 && b.len() == 0 {
        assert(a =~= b);
    }
}

/// The set of variables (as views) held by `s`.
pub open spec fn view_set(s: Seq<VarId>) -> Set<(NodeId, Seq<char>)> {
    Set::new(|x: (NodeId, Seq<char>)| exists|i: int| 0 <= i < s.len() && s[i]@ == x)
}

/// `s` is strictly increasing by key.
pub open spec fn strictly_sorted(s: Seq<VarId>) -> bool {
    forall|i: int, j: int| 0 <= i < j < s.len() ==> lex_lt(var_key(s[i]@), var_key(s[j]@))
}

/// Canonical names hold no `.`, so a key determines its variable.
pub proof fn lemma_var_key_injective(a: (NodeId, Seq<char>), b: (NodeId, Seq<char>))
    requires
        var_key(a) == var_key(b),
    ensures
        a == b,
{
    let ca = a.0.spec_canonical();
    let cb = b.0.spec_canonical();
    lemma_canonical_no_dot(a.0);
    lemma_canonical_no_dot(b.0);
    reveal_strlit(".");
    let ka = var_key(a);
    if ca.len() < cb.len() {
        assert(ka[ca.len() as int] == '.');
        assert(var_key(b)[ca.len() as int] == cb[ca.len() as int]);
    } else if cb.len() < ca.len() {
        assert(var_key(b)[cb.len() as int] == '.');
        assert(ka[cb.len() as int] == ca[cb.len() as int]);
    } else {
        assert(ca =~= ka.take(ca.len() as int));
        assert(cb =~= var_key(b).take(cb.len() as int));
        crate::compiler::expanded::lemma_canonical_injective(a.0, b.0);
        assert(a.1 =~= ka.skip((ca.len() + 1) as int));
        assert(b.1 =~= var_key(b).skip((cb.len() + 1) as int));
    }
}

pub proof fn lemma_canonical_no_dot(n: NodeId)
    ensures
        forall|i: int| 0 <= i < n.spec_canonical().len() ==> n.spec_canonical()[i] != '.',
{
    reveal_strlit("__window");
    reveal_strlit("__node_");
    if !n.spec_is_window() {
        crate::chars::lemma_decimal_all_digits(n.0 as nat);
        let c = n.spec_canonical();
        assert forall|i: int| 0 <= i < c.len() implies c[i] != '.' by {
            if i >= 7 {
                assert(c[i] == crate::chars::spec_decimal(n.0 as nat)[i - 7]);
            }
        }
    }
}

/// The views of a sequence of variables.
pub open spec fn views(s: Seq<VarId>) -> Seq<(NodeId, Seq<char>)> {
    s.map_values(|v: VarId| v@)
}

/// `s` is strictly increasing by key.
pub open spec fn keys_sorted(s: Seq<(NodeId, Seq<char>)>) -> bool {
    forall|i: int, j: int| 0 <= i < j < s.len() ==> lex_lt(var_key(s[i]), var_key(s[j]))
}

/// The variables an expression reads, each once, in increasing key order.
pub open spec fn sorted_refs(e: Expr) -> Seq<(NodeId, Seq<char>)> {
    choose|s: Seq<(NodeId, Seq<char>)>| keys_sorted(s) && s.to_set() == expr_refs(e)
}

/// Two key-sorted sequences with the same elements are equal.
pub proof fn lemma_sorted_unique(s: Seq<(NodeId, Seq<char>)>, t: Seq<(NodeId, Seq<char>)>)
    requires
        keys_sorted(s),
        keys_sorted(t),
        s.to_set() == t.to_set(),
    ensures
        s == t,
    decreases s.len(),
{
    if s.len() == 0 {
        if t.len() > 0 {
            assert(t.to_set().contains(t[0]));
        }
        assert(s =~= t);
    } else {
        assert(s.to_set().contains(s[0]));
        assert(t.to_set().contains(s[0]));
        assert(t.len() > 0);
        assert(t.to_set().contains(t[0]));
        assert(s.to_set().contains(t[0]));
        let i = choose|i: int| 0 <= i < t.len() && t[i] == s[0];
        let j = choose|j: int| 0 <= j < s.len() && s[j] == t[0];
        if i > 0 && j > 0 {
            lemma_lex_trans(var_key(s[0]), var_key(s[j]), var_key(s[0]));
            lemma_lex_irrefl(var_key(s[0]));
        } else if i > 0 {
            assert(t[0] == s[0]);
        }
        assert(s[0] == t[0]);
        let s1 = s.skip(1);
        let t1 = t.skip(1);
        assert forall|x| s1.to_set().contains(x) implies t1.to_set().contains(x) by {
            let a = choose|a: int| 0 <= a < s1.len() && s1[a] == x;
            assert(s[a + 1] == x);
            assert(x != s[0]) by {
                lemma_lex_irrefl(var_key(s[0]));
            }
            assert(s.to_set().contains(x));
            let b = choose|b: int| 0 <= b < t.len() && t[b] == x;
            assert(b != 0);
            assert(t1[b - 1] == x);
        }
        assert forall|x| t1.to_set().contains(x) implies s1.to_set().contains(x) by {
            let a = choose|a: int| 0 <= a < t1.len() && t1[a] == x;
            assert(t[a + 1] == x);
            assert(x != t[0]) by {
                lemma_lex_irrefl(var_key(t[0]));
            }
            assert(t.to_set().contains(x));
            let b = choose|b: int| 0 <= b < s.len() && s[b] == x;
            assert(b != 0);
            assert(s1[b - 1] == x);
        }
        assert(s1.to_set() =~= t1.to_set());
        lemma_sorted_unique(s1, t1);
        assert(s =~= seq![s[0]] + s1);
        assert(t =~= seq![t[0]] + t1);
    }
}

proof fn lemma_sorted_refs_of(deps: Seq<VarId>, e: Expr)
    requires
        view_set(deps) == expr_refs(e),
        strictly_sorted(deps),
    ensures
        views(deps) == sorted_refs(e),
{
    let s = views(deps);
    assert(keys_sorted(s));
    assert(s.to_set() =~= view_set(deps)) by {
        assert forall|x| s.to_set().contains(x) implies view_set(deps).contains(x) by {
            let i = choose|i: int| 0 <= i < s.len() && s[i] == x;
            assert(deps[i]@ == x);
        }
        assert forall|x| view_set(deps).contains(x) implies s.to_set().contains(x) by {
            let i = choose|i: int| 0 <= i < deps.len() && deps[i]@ == x;
            assert(s[i] == x);
        }
    }
    let t = sorted_refs(e);
    assert(keys_sorted(t) && t.to_set() == expr_refs(e));
    lemma_sorted_unique(s, t);
}

/// Adds every variable `expr` reads to `out`.
fn collect_dependencies(expr: &Expr, out: &mut Vec<VarId>)
    ensures
        view_set(final(out)@) == view_set(old(out)@).union(expr_refs(*expr)),
    decreases expr,
{
    match expr {
        Expr::MemberAccess(m) => {
            match &*m.target {
                Expr::Ident(target_id) => {
                    let tv = str_chars(target_id.name.as_str());
                    match from_canonical_chars(&tv) {
                        Some(node_id) => {
                            let ghost before = out@;
                            out.push(VarId::new(node_id, m.member.name.as_str()));
                            proof {
                                lemma_view_set_push(before, out@.last());
                                assert(out@ =~= before.push(out@.last()));
                            }
                        },
                        None => {},
                    }
                },
                _ => {},
            }
            let ghost mid = out@;
            collect_dependencies(&m.target, out);
            proof {
                assert(view_set(out@) =~= view_set(old(out)@).union(expr_refs(*expr)));
            }
        },
        Expr::Binary(b) => {
            collect_dependencies(&b.left, out);
            collect_dependencies(&b.right, out);
            assert(view_set(out@) =~= view_set(old(out)@).union(expr_refs(*expr)));
        },
        Expr::Unary(u) => {
            collect_dependencies(&u.operand, out);
        },
        Expr::Call(c) => {
            let mut i: usize = 0;
            while i < c.args.len()
                invariant
                    i <= c.args@.len(),
                    *expr == Expr::Call(*c),
                    view_set(out@) == view_set(old(out)@).union(args_refs(c.args@.take(i as int))),
                decreases c.args@.len() - i,
            {
                proof {
                    assert(c.args@.take(i + 1).drop_last() =~= c.args@.take(i as int));
                    assert(decreases_to!(*expr => expr->Call_0));
                    assert(decreases_to!(expr->Call_0 => expr->Call_0.args));
                    assert(decreases_to!(expr->Call_0.args => expr->Call_0.args@));
                    assert(decreases_to!(expr->Call_0.args@ => c.args@[i as int]));
                    assert(decreases_to!(*expr => c.args@[i as int]));
                }
                collect_dependencies(&c.args[i], out);
                i = i + 1;
                assert(view_set(out@) =~= view_set(old(out)@).union(args_refs(c.args@.take(i as int))));
            }
            assert(c.args@.take(i as int) =~= c.args@);
        },
        Expr::Ternary(t) => {
            collect_dependencies(&t.condition, out);
            collect_dependencies(&t.then_expr, out);
            collect_dependencies(&t.else_expr, out);
            assert(view_set(out@) =~= view_set(old(out)@).union(expr_refs(*expr)));
        },
        Expr::Paren(p, _) => {
            collect_dependencies(p, out);
        },
        _ => {
            assert(view_set(out@) =~= view_set(old(out)@).union(expr_refs(*expr)));
        },
    }
}

proof fn lemma_view_set_push(s: Seq<VarId>, x: VarId)
    ensures
        view_set(s.push(x)) == view_set(s).insert(x@),
{
    assert forall|y: (NodeId, Seq<char>)| view_set(s.push(x)).contains(y) implies view_set(s).insert(x@).contains(y) by {
        let i = choose|i: int| 0 <= i < s.push(x).len() && s.push(x)[i]@ == y;
        if i < s.len() {
            assert(s[i]@ == y);
        }
    }
    assert forall|y: (NodeId, Seq<char>)| view_set(s).insert(x@).contains(y) implies view_set(s.push(x)).contains(y) by {
        if y == x@ {
            assert(s.push(x)[s.len() as int]@ == y);
        } else {
            let i = choose|i: int| 0 <= i < s.len() && s[i]@ == y;
            assert(s.push(x)[i]@ == y);
        }
    }
    assert(view_set(s.push(x)) =~= view_set(s).insert(x@));
}

/// The variables an expression reads, each once, ordered by their key
/// (`NODE.PORT`).
pub fn extract_var_dependencies(expr: &Expr) -> (deps: Vec<VarId>)
    ensures
        view_set(deps@) == expr_refs(*expr),
        strictly_sorted(deps@),
        views(deps@) == sorted_refs(*expr),
{
    let mut all: Vec<VarId> = Vec::new();
    collect_dependencies(expr, &mut all);
    assert(view_set(Seq::<VarId>::empty()) =~= Set::empty());
    let mut sorted: Vec<VarId> = Vec::new();
    let mut k: usize = 0;
    while k < all.len()
        invariant
            k <= all@.len(),
            strictly_sorted(sorted@),
            view_set(sorted@) == view_set(all@.take(k as int)),
            view_set(all@) == expr_refs(*expr),
        decreases all@.len() - k,
    {
        let ghost before = sorted@;
        insert_sorted(&mut sorted, &all[k]);
        proof {
            assert(all@.take(k + 1) =~= all@.take(k as int).push(all@[k as int]));
            lemma_view_set_push(all@.take(k as int), all@[k as int]);
        }
        k = k + 1;
    }
    assert(all@.take(k as int) =~= all@);
    proof {
        lemma_sorted_refs_of(sorted@, *expr);
    }
    sorted
}

/// Inserts `x` into the strictly sorted `s` unless a variable with the same
/// key is already there.
fn insert_sorted(s: &mut Vec<VarId>, x: &VarId)
    requires
        strictly_sorted(old(s)@),
    ensures
        strictly_sorted(final(s)@),
        view_set(final(s)@) == view_set(old(s)@).insert(x@),
{
    let kx = x.key_chars();
    let mut p: usize = 0;
    while p < s.len()
        invariant
            p <= s@.len(),
            s@ == old(s)@,
            strictly_sorted(s@),
            kx@ == var_key(x@),
            forall|i: int| 0 <= i < p ==> lex_lt(var_key(s@[i]@), kx@),
        ensures
            p <= s@.len(),
            s@ == old(s)@,
            forall|i: int| 0 <= i < p ==> lex_lt(var_key(s@[i]@), kx@),
            p < s@.len() ==> !lex_lt(var_key(s@[p as int]@), kx@),
        decreases s@.len() - p,
    {
        let kp = s[p].key_chars();
        if !lex_less(&kp, &kx) {
            break;
        }
        p = p + 1;
    }
    if p < s.len() {
        let kp = s[p].key_chars();
        if chars_eq(&kp, &kx) {
            proof {
                lemma_var_key_injective(s@[p as int]@, x@);
                assert(view_set(s@) =~= view_set(s@).insert(x@));
            }
            return;
        }
        proof {
            lemma_lex_total(kp@, kx@);
        }
    }
    let ghost before = s@;
    s.insert(p, x.duplicate());
    proof {
        assert forall|i: int, j: int| 0 <= i < j < s@.len() implies lex_lt(var_key(s@[i]@), var_key(s@[j]@)) by {
            if j < p {
                assert(s@[i] == before[i] && s@[j] == before[j]);
            } else if j == p {
                assert(s@[i] == before[i]);
            } else if i == p {
                assert(s@[j] == before[j - 1]);
                if j - 1 > p {
                    lemma_lex_trans(kx@, var_key(before[p as int]@), var_key(before[j - 1]@));
                }
            } else if i < p {
                assert(s@[i] == before[i] && s@[j] == before[j - 1]);
            } else {
                assert(s@[i] == before[i - 1] && s@[j] == before[j - 1]);
            }
        }
        assert forall|y: (NodeId, Seq<char>)| view_set(s@).contains(y) implies view_set(before).insert(x@).contains(y) by {
            let i = choose|i: int| 0 <= i < s@.len() && s@[i]@ == y;
            if i < p {
                assert(before[i]@ == y);
            } else if i > p {
                assert(before[i - 1]@ == y);
            }
        }
        assert forall|y: (NodeId, Seq<char>)| view_set(before).insert(x@).contains(y) implies view_set(s@).contains(y) by {
            if y == x@ {
                assert(s@[p as int]@ == y);
            } else {
                let i = choose|i: int| 0 <= i < before.len() && before[i]@ == y;
                if i < p {
                    assert(s@[i]@ == y);
                } else {
                    assert(s@[i + 1]@ == y);
                }
            }
        }
        assert(view_set(s@) =~= view_set(before).insert(x@));
    }
}


/// A variable of the graph with the equation that defines it.
#[derive(Debug, PartialEq)]
pub struct VariableNode {
    pub id: VarId,
    pub equation: Expr,
    pub span: Span,
}

/// What a graph denotes: the defined variables, and for each variable the
/// variables it reads (`up`) and the variables that read it (`down`).
pub struct GraphView {
    pub vars: Map<(NodeId, Seq<char>), VariableNode>,
    pub up: Map<(NodeId, Seq<char>), Seq<(NodeId, Seq<char>)>>,
    pub down: Map<(NodeId, Seq<char>), Seq<(NodeId, Seq<char>)>>,
}

pub open spec fn seq_or_empty(
    m: Map<(NodeId, Seq<char>), Seq<(NodeId, Seq<char>)>>,
    k: (NodeId, Seq<char>),
) -> Seq<(NodeId, Seq<char>)> {
    if m.contains_key(k) {
        m[k]
    } else {
        Seq::empty()
    }
}

/// The graph after defining `node` with equation reading `deps`: the
/// variable's upstream list grows by `deps`, and each of `deps` gains it
/// downstream.
pub open spec fn graph_add(g: GraphView, node: VariableNode, deps: Seq<(NodeId, Seq<char>)>) -> GraphView {
    let k = node.id@;
    GraphView {
        vars: g.vars.insert(k, node),
        up: g.up.insert(k, seq_or_empty(g.up, k) + deps),
        down: Map::new(
            |x: (NodeId, Seq<char>)| g.down.contains_key(x) || x == k || deps.contains(x),
            |x: (NodeId, Seq<char>)|
                seq_or_empty(g.down, x) + (if deps.contains(x) {
                    seq![k]
                } else {
                    Seq::empty()
                }),
        ),
    }
}

impl Default for VariableGraph {
    fn default() -> (g: VariableGraph)
        ensures
            g.wf(),
            g@ == empty_view(),
    {
        let g = VariableGraph::new();
        assert(g@ == empty_view());
        g
    }
}

/// What `graph_add` records downstream of `x`.
proof fn lemma_graph_add_down_at(g: GraphView, node: VariableNode, deps: Seq<(NodeId, Seq<char>)>, x: (NodeId, Seq<char>))
    ensures
        deps.contains(x) ==> graph_add(g, node, deps).down.contains_key(x) && graph_add(g, node, deps).down[x]
            == seq_or_empty(g.down, x) + seq![node.id@],
{
}

/// Every edge is recorded at both ends: `v` lists `k` upstream exactly when
/// `k` lists `v` downstream.
pub open spec fn edges_mirror(g: GraphView) -> bool {
    forall|k: (NodeId, Seq<char>), v: (NodeId, Seq<char>)|
        #![trigger g.down[k].contains(v)]
        #![trigger g.up[v].contains(k)]
        (g.down.contains_key(k) && g.down[k].contains(v)) <==> (g.up.contains_key(v) && g.up[v].contains(k))
}

/// Defining a variable keeps every edge recorded at both ends.
pub proof fn lemma_graph_add_mirror(g: GraphView, node: VariableNode, deps: Seq<(NodeId, Seq<char>)>)
    requires
        edges_mirror(g),
    ensures
        edges_mirror(graph_add(g, node, deps)),
{
    let h = graph_add(g, node, deps);
    let n = node.id@;
    assert forall|k: (NodeId, Seq<char>), v: (NodeId, Seq<char>)|
        #![trigger h.down[k].contains(v)]
        #![trigger h.up[v].contains(k)]
        (h.down.contains_key(k) && h.down[k].contains(v)) <==> (h.up.contains_key(v) && h.up[v].contains(k)) by {
        let old_down = seq_or_empty(g.down, k);
        let old_up = seq_or_empty(g.up, v);
        if h.down.contains_key(k) && h.down[k].contains(v) {
            let extra: Seq<(NodeId, Seq<char>)> = if deps.contains(k) { seq![n] } else { Seq::empty() };
            assert(h.down[k] == old_down + extra);
            let i = choose|i: int| 0 <= i < h.down[k].len() && h.down[k][i] == v;
            if i < old_down.len() {
                assert(old_down[i] == v);
                assert(g.down.contains_key(k));
                assert(g.down[k].contains(v));
                assert(g.up.contains_key(v) && g.up[v].contains(k));
                if v == n {
                    assert(h.up[v] == old_up + deps);
                    let j = choose|j: int| 0 <= j < old_up.len() && old_up[j] == k;
                    assert(h.up[v][j] == k);
                } else {
                    assert(h.up[v] == g.up[v]);
                }
            } else {
                assert(v == n);
                assert(deps.contains(k));
                let j = choose|j: int| 0 <= j < deps.len() && deps[j] == k;
                assert(h.up[v] == old_up + deps);
                assert(h.up[v][old_up.len() + j] == k);
            }
        }
        if h.up.contains_key(v) && h.up[v].contains(k) {
            let j = choose|j: int| 0 <= j < h.up[v].len() && h.up[v][j] == k;
            if v == n {
                assert(h.up[v] == old_up + deps);
                if j < old_up.len() {
                    assert(old_up[j] == k);
                    assert(g.up.contains_key(v));
                    assert(g.up[v].contains(k));
                    assert(g.down.contains_key(k) && g.down[k].contains(v));
                    let i = choose|i: int| 0 <= i < g.down[k].len() && g.down[k][i] == v;
                    assert(h.down[k][i] == v);
                } else {
                    assert(deps[j - old_up.len()] == k);
                    assert(deps.contains(k));
                    assert(h.down.contains_key(k));
                    assert(h.down[k][old_down.len() as int] == n);
                }
            } else {
                assert(h.up[v] == g.up[v]);
                assert(g.down.contains_key(k) && g.down[k].contains(v));
                let i = choose|i: int| 0 <= i < g.down[k].len() && g.down[k][i] == v;
                assert(h.down[k][i] == v);
            }
        }
    }
}

/// The flat layout dependency graph.
#[derive(Debug, PartialEq)]
pub struct VariableGraph {
    ids: Vec<VarId>,
    nodes: Vec<Option<VariableNode>>,
    ups: Vec<Vec<usize>>,
    downs: Vec<Vec<usize>>,
}

impl VariableGraph {
    pub closed spec fn wf(&self) -> bool {
        let n = self.ids@.len();
        &&& self.nodes@.len() == n
        &&& self.ups@.len() == n
        &&& self.downs@.len() == n
        &&& forall|i: int, j: int| 0 <= i < j < n ==> self.ids@[i]@ != self.ids@[j]@
        &&& forall|i: int, j: int|
            0 <= i < n && 0 <= j < self.ups@[i]@.len() ==> self.ups@[i]@[j] < n
        &&& forall|i: int, j: int|
            0 <= i < n && 0 <= j < self.downs@[i]@.len() ==> self.downs@[i]@[j] < n
        &&& forall|i: int|
            0 <= i < n && self.nodes@[i] is Some ==> self.nodes@[i]->Some_0.id@ == self.ids@[i]@
        &&& forall|i: int| 0 <= i < n && self.nodes@[i] is None ==> self.ups@[i]@.len() == 0
    }

    closed spec fn has(&self, k: (NodeId, Seq<char>)) -> bool {
        exists|i: int| 0 <= i < self.ids@.len() && self.ids@[i]@ == k
    }

    closed spec fn idx(&self, k: (NodeId, Seq<char>)) -> int {
        choose|i: int| 0 <= i < self.ids@.len() && self.ids@[i]@ == k
    }

    closed spec fn keys_of(&self, v: Seq<usize>) -> Seq<(NodeId, Seq<char>)> {
        v.map_values(|j: usize| self.ids@[j as int]@)
    }

    closed spec fn defined_at(&self, i: int) -> bool {
        self.nodes@[i] is Some
    }

    pub closed spec fn view(&self) -> GraphView {
        GraphView {
            vars: Map::new(
                |k: (NodeId, Seq<char>)| self.has(k) && self.defined_at(self.idx(k)),
                |k: (NodeId, Seq<char>)| self.nodes@[self.idx(k)]->Some_0,
            ),
            up: Map::new(
                |k: (NodeId, Seq<char>)| self.has(k) && self.defined_at(self.idx(k)),
                |k: (NodeId, Seq<char>)| self.keys_of(self.ups@[self.idx(k)]@),
            ),
            down: Map::new(
                |k: (NodeId, Seq<char>)| self.has(k),
                |k: (NodeId, Seq<char>)| self.keys_of(self.downs@[self.idx(k)]@),
            ),
        }
    }

    proof fn lemma_idx(&self, i: int)
        requires
            self.wf(),
            0 <= i < self.ids@.len(),
        ensures
            self.has(self.ids@[i]@),
            self.idx(self.ids@[i]@) == i,
    {
        let k = self.ids@[i]@;
        assert(self.has(k));
        let j = self.idx(k);
        if j != i {
            if j < i {
                assert(self.ids@[j]@ != self.ids@[i]@);
            } else {
                assert(self.ids@[i]@ != self.ids@[j]@);
            }
        }
    }

    /// Exactly the defined variables have an upstream list.
    pub proof fn lemma_up_dom(&self)
        ensures
            self@.up.dom() == self@.vars.dom(),
    {
        assert(self@.up.dom() =~= self@.vars.dom());
    }

    pub fn new() -> (g: VariableGraph)
        ensures
            g.wf(),
            edges_mirror(g@),
            g@.vars == Map::<(NodeId, Seq<char>), VariableNode>::empty(),
            g@.up == Map::<(NodeId, Seq<char>), Seq<(NodeId, Seq<char>)>>::empty(),
            g@.down == Map::<(NodeId, Seq<char>), Seq<(NodeId, Seq<char>)>>::empty(),
    {
        let g = VariableGraph { ids: Vec::new(), nodes: Vec::new(), ups: Vec::new(), downs: Vec::new() };
        assert(g@.vars =~= Map::empty());
        assert(g@.up =~= Map::empty());
        assert(g@.down =~= Map::empty());
        g
    }

    /// The index of `id`, if the graph knows it.
    fn find(&self, id: &VarId) -> (r: Option<usize>)
        requires
            self.wf(),
        ensures
            r is None <==> !self.has(id@),
            r matches Some(i) ==> i < self.ids@.len() && self.ids@[i as int]@ == id@ && self.idx(id@) == i,
    {
        let mut i: usize = 0;
        while i < self.ids.len()
            invariant
                self.wf(),
                i <= self.ids@.len(),
                forall|j: int| 0 <= j < i ==> self.ids@[j]@ != id@,
            decreases self.ids@.len() - i,
        {
            if self.ids[i].same(id) {
                proof {
                    self.lemma_idx(i as int);
                }
                return Some(i);
            }
            i = i + 1;
        }
        None
    }

    proof fn lemma_view(&self)
        requires
            self.wf(),
        ensures
            forall|i: int|
                #![trigger self.ids@[i]]
                0 <= i < self.ids@.len() ==> {
                    let k = self.ids@[i]@;
                    &&& self@.down.contains_key(k)
                    &&& self@.down[k] == self.keys_of(self.downs@[i]@)
                    &&& (self@.vars.contains_key(k) <==> self.nodes@[i] is Some)
                    &&& (self@.up.contains_key(k) <==> self.nodes@[i] is Some)
                    &&& (self.nodes@[i] is Some ==> self@.vars[k] == self.nodes@[i]->Some_0
                        && self@.up[k] == self.keys_of(self.ups@[i]@))
                },
            forall|k: (NodeId, Seq<char>)|
                !self.has(k) ==> !self@.down.contains_key(k) && !self@.vars.contains_key(k)
                    && !self@.up.contains_key(k),
    {
        assert forall|i: int| #![trigger self.ids@[i]] 0 <= i < self.ids@.len() implies {
            let k = self.ids@[i]@;
            &&& self@.down.contains_key(k)
            &&& self@.down[k] == self.keys_of(self.downs@[i]@)
            &&& (self@.vars.contains_key(k) <==> self.nodes@[i] is Some)
            &&& (self@.up.contains_key(k) <==> self.nodes@[i] is Some)
            &&& (self.nodes@[i] is Some ==> self@.vars[k] == self.nodes@[i]->Some_0
                && self@.up[k] == self.keys_of(self.ups@[i]@))
        } by {
            self.lemma_idx(i);
        }
    }

    /// The index of `id`, adding it as a variable without equation if the
    /// graph does not know it yet.
    fn intern(&mut self, id: &VarId) -> (i: usize)
        requires
            old(self).wf(),
        ensures
            final(self).wf(),
            i < final(self).ids@.len(),
            final(self).ids@[i as int]@ == id@,
            final(self).ids@.len() == old(self).ids@.len() || final(self).ids@.len()
                == old(self).ids@.len() + 1,
            forall|j: int|
                0 <= j < old(self).ids@.len() ==> final(self).ids@[j] == old(self).ids@[j]
                    && final(self).nodes@[j] == old(self).nodes@[j] && final(self).ups@[j]@
                    == old(self).ups@[j]@ && final(self).downs@[j]@ == old(self).downs@[j]@,
            final(self).ids@.len() > old(self).ids@.len() ==> i == old(self).ids@.len()
                && final(self).nodes@[i as int] is None && final(self).ups@[i as int]@.len() == 0
                && final(self).downs@[i as int]@.len() == 0,
            final(self)@.vars == old(self)@.vars,
            final(self)@.up == old(self)@.up,
            final(self)@.down == (if old(self)@.down.contains_key(id@) {
                old(self)@.down
            } else {
                old(self)@.down.insert(id@, Seq::empty())
            }),
    {
        proof {
            self.lemma_view();
        }
        match self.find(id) {
            Some(i) => i,
            None => {
                let n = self.ids.len();
                self.ids.push(id.duplicate());
                self.nodes.push(None);
                self.ups.push(Vec::new());
                self.downs.push(Vec::new());
                proof {
                    let o = old(self);
                    assert(self.wf());
                    self.lemma_view();
                    assert forall|j: int| 0 <= j < o.ids@.len() implies #[trigger] self.keys_of(o.ups@[j]@) == o.keys_of(o.ups@[j]@) && self.keys_of(o.downs@[j]@) == o.keys_of(o.downs@[j]@) by {
                        assert(self.keys_of(o.ups@[j]@) =~= o.keys_of(o.ups@[j]@));
                        assert(self.keys_of(o.downs@[j]@) =~= o.keys_of(o.downs@[j]@));
                    }
                    assert forall|k: (NodeId, Seq<char>)| self.has(k) implies (k == id@ || o.has(k)) by {
                        let j = choose|j: int| 0 <= j < self.ids@.len() && self.ids@[j]@ == k;
                        if j < n {
                            assert(o.ids@[j]@ == k);
                        }
                    }
                    assert(self@.vars =~= o@.vars) by {
                        assert forall|k| self@.vars.contains_key(k) implies o@.vars.contains_key(k) && self@.vars[k] == o@.vars[k] by {
                            let j = choose|j: int| 0 <= j < self.ids@.len() && self.ids@[j]@ == k;
                            assert(self.ids@[j]@ == k);
                        }
                        assert forall|k| o@.vars.contains_key(k) implies self@.vars.contains_key(k) by {
                            let j = choose|j: int| 0 <= j < o.ids@.len() && o.ids@[j]@ == k;
                            assert(self.ids@[j]@ == k);
                        }
                    }
                    assert(self@.up =~= o@.up) by {
                        assert forall|k| self@.up.contains_key(k) implies o@.up.contains_key(k) && self@.up[k] == o@.up[k] by {
                            let j = choose|j: int| 0 <= j < self.ids@.len() && self.ids@[j]@ == k;
                            assert(self.ids@[j]@ == k);
                        }
                        assert forall|k| o@.up.contains_key(k) implies self@.up.contains_key(k) by {
                            let j = choose|j: int| 0 <= j < o.ids@.len() && o.ids@[j]@ == k;
                            assert(self.ids@[j]@ == k);
                        }
                    }
                    assert(self@.down =~= o@.down.insert(id@, Seq::empty())) by {
                        assert(self.ids@[n as int]@ == id@);
                        assert(self.keys_of(self.downs@[n as int]@) =~= Seq::empty());
                        assert forall|k| self@.down.contains_key(k) && k != id@ implies o@.down.contains_key(k) && self@.down[k] == o@.down[k] by {
                            let j = choose|j: int| 0 <= j < self.ids@.len() && self.ids@[j]@ == k;
                            assert(self.ids@[j]@ == k);
                        }
                        assert forall|k| o@.down.contains_key(k) implies self@.down.contains_key(k) by {
                            let j = choose|j: int| 0 <= j < o.ids@.len() && o.ids@[j]@ == k;
                            assert(self.ids@[j]@ == k);
                        }
                    }
                }
                n
            },
        }
    }

    /// Defines `id` by `equation`, recording an edge from every variable the
    /// equation reads.
    #[verifier::spinoff_prover]
    pub fn add_variable(&mut self, id: VarId, equation: Expr, span: Span)
        requires
            old(self).wf(),
        ensures
            final(self).wf(),
            final(self)@ == graph_add(
                old(self)@,
                (VariableNode { id, equation, span }),
                sorted_refs(equation),
            ),
            final(self)@.up.dom() == final(self)@.vars.dom(),
            !old(self)@.vars.contains_key(id@) ==> final(self)@.up[id@] == sorted_refs(equation),
    {
        proof {
            old(self).lemma_up_dom();
        }
        let deps = extract_var_dependencies(&equation);
        let ghost node = VariableNode { id, equation, span };
        let ghost dv = views(deps@);
        let ghost k = id@;
        let i = self.intern(&id);
        let ghost mid = *self;
        self.nodes.set(i, Some(VariableNode { id, equation, span }));
        proof {
            let o = old(self);
            self.lemma_view();
            mid.lemma_view();
            let target = graph_add(o@, node, dv.take(0));
            assert(dv.take(0) =~= Seq::<(NodeId, Seq<char>)>::empty());
            assert forall|x| self.has(x) implies mid.has(x) && mid.idx(x) == self.idx(x) by {
                let a = choose|a: int| 0 <= a < self.ids@.len() && self.ids@[a]@ == x;
                self.lemma_idx(a);
                mid.lemma_idx(a);
            }
            assert forall|x| mid.has(x) implies self.has(x) by {
                let a = choose|a: int| 0 <= a < mid.ids@.len() && mid.ids@[a]@ == x;
                assert(self.ids@[a]@ == x);
            }
            mid.lemma_idx(i as int);
            assert(self.keys_of(self.ups@[i as int]@) =~= seq_or_empty(o@.up, k)) by {
                o.lemma_view();
                if mid.ids@.len() == o.ids@.len() {
                    o.lemma_idx(i as int);
                    assert(self.keys_of(self.ups@[i as int]@) =~= o.keys_of(o.ups@[i as int]@));
                } else {
                    assert(!o.has(k)) by {
                        if o.has(k) {
                            let a = choose|a: int| 0 <= a < o.ids@.len() && o.ids@[a]@ == k;
                            mid.lemma_idx(a);
                        }
                    }
                }
            }
            assert(self@.vars =~= target.vars);
            assert(self@.up =~= target.up);
            assert(self@.down =~= target.down);
        }
        let mut t: usize = 0;
        while t < deps.len()
            invariant
                self.wf(),
                i < self.ids@.len(),
                self.ids@[i as int]@ == k,
                self.nodes@[i as int] == Some(node),
                node.id@ == k,
                dv == views(deps@),
                strictly_sorted(deps@),
                t <= deps@.len(),
                self@ == graph_add(old(self)@, node, dv.take(t as int)),
            decreases deps@.len() - t,
        {
            let ghost before = *self;
            let j = self.intern(&deps[t]);
            let ghost mid2 = *self;
            self.ups[i].push(j);
            self.downs[j].push(i);
            proof {
                let d = deps@[t as int]@;
                assert(dv[t as int] == d);
                assert(dv.take(t + 1) =~= dv.take(t as int).push(d));
                assert(!dv.take(t as int).contains(d)) by {
                    if dv.take(t as int).contains(d) {
                        let a = choose|a: int| 0 <= a < t && dv.take(t as int)[a] == d;
                        assert(lex_lt(var_key(deps@[a]@), var_key(deps@[t as int]@)));
                        lemma_lex_irrefl(var_key(d));
                    }
                }
                assert(self.wf());
                self.lemma_view();
                mid2.lemma_view();
                before.lemma_view();
                assert forall|x| self.has(x) implies mid2.has(x) && mid2.idx(x) == self.idx(x) by {
                    let a = choose|a: int| 0 <= a < self.ids@.len() && self.ids@[a]@ == x;
                    self.lemma_idx(a);
                    mid2.lemma_idx(a);
                }
                assert forall|x| mid2.has(x) implies self.has(x) by {
                    let a = choose|a: int| 0 <= a < mid2.ids@.len() && mid2.ids@[a]@ == x;
                    assert(self.ids@[a]@ == x);
                }
                assert forall|v: Seq<usize>| (forall|a: int| 0 <= a < v.len() ==> v[a] < mid2.ids@.len()) implies #[trigger] self.keys_of(v) == mid2.keys_of(v) by {
                    assert(self.keys_of(v) =~= mid2.keys_of(v));
                }
                let target = graph_add(old(self)@, node, dv.take(t + 1));
                let prev = graph_add(old(self)@, node, dv.take(t as int));
                mid2.lemma_idx(i as int);
                mid2.lemma_idx(j as int);
                assert(self.keys_of(self.ups@[i as int]@) =~= mid2.keys_of(mid2.ups@[i as int]@).push(d));
                assert(self.keys_of(self.downs@[j as int]@) =~= mid2.keys_of(mid2.downs@[j as int]@).push(k));
                assert(self@.vars =~= target.vars);
                assert(self@.up =~= target.up);
                assert(before@ == prev);
                assert forall|x| #[trigger] self@.down.contains_key(x) == target.down.contains_key(x) by {
                    assert(self@.down.contains_key(x) == self.has(x));
                    assert(mid2@.down.contains_key(x) == mid2.has(x));
                    assert(dv.take(t + 1).contains(x) == (dv.take(t as int).contains(x) || x == d)) by {
                        if x == d {
                            assert(dv.take(t + 1)[t as int] == d);
                        }
                        if dv.take(t as int).contains(x) {
                            let a = choose|a: int| 0 <= a < t && dv.take(t as int)[a] == x;
                            assert(dv.take(t + 1)[a] == x);
                        }
                        if dv.take(t + 1).contains(x) {
                            let a = choose|a: int| 0 <= a < t + 1 && #[trigger] dv.take(t + 1)[a] == x;
                            if a < t {
                                assert(dv.take(t as int)[a] == x);
                            }
                        }
                    }
                }
                assert forall|x| #[trigger] self@.down.contains_key(x) implies self@.down[x] == target.down[x] by {
                    if x == d {
                        assert(mid2@.down[d] == self.keys_of(mid2.downs@[j as int]@));
                        if !before@.down.contains_key(d) {
                            assert(mid2@.down[d] == Seq::<(NodeId, Seq<char>)>::empty());
                            assert(!prev.down.contains_key(d));
                            assert(seq_or_empty(old(self)@.down, d) =~= Seq::empty());
                        } else {
                            assert(mid2@.down[d] == prev.down[d]);
                        }
                        assert(target.down[d] == seq_or_empty(old(self)@.down, d) + seq![k]) by {
                            assert(dv.take(t + 1)[t as int] == d);
                            lemma_graph_add_down_at(old(self)@, node, dv.take(t + 1), d);
                        }
                        assert(prev.down.contains_key(d) ==> prev.down[d] == seq_or_empty(old(self)@.down, d) + Seq::empty());
                        assert(self@.down[x] =~= target.down[x]);
                    } else {
                        let a = self.idx(x);
                        assert(self.ids@[a]@ == x);
                        assert(a != j);
                        assert(mid2@.down.contains_key(x));
                        assert(self@.down[x] == mid2@.down[x]);
                        assert(before@.down.contains_key(x));
                        assert(target.down[x] =~= prev.down[x]);
                    }
                }
                assert(self@.down =~= target.down);
            }
            t = t + 1;
        }
        proof {
            assert(dv.take(t as int) =~= dv);
        }
    }

    /// The key of slot `i`: the graph numbers every variable it knows,
    /// defined or only read.
    pub closed spec fn slot_key(&self, i: int) -> (NodeId, Seq<char>) {
        self.ids@[i]@
    }

    pub closed spec fn slot_count(&self) -> nat {
        self.ids@.len()
    }

    /// The slot keys name the known variables, each once.
    pub proof fn lemma_slots(&self)
        requires
            self.wf(),
        ensures
            self.slot_count() <= usize::MAX,
            forall|i: int, j: int|
                0 <= i < j < self.slot_count() ==> self.slot_key(i) != self.slot_key(j),
            forall|i: int|
                #![trigger self.slot_key(i)]
                0 <= i < self.slot_count() ==> self@.down.contains_key(self.slot_key(i)),
            forall|k: (NodeId, Seq<char>)|
                #![trigger self@.down.contains_key(k)]
                self@.down.contains_key(k) ==> exists|i: int|
                    0 <= i < self.slot_count() && self.slot_key(i) == k,
            forall|k: (NodeId, Seq<char>)|
                self@.vars.contains_key(k) ==> #[trigger] self@.down.contains_key(k),
            forall|k: (NodeId, Seq<char>)|
                #![trigger self@.up.contains_key(k)]
                self@.up.contains_key(k) == self@.vars.contains_key(k),
    {
        broadcast use vstd::std_specs::vec::axiom_spec_len;
        assert(self.ids@.len() == self.ids.len());
        self.lemma_view();
        assert forall|k: (NodeId, Seq<char>)| self@.vars.contains_key(k) implies #[trigger] self@.down.contains_key(k) by {
            let i = choose|i: int| 0 <= i < self.ids@.len() && self.ids@[i]@ == k;
            assert(self.ids@[i]@ == k);
        }
        assert forall|k: (NodeId, Seq<char>)| #![trigger self@.down.contains_key(k)] self@.down.contains_key(k) implies exists|i: int|
                    0 <= i < self.slot_count() && self.slot_key(i) == k by {
            let i = choose|i: int| 0 <= i < self.ids@.len() && self.ids@[i]@ == k;
            assert(self.slot_key(i) == k);
        }
    }

    /// Finitely many variables have an equation.
    pub proof fn lemma_vars_finite(&self)
        requires
            self.wf(),
        ensures
            self@.vars.dom().finite(),
    {
        broadcast use vstd::seq_lib::seq_to_set_is_finite;
        self.lemma_view();
        let all = views(self.ids@).to_set();
        assert forall|k| self@.vars.dom().contains(k) implies all.contains(k) by {
            let i = choose|i: int| 0 <= i < self.ids@.len() && self.ids@[i]@ == k;
            assert(views(self.ids@)[i] == k);
        }
        vstd::set_lib::lemma_len_subset(self@.vars.dom(), all);
    }

    pub(crate) fn slots(&self) -> (n: usize)
        ensures
            n == self.slot_count(),
    {
        self.ids.len()
    }

    pub(crate) fn slot_id(&self, i: usize) -> (r: &VarId)
        requires
            i < self.slot_count(),
        ensures
            r@ == self.slot_key(i as int),
    {
        &self.ids[i]
    }

    pub(crate) fn slot_defined(&self, i: usize) -> (b: bool)
        requires
            self.wf(),
            i < self.slot_count(),
        ensures
            b == self@.vars.contains_key(self.slot_key(i as int)),
    {
        proof {
            self.lemma_view();
        }
        self.nodes[i].is_some()
    }

    /// The slots slot `i` reads (empty when it has no equation).
    pub(crate) fn slot_up(&self, i: usize) -> (r: &Vec<usize>)
        requires
            self.wf(),
            i < self.slot_count(),
        ensures
            forall|j: int| 0 <= j < r@.len() ==> r@[j] < self.slot_count(),
            self@.vars.contains_key(self.slot_key(i as int)) ==> r@.map_values(
                |j: usize| self.slot_key(j as int),
            ) == self@.up[self.slot_key(i as int)],
            !self@.vars.contains_key(self.slot_key(i as int)) ==> r@.len() == 0,
    {
        proof {
            self.lemma_view();
            assert(self.ups@[i as int]@.map_values(|j: usize| self.slot_key(j as int)) =~= self.keys_of(self.ups@[i as int]@));
        }
        &self.ups[i]
    }

    /// The slots that read slot `i`.
    pub(crate) fn slot_down(&self, i: usize) -> (r: &Vec<usize>)
        requires
            self.wf(),
            i < self.slot_count(),
        ensures
            forall|j: int| 0 <= j < r@.len() ==> r@[j] < self.slot_count(),
            r@.map_values(|j: usize| self.slot_key(j as int)) == self@.down[self.slot_key(i as int)],
    {
        proof {
            self.lemma_view();
            assert(self.downs@[i as int]@.map_values(|j: usize| self.slot_key(j as int)) =~= self.keys_of(self.downs@[i as int]@));
        }
        &self.downs[i]
    }

    /// The variable `id` with its equation, if it has one.
    pub fn get_variable(&self, id: &VarId) -> (r: Option<&VariableNode>)
        requires
            self.wf(),
        ensures
            r is Some <==> self@.vars.contains_key(id@),
            r matches Some(n) ==> *n == self@.vars[id@],
    {
        proof {
            self.lemma_view();
        }
        match self.find(id) {
            Some(i) => {
                proof {
                    self.lemma_idx(i as int);
                }
                self.nodes[i].as_ref()
            },
            None => None,
        }
    }

    /// The variables `id` reads, in the order their edges were added, if `id`
    /// has an equation.
    pub fn upstream(&self, id: &VarId) -> (r: Option<Vec<VarId>>)
        requires
            self.wf(),
        ensures
            r is Some <==> self@.up.contains_key(id@),
            r matches Some(v) ==> views(v@) == self@.up[id@],
    {
        proof {
            self.lemma_view();
        }
        match self.find(id) {
            Some(i) => {
                if self.nodes[i].is_some() {
                    Some(self.ids_of(&self.ups[i]))
                } else {
                    None
                }
            },
            None => None,
        }
    }

    /// The variables that read `id`, in the order their edges were added, if
    /// the graph knows `id`.
    pub fn downstream(&self, id: &VarId) -> (r: Option<Vec<VarId>>)
        requires
            self.wf(),
        ensures
            r is Some <==> self@.down.contains_key(id@),
            r matches Some(v) ==> views(v@) == self@.down[id@],
    {
        proof {
            self.lemma_view();
        }
        match self.find(id) {
            Some(i) => Some(self.ids_of(&self.downs[i])),
            None => None,
        }
    }

    fn ids_of(&self, v: &Vec<usize>) -> (r: Vec<VarId>)
        requires
            self.wf(),
            forall|j: int| 0 <= j < v@.len() ==> v@[j] < self.ids@.len(),
        ensures
            views(r@) == self.keys_of(v@),
    {
        let mut r: Vec<VarId> = Vec::new();
        let mut t: usize = 0;
        while t < v.len()
            invariant
                self.wf(),
                forall|j: int| 0 <= j < v@.len() ==> v@[j] < self.ids@.len(),
                t <= v@.len(),
                views(r@) == self.keys_of(v@.take(t as int)),
            decreases v@.len() - t,
        {
            let ghost before = r@;
            r.push(self.ids[v[t]].duplicate());
            proof {
                assert(v@.take(t + 1) =~= v@.take(t as int).push(v@[t as int]));
                assert(views(r@) =~= views(before).push(self.ids@[v@[t as int] as int]@));
                assert(self.keys_of(v@.take(t + 1)) =~= self.keys_of(v@.take(t as int)).push(self.ids@[v@[t as int] as int]@));
            }
            t = t + 1;
        }
        assert(v@.take(t as int) =~= v@);
        r
    }

    /// How many variables `id` reads (with repetition).
    pub fn in_degree(&self, id: &VarId) -> (n: usize)
        requires
            self.wf(),
        ensures
            n == seq_or_empty(self@.up, id@).len(),
    {
        proof {
            self.lemma_view();
        }
        match self.find(id) {
            Some(i) => {
                if self.nodes[i].is_some() {
                    self.ups[i].len()
                } else {
                    0
                }
            },
            None => 0,
        }
    }

    /// How many variables read `id` (with repetition).
    pub fn out_degree(&self, id: &VarId) -> (n: usize)
        requires
            self.wf(),
        ensures
            n == seq_or_empty(self@.down, id@).len(),
    {
        proof {
            self.lemma_view();
        }
        match self.find(id) {
            Some(i) => self.downs[i].len(),
            None => 0,
        }
    }

    /// The variables with an equation, each once.
    pub fn variable_ids(&self) -> (r: Vec<VarId>)
        requires
            self.wf(),
        ensures
            views(r@).no_duplicates(),
            views(r@).to_set() == self@.vars.dom(),
    {
        proof {
            self.lemma_view();
        }
        let mut r: Vec<VarId> = Vec::new();
        let ghost mut src: Seq<int> = Seq::empty();
        let mut t: usize = 0;
        while t < self.ids.len()
            invariant
                self.wf(),
                t <= self.ids@.len(),
                src.len() == r@.len(),
                forall|a: int|
                    0 <= a < r@.len() ==> 0 <= #[trigger] src[a] < t && r@[a]@ == self.ids@[src[a]]@
                        && self.nodes@[src[a]] is Some,
                forall|a: int, c: int| 0 <= a < c < r@.len() ==> src[a] < src[c],
                forall|b: int|
                    0 <= b < t && self.nodes@[b] is Some ==> views(r@).contains(
                        #[trigger] self.ids@[b]@,
                    ),
            decreases self.ids@.len() - t,
        {
            if self.nodes[t].is_some() {
                let ghost before = r@;
                r.push(self.ids[t].duplicate());
                proof {
                    src = src.push(t as int);
                    assert forall|b: int| 0 <= b < t + 1 && self.nodes@[b] is Some implies views(r@).contains(#[trigger] self.ids@[b]@) by {
                        if b < t {
                            let a = choose|a: int| 0 <= a < views(before).len() && views(before)[a] == self.ids@[b]@;
                            assert(views(r@)[a] == self.ids@[b]@);
                        } else {
                            assert(views(r@)[before.len() as int] == self.ids@[b]@);
                        }
                    }
                }
            }
            t = t + 1;
        }
        proof {
            assert forall|a: int, c: int| 0 <= a < views(r@).len() && 0 <= c < views(r@).len() && a != c implies views(r@)[a] != views(r@)[c] by {
                if a < c {
                    assert(self.ids@[src[a]]@ != self.ids@[src[c]]@);
                } else {
                    assert(self.ids@[src[c]]@ != self.ids@[src[a]]@);
                }
            }
            assert forall|k| #[trigger] views(r@).to_set().contains(k) == self@.vars.dom().contains(k) by {
                if views(r@).to_set().contains(k) {
                    let a = choose|a: int| 0 <= a < views(r@).len() && views(r@)[a] == k;
                    assert(self.ids@[src[a]]@ == k);
                    self.lemma_idx(src[a]);
                }
                if self@.vars.dom().contains(k) {
                    let b = choose|b: int| 0 <= b < self.ids@.len() && self.ids@[b]@ == k;
                    self.lemma_idx(b);
                    assert(views(r@).contains(self.ids@[b]@));
                }
            }
            assert(views(r@).to_set() =~= self@.vars.dom());
        }
        r
    }

    /// How many variables have an equation.
    pub fn variable_count(&self) -> (n: usize)
        requires
            self.wf(),
        ensures
            n == self@.vars.dom().len(),
    {
        let v = self.variable_ids();
        proof {
            views(v@).unique_seq_to_set();
        }
        v.len()
    }
}


// ---------------------------------------------------------------------------
// Building the graph of an expanded document.
// ---------------------------------------------------------------------------

pub open spec fn empty_view() -> GraphView {
    GraphView { vars: Map::empty(), up: Map::empty(), down: Map::empty() }
}

/// The graph that defining `steps` in order builds.
pub open spec fn fold_add(steps: Seq<VariableNode>) -> GraphView
    decreases steps.len(),
{
    if steps.len() == 0 {
        empty_view()
    } else {
        graph_add(fold_add(steps.drop_last()), steps.last(), sorted_refs(steps.last().equation))
    }
}

/// The ports every node has: `x`, `y`, `z`, `width`, `height`.
pub open spec fn spatial_ports() -> Seq<Seq<char>> {
    seq!["x"@, "y"@, "z"@, "width"@, "height"@]
}

/// The names among `keys` that `m` lacks, in order.
pub open spec fn missing_keys(keys: Seq<Seq<char>>, m: Map<Seq<char>, Expr>) -> Seq<Seq<char>>
    decreases keys.len(),
{
    if keys.len() == 0 {
        Seq::empty()
    } else {
        missing_keys(keys.drop_last(), m) + if m.contains_key(keys.last()) {
            Seq::empty()
        } else {
            seq![keys.last()]
        }
    }
}

/// The ports of a node in the order the graph defines them: its own, then
/// the spatial ports it lacks.
pub open spec fn node_port_keys(n: ExpandedNode) -> Seq<Seq<char>> {
    n.ports.keys() + missing_keys(spatial_ports(), n.ports@)
}

/// A node sits at the top: it is a root, or its parent is absent or the
/// window.
pub open spec fn is_root_node(doc: ExpandedDocument, n: ExpandedNode) -> bool {
    doc.roots@.contains(n.id) || match n.parent {
        None => true,
        Some(p) => p.spec_is_window(),
    }
}

/// `e` is the equation the graph gives port `k` of node `n`: a copy of the
/// node's own equation, or the ambient default: a height of 24; for a top
/// node 0 for `x`, `y`, `z` and the window's width; for any other node the
/// parent's `x`, `y`, `z` and `width`.
pub open spec fn port_eq_ok(n: ExpandedNode, root: bool, k: Seq<char>, e: Expr) -> bool {
    if n.ports@.contains_key(k) {
        same_expr(n.ports@[k], e)
    } else if k == "height"@ {
        is_number(e, "24"@, n.span)
    } else if root && (k == "x"@ || k == "y"@ || k == "z"@) {
        is_number(e, "0"@, n.span)
    } else {
        let target = if root {
            window_name()
        } else {
            n.parent->Some_0.spec_canonical()
        };
        e matches Expr::MemberAccess(m) && is_named_ident(*m.target, target, n.span) && m.member.name@ == k
            && m.member.span == n.span && m.span == n.span
    }
}

/// `steps` define the ports of node `n`, in order.
pub open spec fn node_steps_ok(n: ExpandedNode, root: bool, steps: Seq<VariableNode>) -> bool {
    let keys = node_port_keys(n);
    &&& steps.len() == keys.len()
    &&& forall|i: int|
        0 <= i < steps.len() ==> #[trigger] steps[i].id@ == (n.id, keys[i]) && steps[i].span == n.span
            && port_eq_ok(n, root, keys[i], steps[i].equation)
}

/// `steps` define the ports of `nodes`, node after node.
pub open spec fn nodes_steps_ok(doc: ExpandedDocument, nodes: Seq<ExpandedNode>, steps: Seq<VariableNode>) -> bool
    decreases nodes.len(),
{
    if nodes.len() == 0 {
        steps.len() == 0
    } else {
        let n = nodes.last();
        let k = node_port_keys(n).len();
        &&& steps.len() >= k
        &&& nodes_steps_ok(doc, nodes.drop_last(), steps.take(steps.len() - k))
        &&& node_steps_ok(n, is_root_node(doc, n), steps.skip(steps.len() - k))
    }
}

/// `steps` define the window's ports (`x`, `y`, `z` at 0, then the given
/// width and height), then the ports of every node of `doc`.
pub open spec fn build_steps_ok(doc: ExpandedDocument, w: Seq<char>, h: Seq<char>, steps: Seq<VariableNode>) -> bool {
    let span0 = Span { start: 0, end: 0 };
    let win = NodeId(usize::MAX);
    &&& steps.len() >= 5
    &&& forall|i: int| 0 <= i < 5 ==> #[trigger] steps[i].id@ == (win, spatial_ports()[i]) && steps[i].span == span0
    &&& is_number(steps[0].equation, "0"@, span0)
    &&& is_number(steps[1].equation, "0"@, span0)
    &&& is_number(steps[2].equation, "0"@, span0)
    &&& is_number(steps[3].equation, w, span0)
    &&& is_number(steps[4].equation, h, span0)
    &&& nodes_steps_ok(doc, doc.nodes@, steps.skip(5))
}

/// The spatial port names are distinct.
proof fn lemma_spatial_distinct()
    ensures
        spatial_ports().no_duplicates(),
{
    reveal_strlit("x");
    reveal_strlit("y");
    reveal_strlit("z");
    reveal_strlit("width");
    reveal_strlit("height");
    let sp = spatial_ports();
    assert(sp[0][0] == 'x' && sp[1][0] == 'y' && sp[2][0] == 'z' && sp[3][0] == 'w' && sp[4][0] == 'h');
    assert forall|i: int, j: int| 0 <= i < j < sp.len() implies sp[i] != sp[j] by {
        if sp[i] == sp[j] {
            assert(sp[i][0] == sp[j][0]);
        }
    }
}

/// The names `missing_keys` picks are among `keys`, absent from `m`, and
/// distinct when `keys` are.
proof fn lemma_missing_keys_facts(keys: Seq<Seq<char>>, m: Map<Seq<char>, Expr>)
    requires
        keys.no_duplicates(),
    ensures
        missing_keys(keys, m).no_duplicates(),
        forall|i: int|
            0 <= i < missing_keys(keys, m).len() ==> keys.contains(#[trigger] missing_keys(keys, m)[i])
                && !m.contains_key(missing_keys(keys, m)[i]),
    decreases keys.len(),
{
    if keys.len() > 0 {
        let pre = keys.drop_last();
        lemma_missing_keys_facts(pre, m);
        let a = missing_keys(pre, m);
        let r = missing_keys(keys, m);
        assert forall|i: int| 0 <= i < a.len() implies keys.contains(#[trigger] a[i]) by {
            let j = choose|j: int| 0 <= j < pre.len() && pre[j] == a[i];
            assert(keys[j] == a[i]);
        }
        if !m.contains_key(keys.last()) {
            assert(r =~= a.push(keys.last()));
            assert forall|i: int| 0 <= i < a.len() implies #[trigger] a[i] != keys.last() by {
                let j = choose|j: int| 0 <= j < pre.len() && pre[j] == a[i];
                assert(keys[j] == a[i]);
            }
            assert(keys.contains(keys.last()) || keys[keys.len() - 1] == keys.last());
        } else {
            assert(r =~= a);
        }
    }
}

/// The ports a node defines in the graph are distinct names.
proof fn lemma_node_keys_distinct(n: ExpandedNode)
    requires
        n.ports.wf(),
    ensures
        node_port_keys(n).no_duplicates(),
{
    reveal_strlit("x");
    reveal_strlit("y");
    reveal_strlit("z");
    reveal_strlit("width");
    reveal_strlit("height");
    n.ports.lemma_keys_distinct();
    let own = n.ports.keys();
    let sp = spatial_ports();
    lemma_spatial_distinct();
    lemma_missing_keys_facts(sp, n.ports@);
    let miss = missing_keys(sp, n.ports@);
    let all = node_port_keys(n);
    assert(all == own + miss);
    assert forall|i: int, j: int| 0 <= i < j < all.len() implies all[i] != all[j] by {
        if j < own.len() {
        } else if i >= own.len() {
            assert(all[i] == miss[i - own.len()]);
            assert(all[j] == miss[j - own.len()]);
        } else {
            assert(all[j] == miss[j - own.len()]);
            assert(!n.ports@.contains_key(miss[j - own.len()]));
            n.ports.lemma_keys_view(own[i]);
            assert(own.contains(own[i]));
        }
    }
}

/// The steps that define the ports of `nodes` define distinct variables,
/// each of one of the nodes.
proof fn lemma_nodes_steps_distinct(doc: ExpandedDocument, nodes: Seq<ExpandedNode>, steps: Seq<VariableNode>)
    requires
        nodes_steps_ok(doc, nodes, steps),
        forall|i: int| 0 <= i < nodes.len() ==> (#[trigger] nodes[i]).ports.wf(),
        forall|i: int, j: int| 0 <= i < j < nodes.len() ==> nodes[i].id != nodes[j].id,
    ensures
        forall|i: int, j: int| 0 <= i < j < steps.len() ==> steps[i].id@ != steps[j].id@,
        forall|i: int| 0 <= i < steps.len() ==> exists|k: int| 0 <= k < nodes.len() && nodes[k].id == (#[trigger] steps[i]).id@.0,
    decreases nodes.len(),
{
    if nodes.len() > 0 {
        let n = nodes.last();
        let k = node_port_keys(n).len();
        let pre = steps.take(steps.len() - k);
        let block = steps.skip(steps.len() - k);
        let ln = nodes.len() - 1;
        lemma_nodes_steps_distinct(doc, nodes.drop_last(), pre);
        assert(nodes[ln] == n);
        lemma_node_keys_distinct(n);
        let keys = node_port_keys(n);
        assert forall|i: int| 0 <= i < steps.len() implies exists|q: int| 0 <= q < nodes.len() && nodes[q].id == (#[trigger] steps[i]).id@.0 by {
            if i < steps.len() - k {
                assert(steps[i] == pre[i]);
                let q = choose|q: int| 0 <= q < nodes.drop_last().len() && nodes.drop_last()[q].id == pre[i].id@.0;
                assert(nodes[q] == nodes.drop_last()[q]);
            } else {
                assert(steps[i] == block[i - (steps.len() - k)]);
                assert(block[i - (steps.len() - k)].id@ == (n.id, keys[i - (steps.len() - k)]));
            }
        }
        assert forall|i: int, j: int| 0 <= i < j < steps.len() implies steps[i].id@ != steps[j].id@ by {
            let b = steps.len() - k;
            if j < b {
                assert(steps[i] == pre[i] && steps[j] == pre[j]);
            } else if i >= b {
                assert(steps[i] == block[i - b] && steps[j] == block[j - b]);
                assert(block[i - b].id@ == (n.id, keys[i - b]));
                assert(block[j - b].id@ == (n.id, keys[j - b]));
            } else {
                assert(steps[i] == pre[i] && steps[j] == block[j - b]);
                assert(block[j - b].id@ == (n.id, keys[j - b]));
                let q = choose|q: int| 0 <= q < nodes.drop_last().len() && nodes.drop_last()[q].id == pre[i].id@.0;
                assert(nodes[q] == nodes.drop_last()[q]);
                assert(nodes[q].id != nodes[ln].id);
            }
        }
    }
}

/// In a graph built from an expanded document whose nodes carry distinct
/// ids, none of them the window's, the variables are exactly those the
/// build defines, and the upstream list of each is the dependencies of its
/// equation, in key order.
pub proof fn lemma_build_upstream(doc: ExpandedDocument, w: Seq<char>, h: Seq<char>, steps: Seq<VariableNode>)
    requires
        build_steps_ok(doc, w, h, steps),
        forall|i: int| 0 <= i < doc.nodes@.len() ==> (#[trigger] doc.nodes@[i]).ports.wf(),
        forall|i: int, j: int| 0 <= i < j < doc.nodes@.len() ==> doc.nodes@[i].id != doc.nodes@[j].id,
        forall|i: int| 0 <= i < doc.nodes@.len() ==> !(#[trigger] doc.nodes@[i]).id.spec_is_window(),
    ensures
        fold_add(steps).up.dom() == fold_add(steps).vars.dom(),
        forall|k: (NodeId, Seq<char>)| #[trigger] fold_add(steps).vars.contains_key(k) <==> exists|i: int|
            0 <= i < steps.len() && steps[i].id@ == k,
        forall|k: (NodeId, Seq<char>)|
            #[trigger] fold_add(steps).vars.contains_key(k) ==> fold_add(steps).up[k] == sorted_refs(
                fold_add(steps).vars[k].equation,
            ),
{
    reveal_strlit("x");
    reveal_strlit("y");
    reveal_strlit("z");
    reveal_strlit("width");
    reveal_strlit("height");
    let rest = steps.skip(5);
    lemma_nodes_steps_distinct(doc, doc.nodes@, rest);
    lemma_spatial_distinct();
    assert forall|i: int, j: int| 0 <= i < j < steps.len() implies steps[i].id@ != steps[j].id@ by {
        if j < 5 {
        } else if i >= 5 {
            assert(steps[i] == rest[i - 5] && steps[j] == rest[j - 5]);
        } else {
            assert(steps[j] == rest[j - 5]);
            let q = choose|q: int| 0 <= q < doc.nodes@.len() && doc.nodes@[q].id == (rest[j - 5]).id@.0;
            assert(!doc.nodes@[q].id.spec_is_window());
        }
    }
    lemma_fold_add_upstream(steps);
}

/// Every variable a step defines has an equation in the graph built from
/// the steps.
proof fn lemma_fold_add_defines(steps: Seq<VariableNode>, i: int)
    requires
        0 <= i < steps.len(),
    ensures
        fold_add(steps).vars.contains_key(steps[i].id@),
    decreases steps.len(),
{
    if i < steps.len() - 1 {
        lemma_fold_add_defines(steps.drop_last(), i);
        assert(steps.drop_last()[i] == steps[i]);
    }
}

/// A key of `keys` that `m` lacks is among the missing keys.
proof fn lemma_missing_keys_contains(keys: Seq<Seq<char>>, m: Map<Seq<char>, Expr>, k: Seq<char>)
    requires
        keys.contains(k),
        !m.contains_key(k),
    ensures
        missing_keys(keys, m).contains(k),
    decreases keys.len(),
{
    if keys.last() == k {
        let r = missing_keys(keys, m);
        assert(r[r.len() - 1] == k);
    } else {
        let j = choose|j: int| 0 <= j < keys.len() && keys[j] == k;
        assert(keys.drop_last()[j] == k);
        lemma_missing_keys_contains(keys.drop_last(), m, k);
        let r0 = missing_keys(keys.drop_last(), m);
        let j0 = choose|j: int| 0 <= j < r0.len() && r0[j] == k;
        assert(missing_keys(keys, m)[j0] == k);
    }
}

/// Each spatial port is among the ports the graph defines for a node.
proof fn lemma_spatial_in_keys(n: ExpandedNode, p: Seq<char>)
    requires
        spatial_ports().contains(p),
    ensures
        node_port_keys(n).contains(p),
{
    n.ports.lemma_keys_view(p);
    let keys = node_port_keys(n);
    if n.ports@.contains_key(p) {
        let j = choose|j: int| 0 <= j < n.ports.keys().len() && n.ports.keys()[j] == p;
        assert(keys[j] == p);
    } else {
        lemma_missing_keys_contains(spatial_ports(), n.ports@, p);
        let r = missing_keys(spatial_ports(), n.ports@);
        let j = choose|j: int| 0 <= j < r.len() && r[j] == p;
        assert(keys[n.ports.keys().len() + j] == p);
    }
}

/// Steps that define the ports of `nodes` define each port of each node.
proof fn lemma_nodes_steps_define(doc: ExpandedDocument, nodes: Seq<ExpandedNode>, steps: Seq<VariableNode>, k: int, key: Seq<char>)
    requires
        nodes_steps_ok(doc, nodes, steps),
        0 <= k < nodes.len(),
        node_port_keys(nodes[k]).contains(key),
    ensures
        exists|i: int| 0 <= i < steps.len() && #[trigger] steps[i].id@ == (nodes[k].id, key),
    decreases nodes.len(),
{
    let n = nodes.last();
    let kn = node_port_keys(n).len();
    let cut = steps.len() - kn;
    if k == nodes.len() - 1 {
        let keys = node_port_keys(n);
        let j = choose|j: int| 0 <= j < keys.len() && keys[j] == key;
        let tail = steps.skip(cut);
        assert(tail[j].id@ == (n.id, keys[j]));
        assert(steps[cut + j] == tail[j]);
    } else {
        assert(nodes.drop_last()[k] == nodes[k]);
        lemma_nodes_steps_define(doc, nodes.drop_last(), steps.take(cut), k, key);
        let head = steps.take(cut);
        let i = choose|i: int| 0 <= i < head.len() && #[trigger] head[i].id@ == (nodes[k].id, key);
        assert(steps[i] == head[i]);
    }
}

/// Every node of the document gets all five spatial ports (`x`, `y`, `z`,
/// `width`, `height`) as variables of the graph, whether its element sets
/// them or not.
pub proof fn lemma_spatial_ports_defined(
    doc: ExpandedDocument,
    w: Seq<char>,
    h: Seq<char>,
    steps: Seq<VariableNode>,
    k: int,
    p: Seq<char>,
)
    requires
        build_steps_ok(doc, w, h, steps),
        0 <= k < doc.nodes@.len(),
        spatial_ports().contains(p),
    ensures
        fold_add(steps).vars.contains_key((doc.nodes@[k].id, p)),
{
    lemma_spatial_in_keys(doc.nodes@[k], p);
    lemma_nodes_steps_define(doc, doc.nodes@, steps.skip(5), k, p);
    let tail = steps.skip(5);
    let i = choose|i: int| 0 <= i < tail.len() && #[trigger] tail[i].id@ == (doc.nodes@[k].id, p);
    assert(steps[i + 5] == tail[i]);
    lemma_fold_add_defines(steps, i + 5);
}

/// A graph built by defining variables in order records every edge at both
/// ends.
pub proof fn lemma_fold_add_mirror(steps: Seq<VariableNode>)
    ensures
        edges_mirror(fold_add(steps)),
    decreases steps.len(),
{
    if steps.len() > 0 {
        lemma_fold_add_mirror(steps.drop_last());
        lemma_graph_add_mirror(fold_add(steps.drop_last()), steps.last(), sorted_refs(steps.last().equation));
    }
}

/// Defining distinct variables one by one records upstream of each exactly
/// the variables its equation reads, and an upstream list only for defined
/// variables.
pub proof fn lemma_fold_add_upstream(steps: Seq<VariableNode>)
    requires
        forall|i: int, j: int| 0 <= i < j < steps.len() ==> steps[i].id@ != steps[j].id@,
    ensures
        fold_add(steps).up.dom() == fold_add(steps).vars.dom(),
        forall|k: (NodeId, Seq<char>)| #[trigger] fold_add(steps).vars.contains_key(k) <==> exists|i: int|
            0 <= i < steps.len() && steps[i].id@ == k,
        forall|k: (NodeId, Seq<char>)|
            #[trigger] fold_add(steps).vars.contains_key(k) ==> fold_add(steps).up[k] == sorted_refs(
                fold_add(steps).vars[k].equation,
            ),
    decreases steps.len(),
{
    let g = fold_add(steps);
    if steps.len() == 0 {
        assert(g.up.dom() =~= g.vars.dom());
    } else {
        let pre = steps.drop_last();
        lemma_fold_add_upstream(pre);
        let h = fold_add(pre);
        let n = steps.last();
        let k = n.id@;
        assert(!h.vars.contains_key(k)) by {
            if h.vars.contains_key(k) {
                let i = choose|i: int| 0 <= i < pre.len() && pre[i].id@ == k;
                assert(steps[i].id@ == steps[steps.len() - 1].id@);
            }
        }
        assert(g.up.dom() =~= g.vars.dom());
        assert forall|x: (NodeId, Seq<char>)| #[trigger] g.vars.contains_key(x) <==> exists|i: int|
            0 <= i < steps.len() && steps[i].id@ == x by {
            if g.vars.contains_key(x) && x != k {
                let i = choose|i: int| 0 <= i < pre.len() && pre[i].id@ == x;
                assert(steps[i] == pre[i]);
            }
            if exists|i: int| 0 <= i < steps.len() && steps[i].id@ == x {
                let i = choose|i: int| 0 <= i < steps.len() && steps[i].id@ == x;
                if i < pre.len() {
                    assert(pre[i] == steps[i]);
                }
            }
        }
        assert forall|x: (NodeId, Seq<char>)| #[trigger] g.vars.contains_key(x) implies g.up[x] == sorted_refs(
            g.vars[x].equation,
        ) by {
            if x == k {
                assert(seq_or_empty(h.up, k) == Seq::<(NodeId, Seq<char>)>::empty());
                assert(g.up[x] =~= sorted_refs(n.equation));
            }
        }
    }
}

/// Same trees read the same variables.
pub proof fn lemma_same_refs(a: Expr, b: Expr)
    requires
        same_expr(a, b),
    ensures
        expr_refs(a) == expr_refs(b),
    decreases a,
{
    match a {
        Expr::MemberAccess(m) => {
            let n = b->MemberAccess_0;
            lemma_same_refs(*m.target, *n.target);
        },
        Expr::Binary(x) => {
            let y = b->Binary_0;
            lemma_same_refs(*x.left, *y.left);
            lemma_same_refs(*x.right, *y.right);
        },
        Expr::Unary(x) => {
            lemma_same_refs(*x.operand, *b->Unary_0.operand);
        },
        Expr::Ternary(t) => {
            let u = b->Ternary_0;
            lemma_same_refs(*t.condition, *u.condition);
            lemma_same_refs(*t.then_expr, *u.then_expr);
            lemma_same_refs(*t.else_expr, *u.else_expr);
        },
        Expr::Call(c) => {
            lemma_same_args_refs(c.args@, b->Call_0.args@);
        },
        Expr::Paren(x, _) => {
            lemma_same_refs(*x, *b->Paren_0);
        },
        _ => {},
    }
}

pub proof fn lemma_same_args_refs(s: Seq<Expr>, t: Seq<Expr>)
    requires
        same_exprs(s, t),
    ensures
        args_refs(s) == args_refs(t),
    decreases s,
{
    if s.len() > 0 {
        lemma_same_args_refs(s.drop_last(), t.drop_last());
        lemma_same_refs(s.last(), t.last());
    }
}

/// Defines `id` by `eq`, recording the step.
fn define(graph: &mut VariableGraph, id: VarId, eq: Expr, span: Span, Ghost(steps): Ghost<Seq<VariableNode>>) -> (r: Ghost<Seq<VariableNode>>)
    requires
        old(graph).wf(),
        old(graph)@ == fold_add(steps),
    ensures
        final(graph).wf(),
        r@ == steps.push((VariableNode { id, equation: eq, span })),
        final(graph)@ == fold_add(r@),
{
    let ghost node = VariableNode { id, equation: eq, span };
    graph.add_variable(id, eq, span);
    proof {
        assert(steps.push(node).drop_last() =~= steps);
    }
    Ghost(steps.push(node))
}

/// The identifier `__window` followed by `.port`, all at `span`.
fn window_access(port: &str, span: Span) -> (e: Expr)
    ensures
        e matches Expr::MemberAccess(m) && is_named_ident(*m.target, window_name(), span) && m.member.name@
            == port@ && m.member.span == span && m.span == span,
{
    let name = NodeId::window().canonical_name();
    Expr::MemberAccess(
        MemberAccessExpr {
            target: Box::new(Expr::Ident(Ident { name, span })),
            member: Ident::new(port, span),
            span,
        },
    )
}

/// `node.port` at `span`.
fn node_access(node: NodeId, port: &str, span: Span) -> (e: Expr)
    ensures
        e matches Expr::MemberAccess(m) && is_named_ident(*m.target, node.spec_canonical(), span)
            && m.member.name@ == port@ && m.member.span == span && m.span == span,
{
    let name = node.canonical_name();
    Expr::MemberAccess(
        MemberAccessExpr {
            target: Box::new(Expr::Ident(Ident { name, span })),
            member: Ident::new(port, span),
            span,
        },
    )
}

/// A number literal with the digits of `text`.
fn number_text(text: &str, span: Span) -> (e: Expr)
    ensures
        is_number(e, text@, span),
{
    Expr::Literal(Literal::Number(text.to_owned(), span))
}

/// The entries of `cur` from `start` on define the first ports of `n`.
pub open spec fn block_ok(n: ExpandedNode, root: bool, keys: Seq<Seq<char>>, cur: Seq<VariableNode>, start: int) -> bool {
    forall|j: int|
        0 <= j < cur.len() - start ==> #[trigger] cur[start + j].id@ == (n.id, keys[j]) && cur[start + j].span
            == n.span && port_eq_ok(n, root, keys[j], cur[start + j].equation)
}

/// Defines every port of node `n`: its own equations, copied, then the
/// spatial ports it lacks with their defaults.
fn add_node_ports(graph: &mut VariableGraph, n: &ExpandedNode, root: bool, Ghost(steps): Ghost<Seq<VariableNode>>) -> (r: Ghost<Seq<VariableNode>>)
    requires
        old(graph).wf(),
        old(graph)@ == fold_add(steps),
        n.ports.wf(),
        !root ==> n.parent is Some,
    ensures
        final(graph).wf(),
        final(graph)@ == fold_add(r@),
        r@.len() >= steps.len(),
        r@.take(steps.len() as int) == steps,
        node_steps_ok(*n, root, r@.skip(steps.len() as int)),
{
    let ghost keys = node_port_keys(*n);
    let ghost mut cur = steps;
    let count = n.ports.len();
    let mut i: usize = 0;
    proof {
        assert(block_ok(*n, root, keys, cur, steps.len() as int));
    }
    while i < count
        invariant
            graph.wf(),
            graph@ == fold_add(cur),
            n.ports.wf(),
            count == n.ports.keys().len(),
            i <= count,
            cur.len() == steps.len() + i,
            cur.take(steps.len() as int) == steps,
            keys == node_port_keys(*n),
            block_ok(*n, root, keys, cur, steps.len() as int),
        decreases count - i,
    {
        let (name, expr) = n.ports.entry(i);
        let eq = crate::syntax_copy::copy_expr(expr);
        let id = VarId::new(n.id, name.as_str());
        let ghost before = cur;
        let Ghost(next) = define(graph, id, eq, n.span, Ghost(cur));
        proof {
            cur = next;
            assert(keys[i as int] == n.ports.keys()[i as int]);
            assert forall|j: int| 0 <= j < cur.len() - steps.len() implies #[trigger] cur[steps.len() + j].id@ == (n.id, keys[j]) && cur[steps.len() + j].span == n.span
                && port_eq_ok(*n, root, keys[j], cur[steps.len() + j].equation) by {
                if j < i {
                    assert(cur[steps.len() + j] == before[steps.len() + j]);
                    assert(before[steps.len() + j].id@ == (n.id, keys[j]));
                }
            }
            assert(block_ok(*n, root, keys, cur, steps.len() as int));
            assert(cur.take(steps.len() as int) =~= before.take(steps.len() as int));
        }
        i = i + 1;
    }
    let ghost own = cur.len();
    proof {
        assert(block_ok(*n, root, keys, cur, steps.len() as int));
    }
    let span = n.span;
    let mut missing_count: usize = 0;
    let names = ["x", "y", "z", "width", "height"];
    let mut d: usize = 0;
    proof {
        reveal_strlit("x");
        reveal_strlit("y");
        reveal_strlit("z");
        reveal_strlit("width");
        reveal_strlit("height");
        assert(spatial_ports().take(0) =~= Seq::<Seq<char>>::empty());
    }
    while d < 5
        invariant
            graph.wf(),
            graph@ == fold_add(cur),
            n.ports.wf(),
            d <= 5,
            names@ == seq!["x", "y", "z", "width", "height"],
            span == n.span,
            own == steps.len() + n.ports.keys().len(),
            cur.len() == own + missing_count,
            missing_count <= d,
            missing_count == missing_keys(spatial_ports().take(d as int), n.ports@).len(),
            cur.take(steps.len() as int) == steps,
            keys == node_port_keys(*n),
            block_ok(*n, root, keys, cur, steps.len() as int),
            keys.take(cur.len() - steps.len()) == n.ports.keys() + missing_keys(spatial_ports().take(d as int), n.ports@),
            !root ==> n.parent is Some,
        decreases 5 - d,
    {
        let name = names[d];
        proof {
            reveal_strlit("x");
            reveal_strlit("y");
            reveal_strlit("z");
            reveal_strlit("width");
            reveal_strlit("height");
            assert(name@ == spatial_ports()[d as int]);
            assert(spatial_ports().take(d + 1).drop_last() =~= spatial_ports().take(d as int));
        }
        if !n.ports.contains_key(name) {
            let eq = if d == 4 {
                number_text("24", span)
            } else if root {
                if d < 3 {
                    number_text("0", span)
                } else {
                    window_access(name, span)
                }
            } else {
                node_access(n.parent.unwrap(), name, span)
            };
            proof {
                assert(!n.ports@.contains_key(name@));
                if d == 4 {
                    assert(name@ == "height"@);
                    assert(is_number(eq, "24"@, n.span));
                } else {
                    assert(name@ != "height"@) by {
                        assert(name@.len() != 6 || name@[0] != 'h');
                    }
                    if d < 3 {
                        assert(name@ == "x"@ || name@ == "y"@ || name@ == "z"@);
                    } else {
                        assert(name@ == "width"@);
                        assert(name@.len() > 1);
                        assert(!(name@ == "x"@ || name@ == "y"@ || name@ == "z"@));
                    }
                }
                assert(port_eq_ok(*n, root, name@, eq));
            }
            let id = VarId::new(n.id, name);
            let ghost before = cur;
            let ghost eqg = eq;
            let ghost idg = id;
            let Ghost(next) = define(graph, id, eq, span, Ghost(cur));
            proof {
                cur = next;
                let a = missing_keys(spatial_ports().take(d as int), n.ports@);
                let b = missing_keys(spatial_ports().take(d + 1), n.ports@);
                let own_keys = n.ports.keys();
                assert(b =~= a.push(name@));
                lemma_missing_prefix(spatial_ports(), n.ports@, d + 1);
                lemma_missing_len(spatial_ports(), n.ports@, d + 1);
                let all = missing_keys(spatial_ports(), n.ports@);
                assert(all.take(b.len() as int) == b);
                assert(all[a.len() as int] == name@) by {
                    assert(all.take(b.len() as int)[a.len() as int] == b[a.len() as int]);
                }
                assert(keys =~= own_keys + all);
                let l = before.len() - steps.len();
                assert(l == own_keys.len() + a.len());
                assert(keys[l] == name@);
                assert(keys.take(l + 1) =~= own_keys + b) by {
                    assert forall|x: int| 0 <= x < l + 1 implies keys.take(l + 1)[x] == (own_keys + b)[x] by {
                        if x < own_keys.len() {
                        } else if x < l {
                            assert(keys.take(l)[x] == (own_keys + a)[x]);
                        }
                    }
                }
                assert forall|j: int| 0 <= j < cur.len() - steps.len() implies #[trigger] cur[steps.len() + j].id@ == (n.id, keys[j]) && cur[steps.len() + j].span == n.span
                    && port_eq_ok(*n, root, keys[j], cur[steps.len() + j].equation) by {
                    if j < before.len() - steps.len() {
                        assert(cur[steps.len() + j] == before[steps.len() + j]);
                        assert(before[steps.len() + j].id@ == (n.id, keys[j]));
                    } else {
                        assert(j == before.len() - steps.len());
                        assert(!n.ports@.contains_key(keys[j]));
                        assert(cur[steps.len() + j] == (VariableNode { id: idg, equation: eqg, span }));
                        assert(keys[j] == name@);
                        assert(port_eq_ok(*n, root, name@, eqg));
                    }
                }
                assert(cur.take(steps.len() as int) =~= before.take(steps.len() as int));
                assert(block_ok(*n, root, keys, cur, steps.len() as int));
            }
            missing_count = missing_count + 1;
        } else {
            proof {
                assert(missing_keys(spatial_ports().take(d + 1), n.ports@) =~= missing_keys(spatial_ports().take(d as int), n.ports@));
            }
        }
        d = d + 1;
    }
    proof {
        assert(spatial_ports().take(5) =~= spatial_ports());
        assert(keys.take(cur.len() - steps.len()) =~= keys);
        let block = cur.skip(steps.len() as int);
        assert forall|i: int| 0 <= i < block.len() implies #[trigger] block[i].id@ == (n.id, keys[i]) && block[i].span == n.span
            && port_eq_ok(*n, root, keys[i], block[i].equation) by {
            assert(block[i] == cur[steps.len() + i]);
        }
    }
    Ghost(cur)
}

/// The first `k` entries of the missing spatial ports come from the first
/// `k` spatial ports.
proof fn lemma_missing_prefix(keys: Seq<Seq<char>>, m: Map<Seq<char>, Expr>, k: int)
    requires
        0 <= k <= keys.len(),
    ensures
        missing_keys(keys, m).take(missing_keys(keys.take(k), m).len() as int) == missing_keys(keys.take(k), m),
    decreases keys.len(),
{
    if k < keys.len() {
        assert(keys.drop_last().take(k) =~= keys.take(k));
        lemma_missing_prefix(keys.drop_last(), m, k);
        let a = missing_keys(keys.drop_last(), m);
        let b = missing_keys(keys, m);
        assert(b.take(a.len() as int) =~= a);
        lemma_missing_len(keys.drop_last(), m, k);
        assert(b.take(missing_keys(keys.take(k), m).len() as int) =~= a.take(missing_keys(keys.take(k), m).len() as int));
    } else {
        assert(keys.take(k) =~= keys);
        assert(missing_keys(keys, m).take(missing_keys(keys, m).len() as int) =~= missing_keys(keys, m));
    }
}

proof fn lemma_missing_len(keys: Seq<Seq<char>>, m: Map<Seq<char>, Expr>, k: int)
    requires
        0 <= k <= keys.len(),
    ensures
        missing_keys(keys.take(k), m).len() <= missing_keys(keys, m).len(),
    decreases keys.len(),
{
    if k < keys.len() {
        assert(keys.drop_last().take(k) =~= keys.take(k));
        lemma_missing_len(keys.drop_last(), m, k);
    } else {
        assert(keys.take(k) =~= keys);
    }
}


/// Whether node `n` sits at the top of `doc`.
fn is_root(doc: &ExpandedDocument, n: &ExpandedNode) -> (b: bool)
    ensures
        b == is_root_node(*doc, *n),
{
    let mut i: usize = 0;
    while i < doc.roots.len()
        invariant
            i <= doc.roots@.len(),
            forall|j: int| 0 <= j < i ==> doc.roots@[j] != n.id,
        decreases doc.roots@.len() - i,
    {
        if doc.roots[i] == n.id {
            return true;
        }
        i = i + 1;
    }
    match n.parent {
        None => true,
        Some(p) => p.is_window(),
    }
}

/// Builds the layout graph of `doc` for a window of the given size (number
/// literals): the window's ports, then every port of every node, with
/// defaults for the spatial ports a node does not set.
pub fn build_variable_graph_with_window(
    doc: &ExpandedDocument,
    window_width: &str,
    window_height: &str,
) -> (r: Result<VariableGraph, CompileError>)
    ensures
        r matches Ok(g) && g.wf() && exists|steps: Seq<VariableNode>|
            build_steps_ok(*doc, window_width@, window_height@, steps) && g@ == fold_add(steps),
{
    let mut graph = VariableGraph::new();
    let span0 = Span { start: 0, end: 0 };
    let win = NodeId::window();
    proof {
        assert(graph@ =~= fold_add(Seq::empty()));
    }
    let Ghost(s1) = define(&mut graph, VarId::new(win, "x"), number_text("0", span0), span0, Ghost(Seq::empty()));
    let Ghost(s2) = define(&mut graph, VarId::new(win, "y"), number_text("0", span0), span0, Ghost(s1));
    let Ghost(s3) = define(&mut graph, VarId::new(win, "z"), number_text("0", span0), span0, Ghost(s2));
    let Ghost(s4) = define(&mut graph, VarId::new(win, "width"), number_text(window_width, span0), span0, Ghost(s3));
    let Ghost(s5) = define(&mut graph, VarId::new(win, "height"), number_text(window_height, span0), span0, Ghost(s4));
    let ghost window_steps = s5;
    proof {
        assert(window_steps.len() == 5);
        assert(window_steps.skip(5) =~= Seq::<VariableNode>::empty());
        assert(doc.nodes@.take(0) =~= Seq::<ExpandedNode>::empty());
    }
    let ghost mut steps = s5;
    let mut i: usize = 0;
    while i < doc.nodes.len()
        invariant
            graph.wf(),
            graph@ == fold_add(steps),
            i <= doc.nodes@.len(),
            steps.len() >= 5,
            steps.take(5) == window_steps,
            nodes_steps_ok(*doc, doc.nodes@.take(i as int), steps.skip(5)),
        decreases doc.nodes@.len() - i,
    {
        let n = &doc.nodes[i];
        proof {
            use_type_invariant(&n.ports);
        }
        let root = is_root(doc, n);
        let ghost before = steps;
        let Ghost(next) = add_node_ports(&mut graph, n, root, Ghost(steps));
        proof {
            steps = next;
            let k = node_port_keys(*n).len();
            let nodes = doc.nodes@.take(i + 1);
            assert(nodes.drop_last() =~= doc.nodes@.take(i as int));
            assert(nodes.last() == *n);
            let tail = steps.skip(5);
            assert(tail.len() >= k);
            assert(tail.take(tail.len() - k) =~= before.skip(5));
            assert(tail.skip(tail.len() - k) =~= steps.skip(before.len() as int));
            assert(steps.take(5) =~= before.take(5));
        }
        i = i + 1;
    }
    proof {
        assert(doc.nodes@.take(i as int) =~= doc.nodes@);
        assert(steps.take(5) == window_steps);
        assert forall|j: int| 0 <= j < 5 implies #[trigger] steps[j].id@ == (win, spatial_ports()[j]) && steps[j].span == span0 by {
            assert(steps[j] == window_steps[j]);
            reveal_strlit("x");
            reveal_strlit("y");
            reveal_strlit("z");
            reveal_strlit("width");
            reveal_strlit("height");
        }
        assert(steps[0] == window_steps[0]);
        assert(steps[1] == window_steps[1]);
        assert(steps[2] == window_steps[2]);
        assert(steps[3] == window_steps[3]);
        assert(steps[4] == window_steps[4]);
        assert(build_steps_ok(*doc, window_width@, window_height@, steps));
    }
    Ok(graph)
}

/// Builds the layout graph of `doc` for the default 800 by 600 window.
pub fn build_variable_graph(doc: &ExpandedDocument) -> (r: Result<VariableGraph, CompileError>)
    ensures
        r matches Ok(g) && g.wf() && exists|steps: Seq<VariableNode>|
            build_steps_ok(*doc, "800"@, "600"@, steps) && g@ == fold_add(steps),
{
    build_variable_graph_with_window(doc, "800", "600")
}

} // verus!
