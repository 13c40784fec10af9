use vstd::prelude::*;
use crate::ast::Expr;
use crate::chars::{
    lemma_parse_decimal_roundtrip, parse_usize, push_decimal, push_str, spec_decimal,
    spec_parse_usize, str_chars, string_from_chars,
};
use crate::compiler::ports::PortMap;
use crate::span::Span;

verus! {

/// A zero-based index for an expanded node in the layout tree.
#[derive(Debug, Clone, Copy, PartialEq, Eq, PartialOrd, Ord, Hash, Structural)]
pub struct NodeId(pub usize);

/// The text of `__window`.
pub open spec fn window_name() -> Seq<char> {
    "__window"@
}

/// The prefix `__node_` of the names of ordinary nodes.
pub open spec fn node_prefix() -> Seq<char> {
    "__node_"@
}

impl NodeId {
    /// The sentinel id of the ambient window that contains the roots.
    pub fn window() -> (w: NodeId)
        ensures
            w.spec_is_window(),
            w.0 == usize::MAX,
    {
        NodeId(usize::MAX)
    }

    pub open spec fn spec_is_window(&self) -> bool {
        self.0 == usize::MAX
    }

    #[verifier::when_used_as_spec(spec_is_window)]
    pub fn is_window(&self) -> (b: bool)
        ensures
            b == self.spec_is_window(),
    {
        self.0 == usize::MAX
    }

    /// `__window` for the window, `__node_N` for node `N`.
    pub open spec fn spec_canonical(&self) -> Seq<char> {
        if self.spec_is_window() {
            window_name()
        } else {
            node_prefix() + spec_decimal(self.0 as nat)
        }
    }

    /// Appends the canonical name to `out`.
    pub fn push_canonical(&self, out: &mut Vec<char>)
        ensures
            final(out)@ == old(out)@ + self.spec_canonical(),
    {
        if self.is_window() {
            push_str(out, "__window");
        } else {
            push_str(out, "__node_");
            push_decimal(out, self.0);
            assert(out@ =~= old(out)@ + self.spec_canonical());
        }
    }

    /// The name under which the node's ports appear in rewritten equations.
    pub fn canonical_name(&self) -> (s: String)
        ensures
            s@ == self.spec_canonical(),
    {
        let mut v: Vec<char> = Vec::new();
        self.push_canonical(&mut v);
        assert(v@ =~= self.spec_canonical());
        string_from_chars(v.as_slice())
    }

    /// The node a canonical name denotes: `__window` and `window` denote the
    /// window; `__node_` followed by what std's `usize::from_str` accepts
    /// denotes that node.
    pub open spec fn spec_from_canonical(name: Seq<char>) -> Option<NodeId> {
        if name == window_name() || name == "window"@ {
            Some(NodeId(usize::MAX))
        } else if name.len() >= node_prefix().len() && name.take(node_prefix().len() as int)
            == node_prefix() {
            match spec_parse_usize(name.skip(node_prefix().len() as int)) {
                Some(n) => Some(NodeId(n)),
                None => None,
            }
        } else {
            None
        }
    }

    pub fn from_canonical_name(name: &str) -> (r: Option<NodeId>)
        ensures
            r == NodeId::spec_from_canonical(name@),
    {
        let v = str_chars(name);
        from_canonical_chars(&v)
    }
}

/// `from_canonical_name` on characters.
pub fn from_canonical_chars(v: &Vec<char>) -> (r: Option<NodeId>)
    ensures
        r == NodeId::spec_from_canonical(v@),
{
    let w = str_chars("__window");
    let w2 = str_chars("window");
    if chars_eq(v, &w) || chars_eq(v, &w2) {
        return Some(NodeId(usize::MAX));
    }
    let p = str_chars("__node_");
    if v.len() >= p.len() && has_prefix(v, &p) {
        match parse_usize(v, p.len(), v.len()) {
            Some(n) => {
                assert(v@.subrange(p@.len() as int, v@.len() as int) =~= v@.skip(p@.len() as int));
                Some(NodeId(n))
            },
            None => {
                assert(v@.subrange(p@.len() as int, v@.len() as int) =~= v@.skip(p@.len() as int));
                None
            },
        }
    } else {
        None
    }
}

/// Whether two character vectors are equal.
pub fn chars_eq(a: &Vec<char>, b: &Vec<char>) -> (r: bool)
    ensures
        r == (a@ == b@),
{
    if a.len() != b.len() {
        return false;
    }
    let mut i: usize = 0;
    while i < a.len()
        invariant
            i <= a@.len(),
            a@.len() == b@.len(),
            forall|k: int| 0 <= k < i ==> a@[k] == b@[k],
        decreases a@.len() - i,
    {
        if a[i] != b[i] {
            return false;
        }
        i = i + 1;
    }
    assert(a@ =~= b@);
    true
}

/// Whether `p` is a prefix of `v`.
pub fn has_prefix(v: &Vec<char>, p: &Vec<char>) -> (r: bool)
    requires
        v@.len() >= p@.len(),
    ensures
        r == (v@.take(p@.len() as int) == p@),
{
    let mut i: usize = 0;
    while i < p.len()
        invariant
            i <= p@.len() <= v@.len(),
            forall|k: int| 0 <= k < i ==> v@[k] == p@[k],
        decreases p@.len() - i,
    {
        if v[i] != p[i] {
            assert(v@.take(p@.len() as int)[i as int] != p@[i as int]);
            return false;
        }
        i = i + 1;
    }
    assert(v@.take(p@.len() as int) =~= p@);
    true
}

/// Reading back a node's canonical name gives the node.
pub proof fn lemma_canonical_roundtrip(id: NodeId)
    ensures
        NodeId::spec_from_canonical(id.spec_canonical()) == Some(id),
{
    reveal_strlit("__window");
    reveal_strlit("window");
    reveal_strlit("__node_");
    if !id.spec_is_window() {
        let name = id.spec_canonical();
        assert(name.take(7) =~= node_prefix());
        assert(name.skip(7) =~= spec_decimal(id.0 as nat));
        lemma_parse_decimal_roundtrip(id.0);
        crate::chars::lemma_decimal_first_digit(id.0 as nat);
        assert(name != window_name()) by {
            assert(name[2] == 'n');
        }
        assert(name != "window"@) by {
            if name.len() == 6 {
                assert(name[0] == '_');
            }
        }
    }
}

/// Distinct nodes have distinct canonical names.
pub proof fn lemma_canonical_injective(a: NodeId, b: NodeId)
    requires
        a.spec_canonical() == b.spec_canonical(),
    ensures
        a == b,
{
    lemma_canonical_roundtrip(a);
    lemma_canonical_roundtrip(b);
}


/// An expanded layout element: its identity, place in the tree, port
/// equations and text.
#[derive(Debug, PartialEq)]
pub struct ExpandedNode {
    pub id: NodeId,
    pub name: String,
    pub parent: Option<NodeId>,
    pub prev_sibling: Option<NodeId>,
    pub children: Vec<NodeId>,
    pub ports: PortMap,
    pub text_content: Option<String>,
    pub span: Span,
}

impl ExpandedNode {
    pub fn new(id: NodeId, name: &str, span: Span) -> (n: ExpandedNode)
        ensures
            n.id == id,
            n.name@ == name@,
            n.parent is None,
            n.prev_sibling is None,
            n.children@.len() == 0,
            n.ports.wf(),
            n.ports@ == Map::<Seq<char>, Expr>::empty(),
            n.text_content is None,
            n.span == span,
    {
        ExpandedNode {
            id,
            name: name.to_owned(),
            parent: None,
            prev_sibling: None,
            children: Vec::new(),
            ports: PortMap::new(),
            text_content: None,
            span,
        }
    }

    /// Whether the node paints something itself: a `Rect` or a node with text.
    pub fn is_paint_primitive(&self) -> (b: bool)
        ensures
            b == (self.name@ == "Rect"@ || self.text_content is Some),
    {
        crate::chars::str_eq(self.name.as_str(), "Rect") || self.text_content.is_some()
    }
}

/// All expanded nodes of a document, numbered by their position, and the
/// top-level nodes.
#[derive(Debug, PartialEq)]
pub struct ExpandedDocument {
    pub nodes: Vec<ExpandedNode>,
    pub roots: Vec<NodeId>,
}

impl ExpandedDocument {
    pub fn new() -> (d: ExpandedDocument)
        ensures
            d.nodes@.len() == 0,
            d.roots@.len() == 0,
    {
        ExpandedDocument { nodes: Vec::new(), roots: Vec::new() }
    }

    pub fn get_node(&self, id: NodeId) -> (r: Option<&ExpandedNode>)
        ensures
            r is Some <==> id.0 < self.nodes@.len(),
            r matches Some(n) ==> *n == self.nodes@[id.0 as int],
    {
        if id.0 < self.nodes.len() {
            Some(&self.nodes[id.0])
        } else {
            None
        }
    }
}

impl ExpandedDocument {
    pub fn get_node_mut(&mut self, id: NodeId) -> (r: Option<&mut ExpandedNode>)
        ensures
            r is Some <==> id.0 < old(self).nodes@.len(),
            r matches Some(n) ==> *n == old(self).nodes@[id.0 as int] && final(self).nodes@
                == old(self).nodes@.update(id.0 as int, *final(n)) && final(self).roots
                == old(self).roots,
            r is None ==> *final(self) == *old(self),
    {
        if id.0 < self.nodes.len() {
            Some(&mut self.nodes[id.0])
        } else {
            None
        }
    }
}

impl Default for ExpandedDocument {
    fn default() -> (d: ExpandedDocument)
        ensures
            d.nodes@.len() == 0,
            d.roots@.len() == 0,
    {
        ExpandedDocument::new()
    }
}

} // verus!
