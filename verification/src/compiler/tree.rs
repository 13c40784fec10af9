use vstd::prelude::*;
use crate::ast::{ComponentBodyItem, ContentItem, Document, ElementNode, Item, PortBinding};
use crate::compiler::expand::{
    doc_registry, expansion_fuel, expansion_terminates, roots_ok, body_ok, comp_lookup, document_model, elem_height, elem_ok, expand_body, items_ok, expand_content, expand_elem, expand_roots,
    expand_wired, items_height, lemma_items_height, lemma_items_height_skip, NodeModel,
};
use crate::compiler::expanded::{ExpandedNode, NodeId};
use crate::compiler::expand::{node_matches, nodes_match};
use crate::ast::ComponentDef;

verus! {

/// The id of the node numbered `n`.
pub open spec fn nid(n: int) -> NodeId {
    NodeId(#[verifier::truncate] (n as usize))
}

/// Child `c` of node `j` of `ms` (numbered from `base`) is a later node of
/// `ms` whose parent is node `j`.
pub open spec fn child_at(ms: Seq<NodeModel>, base: int, j: int, c: int) -> bool {
    exists|k: int| j < k < ms.len() && ms[j].children[c] == nid(base + k) && ms[k].parent == Some(nid(base + j))
}

/// Numbering `ms` from `base`, every child that a node lists is a later node
/// whose parent is that node.
pub open spec fn children_point_back(ms: Seq<NodeModel>, base: int) -> bool {
    forall|j: int, c: int| 0 <= j < ms.len() && 0 <= c < ms[j].children.len() ==> #[trigger] child_at(ms, base, j, c)
}

/// `x` is a node of `ms` (numbered from `base`) whose parent is `p`.
pub open spec fn id_at(ms: Seq<NodeModel>, base: int, x: NodeId, p: NodeId) -> bool {
    exists|k: int| 0 <= k < ms.len() && x == nid(base + k) && ms[k].parent == Some(p)
}

/// Every id of `ids` names a node of `ms` (numbered from `base`) whose parent
/// is `p`.
pub open spec fn ids_point_to(ms: Seq<NodeModel>, base: int, ids: Seq<NodeId>, p: NodeId) -> bool {
    forall|i: int| 0 <= i < ids.len() ==> #[trigger] id_at(ms, base, ids[i], p)
}

proof fn lemma_concat(a: Seq<NodeModel>, b: Seq<NodeModel>, base: int)
    requires
        children_point_back(a, base),
        children_point_back(b, base + a.len()),
    ensures
        children_point_back(a + b, base),
{
    let ab = a + b;
    assert forall|j: int, c: int| 0 <= j < ab.len() && 0 <= c < ab[j].children.len() implies #[trigger] child_at(
        ab,
        base,
        j,
        c,
    ) by {
        if j < a.len() {
            assert(child_at(a, base, j, c));
            let k = choose|k: int| j < k < a.len() && a[j].children[c] == nid(base + k) && a[k].parent == Some(nid(base + j));
            assert(ab[k] == a[k]);
        } else {
            let j2 = j - a.len();
            assert(ab[j] == b[j2]);
            assert(child_at(b, base + a.len(), j2, c));
            let k = choose|k: int|
                j2 < k < b.len() && b[j2].children[c] == nid(base + a.len() + k) && b[k].parent == Some(
                    nid(base + a.len() + j2),
                );
            assert(ab[a.len() + k] == b[k]);
            assert(base + a.len() + k == base + (a.len() + k));
        }
    }
}

proof fn lemma_ids_concat(a: Seq<NodeModel>, b: Seq<NodeModel>, base: int, x: Seq<NodeId>, y: Seq<NodeId>, p: NodeId)
    requires
        ids_point_to(a, base, x, p),
        ids_point_to(b, base + a.len(), y, p),
    ensures
        ids_point_to(a + b, base, x + y, p),
        ids_point_to(a + b, base, y, p),
{
    let ab = a + b;
    assert forall|i: int| 0 <= i < y.len() implies #[trigger] id_at(ab, base, y[i], p) by {
        assert(id_at(b, base + a.len(), y[i], p));
        let k = choose|k: int| 0 <= k < b.len() && y[i] == nid(base + a.len() + k) && b[k].parent == Some(p);
        assert(ab[a.len() + k] == b[k]);
        assert(base + a.len() + k == base + (a.len() + k));
    }
    assert forall|i: int| 0 <= i < (x + y).len() implies #[trigger] id_at(ab, base, (x + y)[i], p) by {
        if i < x.len() {
            assert((x + y)[i] == x[i]);
            assert(id_at(a, base, x[i], p));
            let k = choose|k: int| 0 <= k < a.len() && x[i] == nid(base + k) && a[k].parent == Some(p);
            assert(ab[k] == a[k]);
        } else {
            assert((x + y)[i] == y[i - x.len()]);
            assert(id_at(ab, base, y[i - x.len()], p));
        }
    }
}

/// An expanded element: its first node has the given parent, and its nodes
/// point back to the nodes that list them as children.
pub proof fn lemma_elem_tree(
    reg: Seq<ComponentDef>,
    e: ElementNode,
    ports: Seq<PortBinding>,
    base: nat,
    parent: Option<NodeId>,
    prev: Option<NodeId>,
    pports: Set<Seq<char>>,
    fuel: nat,
)
    requires
        elem_ok(reg, e, fuel),
    ensures
        children_point_back(expand_elem(reg, e, ports, base, parent, prev, pports, fuel), base as int),
        expand_elem(reg, e, ports, base, parent, prev, pports, fuel).len() > 0 ==> expand_elem(
            reg,
            e,
            ports,
            base,
            parent,
            prev,
            pports,
            fuel,
        )[0].parent == parent,
    decreases fuel, elem_height(e), 3nat, 0nat,
{
    let ms = expand_elem(reg, e, ports, base, parent, prev, pports, fuel);
    let id = nid(base as int);
    match comp_lookup(reg, e.name.name@) {
        Some(c) => {
            if fuel > 0 {
                let r = expand_body(reg, c.body@, e, base + 1, id, None, crate::compiler::expand::comp_scope(c, ports), fuel);
                lemma_body_tree(reg, c.body@, e, base + 1, id, None, crate::compiler::expand::comp_scope(c, ports), fuel);
                assert(ms.drop_first() =~= r.0);
                lemma_root(ms, r.0, r.1, base as int);
            }
        },
        None => {
            match e.content {
                Some(cs) => {
                    let r = expand_content(reg, cs.items@, base + 1, id, None, pports, fuel);
                    lemma_content_tree(reg, cs.items@, base + 1, id, None, pports, fuel);
                    assert(ms.drop_first() =~= r.0);
                    lemma_root(ms, r.0, r.1, base as int);
                },
                None => {
                    assert(ms.len() == 1);
                    assert(ms[0].children.len() == 0);
                },
            }
        },
    }
}

/// A node followed by the nodes under it, whose ids are its children.
proof fn lemma_root(ms: Seq<NodeModel>, sub: Seq<NodeModel>, ids: Seq<NodeId>, base: int)
    requires
        ms.len() == sub.len() + 1,
        ms.drop_first() == sub,
        ms[0].children == ids,
        children_point_back(sub, base + 1),
        ids_point_to(sub, base + 1, ids, nid(base)),
    ensures
        children_point_back(ms, base),
{
    assert forall|j: int, c: int| 0 <= j < ms.len() && 0 <= c < ms[j].children.len() implies #[trigger] child_at(
        ms,
        base,
        j,
        c,
    ) by {
        if j == 0 {
            assert(id_at(sub, base + 1, ids[c], nid(base)));
            let k = choose|k: int| 0 <= k < sub.len() && ids[c] == nid(base + 1 + k) && sub[k].parent == Some(nid(base));
            assert(ms[k + 1] == sub[k]);
            assert(base + 1 + k == base + (k + 1));
            assert(base + 0 == base);
        } else {
            assert(ms[j] == sub[j - 1]);
            assert(child_at(sub, base + 1, j - 1, c));
            let k = choose|k: int|
                j - 1 < k < sub.len() && sub[j - 1].children[c] == nid(base + 1 + k) && sub[k].parent == Some(
                    nid(base + 1 + (j - 1)),
                );
            assert(ms[k + 1] == sub[k]);
            assert(base + 1 + k == base + (k + 1));
            assert(base + 1 + (j - 1) == base + j);
        }
    }
}

pub proof fn lemma_content_tree(
    reg: Seq<ComponentDef>,
    items: Seq<ContentItem>,
    base: nat,
    pid: NodeId,
    last: Option<NodeId>,
    pports: Set<Seq<char>>,
    fuel: nat,
)
    requires
        items_ok(reg, items, fuel),
    ensures
        children_point_back(expand_content(reg, items, base, pid, last, pports, fuel).0, base as int),
        ids_point_to(
            expand_content(reg, items, base, pid, last, pports, fuel).0,
            base as int,
            expand_content(reg, items, base, pid, last, pports, fuel).1,
            pid,
        ),
    decreases fuel, items_height(items), 1nat, items.len(),
{
    if items.len() > 0 {
        lemma_items_height_skip(items);
        match items[0] {
            ContentItem::Node(k) => {
                lemma_items_height(items, 0);
                let sub = expand_elem(reg, k, k.ports@, base, Some(pid), last, pports, fuel);
                lemma_elem_tree(reg, k, k.ports@, base, Some(pid), last, pports, fuel);
                let next = Some(nid(base as int));
                lemma_content_tree(reg, items.skip(1), base + sub.len(), pid, next, pports, fuel);
                let rest = expand_content(reg, items.skip(1), base + sub.len(), pid, next, pports, fuel);
                lemma_concat(sub, rest.0, base as int);
                lemma_elem_nonempty(reg, k, k.ports@, base, Some(pid), last, pports, fuel);
                {
                    assert(id_at(sub, base as int, nid(base as int), pid)) by {
                        assert(nid(base as int) == nid(base as int + 0));
                    }
                    let one = seq![nid(base as int)];
                    assert(ids_point_to(sub, base as int, one, pid)) by {
                        assert forall|i: int| 0 <= i < one.len() implies #[trigger] id_at(sub, base as int, one[i], pid) by {}
                    }
                    lemma_ids_concat(sub, rest.0, base as int, one, rest.1, pid);
                }
            },
            _ => {
                lemma_content_tree(reg, items.skip(1), base, pid, last, pports, fuel);
            },
        }
    }
}

pub proof fn lemma_wired_tree(
    reg: Seq<ComponentDef>,
    ambient: Seq<PortBinding>,
    items: Seq<ContentItem>,
    base: nat,
    cid: NodeId,
    last: Option<NodeId>,
    scope: Set<Seq<char>>,
    fuel: nat,
)
    requires
        items_ok(reg, items, fuel),
    ensures
        children_point_back(expand_wired(reg, ambient, items, base, cid, last, scope, fuel).0, base as int),
        ids_point_to(
            expand_wired(reg, ambient, items, base, cid, last, scope, fuel).0,
            base as int,
            expand_wired(reg, ambient, items, base, cid, last, scope, fuel).1,
            cid,
        ),
    decreases fuel, items_height(items), 1nat, items.len(),
{
    if items.len() > 0 {
        lemma_items_height_skip(items);
        match items[0] {
            ContentItem::Node(k) => {
                lemma_items_height(items, 0);
                let sub = expand_elem(reg, k, ambient + k.ports@, base, Some(cid), last, scope, fuel);
                lemma_elem_tree(reg, k, ambient + k.ports@, base, Some(cid), last, scope, fuel);
                let next = Some(nid(base as int));
                lemma_wired_tree(reg, ambient, items.skip(1), base + sub.len(), cid, next, scope, fuel);
                let rest = expand_wired(reg, ambient, items.skip(1), base + sub.len(), cid, next, scope, fuel);
                lemma_concat(sub, rest.0, base as int);
                lemma_elem_nonempty(reg, k, ambient + k.ports@, base, Some(cid), last, scope, fuel);
                {
                    assert(id_at(sub, base as int, nid(base as int), cid)) by {
                        assert(nid(base as int) == nid(base as int + 0));
                    }
                    let one = seq![nid(base as int)];
                    assert(ids_point_to(sub, base as int, one, cid)) by {
                        assert forall|i: int| 0 <= i < one.len() implies #[trigger] id_at(sub, base as int, one[i], cid) by {}
                    }
                    lemma_ids_concat(sub, rest.0, base as int, one, rest.1, cid);
                }
            },
            _ => {
                lemma_wired_tree(reg, ambient, items.skip(1), base, cid, last, scope, fuel);
            },
        }
    }
}

pub proof fn lemma_body_tree(
    reg: Seq<ComponentDef>,
    body: Seq<ComponentBodyItem>,
    e: ElementNode,
    base: nat,
    cid: NodeId,
    last: Option<NodeId>,
    scope: Set<Seq<char>>,
    fuel: nat,
)
    requires
        fuel > 0 ==> body_ok(reg, body, (fuel - 1) as nat),
        match e.content {
            Some(c) => items_ok(reg, c.items@, fuel),
            None => true,
        },
    ensures
        children_point_back(expand_body(reg, body, e, base, cid, last, scope, fuel).0, base as int),
        ids_point_to(
            expand_body(reg, body, e, base, cid, last, scope, fuel).0,
            base as int,
            expand_body(reg, body, e, base, cid, last, scope, fuel).1,
            cid,
        ),
    decreases fuel, elem_height(e), 2nat, body.len(),
{
    if body.len() > 0 && fuel > 0 {
        match body[0] {
            ComponentBodyItem::Node(b) => {
                let f1 = (fuel - 1) as nat;
                let sub = expand_elem(reg, b, b.ports@, base, Some(cid), last, scope, f1);
                lemma_elem_tree(reg, b, b.ports@, base, Some(cid), last, scope, f1);
                let next = Some(nid(base as int));
                lemma_body_tree(reg, body.skip(1), e, base + sub.len(), cid, next, scope, fuel);
                let rest = expand_body(reg, body.skip(1), e, base + sub.len(), cid, next, scope, fuel);
                lemma_concat(sub, rest.0, base as int);
                lemma_elem_nonempty(reg, b, b.ports@, base, Some(cid), last, scope, f1);
                {
                    assert(id_at(sub, base as int, nid(base as int), cid)) by {
                        assert(nid(base as int) == nid(base as int + 0));
                    }
                    let one = seq![nid(base as int)];
                    assert(ids_point_to(sub, base as int, one, cid)) by {
                        assert forall|i: int| 0 <= i < one.len() implies #[trigger] id_at(sub, base as int, one[i], cid) by {}
                    }
                    lemma_ids_concat(sub, rest.0, base as int, one, rest.1, cid);
                }
            },
            ComponentBodyItem::Children(d) => {
                let w = match e.content {
                    Some(cs) => expand_wired(reg, d.ports@, cs.items@, base, cid, last, scope, fuel),
                    None => (Seq::empty(), Seq::empty()),
                };
                match e.content {
                    Some(cs) => {
                        lemma_wired_tree(reg, d.ports@, cs.items@, base, cid, last, scope, fuel);
                    },
                    None => {},
                }
                let next = if w.1.len() > 0 {
                    Some(w.1.last())
                } else {
                    last
                };
                lemma_body_tree(reg, body.skip(1), e, base + w.0.len(), cid, next, scope, fuel);
                let rest = expand_body(reg, body.skip(1), e, base + w.0.len(), cid, next, scope, fuel);
                lemma_concat(w.0, rest.0, base as int);
                lemma_ids_concat(w.0, rest.0, base as int, w.1, rest.1, cid);
            },
            _ => {
                lemma_body_tree(reg, body.skip(1), e, base, cid, last, scope, fuel);
            },
        }
    }
}

proof fn lemma_roots_tree(reg: Seq<ComponentDef>, items: Seq<Item>, base: nat, fuel: nat)
    requires
        roots_ok(reg, items, fuel),
    ensures
        children_point_back(expand_roots(reg, items, base, fuel).0, base as int),
        ids_point_to(expand_roots(reg, items, base, fuel).0, base as int, expand_roots(reg, items, base, fuel).1, NodeId(usize::MAX)),
    decreases items.len(),
{
    if items.len() > 0 {
        assert(roots_ok(reg, items.skip(1), fuel)) by {
            assert forall|i: int| 0 <= i < items.skip(1).len() && items.skip(1)[i] is Node implies elem_ok(
                reg,
                #[trigger] items.skip(1)[i]->Node_0,
                fuel,
            ) by {
                assert(items.skip(1)[i] == items[i + 1]);
            }
        }
        match items[0] {
            Item::Node(n) => {
                let w = Some(NodeId(usize::MAX));
                assert(elem_ok(reg, items[0]->Node_0, fuel));
                let sub = expand_elem(reg, n, n.ports@, base, w, None, Set::empty(), fuel);
                lemma_elem_tree(reg, n, n.ports@, base, w, None, Set::empty(), fuel);
                lemma_elem_nonempty(reg, n, n.ports@, base, w, None, Set::empty(), fuel);
                lemma_roots_tree(reg, items.skip(1), base + sub.len(), fuel);
                let rest = expand_roots(reg, items.skip(1), base + sub.len(), fuel);
                lemma_concat(sub, rest.0, base as int);
                assert(id_at(sub, base as int, nid(base as int), NodeId(usize::MAX))) by {
                    assert(nid(base as int) == nid(base as int + 0));
                }
                let one = seq![nid(base as int)];
                assert(ids_point_to(sub, base as int, one, NodeId(usize::MAX))) by {
                    assert forall|i: int| 0 <= i < one.len() implies #[trigger] id_at(sub, base as int, one[i], NodeId(usize::MAX)) by {}
                }
                lemma_ids_concat(sub, rest.0, base as int, one, rest.1, NodeId(usize::MAX));
            },
            _ => {
                lemma_roots_tree(reg, items.skip(1), base, fuel);
            },
        }
    }
}

/// In an expanded document, every child that a node lists is a later node
/// whose parent is that node, and every top-level element's node has the
/// window as its parent.
pub proof fn lemma_document_tree(doc: Document)
    requires
        expansion_terminates(doc),
    ensures
        children_point_back(document_model(doc).0, 0),
        ids_point_to(document_model(doc).0, 0, document_model(doc).1, NodeId(usize::MAX)),
{
    lemma_roots_tree(doc_registry(doc.items@), doc.items@, 0, expansion_fuel(doc));
}

/// An element that expands at all yields its own node first.
proof fn lemma_elem_nonempty(
    reg: Seq<ComponentDef>,
    e: ElementNode,
    ports: Seq<PortBinding>,
    base: nat,
    parent: Option<NodeId>,
    prev: Option<NodeId>,
    pports: Set<Seq<char>>,
    fuel: nat,
)
    requires
        elem_ok(reg, e, fuel),
    ensures
        expand_elem(reg, e, ports, base, parent, prev, pports, fuel).len() > 0,
{
}

/// `x` is a node of `ms` (numbered from `base`) whose parent is `p` and
/// whose previous sibling is `want`.
pub open spec fn sib_at(ms: Seq<NodeModel>, base: int, x: NodeId, p: NodeId, want: Option<NodeId>) -> bool {
    exists|k: int| 0 <= k < ms.len() && x == nid(base + k) && ms[k].parent == Some(p) && ms[k].prev == want
}

/// The ids `ids` name nodes of `ms` (numbered from `base`) under `p`, each
/// with the one before it as its previous sibling, the first with `first`.
pub open spec fn ids_chained(ms: Seq<NodeModel>, base: int, ids: Seq<NodeId>, p: NodeId, first: Option<NodeId>) -> bool {
    forall|i: int| 0 <= i < ids.len() ==> #[trigger] sib_at(ms, base, ids[i], p, prev_of(ids, i, first))
}

/// The previous sibling of the `i`-th of `ids`: the one before it, or
/// `first` for the first.
pub open spec fn prev_of(ids: Seq<NodeId>, i: int, first: Option<NodeId>) -> Option<NodeId> {
    if i == 0 {
        first
    } else {
        Some(ids[i - 1])
    }
}

/// Child `c` of node `j` is a later node under node `j` whose previous
/// sibling is the child listed before it, if any.
pub open spec fn sib_child_at(ms: Seq<NodeModel>, base: int, j: int, c: int) -> bool {
    exists|k: int|
        j < k < ms.len() && ms[j].children[c] == nid(base + k) && ms[k].parent == Some(nid(base + j)) && ms[k].prev
            == if c == 0 {
            None
        } else {
            Some(ms[j].children[c - 1])
        }
}

/// Numbering `ms` from `base`, the children every node lists are chained
/// under it in order.
pub open spec fn children_chained(ms: Seq<NodeModel>, base: int) -> bool {
    forall|j: int, c: int| 0 <= j < ms.len() && 0 <= c < ms[j].children.len() ==> #[trigger] sib_child_at(ms, base, j, c)
}

proof fn lemma_chain_concat(a: Seq<NodeModel>, b: Seq<NodeModel>, base: int)
    requires
        children_chained(a, base),
        children_chained(b, base + a.len()),
    ensures
        children_chained(a + b, base),
{
    let ab = a + b;
    assert forall|j: int, c: int| 0 <= j < ab.len() && 0 <= c < ab[j].children.len() implies #[trigger] sib_child_at(
        ab,
        base,
        j,
        c,
    ) by {
        if j < a.len() {
            assert(sib_child_at(a, base, j, c));
            let k = choose|k: int|
                j < k < a.len() && a[j].children[c] == nid(base + k) && a[k].parent == Some(nid(base + j)) && a[k].prev
                    == if c == 0 {
                    None
                } else {
                    Some(a[j].children[c - 1])
                };
            assert(ab[k] == a[k]);
        } else {
            let j2 = j - a.len();
            assert(ab[j] == b[j2]);
            assert(sib_child_at(b, base + a.len(), j2, c));
            let k = choose|k: int|
                j2 < k < b.len() && b[j2].children[c] == nid(base + a.len() + k) && b[k].parent == Some(
                    nid(base + a.len() + j2),
                ) && b[k].prev == if c == 0 {
                    None
                } else {
                    Some(b[j2].children[c - 1])
                };
            assert(ab[a.len() + k] == b[k]);
            assert(base + a.len() + k == base + (a.len() + k));
        }
    }
}

proof fn lemma_ids_chain_concat(
    a: Seq<NodeModel>,
    b: Seq<NodeModel>,
    base: int,
    x: Seq<NodeId>,
    y: Seq<NodeId>,
    p: NodeId,
    first: Option<NodeId>,
)
    requires
        ids_chained(a, base, x, p, first),
        ids_chained(
            b,
            base + a.len(),
            y,
            p,
            if x.len() > 0 {
                Some(x.last())
            } else {
                first
            },
        ),
    ensures
        ids_chained(a + b, base, x + y, p, first),
{
    let ab = a + b;
    let xy = x + y;
    assert forall|i: int| 0 <= i < xy.len() implies #[trigger] sib_at(ab, base, xy[i], p, prev_of(xy, i, first)) by {
        let want = if i == 0 {
            first
        } else {
            Some(xy[i - 1])
        };
        if i < x.len() {
            assert(xy[i] == x[i]);
            assert(sib_at(a, base, x[i], p, prev_of(x, i, first)));
            if i > 0 {
                assert(xy[i - 1] == x[i - 1]);
            }
            let k = choose|k: int| 0 <= k < a.len() && x[i] == nid(base + k) && a[k].parent == Some(p) && a[k].prev == want;
            assert(ab[k] == a[k]);
        } else {
            let i2 = i - x.len();
            assert(xy[i] == y[i2]);
            let w2 = if i2 == 0 {
                if x.len() > 0 {
                    Some(x.last())
                } else {
                    first
                }
            } else {
                Some(y[i2 - 1])
            };
            assert(sib_at(b, base + a.len(), y[i2], p, prev_of(y, i2, if x.len() > 0 { Some(x.last()) } else { first })));
            if i2 == 0 && x.len() > 0 {
                assert(xy[i - 1] == x[x.len() - 1]);
            }
            if i2 > 0 {
                assert(xy[i - 1] == y[i2 - 1]);
            }
            assert(w2 == want);
            let k = choose|k: int| 0 <= k < b.len() && y[i2] == nid(base + a.len() + k) && b[k].parent == Some(p) && b[k].prev == want;
            assert(ab[a.len() + k] == b[k]);
            assert(base + a.len() + k == base + (a.len() + k));
        }
    }
}

/// A node followed by the nodes under it, whose ids are its children in
/// order.
proof fn lemma_root_chain(ms: Seq<NodeModel>, sub: Seq<NodeModel>, ids: Seq<NodeId>, base: int)
    requires
        ms.len() == sub.len() + 1,
        ms.drop_first() == sub,
        ms[0].children == ids,
        children_chained(sub, base + 1),
        ids_chained(sub, base + 1, ids, nid(base), None),
    ensures
        children_chained(ms, base),
{
    assert forall|j: int, c: int| 0 <= j < ms.len() && 0 <= c < ms[j].children.len() implies #[trigger] sib_child_at(
        ms,
        base,
        j,
        c,
    ) by {
        if j == 0 {
            let want = if c == 0 {
                None
            } else {
                Some(ids[c - 1])
            };
            assert(sib_at(sub, base + 1, ids[c], nid(base), prev_of(ids, c, None)));
            let k = choose|k: int| 0 <= k < sub.len() && ids[c] == nid(base + 1 + k) && sub[k].parent == Some(nid(base)) && sub[k].prev == want;
            assert(ms[k + 1] == sub[k]);
            assert(base + 1 + k == base + (k + 1));
            assert(base + 0 == base);
        } else {
            assert(ms[j] == sub[j - 1]);
            assert(sib_child_at(sub, base + 1, j - 1, c));
            let k = choose|k: int|
                j - 1 < k < sub.len() && sub[j - 1].children[c] == nid(base + 1 + k) && sub[k].parent == Some(
                    nid(base + 1 + (j - 1)),
                ) && sub[k].prev == if c == 0 {
                    None
                } else {
                    Some(sub[j - 1].children[c - 1])
                };
            assert(ms[k + 1] == sub[k]);
            assert(base + 1 + k == base + (k + 1));
            assert(base + 1 + (j - 1) == base + j);
        }
    }
}

/// The node that an element expands to first has the given parent and
/// previous sibling.
proof fn lemma_one_chained(sub: Seq<NodeModel>, base: int, p: NodeId, first: Option<NodeId>)
    requires
        sub.len() > 0,
        sub[0].parent == Some(p),
        sub[0].prev == first,
    ensures
        ids_chained(sub, base, seq![nid(base)], p, first),
{
    let one = seq![nid(base)];
    assert forall|i: int| 0 <= i < one.len() implies #[trigger] sib_at(sub, base, one[i], p, prev_of(one, i, first)) by {
        assert(nid(base) == nid(base + 0));
    }
}

pub proof fn lemma_elem_chain(
    reg: Seq<ComponentDef>,
    e: ElementNode,
    ports: Seq<PortBinding>,
    base: nat,
    parent: Option<NodeId>,
    prev: Option<NodeId>,
    pports: Set<Seq<char>>,
    fuel: nat,
)
    requires
        elem_ok(reg, e, fuel),
    ensures
        children_chained(expand_elem(reg, e, ports, base, parent, prev, pports, fuel), base as int),
        expand_elem(reg, e, ports, base, parent, prev, pports, fuel).len() > 0,
        expand_elem(reg, e, ports, base, parent, prev, pports, fuel)[0].parent == parent,
        expand_elem(reg, e, ports, base, parent, prev, pports, fuel)[0].prev == prev,
    decreases fuel, elem_height(e), 3nat, 0nat,
{
    let ms = expand_elem(reg, e, ports, base, parent, prev, pports, fuel);
    let id = nid(base as int);
    lemma_elem_nonempty(reg, e, ports, base, parent, prev, pports, fuel);
    match comp_lookup(reg, e.name.name@) {
        Some(c) => {
            if fuel > 0 {
                let r = expand_body(reg, c.body@, e, base + 1, id, None, crate::compiler::expand::comp_scope(c, ports), fuel);
                lemma_body_chain(reg, c.body@, e, base + 1, id, None, crate::compiler::expand::comp_scope(c, ports), fuel);
                assert(ms.drop_first() =~= r.0);
                lemma_root_chain(ms, r.0, r.1, base as int);
            }
        },
        None => {
            match e.content {
                Some(cs) => {
                    let r = expand_content(reg, cs.items@, base + 1, id, None, pports, fuel);
                    lemma_content_chain(reg, cs.items@, base + 1, id, None, pports, fuel);
                    assert(ms.drop_first() =~= r.0);
                    lemma_root_chain(ms, r.0, r.1, base as int);
                },
                None => {
                    assert(ms.len() == 1);
                    assert(ms[0].children.len() == 0);
                },
            }
        },
    }
}

pub proof fn lemma_content_chain(
    reg: Seq<ComponentDef>,
    items: Seq<ContentItem>,
    base: nat,
    pid: NodeId,
    last: Option<NodeId>,
    pports: Set<Seq<char>>,
    fuel: nat,
)
    requires
        items_ok(reg, items, fuel),
    ensures
        children_chained(expand_content(reg, items, base, pid, last, pports, fuel).0, base as int),
        ids_chained(
            expand_content(reg, items, base, pid, last, pports, fuel).0,
            base as int,
            expand_content(reg, items, base, pid, last, pports, fuel).1,
            pid,
            last,
        ),
    decreases fuel, items_height(items), 1nat, items.len(),
{
    if items.len() > 0 {
        lemma_items_height_skip(items);
        match items[0] {
            ContentItem::Node(k) => {
                lemma_items_height(items, 0);
                let sub = expand_elem(reg, k, k.ports@, base, Some(pid), last, pports, fuel);
                lemma_elem_chain(reg, k, k.ports@, base, Some(pid), last, pports, fuel);
                let next = Some(nid(base as int));
                lemma_content_chain(reg, items.skip(1), base + sub.len(), pid, next, pports, fuel);
                let rest = expand_content(reg, items.skip(1), base + sub.len(), pid, next, pports, fuel);
                lemma_chain_concat(sub, rest.0, base as int);
                lemma_one_chained(sub, base as int, pid, last);
                lemma_ids_chain_concat(sub, rest.0, base as int, seq![nid(base as int)], rest.1, pid, last);
            },
            _ => {
                lemma_content_chain(reg, items.skip(1), base, pid, last, pports, fuel);
            },
        }
    } else {
        let r = expand_content(reg, items, base, pid, last, pports, fuel);
        assert(r.1.len() == 0);
    }
}

pub proof fn lemma_wired_chain(
    reg: Seq<ComponentDef>,
    ambient: Seq<PortBinding>,
    items: Seq<ContentItem>,
    base: nat,
    cid: NodeId,
    last: Option<NodeId>,
    scope: Set<Seq<char>>,
    fuel: nat,
)
    requires
        items_ok(reg, items, fuel),
    ensures
        children_chained(expand_wired(reg, ambient, items, base, cid, last, scope, fuel).0, base as int),
        ids_chained(
            expand_wired(reg, ambient, items, base, cid, last, scope, fuel).0,
            base as int,
            expand_wired(reg, ambient, items, base, cid, last, scope, fuel).1,
            cid,
            last,
        ),
    decreases fuel, items_height(items), 1nat, items.len(),
{
    if items.len() > 0 {
        lemma_items_height_skip(items);
        match items[0] {
            ContentItem::Node(k) => {
                lemma_items_height(items, 0);
                let sub = expand_elem(reg, k, ambient + k.ports@, base, Some(cid), last, scope, fuel);
                lemma_elem_chain(reg, k, ambient + k.ports@, base, Some(cid), last, scope, fuel);
                let next = Some(nid(base as int));
                lemma_wired_chain(reg, ambient, items.skip(1), base + sub.len(), cid, next, scope, fuel);
                let rest = expand_wired(reg, ambient, items.skip(1), base + sub.len(), cid, next, scope, fuel);
                lemma_chain_concat(sub, rest.0, base as int);
                lemma_one_chained(sub, base as int, cid, last);
                lemma_ids_chain_concat(sub, rest.0, base as int, seq![nid(base as int)], rest.1, cid, last);
            },
            _ => {
                lemma_wired_chain(reg, ambient, items.skip(1), base, cid, last, scope, fuel);
            },
        }
    } else {
        let r = expand_wired(reg, ambient, items, base, cid, last, scope, fuel);
        assert(r.1.len() == 0);
    }
}

pub proof fn lemma_body_chain(
    reg: Seq<ComponentDef>,
    body: Seq<ComponentBodyItem>,
    e: ElementNode,
    base: nat,
    cid: NodeId,
    last: Option<NodeId>,
    scope: Set<Seq<char>>,
    fuel: nat,
)
    requires
        fuel > 0 ==> body_ok(reg, body, (fuel - 1) as nat),
        match e.content {
            Some(c) => items_ok(reg, c.items@, fuel),
            None => true,
        },
    ensures
        children_chained(expand_body(reg, body, e, base, cid, last, scope, fuel).0, base as int),
        ids_chained(
            expand_body(reg, body, e, base, cid, last, scope, fuel).0,
            base as int,
            expand_body(reg, body, e, base, cid, last, scope, fuel).1,
            cid,
            last,
        ),
    decreases fuel, elem_height(e), 2nat, body.len(),
{
    if body.len() > 0 && fuel > 0 {
        match body[0] {
            ComponentBodyItem::Node(b) => {
                let f1 = (fuel - 1) as nat;
                let sub = expand_elem(reg, b, b.ports@, base, Some(cid), last, scope, f1);
                lemma_elem_chain(reg, b, b.ports@, base, Some(cid), last, scope, f1);
                let next = Some(nid(base as int));
                lemma_body_chain(reg, body.skip(1), e, base + sub.len(), cid, next, scope, fuel);
                let rest = expand_body(reg, body.skip(1), e, base + sub.len(), cid, next, scope, fuel);
                lemma_chain_concat(sub, rest.0, base as int);
                lemma_one_chained(sub, base as int, cid, last);
                lemma_ids_chain_concat(sub, rest.0, base as int, seq![nid(base as int)], rest.1, cid, last);
            },
            ComponentBodyItem::Children(d) => {
                let w = match e.content {
                    Some(cs) => expand_wired(reg, d.ports@, cs.items@, base, cid, last, scope, fuel),
                    None => (Seq::empty(), Seq::empty()),
                };
                match e.content {
                    Some(cs) => {
                        lemma_wired_chain(reg, d.ports@, cs.items@, base, cid, last, scope, fuel);
                    },
                    None => {
                        assert(w.1.len() == 0);
                    },
                }
                let next = if w.1.len() > 0 {
                    Some(w.1.last())
                } else {
                    last
                };
                lemma_body_chain(reg, body.skip(1), e, base + w.0.len(), cid, next, scope, fuel);
                let rest = expand_body(reg, body.skip(1), e, base + w.0.len(), cid, next, scope, fuel);
                lemma_chain_concat(w.0, rest.0, base as int);
                lemma_ids_chain_concat(w.0, rest.0, base as int, w.1, rest.1, cid, last);
            },
            _ => {
                lemma_body_chain(reg, body.skip(1), e, base, cid, last, scope, fuel);
            },
        }
    } else {
        let r = expand_body(reg, body, e, base, cid, last, scope, fuel);
        assert(r.1.len() == 0);
    }
}

proof fn lemma_roots_chain(reg: Seq<ComponentDef>, items: Seq<Item>, base: nat, fuel: nat)
    requires
        roots_ok(reg, items, fuel),
    ensures
        children_chained(expand_roots(reg, items, base, fuel).0, base as int),
    decreases items.len(),
{
    if items.len() > 0 {
        assert(roots_ok(reg, items.skip(1), fuel)) by {
            assert forall|i: int| 0 <= i < items.skip(1).len() && items.skip(1)[i] is Node implies elem_ok(
                reg,
                #[trigger] items.skip(1)[i]->Node_0,
                fuel,
            ) by {
                assert(items.skip(1)[i] == items[i + 1]);
            }
        }
        match items[0] {
            Item::Node(n) => {
                let w = Some(NodeId(usize::MAX));
                assert(elem_ok(reg, items[0]->Node_0, fuel));
                let sub = expand_elem(reg, n, n.ports@, base, w, None, Set::empty(), fuel);
                lemma_elem_chain(reg, n, n.ports@, base, w, None, Set::empty(), fuel);
                lemma_roots_chain(reg, items.skip(1), base + sub.len(), fuel);
                let rest = expand_roots(reg, items.skip(1), base + sub.len(), fuel);
                lemma_chain_concat(sub, rest.0, base as int);
            },
            _ => {
                lemma_roots_chain(reg, items.skip(1), base, fuel);
            },
        }
    }
}

/// Child `c` of expanded node `j` is a later node under node `j` whose
/// previous sibling is the child listed before it, or none for the first.
pub open spec fn listed_child_ok(nodes: Seq<ExpandedNode>, j: int, c: int) -> bool {
    exists|k: int|
        j < k < nodes.len() && nodes[k].id == nodes[j].children@[c] && nodes[k].parent == Some(nodes[j].id)
            && nodes[k].prev_sibling == prev_of(nodes[j].children@, c, None)
}

/// In an expanded document, the children a node lists are the nodes under
/// it in the order of its source: the first has no previous sibling, and
/// each later one has the child listed before it as its previous sibling.
pub proof fn lemma_expanded_siblings(doc: Document, nodes: Seq<ExpandedNode>)
    requires
        expansion_terminates(doc),
        nodes_match(nodes, 0, document_model(doc).0),
    ensures
        forall|j: int, c: int|
            0 <= j < nodes.len() && 0 <= c < nodes[j].children@.len() ==> #[trigger] listed_child_ok(nodes, j, c),
{
    let ms = document_model(doc).0;
    lemma_roots_chain(doc_registry(doc.items@), doc.items@, 0, expansion_fuel(doc));
    assert forall|j: int, c: int| 0 <= j < nodes.len() && 0 <= c < nodes[j].children@.len() implies #[trigger] listed_child_ok(
        nodes,
        j,
        c,
    ) by {
        assert(node_matches(nodes[0 + j], ms[j], 0 + j));
        assert(sib_child_at(ms, 0, j, c));
        let k = choose|k: int|
            j < k < ms.len() && ms[j].children[c] == nid(0 + k) && ms[k].parent == Some(nid(0 + j)) && ms[k].prev == if c
                == 0 {
                None
            } else {
                Some(ms[j].children[c - 1])
            };
        assert(node_matches(nodes[0 + k], ms[k], 0 + k));
        assert(nodes[j].id == nid(j));
        assert(nodes[k].id == nid(k));
        assert(nodes[k].prev_sibling == prev_of(nodes[j].children@, c, None));
    }
}

} // verus!

