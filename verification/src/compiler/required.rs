use vstd::prelude::*;
use crate::ast::{ComponentBodyItem, ComponentDef, ContentItem, Document, ElementNode, Item, ParamDef, PortBinding};
use crate::chars::str_eq;
use crate::compiler::expand::{
    binding_refs, bindings, body_ok, comp_lookup, defs, doc_registry, elem_height, elem_ok,
    expansion_fuel, items_height, roots_ok,
    items_ok, lemma_items_height, lemma_items_height_skip, lookup_component,
};
use crate::span::Span;

verus! {

// A component parameter without a default must be plugged by the instance:
// by an explicit port, or by an ambient `\Children` rule of the container
// it is placed in. Parameters marked `env` take their value from the
// environment and are exempt.

/// `ports` sets a port named `name`.
pub open spec fn sets_port(ports: Seq<PortBinding>, name: Seq<char>) -> bool {
    exists|i: int| 0 <= i < ports.len() && #[trigger] ports[i].name.name@ == name
}

/// The first of `params` that has no default, is not an `env` parameter,
/// and that `ports` leaves unset.
pub open spec fn unplugged(params: Seq<ParamDef>, ports: Seq<PortBinding>) -> Option<Seq<char>>
    decreases params.len(),
{
    if params.len() == 0 {
        None
    } else {
        let p = params[0];
        if !p.is_env && p.default_edge is None && !sets_port(ports, p.name.name@) {
            Some(p.name.name@)
        } else {
            unplugged(params.skip(1), ports)
        }
    }
}

/// The first required port left unplugged while expanding `e` with `ports`,
/// in the order expansion meets the instances: the instance's name, the
/// port's name and the instance's span.
pub open spec fn elem_missing(reg: Seq<ComponentDef>, e: ElementNode, ports: Seq<PortBinding>, fuel: nat) -> Option<(Seq<char>, Seq<char>, Span)>
    decreases fuel, elem_height(e), 3nat, 0nat,
{
    match comp_lookup(reg, e.name.name@) {
        Some(c) => if fuel == 0 {
            None
        } else {
            match unplugged(c.params@, ports) {
                Some(p) => Some((e.name.name@, p, e.span)),
                None => body_missing(reg, c.body@, e, fuel),
            }
        },
        None => match e.content {
            Some(cs) => content_missing(reg, cs.items@, fuel),
            None => None,
        },
    }
}

/// The first unplugged port among the elements of `items`, each with its
/// own ports.
pub open spec fn content_missing(reg: Seq<ComponentDef>, items: Seq<ContentItem>, fuel: nat) -> Option<(Seq<char>, Seq<char>, Span)>
    decreases fuel, items_height(items), 1nat, items.len(),
{
    if items.len() == 0 {
        None
    } else {
        let here = match items[0] {
            ContentItem::Node(k) => elem_missing(reg, k, k.ports@, fuel),
            _ => None,
        };
        match here {
            Some(m) => Some(m),
            None => content_missing(reg, items.skip(1), fuel),
        }
    }
}

/// The first unplugged port among the consumer's elements of `items`, each
/// with the ambient ports `ambient` before its own.
pub open spec fn wired_missing(reg: Seq<ComponentDef>, ambient: Seq<PortBinding>, items: Seq<ContentItem>, fuel: nat) -> Option<(Seq<char>, Seq<char>, Span)>
    decreases fuel, items_height(items), 1nat, items.len(),
{
    if items.len() == 0 {
        None
    } else {
        let here = match items[0] {
            ContentItem::Node(k) => elem_missing(reg, k, ambient + k.ports@, fuel),
            _ => None,
        };
        match here {
            Some(m) => Some(m),
            None => wired_missing(reg, ambient, items.skip(1), fuel),
        }
    }
}

/// The first unplugged port in a component body: its elements, and at each
/// `\Children` the elements of the consumer `e`.
pub open spec fn body_missing(reg: Seq<ComponentDef>, body: Seq<ComponentBodyItem>, e: ElementNode, fuel: nat) -> Option<(Seq<char>, Seq<char>, Span)>
    decreases fuel, elem_height(e), 2nat, body.len(),
{
    if body.len() == 0 || fuel == 0 {
        None
    } else {
        let here = match body[0] {
            ComponentBodyItem::Node(b) => elem_missing(reg, b, b.ports@, (fuel - 1) as nat),
            ComponentBodyItem::Children(d) => match e.content {
                Some(cs) => wired_missing(reg, d.ports@, cs.items@, fuel),
                None => None,
            },
            _ => None,
        };
        match here {
            Some(m) => Some(m),
            None => body_missing(reg, body.skip(1), e, fuel),
        }
    }
}

/// Whether one of `ports` is named `name`.
fn find_port(ports: &Vec<&PortBinding>, name: &str) -> (b: bool)
    ensures
        b == sets_port(bindings(ports@), name@),
{
    let mut i: usize = 0;
    while i < ports.len()
        invariant
            i <= ports@.len(),
            forall|j: int| 0 <= j < i ==> (#[trigger] bindings(ports@)[j]).name.name@ != name@,
        decreases ports@.len() - i,
    {
        if str_eq(ports[i].name.name.as_str(), name) {
            proof {
                assert(bindings(ports@)[i as int].name.name@ == name@);
            }
            return true;
        }
        i = i + 1;
    }
    false
}

/// The first required parameter of `params` (from `from` on) that `ports`
/// leaves unset.
fn first_unplugged<'a>(params: &'a Vec<ParamDef>, from: usize, ports: &Vec<&PortBinding>) -> (r: Option<&'a String>)
    requires
        from <= params@.len(),
    ensures
        match r {
            Some(n) => unplugged(params@.skip(from as int), bindings(ports@)) == Some(n@),
            None => unplugged(params@.skip(from as int), bindings(ports@)) is None,
        },
    decreases params@.len() - from,
{
    if from == params.len() {
        return None;
    }
    proof {
        assert(params@.skip(from as int)[0] == params@[from as int]);
        assert(params@.skip(from as int).skip(1) =~= params@.skip(from + 1));
    }
    let p = &params[from];
    let required = !p.is_env && match &p.default_edge {
        Some(_) => false,
        None => true,
    };
    if required && !find_port(ports, p.name.name.as_str()) {
        return Some(&p.name.name);
    }
    first_unplugged(params, from + 1, ports)
}

/// The first required port left unplugged while expanding `e` with `ports`.
pub(crate) fn missing_in_elem(
    e: &ElementNode,
    ports: &Vec<&PortBinding>,
    registry: &Vec<&ComponentDef>,
    Ghost(fuel): Ghost<nat>,
) -> (r: Option<(String, String, Span)>)
    requires
        elem_ok(defs(registry@), *e, fuel),
    ensures
        match r {
            Some((n, p, sp)) => elem_missing(defs(registry@), *e, bindings(ports@), fuel) == Some((n@, p@, sp)),
            None => elem_missing(defs(registry@), *e, bindings(ports@), fuel) is None,
        },
    decreases fuel, elem_height(*e), 3nat, 0nat,
{
    match lookup_component(registry, e.name.name.as_str()) {
        Some(c) => {
            proof {
                assert(c.params@.skip(0) =~= c.params@);
                assert(c.body@.skip(0) =~= c.body@);
            }
            match first_unplugged(&c.params, 0, ports) {
                Some(p) => Some((e.name.name.clone(), p.clone(), e.span)),
                None => missing_in_body(&c.body, 0, e, registry, Ghost(fuel)),
            }
        },
        None => match &e.content {
            Some(cs) => {
                proof {
                    assert(cs.items@.skip(0) =~= cs.items@);
                }
                missing_in_items(&cs.items, 0, registry, Ghost(fuel), Ghost(e))
            },
            None => None,
        },
    }
}

fn missing_in_items(
    items: &Vec<ContentItem>,
    from: usize,
    registry: &Vec<&ComponentDef>,
    Ghost(fuel): Ghost<nat>,
    Ghost(owner): Ghost<&ElementNode>,
) -> (r: Option<(String, String, Span)>)
    requires
        from <= items@.len(),
        items_ok(defs(registry@), items@.skip(from as int), fuel),
    ensures
        match r {
            Some((n, p, sp)) => content_missing(defs(registry@), items@.skip(from as int), fuel) == Some((n@, p@, sp)),
            None => content_missing(defs(registry@), items@.skip(from as int), fuel) is None,
        },
    decreases fuel, items_height(items@.skip(from as int)), 1nat, items@.len() - from,
{
    if from == items.len() {
        return None;
    }
    let ghost rest = items@.skip(from as int);
    proof {
        assert(rest[0] == items@[from as int]);
        assert(rest.skip(1) =~= items@.skip(from + 1));
    }
    let here = match &items[from] {
        ContentItem::Node(k) => {
            proof {
                lemma_items_height(rest, 0);
            }
            let own = binding_refs(&k.ports);
            missing_in_elem(k, &own, registry, Ghost(fuel))
        },
        _ => None,
    };
    match here {
        Some(m) => Some(m),
        None => {
            proof {
                lemma_items_height_skip(rest);
            }
            missing_in_items(items, from + 1, registry, Ghost(fuel), Ghost(owner))
        },
    }
}

fn missing_in_wired(
    ambient: &Vec<&PortBinding>,
    items: &Vec<ContentItem>,
    from: usize,
    registry: &Vec<&ComponentDef>,
    Ghost(fuel): Ghost<nat>,
) -> (r: Option<(String, String, Span)>)
    requires
        from <= items@.len(),
        items_ok(defs(registry@), items@.skip(from as int), fuel),
    ensures
        match r {
            Some((n, p, sp)) => wired_missing(defs(registry@), bindings(ambient@), items@.skip(from as int), fuel)
                == Some((n@, p@, sp)),
            None => wired_missing(defs(registry@), bindings(ambient@), items@.skip(from as int), fuel) is None,
        },
    decreases fuel, items_height(items@.skip(from as int)), 1nat, items@.len() - from,
{
    if from == items.len() {
        return None;
    }
    let ghost rest = items@.skip(from as int);
    proof {
        assert(rest[0] == items@[from as int]);
        assert(rest.skip(1) =~= items@.skip(from + 1));
    }
    let here = match &items[from] {
        ContentItem::Node(k) => {
            proof {
                lemma_items_height(rest, 0);
            }
            let own = binding_refs(&k.ports);
            let mut wired: Vec<&PortBinding> = Vec::new();
            let mut a: usize = 0;
            while a < ambient.len()
                invariant
                    a <= ambient@.len(),
                    wired@ == ambient@.take(a as int),
                decreases ambient@.len() - a,
            {
                wired.push(ambient[a]);
                a = a + 1;
                assert(wired@ =~= ambient@.take(a as int));
            }
            let mut b: usize = 0;
            while b < own.len()
                invariant
                    b <= own@.len(),
                    a == ambient@.len(),
                    wired@ == ambient@.take(a as int) + own@.take(b as int),
                decreases own@.len() - b,
            {
                wired.push(own[b]);
                b = b + 1;
                assert(wired@ =~= ambient@.take(a as int) + own@.take(b as int));
            }
            proof {
                assert(ambient@.take(a as int) =~= ambient@);
                assert(own@.take(b as int) =~= own@);
                assert(bindings(wired@) =~= bindings(ambient@) + k.ports@);
            }
            missing_in_elem(k, &wired, registry, Ghost(fuel))
        },
        _ => None,
    };
    match here {
        Some(m) => Some(m),
        None => {
            proof {
                lemma_items_height_skip(rest);
            }
            missing_in_wired(ambient, items, from + 1, registry, Ghost(fuel))
        },
    }
}

fn missing_in_body(
    body: &Vec<ComponentBodyItem>,
    from: usize,
    e: &ElementNode,
    registry: &Vec<&ComponentDef>,
    Ghost(fuel): Ghost<nat>,
) -> (r: Option<(String, String, Span)>)
    requires
        from <= body@.len(),
        fuel > 0,
        body_ok(defs(registry@), body@.skip(from as int), (fuel - 1) as nat),
        match e.content {
            Some(c) => items_ok(defs(registry@), c.items@, fuel),
            None => true,
        },
    ensures
        match r {
            Some((n, p, sp)) => body_missing(defs(registry@), body@.skip(from as int), *e, fuel) == Some((n@, p@, sp)),
            None => body_missing(defs(registry@), body@.skip(from as int), *e, fuel) is None,
        },
    decreases fuel, elem_height(*e), 2nat, body@.len() - from,
{
    if from == body.len() {
        return None;
    }
    let ghost rest = body@.skip(from as int);
    proof {
        assert(rest[0] == body@[from as int]);
        assert(rest.skip(1) =~= body@.skip(from + 1));
    }
    let here = match &body[from] {
        ComponentBodyItem::Node(b) => {
            let own = binding_refs(&b.ports);
            missing_in_elem(b, &own, registry, Ghost((fuel - 1) as nat))
        },
        ComponentBodyItem::Children(d) => match &e.content {
            Some(cs) => {
                let ambient = binding_refs(&d.ports);
                proof {
                    assert(cs.items@.skip(0) =~= cs.items@);
                }
                missing_in_wired(&ambient, &cs.items, 0, registry, Ghost(fuel))
            },
            None => None,
        },
        _ => None,
    };
    match here {
        Some(m) => Some(m),
        None => missing_in_body(body, from + 1, e, registry, Ghost(fuel)),
    }
}

/// The first required port left unplugged among the top-level elements
/// of `items`, in order.
pub open spec fn roots_missing(reg: Seq<ComponentDef>, items: Seq<Item>, fuel: nat) -> Option<(Seq<char>, Seq<char>, Span)>
    decreases items.len(),
{
    if items.len() == 0 {
        None
    } else {
        let here = match items[0] {
            Item::Node(n) => elem_missing(reg, n, n.ports@, fuel),
            _ => None,
        };
        match here {
            Some(m) => Some(m),
            None => roots_missing(reg, items.skip(1), fuel),
        }
    }
}

/// The first required port the document leaves unplugged: the instance's
/// name, the port's name and the instance's span.
pub open spec fn document_missing(doc: Document) -> Option<(Seq<char>, Seq<char>, Span)> {
    roots_missing(doc_registry(doc.items@), doc.items@, expansion_fuel(doc))
}

/// The first required port left unplugged among the top-level elements of
/// `items` from `from` on.
pub(crate) fn missing_in_roots(
    items: &Vec<Item>,
    from: usize,
    registry: &Vec<&ComponentDef>,
    Ghost(fuel): Ghost<nat>,
) -> (r: Option<(String, String, Span)>)
    requires
        from <= items@.len(),
        roots_ok(defs(registry@), items@, fuel),
    ensures
        match r {
            Some((n, p, sp)) => roots_missing(defs(registry@), items@.skip(from as int), fuel) == Some((n@, p@, sp)),
            None => roots_missing(defs(registry@), items@.skip(from as int), fuel) is None,
        },
    decreases items@.len() - from,
{
    if from == items.len() {
        return None;
    }
    proof {
        assert(items@.skip(from as int)[0] == items@[from as int]);
        assert(items@.skip(from as int).skip(1) =~= items@.skip(from + 1));
    }
    let here = match &items[from] {
        Item::Node(n) => {
            proof {
                assert(items@[from as int] is Node);
            }
            let own = binding_refs(&n.ports);
            missing_in_elem(n, &own, registry, Ghost(fuel))
        },
        _ => None,
    };
    match here {
        Some(m) => Some(m),
        None => missing_in_roots(items, from + 1, registry, Ghost(fuel)),
    }
}

} // verus!
