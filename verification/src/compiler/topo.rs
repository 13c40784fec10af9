use vstd::prelude::*;
use crate::compiler::graph::{
    edges_mirror, keys_sorted, lemma_lex_irrefl, lemma_lex_total, lemma_lex_trans, lemma_var_key_injective, lex_le,
    lex_less, lex_lt, var_key, views, GraphView, VarId, VariableGraph,
};
use crate::compiler::error::CompileError;
use crate::compiler::expanded::NodeId;
use vstd::std_specs::iter::IteratorSpec;

verus! {

/// The key of a layout variable: its node and port name.
pub type VarKey = (NodeId, Seq<char>);

/// `v` can be evaluated once `done` is: it has an equation, is not done yet,
/// and everything it reads is done.
pub open spec fn is_ready(g: GraphView, done: Seq<VarKey>, v: VarKey) -> bool {
    &&& g.vars.contains_key(v)
    &&& !done.contains(v)
    &&& forall|j: int| 0 <= j < g.up[v].len() ==> done.contains(#[trigger] g.up[v][j])
}

/// `v` is the ready variable with the smallest key.
pub open spec fn is_greedy_pick(g: GraphView, done: Seq<VarKey>, v: VarKey) -> bool {
    &&& is_ready(g, done, v)
    &&& forall|w: VarKey| #[trigger] is_ready(g, done, w) ==> lex_le(var_key(v), var_key(w))
}

/// Every step of `s` picks the ready variable with the smallest key.
pub open spec fn is_greedy_run(g: GraphView, s: Seq<VarKey>) -> bool {
    forall|i: int| 0 <= i < s.len() ==> #[trigger] is_greedy_pick(g, s.take(i), s[i])
}

/// Nothing is ready after `s`.
pub open spec fn is_stuck(g: GraphView, s: Seq<VarKey>) -> bool {
    forall|w: VarKey| !#[trigger] is_ready(g, s, w)
}

/// The order in which the scheduler evaluates variables: repeatedly the ready
/// variable with the smallest key, until none is ready.
pub open spec fn kahn_order(g: GraphView) -> Seq<VarKey> {
    choose|s: Seq<VarKey>| is_greedy_run(g, s) && is_stuck(g, s)
}

/// `s` lists every variable with an equation once, each after all the
/// variables it reads.
pub open spec fn is_topological_order(g: GraphView, s: Seq<VarKey>) -> bool {
    &&& s.no_duplicates()
    &&& s.to_set() == g.vars.dom()
    &&& forall|i: int, j: int|
        0 <= i < s.len() && 0 <= j < g.up[s[i]].len() ==> s.take(i).contains(
            #[trigger] g.up[s[i]][j],
        )
}

/// An evaluation order for the variables of a graph.
#[derive(Debug, PartialEq)]
pub struct TopologicalSchedule {
    pub order: Vec<VarId>,
}

impl TopologicalSchedule {
    pub fn len(&self) -> (n: usize)
        ensures
            n == self.order@.len(),
    {
        self.order.len()
    }

    pub fn is_empty(&self) -> (b: bool)
        ensures
            b == (self.order@.len() == 0),
    {
        self.order.len() == 0
    }

    /// The scheduled variables, in evaluation order.
    pub fn iter(&self) -> (r: std::slice::Iter<'_, VarId>)
        ensures
            r.remaining() == self.order@.as_ref(),
    {
        proof {
            broadcast use vstd::std_specs::slice::axiom_spec_slice_iter;
        }
        let s: &[VarId] = self.order.as_slice();
        s.iter()
    }
}

/// A non-empty finite set of variables has one with the smallest key.
proof fn lemma_min_key(r: Set<VarKey>) -> (m: VarKey)
    requires
        r.finite(),
        r.len() > 0,
    ensures
        r.contains(m),
        forall|w: VarKey| r.contains(w) ==> lex_le(var_key(m), var_key(w)),
    decreases r.len(),
{
    let x = r.choose();
    let r2 = r.remove(x);
    if r2.len() == 0 {
        assert forall|w: VarKey| r.contains(w) implies lex_le(var_key(x), var_key(w)) by {
            if w != x {
                assert(r2.contains(w));
            }
        }
        x
    } else {
        let m2 = lemma_min_key(r2);
        lemma_lex_total(var_key(x), var_key(m2));
        if lex_le(var_key(x), var_key(m2)) {
            assert forall|w: VarKey| r.contains(w) implies lex_le(var_key(x), var_key(w)) by {
                if w != x {
                    assert(r2.contains(w));
                    if lex_lt(var_key(x), var_key(m2)) && lex_lt(var_key(m2), var_key(w)) {
                        lemma_lex_trans(var_key(x), var_key(m2), var_key(w));
                    }
                }
            }
            x
        } else {
            assert forall|w: VarKey| r.contains(w) implies lex_le(var_key(m2), var_key(w)) by {
                if w == x {
                } else {
                    assert(r2.contains(w));
                }
            }
            m2
        }
    }
}

/// A greedy run from `s` on: extends `s` until nothing is ready.
proof fn lemma_kahn_from(g: GraphView, s: Seq<VarKey>) -> (t: Seq<VarKey>)
    requires
        g.vars.dom().finite(),
        is_greedy_run(g, s),
    ensures
        is_greedy_run(g, t),
        is_stuck(g, t),
    decreases g.vars.dom().len() - s.len(),
{
    assert(s.no_duplicates()) by {
        assert forall|i: int, j: int| 0 <= i < j < s.len() implies s[i] != s[j] by {
            assert(is_greedy_pick(g, s.take(j), s[j]));
            assert(s.take(j)[i] == s[i]);
        }
    }
    assert(s.to_set().subset_of(g.vars.dom())) by {
        assert forall|x: VarKey| s.to_set().contains(x) implies g.vars.dom().contains(x) by {
            let i = choose|i: int| 0 <= i < s.len() && s[i] == x;
            assert(is_greedy_pick(g, s.take(i), s[i]));
        }
    }
    s.unique_seq_to_set();
    vstd::set_lib::lemma_len_subset(s.to_set(), g.vars.dom());
    let ready = Set::new(|w: VarKey| is_ready(g, s, w));
    if ready.len() == 0 || !ready.finite() {
        assert(ready.subset_of(g.vars.dom()));
        vstd::set_lib::lemma_len_subset(ready, g.vars.dom());
        assert forall|w: VarKey| !#[trigger] is_ready(g, s, w) by {
            if is_ready(g, s, w) {
                assert(ready.contains(w));
            }
        }
        s
    } else {
        let v = lemma_min_key(ready);
        let s2 = s.push(v);
        assert(is_greedy_run(g, s2)) by {
            assert forall|i: int| 0 <= i < s2.len() implies #[trigger] is_greedy_pick(g, s2.take(i), s2[i]) by {
                if i < s.len() {
                    assert(s2.take(i) =~= s.take(i));
                    assert(is_greedy_pick(g, s.take(i), s[i]));
                } else {
                    assert(s2.take(i) =~= s);
                    assert forall|w: VarKey| #[trigger] is_ready(g, s, w) implies lex_le(var_key(v), var_key(w)) by {
                        assert(ready.contains(w));
                    }
                }
            }
        }
        assert(!s.to_set().contains(v));
        assert(s.to_set().insert(v).subset_of(g.vars.dom()));
        vstd::set_lib::lemma_len_subset(s.to_set().insert(v), g.vars.dom());
        lemma_kahn_from(g, s2)
    }
}

/// Every graph with finitely many variables has a scheduler run: repeatedly
/// the ready variable with the smallest key, until none is ready. So
/// `kahn_order` is such a run.
pub proof fn lemma_kahn_run_exists(g: GraphView)
    requires
        g.vars.dom().finite(),
    ensures
        is_greedy_run(g, kahn_order(g)),
        is_stuck(g, kahn_order(g)),
{
    let t = lemma_kahn_from(g, Seq::empty());
    assert(is_greedy_run(g, t) && is_stuck(g, t));
}

/// Two greedy runs that both end stuck are the same run.
pub proof fn lemma_greedy_unique(g: GraphView, s: Seq<VarKey>, t: Seq<VarKey>)
    requires
        is_greedy_run(g, s),
        is_stuck(g, s),
        is_greedy_run(g, t),
        is_stuck(g, t),
    ensures
        s == t,
{
    let m = if s.len() <= t.len() {
        s.len()
    } else {
        t.len()
    };
    assert forall|i: int| 0 <= i < m implies s[i] == t[i] by {
        lemma_greedy_prefix(g, s, t, i);
    }
    assert(s.take(m as int) =~= t.take(m as int));
    if s.len() < t.len() {
        assert(is_greedy_pick(g, t.take(s.len() as int), t[s.len() as int]));
        assert(s.take(s.len() as int) =~= s);
        assert(is_ready(g, s, t[s.len() as int]));
    } else if t.len() < s.len() {
        assert(is_greedy_pick(g, s.take(t.len() as int), s[t.len() as int]));
        assert(t.take(t.len() as int) =~= t);
        assert(is_ready(g, t, s[t.len() as int]));
    }
    assert(s =~= t);
}

proof fn lemma_greedy_prefix(g: GraphView, s: Seq<VarKey>, t: Seq<VarKey>, i: int)
    requires
        is_greedy_run(g, s),
        is_greedy_run(g, t),
        0 <= i < s.len(),
        i < t.len(),
    ensures
        s[i] == t[i],
        s.take(i) == t.take(i),
    decreases i,
{
    if i > 0 {
        lemma_greedy_prefix(g, s, t, i - 1);
        assert(s.take(i) =~= s.take(i - 1).push(s[i - 1]));
        assert(t.take(i) =~= t.take(i - 1).push(t[i - 1]));
    } else {
        assert(s.take(0) =~= t.take(0));
    }
    assert(is_greedy_pick(g, s.take(i), s[i]));
    assert(is_greedy_pick(g, t.take(i), t[i]));
    assert(is_ready(g, s.take(i), t[i]));
    assert(is_ready(g, s.take(i), s[i]));
    assert(lex_le(var_key(s[i]), var_key(t[i])));
    assert(lex_le(var_key(t[i]), var_key(s[i])));
    if var_key(s[i]) != var_key(t[i]) {
        lemma_lex_trans(var_key(s[i]), var_key(t[i]), var_key(s[i]));
        lemma_lex_irrefl(var_key(s[i]));
    }
    lemma_var_key_injective(s[i], t[i]);
}

/// A greedy run that ends stuck after scheduling every variable is a
/// topological order.
pub proof fn lemma_complete_run_is_topological(g: GraphView, s: Seq<VarKey>)
    requires
        is_greedy_run(g, s),
        s.to_set() == g.vars.dom(),
    ensures
        is_topological_order(g, s),
{
    assert forall|a: int, b: int| 0 <= a < s.len() && 0 <= b < s.len() && a != b implies s[a] != s[b] by {
        if a < b {
            assert(is_greedy_pick(g, s.take(b), s[b]));
            assert(s.take(b)[a] == s[a]);
        } else {
            assert(is_greedy_pick(g, s.take(a), s[a]));
            assert(s.take(a)[b] == s[b]);
        }
    }
    assert forall|i: int, j: int| 0 <= i < s.len() && 0 <= j < g.up[s[i]].len() implies s.take(i).contains(
        #[trigger] g.up[s[i]][j],
    ) by {
        assert(is_greedy_pick(g, s.take(i), s[i]));
    }
}

/// The scheduler succeeds exactly on graphs that have a topological order:
/// when it gets stuck early, no order can exist.
pub proof fn lemma_stuck_early_no_order(g: GraphView, s: Seq<VarKey>, o: Seq<VarKey>)
    requires
        is_greedy_run(g, s),
        is_stuck(g, s),
        s.to_set() != g.vars.dom(),
        g.vars.dom().finite(),
    ensures
        !is_topological_order(g, o),
{
    if is_topological_order(g, o) {
        assert forall|x| s.to_set().contains(x) implies g.vars.dom().contains(x) by {
            let i = choose|i: int| 0 <= i < s.len() && s[i] == x;
            assert(is_greedy_pick(g, s.take(i), s[i]));
        }
        let missing = choose|x| g.vars.dom().contains(x) && !s.to_set().contains(x);
        assert(exists|x| g.vars.dom().contains(x) && !s.to_set().contains(x)) by {
            if !(exists|x| g.vars.dom().contains(x) && !s.to_set().contains(x)) {
                assert(s.to_set() =~= g.vars.dom());
            }
        }
        assert(o.to_set().contains(missing));
        let a0 = choose|a: int| 0 <= a < o.len() && o[a] == missing;
        let w = lemma_first_outside(g, s, o, a0);
        assert(!is_ready(g, s, w));
    }
}

/// In a topological order `o`, the first entry that `s` lacks is ready after
/// `s`.
proof fn lemma_first_outside(g: GraphView, s: Seq<VarKey>, o: Seq<VarKey>, a0: int) -> (w: VarKey)
    requires
        is_topological_order(g, o),
        0 <= a0 < o.len(),
        !s.contains(o[a0]),
    ensures
        is_ready(g, s, w),
    decreases a0,
{
    let prior = exists|b: int| 0 <= b < a0 && !s.contains(o[b]);
    if prior {
        let b = choose|b: int| 0 <= b < a0 && !s.contains(o[b]);
        lemma_first_outside(g, s, o, b)
    } else {
        let v = o[a0];
        assert(o.to_set().contains(v));
        assert forall|j: int| 0 <= j < g.up[v].len() implies s.contains(#[trigger] g.up[v][j]) by {
            assert(o.take(a0).contains(g.up[v][j]));
            let b = choose|b: int| 0 <= b < a0 && o.take(a0)[b] == g.up[v][j];
            assert(o[b] == g.up[v][j]);
        }
        assert(is_ready(g, s, v));
        v
    }
}

/// Distinct slot numbers below `n` number at most `n`.
proof fn lemma_distinct_below(s: Seq<usize>, n: usize)
    requires
        s.no_duplicates(),
        forall|j: int| 0 <= j < s.len() ==> s[j] < n,
    ensures
        s.len() <= n,
{
    broadcast use vstd::set_lib::range_set_properties;

    s.unique_seq_to_set();
    assert(s.to_set().subset_of(Set::<usize>::range(0, n)));
    vstd::set_lib::lemma_len_subset(s.to_set(), Set::<usize>::range(0, n));
}

/// The keys of a sequence of slots.
pub open spec fn slot_keys(g: VariableGraph, s: Seq<usize>) -> Seq<VarKey> {
    s.map_values(|i: usize| g.slot_key(i as int))
}

/// Whether every slot in `v` is marked in `done`.
fn all_done(v: &Vec<usize>, done: &Vec<bool>) -> (b: bool)
    requires
        forall|j: int| 0 <= j < v@.len() ==> v@[j] < done@.len(),
    ensures
        b == forall|j: int| 0 <= j < v@.len() ==> done@[#[trigger] v@[j] as int],
{
    let mut t: usize = 0;
    while t < v.len()
        invariant
            t <= v@.len(),
            forall|j: int| 0 <= j < v@.len() ==> v@[j] < done@.len(),
            forall|j: int| 0 <= j < t ==> done@[#[trigger] v@[j] as int],
        decreases v@.len() - t,
    {
        if !done[v[t]] {
            return false;
        }
        t = t + 1;
    }
    true
}

/// Runs the scheduler on slots: the slots in evaluation order, and which
/// slots were scheduled.
fn kahn(graph: &VariableGraph) -> (r: (Vec<usize>, Vec<bool>))
    requires
        graph.wf(),
    ensures
        is_greedy_run(graph@, slot_keys(*graph, r.0@)),
        is_stuck(graph@, slot_keys(*graph, r.0@)),
        r.1@.len() == graph.slot_count(),
        forall|i: int| 0 <= i < r.0@.len() ==> r.0@[i] < graph.slot_count(),
        forall|i: int| 0 <= i < graph.slot_count() ==> (r.1@[i] <==> r.0@.contains(i as usize)),
{
    let n = graph.slots();
    proof {
        graph.lemma_slots();
    }
    let mut done: Vec<bool> = Vec::new();
    while done.len() < n
        invariant
            done@.len() <= n,
            forall|i: int| 0 <= i < done@.len() ==> !done@[i],
        decreases n - done@.len(),
    {
        done.push(false);
    }
    let mut order: Vec<usize> = Vec::new();
    loop
        invariant
            graph.wf(),
            n == graph.slot_count(),
            done@.len() == n,
            forall|i: int| 0 <= i < order@.len() ==> order@[i] < n,
            order@.no_duplicates(),
            forall|i: int| 0 <= i < n ==> (done@[i] <==> order@.contains(i as usize)),
            is_greedy_run(graph@, slot_keys(*graph, order@)),
        ensures
            done@.len() == n,
            forall|i: int| 0 <= i < order@.len() ==> order@[i] < n,
            forall|i: int| 0 <= i < n ==> (done@[i] <==> order@.contains(i as usize)),
            is_greedy_run(graph@, slot_keys(*graph, order@)),
            is_stuck(graph@, slot_keys(*graph, order@)),
        decreases n - order@.len(),
    {
        proof {
            lemma_distinct_below(order@, n);
            lemma_done_keys(*graph, order@, done@);
        }
        let ghost sk = slot_keys(*graph, order@);
        let mut best: Option<usize> = None;
        let mut best_key: Vec<char> = Vec::new();
        let mut i: usize = 0;
        while i < n
            invariant
                graph.wf(),
                n == graph.slot_count(),
                done@.len() == n,
                i <= n,
                sk == slot_keys(*graph, order@),
                forall|c: int| 0 <= c < n ==> (done@[c] <==> sk.contains(graph.slot_key(c))),
                best is None ==> forall|c: int| 0 <= c < i ==> !is_ready(graph@, sk, #[trigger] graph.slot_key(c)),
                best matches Some(b) ==> {
                    &&& b < i
                    &&& is_ready(graph@, sk, graph.slot_key(b as int))
                    &&& best_key@ == var_key(graph.slot_key(b as int))
                    &&& forall|c: int| 0 <= c < i && #[trigger] is_ready(graph@, sk, graph.slot_key(c))
                        ==> lex_le(var_key(graph.slot_key(b as int)), var_key(graph.slot_key(c)))
                },
            decreases n - i,
        {
            let ghost k = graph.slot_key(i as int);
            let ups_i = graph.slot_up(i);
            let ready = graph.slot_defined(i) && !done[i] && all_done(ups_i, &done);
            proof {
                graph.lemma_slots();
                if graph@.vars.contains_key(k) {
                    let ups = graph@.up[k];
                    assert(ready == is_ready(graph@, sk, k)) by {
                        if ready {
                            assert forall|j: int| 0 <= j < ups.len() implies sk.contains(#[trigger] ups[j]) by {
                                let u = ups_i@[j];
                                assert(ups[j] == graph.slot_key(u as int));
                                assert(done@[u as int]);
                            }
                        }
                        if is_ready(graph@, sk, k) {
                            assert(!done@[i as int]);
                            assert forall|j: int| 0 <= j < ups_i@.len() implies done@[#[trigger] ups_i@[j] as int] by {
                                let u = ups_i@[j];
                                assert(ups[j] == graph.slot_key(u as int));
                                assert(sk.contains(ups[j]));
                            }
                        }
                    }
                }
            }
            if ready {
                let key = graph.slot_id(i).key_chars();
                let better = match best {
                    None => true,
                    Some(_) => lex_less(&key, &best_key),
                };
                proof {
                    if !better {
                        if best is Some {
                            lemma_lex_total(key@, best_key@);
                            if key@ == best_key@ {
                                lemma_var_key_injective(k, graph.slot_key(best->Some_0 as int));
                            }
                        }
                    }
                }
                if better {
                    proof {
                        if best is Some {
                            let b = best->Some_0;
                            assert forall|c: int| 0 <= c < i + 1 && #[trigger] is_ready(graph@, sk, graph.slot_key(c))
                                implies lex_le(var_key(k), var_key(graph.slot_key(c))) by {
                                if c < i {
                                    if var_key(graph.slot_key(b as int)) != var_key(graph.slot_key(c)) {
                                        lemma_lex_trans(var_key(k), var_key(graph.slot_key(b as int)), var_key(graph.slot_key(c)));
                                    }
                                }
                            }
                        }
                    }
                    best = Some(i);
                    best_key = key;
                }
            }
            i = i + 1;
        }
        match best {
            None => {
                proof {
                    graph.lemma_slots();
                    assert forall|w: VarKey| !#[trigger] is_ready(graph@, sk, w) by {
                        if is_ready(graph@, sk, w) {
                            assert(graph@.down.contains_key(w));
                            let c = choose|c: int| 0 <= c < graph.slot_count() && graph.slot_key(c) == w;
                        }
                    }
                }
                break;
            },
            Some(b) => {
                let ghost old_order = order@;
                order.push(b);
                done.set(b, true);
                proof {
                    graph.lemma_slots();
                    let kb = graph.slot_key(b as int);
                    assert(is_greedy_pick(graph@, sk, kb)) by {
                        assert forall|w: VarKey| #[trigger] is_ready(graph@, sk, w) implies lex_le(var_key(kb), var_key(w)) by {
                            assert(graph@.down.contains_key(w));
                            let c = choose|c: int| 0 <= c < graph.slot_count() && graph.slot_key(c) == w;
                        }
                    }
                    let nk = slot_keys(*graph, order@);
                    assert(nk =~= sk.push(kb));
                    assert forall|t: int| 0 <= t < nk.len() implies #[trigger] is_greedy_pick(graph@, nk.take(t), nk[t]) by {
                        if t < sk.len() {
                            assert(nk.take(t) =~= sk.take(t));
                            assert(is_greedy_pick(graph@, sk.take(t), sk[t]));
                        } else {
                            assert(nk.take(t) =~= sk);
                        }
                    }
                    assert(!old_order.contains(b)) by {
                        if old_order.contains(b) {
                            assert(sk.contains(kb));
                        }
                    }
                    assert forall|x: int, y: int| 0 <= x < y < order@.len() implies order@[x] != order@[y] by {
                        if y == order@.len() - 1 {
                            assert(order@[x] == old_order[x]);
                        } else {
                            assert(old_order[x] != old_order[y]);
                        }
                    }
                    assert forall|c: int| 0 <= c < n implies (done@[c] <==> order@.contains(c as usize)) by {
                        if c == b {
                            assert(order@[old_order.len() as int] == b);
                        } else {
                            if order@.contains(c as usize) {
                                let x = choose|x: int| 0 <= x < order@.len() && order@[x] == c as usize;
                                assert(old_order[x] == c as usize);
                            }
                            if old_order.contains(c as usize) {
                                let x = choose|x: int| 0 <= x < old_order.len() && old_order[x] == c as usize;
                                assert(order@[x] == c as usize);
                            }
                        }
                    }
                    lemma_distinct_below(order@, n);
                }
            },
        }
    }
    (order, done)
}

/// Keys of scheduled slots: a slot's key is among them exactly when it is
/// marked done.
proof fn lemma_done_keys(g: VariableGraph, order: Seq<usize>, done: Seq<bool>)
    requires
        g.wf(),
        done.len() == g.slot_count(),
        forall|i: int| 0 <= i < order.len() ==> order[i] < g.slot_count(),
        forall|i: int| 0 <= i < g.slot_count() ==> (done[i] <==> order.contains(i as usize)),
    ensures
        forall|c: int|
            0 <= c < g.slot_count() ==> (done[c] <==> slot_keys(g, order).contains(
                #[trigger] g.slot_key(c),
            )),
{
    g.lemma_slots();
    assert forall|c: int| 0 <= c < g.slot_count() implies (done[c] <==> slot_keys(g, order).contains(
        #[trigger] g.slot_key(c),
    )) by {
        if done[c] {
            let x = choose|x: int| 0 <= x < order.len() && order[x] == c as usize;
            assert(order[x] as int == c);
            assert(slot_keys(g, order)[x] == g.slot_key(order[x] as int));
        }
        if slot_keys(g, order).contains(g.slot_key(c)) {
            let x = choose|x: int| 0 <= x < order.len() && slot_keys(g, order)[x] == g.slot_key(c);
            let o = order[x] as int;
            if o != c {
                if o < c {
                    assert(g.slot_key(o) != g.slot_key(c));
                } else {
                    assert(g.slot_key(c) != g.slot_key(o));
                }
            }
        }
    }
}


/// The variables with an equation that a run leaves unscheduled.
pub open spec fn remaining_set(g: GraphView, s: Seq<VarKey>) -> Set<VarKey> {
    g.vars.dom().difference(s.to_set())
}

/// `c` walks along dependency edges through `within` and returns to its
/// start: each variable is read by the next.
pub open spec fn is_closed_walk(g: GraphView, c: Seq<VarKey>, within: Set<VarKey>) -> bool {
    &&& c.len() >= 2
    &&& c[0] == c.last()
    &&& forall|i: int| 0 <= i < c.len() ==> within.contains(#[trigger] c[i])
    &&& forall|i: int| 0 <= i < c.len() - 1 ==> g.down[#[trigger] c[i]].contains(c[i + 1])
}

/// What a cycle report lists: a closed walk through the unscheduled
/// variables, or, when the search isolates none, all of them in key order.
pub open spec fn is_cycle_report(g: GraphView, c: Seq<VarKey>) -> bool {
    let rest = remaining_set(g, kahn_order(g));
    ||| is_closed_walk(g, c, rest)
    ||| (c.to_set() == rest && keys_sorted(c))
}

/// How many entries of `s` are `false`.
pub open spec fn count_false(s: Seq<bool>) -> nat
    decreases s.len(),
{
    if s.len() == 0 {
        0
    } else {
        count_false(s.drop_last()) + if s.last() {
            0nat
        } else {
            1nat
        }
    }
}

proof fn lemma_count_false_mono(a: Seq<bool>, b: Seq<bool>)
    requires
        a.len() == b.len(),
        forall|i: int| 0 <= i < a.len() && a[i] ==> b[i],
    ensures
        count_false(b) <= count_false(a),
    decreases a.len(),
{
    if a.len() > 0 {
        lemma_count_false_mono(a.drop_last(), b.drop_last());
    }
}

proof fn lemma_count_false_set(a: Seq<bool>, i: int)
    requires
        0 <= i < a.len(),
        !a[i],
    ensures
        count_false(a.update(i, true)) + 1 == count_false(a),
    decreases a.len(),
{
    if i < a.len() - 1 {
        assert(a.update(i, true).drop_last() =~= a.drop_last().update(i, true));
        lemma_count_false_set(a.drop_last(), i);
    } else {
        assert(a.update(i, true).drop_last() =~= a.drop_last());
    }
}

/// Slots are joined by an edge: `b` reads `a`.
pub open spec fn slot_edge(g: VariableGraph, a: usize, b: usize) -> bool {
    g@.down[g.slot_key(a as int)].contains(g.slot_key(b as int))
}

/// `p` is a path of unscheduled slots along edges.
pub open spec fn slot_path(g: VariableGraph, rem: Seq<bool>, p: Seq<usize>) -> bool {
    &&& forall|i: int| 0 <= i < p.len() ==> #[trigger] p[i] < g.slot_count() && rem[p[i] as int]
    &&& forall|i: int| 0 <= i < p.len() - 1 ==> slot_edge(g, #[trigger] p[i], p[i + 1])
}

/// The slots of `v` that are marked in `rem`, in increasing key order.
fn sorted_remaining(graph: &VariableGraph, v: &Vec<usize>, rem: &Vec<bool>) -> (r: Vec<usize>)
    requires
        graph.wf(),
        rem@.len() == graph.slot_count(),
        forall|j: int| 0 <= j < v@.len() ==> v@[j] < graph.slot_count(),
    ensures
        forall|j: int| 0 <= j < r@.len() ==> v@.contains(#[trigger] r@[j]) && rem@[r@[j] as int],
        forall|j: int| 0 <= j < v@.len() && rem@[v@[j] as int] ==> r@.contains(#[trigger] v@[j]),
        forall|a: int, b: int|
            0 <= a < b < r@.len() ==> lex_le(
                var_key(graph.slot_key(r@[a] as int)),
                var_key(graph.slot_key(r@[b] as int)),
            ),
        v@.no_duplicates() ==> r@.no_duplicates(),
{
    let mut r: Vec<usize> = Vec::new();
    let mut t: usize = 0;
    while t < v.len()
        invariant
            graph.wf(),
            rem@.len() == graph.slot_count(),
            forall|j: int| 0 <= j < v@.len() ==> v@[j] < graph.slot_count(),
            t <= v@.len(),
            forall|j: int| 0 <= j < r@.len() ==> v@.contains(#[trigger] r@[j]) && rem@[r@[j] as int],
            forall|j: int| 0 <= j < r@.len() ==> v@.take(t as int).contains(#[trigger] r@[j]),
            v@.no_duplicates() ==> r@.no_duplicates(),
            forall|j: int| 0 <= j < t && rem@[v@[j] as int] ==> r@.contains(#[trigger] v@[j]),
            forall|a: int, b: int|
                0 <= a < b < r@.len() ==> lex_le(
                    var_key(graph.slot_key(r@[a] as int)),
                    var_key(graph.slot_key(r@[b] as int)),
                ),
        decreases v@.len() - t,
    {
        let x = v[t];
        if rem[x] {
            let kx = graph.slot_id(x).key_chars();
            let mut p: usize = 0;
            while p < r.len()
                invariant
                    graph.wf(),
                    p <= r@.len(),
                    forall|j: int| 0 <= j < r@.len() ==> v@.contains(#[trigger] r@[j]),
                    forall|j: int| 0 <= j < v@.len() ==> v@[j] < graph.slot_count(),
                    kx@ == var_key(graph.slot_key(x as int)),
                    forall|j: int| 0 <= j < p ==> lex_le(var_key(graph.slot_key(#[trigger] r@[j] as int)), kx@),
                ensures
                    p <= r@.len(),
                    forall|j: int| 0 <= j < p ==> lex_le(var_key(graph.slot_key(#[trigger] r@[j] as int)), kx@),
                    p < r@.len() ==> lex_lt(kx@, var_key(graph.slot_key(r@[p as int] as int))),
                decreases r@.len() - p,
            {
                proof {
                    assert(v@.contains(r@[p as int]));
                }
                let kp = graph.slot_id(r[p]).key_chars();
                if lex_less(&kx, &kp) {
                    break;
                }
                proof {
                    lemma_lex_total(kx@, kp@);
                }
                p = p + 1;
            }
            let ghost before = r@;
            r.insert(p, x);
            proof {
                assert(v@[t as int] == x);
                assert forall|a: int, b: int| 0 <= a < b < r@.len() implies lex_le(
                    var_key(graph.slot_key(r@[a] as int)),
                    var_key(graph.slot_key(r@[b] as int)),
                ) by {
                    if b < p {
                        assert(r@[a] == before[a] && r@[b] == before[b]);
                    } else if b == p {
                        assert(r@[a] == before[a]);
                    } else if a == p {
                        assert(r@[b] == before[b - 1]);
                        let kb = var_key(graph.slot_key(before[b - 1] as int));
                        let k0 = var_key(graph.slot_key(before[p as int] as int));
                        if b - 1 > p {
                            assert(lex_le(k0, kb));
                            if k0 != kb {
                                lemma_lex_trans(kx@, k0, kb);
                            }
                        }
                    } else if a < p {
                        assert(r@[a] == before[a] && r@[b] == before[b - 1]);
                    } else {
                        assert(r@[a] == before[a - 1] && r@[b] == before[b - 1]);
                    }
                }
                assert forall|j: int| 0 <= j < r@.len() implies v@.contains(#[trigger] r@[j]) && rem@[r@[j] as int] by {
                    if j < p {
                        assert(r@[j] == before[j]);
                    } else if j > p {
                        assert(r@[j] == before[j - 1]);
                    }
                }
                assert forall|j: int| 0 <= j < r@.len() implies v@.take(t + 1).contains(#[trigger] r@[j]) by {
                    let y = if j < p { before[j] } else if j > p { before[j - 1] } else { x };
                    assert(r@[j] == y);
                    if j != p {
                        assert(v@.take(t as int).contains(y));
                        let a = choose|a: int| 0 <= a < t && v@.take(t as int)[a] == y;
                        assert(v@.take(t + 1)[a] == y);
                    } else {
                        assert(v@.take(t + 1)[t as int] == x);
                    }
                }
                if v@.no_duplicates() {
                    assert(!before.contains(x)) by {
                        if before.contains(x) {
                            let a = choose|a: int| 0 <= a < before.len() && before[a] == x;
                            assert(v@.take(t as int).contains(before[a]));
                            let b = choose|b: int| 0 <= b < t && v@.take(t as int)[b] == x;
                            assert(v@[b] == v@[t as int]);
                        }
                    }
                    assert forall|a: int, b: int| 0 <= a < r@.len() && 0 <= b < r@.len() && a != b implies r@[a] != r@[b] by {
                        let ya = if a < p { before[a] } else if a > p { before[a - 1] } else { x };
                        let yb = if b < p { before[b] } else if b > p { before[b - 1] } else { x };
                        assert(r@[a] == ya && r@[b] == yb);
                        if a != p && b != p {
                            let ia = if a < p { a } else { a - 1 };
                            let ib = if b < p { b } else { b - 1 };
                            assert(before[ia] != before[ib]);
                        } else if a == p {
                            let ib = if b < p { b } else { b - 1 };
                            assert(before[ib] != x);
                        } else {
                            let ia = if a < p { a } else { a - 1 };
                            assert(before[ia] != x);
                        }
                    }
                }
                assert forall|j: int| 0 <= j < t + 1 && rem@[v@[j] as int] implies r@.contains(#[trigger] v@[j]) by {
                    if j < t {
                        let a = choose|a: int| 0 <= a < before.len() && before[a] == v@[j];
                        if a < p {
                            assert(r@[a] == v@[j]);
                        } else {
                            assert(r@[a + 1] == v@[j]);
                        }
                    } else {
                        assert(r@[p as int] == x);
                    }
                }
            }
        }
        t = t + 1;
    }
    r
}


/// The position of `x` in `p`.
fn position(p: &Vec<usize>, x: usize) -> (i: usize)
    requires
        p@.contains(x),
    ensures
        i < p@.len(),
        p@[i as int] == x,
{
    let mut i: usize = 0;
    while i < p.len()
        invariant
            i <= p@.len(),
            p@.contains(x),
            forall|j: int| 0 <= j < i ==> p@[j] != x,
        decreases p@.len() - i,
    {
        if p[i] == x {
            return i;
        }
        i = i + 1;
    }
    proof {
        let j = choose|j: int| 0 <= j < p@.len() && p@[j] == x;
    }
    0
}

/// The walk from the first occurrence of `nb` on `path` to the end of
/// `path`, closed by the edge back to `nb`.
fn close_walk(graph: &VariableGraph, rem: &Vec<bool>, path: &Vec<usize>, nb: usize) -> (c: Vec<usize>)
    requires
        path@.contains(nb),
        slot_path(*graph, rem@, path@),
        path@.len() > 0,
        slot_edge(*graph, path@.last(), nb),
        path@.no_duplicates(),
    ensures
        c@.len() >= 2,
        c@[0] == c@.last(),
        slot_path(*graph, rem@, c@),
        c@.drop_last().no_duplicates(),
{
    let pos = position(path, nb);
    let mut cycle: Vec<usize> = Vec::new();
    let mut q: usize = pos;
    while q < path.len()
        invariant
            pos <= q <= path@.len(),
            cycle@ == path@.subrange(pos as int, q as int),
        decreases path@.len() - q,
    {
        cycle.push(path[q]);
        q = q + 1;
        assert(cycle@ =~= path@.subrange(pos as int, q as int));
    }
    cycle.push(nb);
    proof {
        assert(cycle@ =~= path@.subrange(pos as int, path@.len() as int).push(nb));
        assert forall|i: int| 0 <= i < cycle@.len() - 1 implies slot_edge(*graph, #[trigger] cycle@[i], cycle@[i + 1]) by {
            if pos + i + 1 < path@.len() {
                assert(cycle@[i] == path@[pos + i]);
                assert(cycle@[i + 1] == path@[pos + i + 1]);
            } else {
                assert(cycle@[i] == path@.last());
            }
        }
        assert forall|i: int| 0 <= i < cycle@.len() implies #[trigger] cycle@[i] < graph.slot_count() && rem@[cycle@[i] as int] by {
            if i < cycle@.len() - 1 {
                assert(cycle@[i] == path@[pos + i]);
            } else {
                assert(path@[pos as int] == nb);
            }
        }
        assert(cycle@.drop_last() =~= path@.subrange(pos as int, path@.len() as int));
    }
    cycle
}

/// The slots the search has finished, in order: no slot twice, and every
/// unscheduled slot that one of them leads to was finished before it.
pub open spec fn finish_ok(g: VariableGraph, rem: Seq<bool>, fin: Seq<usize>) -> bool {
    &&& fin.no_duplicates()
    &&& forall|k: int| 0 <= k < fin.len() ==> #[trigger] fin[k] < g.slot_count() && rem[fin[k] as int]
    &&& forall|k: int, b: usize|
        0 <= k < fin.len() && b < g.slot_count() && rem[b as int] && #[trigger] slot_edge(g, fin[k], b)
            ==> fin.take(k).contains(b)
}

/// The finished slots are the visited ones off the current path.
pub open spec fn finished_are(n: nat, visited: Seq<bool>, on_path: Seq<bool>, fin: Seq<usize>) -> bool {
    forall|i: int| 0 <= i < n ==> ((visited[i] && !on_path[i]) <==> fin.contains(i as usize))
}

/// Depth-first search from `cur` along edges between unscheduled slots;
/// returns a closed walk when it meets a slot on the current path.
fn dfs_cycle(
    graph: &VariableGraph,
    rem: &Vec<bool>,
    cur: usize,
    visited: &mut Vec<bool>,
    on_path: &mut Vec<bool>,
    path: &mut Vec<usize>,
    Ghost(fin): Ghost<Seq<usize>>,
) -> (r: (Option<Vec<usize>>, Ghost<Seq<usize>>))
    requires
        finish_ok(*graph, rem@, fin),
        finished_are(graph.slot_count(), old(visited)@, old(on_path)@, fin),
        old(path)@.no_duplicates(),
        graph.wf(),
        rem@.len() == graph.slot_count(),
        old(visited)@.len() == graph.slot_count(),
        old(on_path)@.len() == graph.slot_count(),
        cur < graph.slot_count(),
        rem@[cur as int],
        !old(visited)@[cur as int],
        slot_path(*graph, rem@, old(path)@),
        forall|j: int| 0 <= j < old(path)@.len() ==> old(visited)@[#[trigger] old(path)@[j] as int],
        forall|i: int| 0 <= i < graph.slot_count() ==> (old(on_path)@[i] <==> old(path)@.contains(i as usize)),
        old(path)@.len() > 0 ==> slot_edge(*graph, old(path)@.last(), cur),
    ensures
        final(visited)@.len() == graph.slot_count(),
        final(on_path)@.len() == graph.slot_count(),
        count_false(final(visited)@) < count_false(old(visited)@),
        forall|i: int| 0 <= i < graph.slot_count() && old(visited)@[i] ==> final(visited)@[i],
        r.0 matches Some(c) ==> c@.len() >= 2 && c@[0] == c@.last() && slot_path(*graph, rem@, c@)
            && c@.drop_last().no_duplicates(),
        r.0 is None ==> final(path)@ == old(path)@ && final(on_path)@ == old(on_path)@,
        r.0 is None ==> finish_ok(*graph, rem@, r.1@) && finished_are(
            graph.slot_count(),
            final(visited)@,
            final(on_path)@,
            r.1@,
        ) && final(visited)@[cur as int] && forall|x: usize| fin.contains(x) ==> r.1@.contains(x),
    decreases count_false(old(visited)@),
{
    let n = graph.slots();
    proof {
        lemma_count_false_set(visited@, cur as int);
    }
    visited.set(cur, true);
    on_path.set(cur, true);
    let ghost path0 = path@;
    let ghost visited1 = visited@;
    path.push(cur);
    proof {
        assert forall|i: int| 0 <= i < path@.len() - 1 implies slot_edge(*graph, #[trigger] path@[i], path@[i + 1]) by {
            if i < path0.len() - 1 {
                assert(path@[i] == path0[i] && path@[i + 1] == path0[i + 1]);
            } else {
                assert(path@[i] == path0.last());
            }
        }
        assert forall|i: int| 0 <= i < n implies (on_path@[i] <==> path@.contains(i as usize)) by {
            if i == cur {
                assert(path@[path0.len() as int] == cur);
            } else {
                if path@.contains(i as usize) {
                    let a = choose|a: int| 0 <= a < path@.len() && path@[a] == i as usize;
                    assert(path0[a] == i as usize);
                }
                if path0.contains(i as usize) {
                    let a = choose|a: int| 0 <= a < path0.len() && path0[a] == i as usize;
                    assert(path@[a] == i as usize);
                }
            }
        }
        assert(!old(on_path)@[cur as int]) by {
            if old(on_path)@[cur as int] {
                let a = choose|a: int| 0 <= a < path0.len() && path0[a] == cur;
                assert(old(visited)@[path0[a] as int]);
            }
        }
        assert forall|j: int| 0 <= j < path@.len() implies visited@[#[trigger] path@[j] as int] by {
            if j < path0.len() {
                assert(path@[j] == path0[j]);
                assert(old(visited)@[path0[j] as int]);
            }
        }
    }
    proof {
        assert(!path0.contains(cur)) by {
            if path0.contains(cur) {
                assert(old(on_path)@[cur as int]);
            }
        }
        assert forall|i: int, j: int| 0 <= i < j < path@.len() implies path@[i] != path@[j] by {
            if j == path0.len() {
                if path@[i] == cur {
                    assert(path0[i] == cur);
                }
            } else {
                assert(path@[i] == path0[i] && path@[j] == path0[j]);
            }
        }
    }
    let downs = graph.slot_down(cur);
    let next = sorted_remaining(graph, downs, rem);
    proof {
        graph.lemma_slots();
        assert forall|j: int| 0 <= j < next@.len() implies #[trigger] next@[j] < n && rem@[next@[j] as int] && slot_edge(*graph, cur, next@[j]) by {
            assert(downs@.contains(next@[j]));
            let a = choose|a: int| 0 <= a < downs@.len() && downs@[a] == next@[j];
            assert(downs@.map_values(|x: usize| graph.slot_key(x as int))[a] == graph.slot_key(next@[j] as int));
        }
        assert forall|bb: usize| bb < n && rem@[bb as int] && #[trigger] slot_edge(*graph, cur, bb) implies next@.contains(bb) by {
            let dk = downs@.map_values(|x: usize| graph.slot_key(x as int));
            assert(dk.contains(graph.slot_key(bb as int)));
            let a = choose|a: int| 0 <= a < dk.len() && dk[a] == graph.slot_key(bb as int);
            assert(graph.slot_key(downs@[a] as int) == graph.slot_key(bb as int));
            assert(downs@[a] == bb);
        }
    }
    let ghost mut f = fin;
    proof {
        assert(!fin.contains(cur));
    }
    let mut t: usize = 0;
    while t < next.len()
        invariant
            graph.wf(),
            n == graph.slot_count(),
            rem@.len() == n,
            visited@.len() == n,
            on_path@.len() == n,
            cur < n,
            path@ == path0.push(cur),
            slot_path(*graph, rem@, path@),
            forall|j: int| 0 <= j < path@.len() ==> visited@[#[trigger] path@[j] as int],
            forall|i: int| 0 <= i < n ==> (on_path@[i] <==> path@.contains(i as usize)),
            forall|i: int| 0 <= i < n && visited1[i] ==> visited@[i],
            visited1.len() == n,
            count_false(visited1) < count_false(old(visited)@),
            forall|i: int| 0 <= i < n && old(visited)@[i] ==> visited1[i],
            forall|j: int| 0 <= j < next@.len() ==> #[trigger] next@[j] < n && rem@[next@[j] as int] && slot_edge(*graph, cur, next@[j]),
            on_path@ == old(on_path)@.update(cur as int, true),
            t <= next@.len(),
            finish_ok(*graph, rem@, f),
            finished_are(graph.slot_count(), visited@, on_path@, f),
            path@.no_duplicates(),
            forall|x: usize| fin.contains(x) ==> f.contains(x),
            forall|j: int| 0 <= j < t ==> f.contains(#[trigger] next@[j]),
            visited@[cur as int],
            forall|bb: usize| bb < n && rem@[bb as int] && #[trigger] slot_edge(*graph, cur, bb) ==> next@.contains(bb),
        decreases next@.len() - t,
    {
        let nb = next[t];
        if on_path[nb] {
            let c = close_walk(graph, rem, path, nb);
            proof {
                lemma_count_false_mono(visited1, visited@);
                assert forall|i: int| 0 <= i < n && old(visited)@[i] implies visited@[i] by {
                    assert(visited1[i]);
                }
            }
            return (Some(c), Ghost(f));
        }
        if !visited[nb] {
            proof {
                lemma_count_false_mono(visited1, visited@);
            }
            let (found, Ghost(f2)) = dfs_cycle(graph, rem, nb, visited, on_path, path, Ghost(f));
            match found {
                Some(c) => {
                    proof {
                        lemma_count_false_mono(visited1, visited@);
                        assert forall|i: int| 0 <= i < n && old(visited)@[i] implies visited@[i] by {
                            assert(visited1[i]);
                        }
                    }
                    return (Some(c), Ghost(f2));
                },
                None => {
                    proof {
                        f = f2;
                    }
                },
            }
        }
        proof {
            assert(f.contains(nb));
        }
        t = t + 1;
    }
    path.pop();
    on_path.set(cur, false);
    proof {
        assert(path@ =~= path0);
        assert(on_path@ =~= old(on_path)@);
        lemma_count_false_mono(visited1, visited@);
        assert forall|i: int| 0 <= i < n && old(visited)@[i] implies visited@[i] by {
            assert(visited1[i]);
        }
    }
    let ghost f3 = f.push(cur);
    proof {
        lemma_finish_push(*graph, rem@, f, cur, next@);
        assert forall|i: int| 0 <= i < n implies ((visited@[i] && !on_path@[i]) <==> f3.contains(i as usize)) by {
            if i == cur as int {
                assert(f3[f.len() as int] == cur);
            } else {
                if f3.contains(i as usize) {
                    let a = choose|a: int| 0 <= a < f3.len() && f3[a] == i as usize;
                    assert(f[a] == i as usize);
                }
                if f.contains(i as usize) {
                    let a = choose|a: int| 0 <= a < f.len() && f[a] == i as usize;
                    assert(f3[a] == i as usize);
                }
            }
        }
        assert forall|x: usize| fin.contains(x) implies f3.contains(x) by {
            let a = choose|a: int| 0 <= a < f.len() && f[a] == x;
            assert(f3[a] == x);
        }
    }
    (None, Ghost(f3))
}

/// Finishing `cur` after all its unscheduled successors keeps the finish
/// order sound.
proof fn lemma_finish_push(g: VariableGraph, rem: Seq<bool>, f: Seq<usize>, cur: usize, next: Seq<usize>)
    requires
        finish_ok(g, rem, f),
        !f.contains(cur),
        cur < g.slot_count(),
        rem[cur as int],
        forall|j: int| 0 <= j < next.len() ==> f.contains(#[trigger] next[j]),
        forall|bb: usize| bb < g.slot_count() && rem[bb as int] && #[trigger] slot_edge(g, cur, bb) ==> next.contains(bb),
    ensures
        finish_ok(g, rem, f.push(cur)),
{
    let f3 = f.push(cur);
    assert forall|k: int, bb: usize|
        0 <= k < f3.len() && bb < g.slot_count() && rem[bb as int] && #[trigger] slot_edge(g, f3[k], bb) implies f3.take(
        k,
    ).contains(bb) by {
        if k < f.len() {
            assert(f3[k] == f[k]);
            assert(f3.take(k) =~= f.take(k));
        } else {
            assert(f3.take(k) =~= f);
            assert(next.contains(bb));
            let j = choose|j: int| 0 <= j < next.len() && next[j] == bb;
            assert(f.contains(next[j]));
        }
    }
    assert forall|i: int, j: int| 0 <= i < j < f3.len() implies f3[i] != f3[j] by {
        if j == f.len() {
            if f3[i] == cur {
                assert(f[i] == cur);
            }
        }
    }
}


/// A closed walk of unscheduled slots, or, when the search finds none, every
/// unscheduled slot in increasing key order.
fn find_cycle(graph: &VariableGraph, done: &Vec<bool>) -> (r: (Vec<usize>, Ghost<Seq<bool>>))
    requires
        graph.wf(),
        done@.len() == graph.slot_count(),
    ensures
        r.1@.len() == graph.slot_count(),
        forall|i: int|
            0 <= i < graph.slot_count() ==> (r.1@[i] <==> graph@.vars.contains_key(graph.slot_key(i))
                && !done@[i]),
        ({
            let c = r.0@;
            ||| (c.len() >= 2 && c[0] == c.last() && slot_path(*graph, r.1@, c) && c.drop_last().no_duplicates())
            ||| ((forall|i: int| 0 <= i < graph.slot_count() && r.1@[i] ==> c.contains(i as usize))
                && ((forall|i: int| 0 <= i < graph.slot_count() ==> !r.1@[i]) || exists|i: int|
                0 <= i < graph.slot_count() && r.1@[i] && forall|u: int|
                    0 <= u < graph.slot_count() && r.1@[u] ==> !#[trigger] slot_edge(*graph, u as usize, i as usize))
                && (forall|j: int| 0 <= j < c.len() ==> #[trigger] c[j] < graph.slot_count() && r.1@[c[j] as int])
                && c.no_duplicates()
                && forall|a: int, b: int|
                    0 <= a < b < c.len() ==> lex_le(
                        var_key(graph.slot_key(c[a] as int)),
                        var_key(graph.slot_key(c[b] as int)),
                    ))
        }),
{
    let n = graph.slots();
    let mut rem: Vec<bool> = Vec::new();
    let mut all: Vec<usize> = Vec::new();
    let mut i: usize = 0;
    while i < n
        invariant
            graph.wf(),
            n == graph.slot_count(),
            done@.len() == n,
            i <= n,
            rem@.len() == i,
            all@.len() == i,
            forall|j: int| 0 <= j < i ==> #[trigger] all@[j] == j,
            forall|j: int|
                0 <= j < i ==> (rem@[j] <==> graph@.vars.contains_key(graph.slot_key(j)) && !done@[j]),
        decreases n - i,
    {
        let d = graph.slot_defined(i);
        rem.push(d && !done[i]);
        all.push(i);
        i = i + 1;
    }
    proof {
        assert forall|a: int, b: int| 0 <= a < all@.len() && 0 <= b < all@.len() && a != b implies all@[a] != all@[b] by {
            assert(all@[a] == a && all@[b] == b);
        }
    }
    let candidates = sorted_remaining(graph, &all, &rem);
    let mut visited: Vec<bool> = Vec::new();
    let mut on_path: Vec<bool> = Vec::new();
    while visited.len() < n
        invariant
            visited@.len() == on_path@.len(),
            visited@.len() <= n,
            forall|j: int| 0 <= j < on_path@.len() ==> !on_path@[j],
            forall|j: int| 0 <= j < visited@.len() ==> !visited@[j],
        decreases n - visited@.len(),
    {
        visited.push(false);
        on_path.push(false);
    }
    let mut path: Vec<usize> = Vec::new();
    let mut t: usize = 0;
    let ghost mut f: Seq<usize> = Seq::empty();
    while t < candidates.len()
        invariant
            graph.wf(),
            n == graph.slot_count(),
            rem@.len() == n,
            visited@.len() == n,
            on_path@.len() == n,
            path@.len() == 0,
            done@.len() == n,
            forall|j: int|
                0 <= j < n ==> (rem@[j] <==> graph@.vars.contains_key(graph.slot_key(j)) && !done@[j]),
            forall|j: int| 0 <= j < n ==> !on_path@[j],
            forall|j: int| 0 <= j < candidates@.len() ==> all@.contains(#[trigger] candidates@[j]) && rem@[candidates@[j] as int],
            forall|j: int| 0 <= j < n ==> #[trigger] all@[j] == j,
            all@.len() == n,
            t <= candidates@.len(),
            finish_ok(*graph, rem@, f),
            finished_are(graph.slot_count(), visited@, on_path@, f),
            forall|j: int| 0 <= j < t ==> visited@[#[trigger] candidates@[j] as int],
        decreases candidates@.len() - t,
    {
        let start = candidates[t];
        proof {
            let a = choose|a: int| 0 <= a < all@.len() && all@[a] == start;
            assert(all@[a] == a);
        }
        if !visited[start] {
            proof {
                assert forall|x: int| 0 <= x < n implies (on_path@[x] <==> path@.contains(x as usize)) by {}
            }
            let (found, Ghost(f2)) = dfs_cycle(graph, &rem, start, &mut visited, &mut on_path, &mut path, Ghost(f));
            match found {
                Some(c) => {
                    return (c, Ghost(rem@));
                },
                None => {
                    proof {
                        f = f2;
                    }
                },
            }
        }
        t = t + 1;
    }
    proof {
        assert forall|j: int| 0 <= j < candidates@.len() implies #[trigger] candidates@[j] < graph.slot_count() && rem@[candidates@[j] as int] by {
            let a = choose|a: int| 0 <= a < all@.len() && all@[a] == candidates@[j];
            assert(all@[a] == a);
        }
        assert forall|i: int| 0 <= i < graph.slot_count() && rem@[i] implies candidates@.contains(i as usize) by {
            assert(all@[i] == i);
        }
        assert forall|i: int| 0 <= i < n && rem@[i] implies f.contains(i as usize) by {
            assert(candidates@.contains(i as usize));
            let a = choose|a: int| 0 <= a < candidates@.len() && candidates@[a] == i as usize;
            assert(visited@[candidates@[a] as int]);
        }
        if f.len() > 0 {
            let last = f.last();
            assert(f[f.len() - 1] == last);
            assert forall|u: int| 0 <= u < n && rem@[u] implies !#[trigger] slot_edge(*graph, u as usize, last) by {
                if slot_edge(*graph, u as usize, last) {
                    assert(f.contains(u as usize));
                    let m = choose|m: int| 0 <= m < f.len() && f[m] == u as usize;
                    assert(f.take(m).contains(last));
                    let a = choose|a: int| 0 <= a < m && f.take(m)[a] == last;
                    assert(f[a] == f[f.len() - 1]);
                }
            }
            assert(rem@[last as int]);
        } else {
            assert forall|i: int| 0 <= i < n implies !rem@[i] by {
                if rem@[i] {
                    assert(f.contains(i as usize));
                }
            }
        }
    }
    (candidates, Ghost(rem@))
}

/// Every variable that some equation reads has an equation itself.
pub open spec fn deps_defined(g: GraphView) -> bool {
    forall|v: VarKey, j: int|
        g.vars.contains_key(v) && 0 <= j < g.up[v].len() ==> g.vars.contains_key(#[trigger] g.up[v][j])
}

/// Orders the variables of `graph` for evaluation: repeatedly the ready
/// variable with the smallest key. Fails with a cycle report when some
/// variables can never become ready.
pub fn sort_graph(graph: &VariableGraph) -> (r: Result<TopologicalSchedule, CompileError>)
    requires
        graph.wf(),
    ensures
        r is Ok <==> exists|o: Seq<VarKey>| is_topological_order(graph@, o),
        r matches Ok(s) ==> views(s.order@) == kahn_order(graph@) && is_topological_order(
            graph@,
            views(s.order@),
        ),
        r is Err ==> (r matches Err(CompileError::CyclicDependency { cycle, span }) && cycle@.len() > 0
            && is_cycle_report(graph@, views(cycle@)) && graph@.vars.contains_key(cycle@[0]@)
            && span == graph@.vars[cycle@[0]@].span),
        r is Err && deps_defined(graph@) && edges_mirror(graph@) ==> (r matches Err(
            CompileError::CyclicDependency { cycle, .. },
        ) && is_closed_walk(graph@, views(cycle@), remaining_set(graph@, kahn_order(graph@)))
            && views(cycle@).drop_last().no_duplicates()),
{
    let (order, done) = kahn(graph);
    let n = graph.slots();
    let ghost ks = slot_keys(*graph, order@);
    proof {
        graph.lemma_slots();
        graph.lemma_vars_finite();
        assert(is_greedy_run(graph@, kahn_order(graph@)) && is_stuck(graph@, kahn_order(graph@)));
        lemma_greedy_unique(graph@, ks, kahn_order(graph@));
        assert forall|x| ks.to_set().contains(x) implies graph@.vars.dom().contains(x) by {
            let a = choose|a: int| 0 <= a < ks.len() && ks[a] == x;
            assert(is_greedy_pick(graph@, ks.take(a), ks[a]));
        }
        lemma_done_keys(*graph, order@, done@);
    }
    let mut complete = true;
    let mut i: usize = 0;
    while i < n
        invariant
            graph.wf(),
            n == graph.slot_count(),
            done@.len() == n,
            i <= n,
            complete <==> forall|j: int| 0 <= j < i && graph@.vars.contains_key(#[trigger] graph.slot_key(j)) ==> done@[j],
        decreases n - i,
    {
        if graph.slot_defined(i) && !done[i] {
            complete = false;
        }
        i = i + 1;
    }
    if complete {
        let mut ids: Vec<VarId> = Vec::new();
        let mut t: usize = 0;
        while t < order.len()
            invariant
                graph.wf(),
                forall|j: int| 0 <= j < order@.len() ==> order@[j] < graph.slot_count(),
                t <= order@.len(),
                views(ids@) == slot_keys(*graph, order@).take(t as int),
            decreases order@.len() - t,
        {
            let ghost before = ids@;
            ids.push(graph.slot_id(order[t]).duplicate());
            proof {
                let sk = slot_keys(*graph, order@);
                assert(sk.take(t + 1) =~= sk.take(t as int).push(sk[t as int]));
                assert(views(ids@) =~= views(before).push(sk[t as int]));
            }
            t = t + 1;
        }
        proof {
            assert(slot_keys(*graph, order@).take(t as int) =~= ks);
            assert forall|x| graph@.vars.dom().contains(x) implies ks.to_set().contains(x) by {
                assert(graph@.down.contains_key(x));
                let c = choose|c: int| 0 <= c < graph.slot_count() && graph.slot_key(c) == x;
                assert(done@[c]);
            }
            assert(ks.to_set() =~= graph@.vars.dom());
            lemma_complete_run_is_topological(graph@, ks);
        }
        Ok(TopologicalSchedule { order: ids })
    } else {
        let (cyc, Ghost(rem)) = find_cycle(graph, &done);
        let ghost rest = remaining_set(graph@, kahn_order(graph@));
        proof {
            let j = choose|j: int| 0 <= j < n && graph@.vars.contains_key(#[trigger] graph.slot_key(j)) && !done@[j];
            assert(!ks.to_set().contains(graph.slot_key(j)));
            assert(ks.to_set() != graph@.vars.dom());
            assert forall|o: Seq<VarKey>| !is_topological_order(graph@, o) by {
                lemma_stuck_early_no_order(graph@, ks, o);
            }
            assert forall|c: int| 0 <= c < n implies (rem[c] <==> rest.contains(#[trigger] graph.slot_key(c))) by {}
            if deps_defined(graph@) && edges_mirror(graph@) && !(cyc@.len() >= 2 && cyc@[0] == cyc@.last()
                && slot_path(*graph, rem, cyc@) && cyc@.drop_last().no_duplicates()) {
                assert(rem[j]);
                let i = choose|i: int|
                    0 <= i < graph.slot_count() && rem[i] && forall|u: int|
                        0 <= u < graph.slot_count() && rem[u] ==> !#[trigger] slot_edge(*graph, u as usize, i as usize);
                let v = graph.slot_key(i);
                let ko = kahn_order(graph@);
                assert(rest.contains(v));
                assert(!is_ready(graph@, ko, v));
                let jj = choose|jj: int| 0 <= jj < graph@.up[v].len() && !ko.contains(#[trigger] graph@.up[v][jj]);
                let u = graph@.up[v][jj];
                assert(graph@.vars.contains_key(u));
                assert(rest.contains(u));
                assert(graph@.down.contains_key(u));
                let us = choose|c: int| 0 <= c < graph.slot_count() && graph.slot_key(c) == u;
                assert(rem[us]);
                assert(graph@.up[v].contains(u));
                assert(graph@.down[u].contains(v));
                assert(slot_edge(*graph, us as usize, i as usize));
            }
        }
        let mut ids: Vec<VarId> = Vec::new();
        let mut t: usize = 0;
        while t < cyc.len()
            invariant
                graph.wf(),
                t <= cyc@.len(),
                rem.len() == graph.slot_count(),
                forall|j: int| 0 <= j < cyc@.len() ==> #[trigger] cyc@[j] < graph.slot_count() && rem[cyc@[j] as int],
                views(ids@) == slot_keys(*graph, cyc@).take(t as int),
            decreases cyc@.len() - t,
        {
            let ghost before = ids@;
            ids.push(graph.slot_id(cyc[t]).duplicate());
            proof {
                let sk = slot_keys(*graph, cyc@);
                assert(sk.take(t + 1) =~= sk.take(t as int).push(sk[t as int]));
                assert(views(ids@) =~= views(before).push(sk[t as int]));
            }
            t = t + 1;
        }
        let ghost ck = slot_keys(*graph, cyc@);
        proof {
            assert(ck.take(t as int) =~= ck);
            assert(views(ids@) == ck);
            if cyc@.len() >= 2 && cyc@.drop_last().no_duplicates() {
                graph.lemma_slots();
                assert forall|a: int, b: int| 0 <= a < b < ck.drop_last().len() implies ck.drop_last()[a]
                    != ck.drop_last()[b] by {
                    assert(cyc@.drop_last()[a] == cyc@[a] && cyc@.drop_last()[b] == cyc@[b]);
                    let ia = cyc@[a] as int;
                    let ib = cyc@[b] as int;
                    if ia < ib {
                        assert(graph.slot_key(ia) != graph.slot_key(ib));
                    } else {
                        assert(graph.slot_key(ib) != graph.slot_key(ia));
                    }
                }
            }
            if cyc@.len() >= 2 && cyc@[0] == cyc@.last() && slot_path(*graph, rem, cyc@) {
                assert forall|i: int| 0 <= i < ck.len() - 1 implies graph@.down[#[trigger] ck[i]].contains(ck[i + 1]) by {
                    assert(slot_edge(*graph, cyc@[i], cyc@[i + 1]));
                }
                assert(is_closed_walk(graph@, ck, rest));
            } else {
                assert forall|x| ck.to_set().contains(x) == rest.contains(x) by {
                    if ck.to_set().contains(x) {
                        let a = choose|a: int| 0 <= a < ck.len() && ck[a] == x;
                        assert(rem[cyc@[a] as int]);
                    }
                    if rest.contains(x) {
                        assert(graph@.down.contains_key(x));
                        let c = choose|c: int| 0 <= c < graph.slot_count() && graph.slot_key(c) == x;
                        assert(cyc@.contains(c as usize));
                        let a = choose|a: int| 0 <= a < cyc@.len() && cyc@[a] == c as usize;
                        assert(ck[a] == x);
                    }
                }
                assert(ck.to_set() =~= rest);
                assert forall|a: int, b: int| 0 <= a < b < ck.len() implies lex_lt(var_key(ck[a]), var_key(ck[b])) by {
                    assert(lex_le(var_key(ck[a]), var_key(ck[b])));
                    assert(cyc@[a] != cyc@[b]);
                    let ia = cyc@[a] as int;
                    let ib = cyc@[b] as int;
                    if ck[a] == ck[b] {
                        if ia < ib {
                            assert(graph.slot_key(ia) != graph.slot_key(ib));
                        } else {
                            assert(graph.slot_key(ib) != graph.slot_key(ia));
                        }
                    }
                    if var_key(ck[a]) == var_key(ck[b]) {
                        lemma_var_key_injective(ck[a], ck[b]);
                    }
                }
            }
            if ck.len() == 0 {
                let c = choose|c: int| 0 <= c < n && graph@.vars.contains_key(#[trigger] graph.slot_key(c)) && !done@[c];
                assert(rem[c]);
                assert(rest.contains(graph.slot_key(c)));
                assert(ck.to_set().contains(graph.slot_key(c)));
            }
            assert(rem[cyc@[0] as int]);
        }
        let first = graph.slot_id(cyc[0]);
        let span = match graph.get_variable(first) {
            Some(node) => node.span,
            None => crate::span::Span { start: 0, end: 0 },
        };
        Err(CompileError::CyclicDependency { cycle: ids, span })
    }
}

} // verus!
