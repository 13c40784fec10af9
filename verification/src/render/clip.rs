use vstd::prelude::*;
use vstd::set_lib::{lemma_int_range, lemma_len_subset, set_int_range};
use crate::compiler::NodeId;

verus! {

/// The clipping parent of `id`: its `up` link as recorded in `up` (indexed
/// by node number), unless that is missing or the window.
pub open spec fn up_of(up: Seq<Option<NodeId>>, id: NodeId) -> Option<NodeId> {
    if id.0 < up.len() {
        match up[id.0 as int] {
            Some(u) => if u.spec_is_window() {
                None
            } else {
                Some(u)
            },
            None => None,
        }
    } else {
        None
    }
}

/// `w` is the walk from `start` along `up` links, innermost first: it
/// starts at `start` unless that is missing or the window, follows each
/// link, never meets a node twice, and stops where the next link is missing
/// or leads back into the walk.
pub open spec fn is_clip_walk(up: Seq<Option<NodeId>>, start: Option<NodeId>, w: Seq<NodeId>) -> bool {
    match start {
        None => w.len() == 0,
        Some(s) => if s.spec_is_window() {
            w.len() == 0
        } else {
            &&& w.len() > 0
            &&& w[0] == s
            &&& forall|i: int| 0 <= i < w.len() - 1 ==> up_of(up, #[trigger] w[i]) == Some(w[i + 1])
            &&& w.no_duplicates()
            &&& forall|i: int| 0 <= i < w.len() ==> !(#[trigger] w[i]).spec_is_window()
            &&& match up_of(up, w.last()) {
                None => true,
                Some(n) => w.contains(n),
            }
        },
    }
}

/// A walk is determined by where it starts.
pub proof fn lemma_clip_walk_unique(up: Seq<Option<NodeId>>, start: Option<NodeId>, v: Seq<NodeId>, w: Seq<NodeId>)
    requires
        is_clip_walk(up, start, v),
        is_clip_walk(up, start, w),
    ensures
        v == w,
{
    if v.len() > 0 {
        assert forall|i: int| 0 <= i < v.len() && i < w.len() implies v[i] == w[i] by {
            lemma_walks_agree(up, v, w, i);
        }
        if v.len() < w.len() {
            let k = v.len() - 1;
            assert(up_of(up, w[k]) == Some(w[k + 1]));
            let j = choose|j: int| 0 <= j < v.len() && v[j] == w[k + 1];
            assert(w[j] == w[k + 1]);
        } else if w.len() < v.len() {
            let k = w.len() - 1;
            assert(up_of(up, v[k]) == Some(v[k + 1]));
            let j = choose|j: int| 0 <= j < w.len() && w[j] == v[k + 1];
            assert(v[j] == v[k + 1]);
        }
        assert(v =~= w);
    }
}

proof fn lemma_walks_agree(up: Seq<Option<NodeId>>, v: Seq<NodeId>, w: Seq<NodeId>, i: int)
    requires
        v.len() > 0,
        w.len() > 0,
        v[0] == w[0],
        forall|k: int| 0 <= k < v.len() - 1 ==> up_of(up, #[trigger] v[k]) == Some(v[k + 1]),
        forall|k: int| 0 <= k < w.len() - 1 ==> up_of(up, #[trigger] w[k]) == Some(w[k + 1]),
        0 <= i < v.len(),
        i < w.len(),
    ensures
        v[i] == w[i],
    decreases i,
{
    if i > 0 {
        lemma_walks_agree(up, v, w, i - 1);
        assert(up_of(up, v[i - 1]) == Some(v[i]));
        assert(up_of(up, w[i - 1]) == Some(w[i]));
    }
}

/// Distinct nodes whose numbers lie below `n` are at most `n`.
proof fn lemma_distinct_below(w: Seq<NodeId>, n: int)
    requires
        0 <= n,
        w.no_duplicates(),
        forall|i: int| 0 <= i < w.len() ==> (#[trigger] w[i]).0 < n,
    ensures
        w.len() <= n,
{
    let f = |x: NodeId| x.0 as int;
    assert(vstd::relations::injective(f)) by {
        assert forall|a: NodeId, b: NodeId| #[trigger] f(a) == #[trigger] f(b) implies a == b by {}
    }
    w.lemma_no_duplicates_injective(f);
    let m = w.map_values(f);
    m.unique_seq_to_set();
    assert(m.to_set().subset_of(set_int_range(0, n))) by {
        assert forall|x: int| m.to_set().contains(x) implies set_int_range(0, n).contains(x) by {
            let i = choose|i: int| 0 <= i < m.len() && m[i] == x;
            assert(m[i] == f(w[i]));
        }
    }
    lemma_int_range(0, n);
    lemma_len_subset(m.to_set(), set_int_range(0, n));
}

/// Whether `id` is in `w`.
fn contains_node(w: &Vec<NodeId>, id: NodeId) -> (b: bool)
    ensures
        b == w@.contains(id),
{
    let mut i: usize = 0;
    while i < w.len()
        invariant
            i <= w@.len(),
            forall|k: int| 0 <= k < i ==> w@[k] != id,
        decreases w@.len() - i,
    {
        if w[i] == id {
            return true;
        }
        i = i + 1;
    }
    false
}

/// The clipping parent of `id` read from `up`.
fn lookup_up(up: &Vec<Option<NodeId>>, id: NodeId) -> (r: Option<NodeId>)
    ensures
        r == up_of(up@, id),
{
    if id.0 < up.len() {
        match up[id.0] {
            Some(u) => if u.is_window() {
                None
            } else {
                Some(u)
            },
            None => None,
        }
    } else {
        None
    }
}

/// The chain of clipping nodes of a node whose clip is `start`, outermost
/// first: the walk along the `up` links in `up`, reversed.
pub fn clip_chain(start: Option<NodeId>, up: &Vec<Option<NodeId>>) -> (chain: Vec<NodeId>)
    ensures
        is_clip_walk(up@, start, chain@.reverse()),
{
    let mut walk: Vec<NodeId> = Vec::new();
    let mut curr = start;
    loop
        invariant
            walk@.no_duplicates(),
            forall|i: int| 0 <= i < walk@.len() ==> !(#[trigger] walk@[i]).spec_is_window(),
            forall|i: int| 0 <= i < walk@.len() - 1 ==> up_of(up@, #[trigger] walk@[i]) == Some(walk@[i + 1]),
            walk@.len() == 0 ==> curr == start,
            walk@.len() > 0 ==> start == Some(walk@[0]) && curr == up_of(up@, walk@.last()),
            walk@.len() <= up@.len() + 1,
        ensures
            is_clip_walk(up@, start, walk@),
        decreases up@.len() + 1 - walk@.len(),
    {
        let id = match curr {
            None => break,
            Some(id) => id,
        };
        if id.is_window() || contains_node(&walk, id) {
            break;
        }
        proof {
            if walk@.len() > 0 {
                assert forall|i: int| 0 <= i < walk@.len() implies (#[trigger] walk@[i]).0 < up@.len() by {
                    if i < walk@.len() - 1 {
                        assert(up_of(up@, walk@[i]) == Some(walk@[i + 1]));
                    } else {
                        assert(up_of(up@, walk@.last()) == Some(id));
                    }
                }
                lemma_distinct_below(walk@, up@.len() as int);
            }
        }
        let ghost before = walk@;
        walk.push(id);
        proof {
            assert(walk@.drop_last() =~= before);
            assert forall|i: int, j: int| 0 <= i < j < walk@.len() implies walk@[i] != walk@[j] by {
                if j == walk@.len() - 1 && before[i] == id {
                    assert(before.contains(id));
                }
            }
            if before.len() > 0 {
                assert(up_of(up@, before.last()) == Some(id));
            }
        }
        curr = lookup_up(up, id);
    }
    let mut chain: Vec<NodeId> = Vec::new();
    let mut k = walk.len();
    while k > 0
        invariant
            k <= walk@.len(),
            chain@ == walk@.subrange(k as int, walk@.len() as int).reverse(),
        decreases k,
    {
        k = k - 1;
        proof {
            assert(walk@.subrange(k as int, walk@.len() as int).reverse() =~= walk@.subrange(
                k + 1,
                walk@.len() as int,
            ).reverse().push(walk@[k as int]));
        }
        chain.push(walk[k]);
    }
    proof {
        assert(walk@.subrange(0, walk@.len() as int) =~= walk@);
        assert(chain@.reverse() =~= walk@);
    }
    chain
}

/// The length of the longest common prefix of `a` and `b`.
pub fn shared_prefix_len(a: &Vec<NodeId>, b: &Vec<NodeId>) -> (n: usize)
    ensures
        n <= a@.len(),
        n <= b@.len(),
        a@.take(n as int) == b@.take(n as int),
        n < a@.len() && n < b@.len() ==> a@[n as int] != b@[n as int],
{
    let mut i: usize = 0;
    while i < a.len() && i < b.len() && a[i] == b[i]
        invariant
            i <= a@.len(),
            i <= b@.len(),
            a@.take(i as int) == b@.take(i as int),
        decreases a@.len() - i,
    {
        proof {
            assert(a@.take(i + 1) =~= a@.take(i as int).push(a@[i as int]));
            assert(b@.take(i + 1) =~= b@.take(i as int).push(b@[i as int]));
        }
        i = i + 1;
    }
    i
}

} // verus!
