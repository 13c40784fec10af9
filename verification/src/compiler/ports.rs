use vstd::prelude::*;
use crate::ast::Expr;

verus! {

/// The map a list of `(name, expression)` entries denotes; later entries win.
pub open spec fn entries_map(s: Seq<(String, Expr)>) -> Map<Seq<char>, Expr>
    decreases s.len(),
{
    if s.len() == 0 {
        Map::empty()
    } else {
        entries_map(s.drop_last()).insert(s.last().0@, s.last().1)
    }
}

/// Port equations of a node, keyed by port name.
#[derive(Debug, PartialEq)]
pub struct PortMap {
    entries: Vec<(String, Expr)>,
}

impl PortMap {
    pub closed spec fn view(&self) -> Map<Seq<char>, Expr> {
        entries_map(self.entries@)
    }

    /// The port names, in insertion order.
    pub closed spec fn keys(&self) -> Seq<Seq<char>> {
        self.entries@.map_values(|e: (String, Expr)| e.0@)
    }

    #[verifier::type_invariant]
    pub closed spec fn wf(&self) -> bool {
        &&& forall|i: int, j: int|
            0 <= i < j < self.entries@.len() ==> self.entries@[i].0@ != self.entries@[j].0@
    }

    pub fn new() -> (m: PortMap)
        ensures
            m.wf(),
            m.view() == Map::<Seq<char>, Expr>::empty(),
            m.keys().len() == 0,
    {
        PortMap { entries: Vec::new() }
    }

    pub fn len(&self) -> (n: usize)
        ensures
            n == self.keys().len(),
    {
        self.entries.len()
    }

    proof fn lemma_entries_map_index(s: Seq<(String, Expr)>, k: int)
        requires
            0 <= k < s.len(),
            forall|i: int, j: int| 0 <= i < j < s.len() ==> s[i].0@ != s[j].0@,
        ensures
            entries_map(s).contains_key(s[k].0@),
            entries_map(s)[s[k].0@] == s[k].1,
        decreases s.len(),
    {
        if k < s.len() - 1 {
            Self::lemma_entries_map_index(s.drop_last(), k);
            assert(s.drop_last()[k] == s[k]);
        }
    }

    proof fn lemma_entries_map_domain(s: Seq<(String, Expr)>, name: Seq<char>)
        ensures
            entries_map(s).contains_key(name) <==> exists|i: int| 0 <= i < s.len() && s[i].0@ == name,
        decreases s.len(),
    {
        if s.len() > 0 {
            Self::lemma_entries_map_domain(s.drop_last(), name);
            if entries_map(s.drop_last()).contains_key(name) {
                let i = choose|i: int| 0 <= i < s.drop_last().len() && s.drop_last()[i].0@ == name;
                assert(s[i].0@ == name);
            }
            if exists|i: int| 0 <= i < s.len() && s[i].0@ == name {
                let i = choose|i: int| 0 <= i < s.len() && s[i].0@ == name;
                if i < s.len() - 1 {
                    assert(s.drop_last()[i].0@ == name);
                }
            }
        }
    }

    fn find(&self, name: &str) -> (r: Option<usize>)
        requires
            self.wf(),
        ensures
            r is None ==> !self.view().contains_key(name@),
            r matches Some(i) ==> i < self.entries@.len() && self.entries@[i as int].0@ == name@
                && self.view().contains_key(name@) && self.view()[name@] == self.entries@[i as int].1,
    {
        let mut i: usize = 0;
        while i < self.entries.len()
            invariant
                i <= self.entries@.len(),
                self.wf(),
                forall|k: int| 0 <= k < i ==> self.entries@[k].0@ != name@,
            decreases self.entries@.len() - i,
        {
            if crate::chars::str_eq(self.entries[i].0.as_str(), name) {
                proof {
                    Self::lemma_entries_map_index(self.entries@, i as int);
                }
                return Some(i);
            }
            i = i + 1;
        }
        proof {
            Self::lemma_entries_map_domain(self.entries@, name@);
        }
        None
    }

    /// No port name occurs twice among the keys.
    pub proof fn lemma_keys_distinct(&self)
        requires
            self.wf(),
        ensures
            self.keys().no_duplicates(),
    {
    }

    /// A port is set exactly when its name is among the keys.
    pub proof fn lemma_keys_view(&self, name: Seq<char>)
        ensures
            self.view().contains_key(name) <==> self.keys().contains(name),
    {
        Self::lemma_entries_map_domain(self.entries@, name);
        if self.view().contains_key(name) {
            let i = choose|i: int| 0 <= i < self.entries@.len() && self.entries@[i].0@ == name;
            assert(self.keys()[i] == name);
        }
        if self.keys().contains(name) {
            let i = choose|i: int| 0 <= i < self.keys().len() && self.keys()[i] == name;
            assert(self.entries@[i].0@ == name);
        }
    }

    /// The equation of port `name`, if set.
    pub fn get(&self, name: &str) -> (r: Option<&Expr>)
        ensures
            r is None <==> !self.view().contains_key(name@),
            r matches Some(e) ==> *e == self.view()[name@],
    {
        proof {
            use_type_invariant(self);
        }
        match self.find(name) {
            Some(i) => Some(&self.entries[i].1),
            None => None,
        }
    }

    pub fn contains_key(&self, name: &str) -> (b: bool)
        ensures
            b == self.view().contains_key(name@),
    {
        proof {
            use_type_invariant(self);
        }
        self.find(name).is_some()
    }

    /// Sets port `name` to `e`, replacing any earlier equation.
    pub fn insert(&mut self, name: String, e: Expr)
        ensures
            final(self).wf(),
            final(self).view() == old(self).view().insert(name@, e),
    {
        proof {
            use_type_invariant(&*self);
        }
        let found = self.find(name.as_str());
        let mut entries: Vec<(String, Expr)> = Vec::new();
        std::mem::swap(&mut entries, &mut self.entries);
        let ghost old_entries = entries@;
        match found {
            Some(i) => {
                let ghost key = name@;
                entries.set(i, (name, e));
                proof {
                    Self::lemma_replace(old_entries, i as int, key, e);
                }
            },
            None => {
                proof {
                    Self::lemma_entries_map_domain(old_entries, name@);
                }
                entries.push((name, e));
                proof {
                    assert(entries@.drop_last() =~= old_entries);
                    assert forall|a: int, b: int| 0 <= a < b < entries@.len() implies entries@[a].0@ != entries@[b].0@ by {
                        if b == entries@.len() - 1 {
                            assert(entries@[a] == old_entries[a]);
                        } else {
                            assert(entries@[a] == old_entries[a] && entries@[b] == old_entries[b]);
                        }
                    }
                }
            },
        }
        self.entries = entries;
    }

    proof fn lemma_replace(s: Seq<(String, Expr)>, i: int, key: Seq<char>, e: Expr)
        requires
            0 <= i < s.len(),
            s[i].0@ == key,
            forall|a: int, b: int| 0 <= a < b < s.len() ==> s[a].0@ != s[b].0@,
        ensures
            forall|n: String| #![trigger s.update(i, (n, e))] n@ == key ==> entries_map(s.update(i, (n, e))) == entries_map(s).insert(key, e),
        decreases s.len(),
    {
        assert forall|n: String| #![trigger s.update(i, (n, e))] n@ == key implies entries_map(s.update(i, (n, e))) == entries_map(s).insert(key, e) by {
            let t = s.update(i, (n, e));
            if i == s.len() - 1 {
                assert(t.drop_last() =~= s.drop_last());
                assert(entries_map(t) =~= entries_map(s).insert(key, e));
            } else {
                Self::lemma_replace(s.drop_last(), i, key, e);
                assert(t.drop_last() =~= s.drop_last().update(i, (n, e)));
                assert(s.last().0@ != key);
                assert(entries_map(t) =~= entries_map(s).insert(key, e));
            }
        }
    }

    /// The `i`-th port name and equation, in insertion order.
    pub fn entry(&self, i: usize) -> (r: (&String, &Expr))
        requires
            i < self.keys().len(),
        ensures
            r.0@ == self.keys()[i as int],
            self.view().contains_key(r.0@) && self.view()[r.0@] == *r.1,
    {
        proof {
            use_type_invariant(self);
            Self::lemma_entries_map_index(self.entries@, i as int);
        }
        (&self.entries[i].0, &self.entries[i].1)
    }
}

} // verus!
