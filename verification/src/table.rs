//! Small tables keyed by name.

use vstd::prelude::*;
use crate::text::same;
use crate::text::views;

verus! {

/// What a list of entries maps names to: of entries with the same name the first one counts.
pub open spec fn entries_view<V>(s: Seq<(String, V)>) -> Map<Seq<char>, V>
    decreases s.len(),
{
    if s.len() == 0 {
        Map::empty()
    } else {
        entries_view(s.drop_first()).insert(s[0].0@, s[0].1)
    }
}

/// The names of a list of entries.
pub open spec fn entry_names<V>(s: Seq<(String, V)>) -> Seq<Seq<char>> {
    s.map_values(|p: (String, V)| p.0@)
}

/// A table keyed by name, in the order in which names were first set.
#[derive(Debug, Clone)]
pub struct Table<V> {
    entries: Vec<(String, V)>,
}

impl<V> View for Table<V> {
    type V = Map<Seq<char>, V>;

    closed spec fn view(&self) -> Map<Seq<char>, V> {
        entries_view(self.entries@)
    }
}

proof fn lemma_first<V>(o: Seq<(String, V)>, k: Seq<char>, i: int)
    requires
        0 <= i < o.len(),
        o[i].0@ == k,
        forall|j: int| 0 <= j < i ==> (#[trigger] o[j]).0@ != k,
    ensures
        entries_view(o).contains_key(k),
        entries_view(o)[k] == o[i].1,
    decreases o.len(),
{
    if i > 0 {
        assert(o[0].0@ != k);
        assert forall|j: int| 0 <= j < i - 1 implies (#[trigger] o.drop_first()[j]).0@ != k by {
            assert(o.drop_first()[j] == o[j + 1]);
        }
        lemma_first(o.drop_first(), k, i - 1);
    }
}

proof fn lemma_absent<V>(o: Seq<(String, V)>, k: Seq<char>)
    ensures
        entries_view(o).contains_key(k) <==> entry_names(o).contains(k),
    decreases o.len(),
{
    let n = entry_names(o);
    if o.len() > 0 {
        lemma_absent(o.drop_first(), k);
        let d = entry_names(o.drop_first());
        assert(d =~= n.drop_first());
        if o[0].0@ == k {
            assert(n[0] == k);
        } else {
            if n.contains(k) {
                let j = choose|j: int| 0 <= j < n.len() && n[j] == k;
                assert(d[j - 1] == k);
            }
            if d.contains(k) {
                let j = choose|j: int| 0 <= j < d.len() && d[j] == k;
                assert(n[j + 1] == k);
            }
        }
    }
}

proof fn lemma_update<V>(o: Seq<(String, V)>, i: int, p: (String, V))
    requires
        0 <= i < o.len(),
        o[i].0@ == p.0@,
        forall|j: int| 0 <= j < i ==> (#[trigger] o[j]).0@ != p.0@,
    ensures
        entries_view(o.update(i, p)) == entries_view(o).insert(p.0@, p.1),
    decreases o.len(),
{
    let n = o.update(i, p);
    if i == 0 {
        assert(n.drop_first() =~= o.drop_first());
    } else {
        assert(n.drop_first() =~= o.drop_first().update(i - 1, p));
        assert forall|j: int| 0 <= j < i - 1 implies (#[trigger] o.drop_first()[j]).0@ != p.0@ by {
            assert(o.drop_first()[j] == o[j + 1]);
        }
        assert(o[0].0@ != p.0@);
        lemma_update(o.drop_first(), i - 1, p);
    }
    assert(entries_view(n) =~= entries_view(o).insert(p.0@, p.1));
}

proof fn lemma_push<V>(o: Seq<(String, V)>, p: (String, V))
    ensures
        entries_view(o.push(p)) == (if entries_view(o).contains_key(p.0@) {
            entries_view(o)
        } else {
            entries_view(o).insert(p.0@, p.1)
        }),
    decreases o.len(),
{
    let n = o.push(p);
    if o.len() == 0 {
        assert(n.drop_first() =~= o);
    } else {
        lemma_push(o.drop_first(), p);
        assert(n.drop_first() =~= o.drop_first().push(p));
    }
    assert(entries_view(n) =~= (if entries_view(o).contains_key(p.0@) {
        entries_view(o)
    } else {
        entries_view(o).insert(p.0@, p.1)
    }));
}

impl<V> Table<V> {
    /// The names, in the order in which they were first set.
    pub closed spec fn names(self) -> Seq<Seq<char>> {
        entry_names(self.entries@)
    }

    /// An empty table.
    pub fn new() -> (r: Table<V>)
        ensures
            r@ == Map::<Seq<char>, V>::empty(),
            r.names() == Seq::<Seq<char>>::empty(),
    {
        let r = Table { entries: Vec::new() };
        assert(r.names() =~= Seq::<Seq<char>>::empty());
        r
    }

    fn find(&self, k: &str) -> (r: Option<usize>)
        ensures
            match r {
                Some(i) => i < self.entries@.len() && self.entries@[i as int].0@ == k@ && self@.contains_key(k@)
                    && self@[k@] == self.entries@[i as int].1 && (forall|j: int|
                    0 <= j < i ==> (#[trigger] self.entries@[j]).0@ != k@),
                None => !self@.contains_key(k@) && !self.names().contains(k@),
            },
    {
        let mut i: usize = 0;
        while i < self.entries.len()
            invariant
                i <= self.entries@.len(),
                forall|j: int| 0 <= j < i ==> (#[trigger] self.entries@[j]).0@ != k@,
            decreases self.entries@.len() - i,
        {
            if same(self.entries[i].0.as_str(), k) {
                proof {
                    lemma_first(self.entries@, k@, i as int);
                }
                return Some(i);
            }
            i += 1;
        }
        proof {
            lemma_absent(self.entries@, k@);
            if self.names().contains(k@) {
                let j = choose|j: int| 0 <= j < self.names().len() && self.names()[j] == k@;
                assert(self.entries@[j].0@ == k@);
            }
        }
        None
    }

    /// The value under a name.
    pub fn get(&self, k: &str) -> (r: Option<&V>)
        ensures
            match r {
                Some(v) => self@.contains_key(k@) && *v == self@[k@],
                None => !self@.contains_key(k@),
            },
    {
        match self.find(k) {
            Some(i) => Some(&self.entries[i].1),
            None => None,
        }
    }

    /// Whether there is a value under a name.
    pub fn contains(&self, k: &str) -> (r: bool)
        ensures
            r == self@.contains_key(k@),
    {
        self.find(k).is_some()
    }

    /// Sets the value under a name.
    pub fn set(&mut self, k: &str, v: V)
        ensures
            final(self)@ == old(self)@.insert(k@, v),
            final(self).names() == (if old(self)@.contains_key(k@) {
                old(self).names()
            } else {
                old(self).names().push(k@)
            }),
    {
        let p = (k.to_owned(), v);
        let ghost before = self.entries@;
        match self.find(k) {
            Some(i) => {
                proof {
                    lemma_update(self.entries@, i as int, p);
                }
                self.entries.set(i, p);
                assert(entry_names(self.entries@) =~= entry_names(before));
            },
            None => {
                proof {
                    lemma_push(self.entries@, p);
                }
                self.entries.push(p);
                assert(entry_names(self.entries@) =~= entry_names(before).push(k@));
            },
        }
    }

    /// The names, in the order in which they were first set.
    pub fn keys(&self) -> (r: Vec<String>)
        ensures
            views(r@) == self.names(),
    {
        let mut out: Vec<String> = Vec::new();
        let mut i: usize = 0;
        while i < self.entries.len()
            invariant
                i <= self.entries@.len(),
                out@.len() == i,
                forall|j: int| 0 <= j < i ==> (#[trigger] out@[j])@ == self.entries@[j].0@,
            decreases self.entries@.len() - i,
        {
            out.push(self.entries[i].0.clone());
            i += 1;
        }
        assert(views(out@) =~= self.names());
        out
    }

    /// The names are those under which there is a value.
    pub proof fn names_are_keys(self, k: Seq<char>)
        ensures
            self.names().contains(k) <==> self@.contains_key(k),
    {
        lemma_absent(self.entries@, k);
    }
}

} // verus!
