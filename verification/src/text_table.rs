//! Texts by name.
use vstd::prelude::*;

verus! {

/// A table of texts with distinct names.
#[derive(Debug)]
pub struct TextTable {
    entries: Vec<(String, String)>,
}

/// Entry `i` has the name `k`.
spec fn named(entries: Seq<(String, String)>, k: Seq<char>, i: int) -> bool {
    0 <= i < entries.len() && entries[i].0@ == k
}

impl View for TextTable {
    type V = Map<Seq<char>, Seq<char>>;

    closed spec fn view(&self) -> Map<Seq<char>, Seq<char>> {
        Map::new(
            |k: Seq<char>| exists|i: int| named(self.entries@, k, i),
            |k: Seq<char>| self.entries@[choose|i: int| named(self.entries@, k, i)].1@,
        )
    }
}

impl TextTable {
    /// The names are distinct.
    #[verifier::type_invariant]
    spec fn distinct(self) -> bool {
        forall|i: int, j: int|
            0 <= i < j < self.entries@.len() ==> (#[trigger] self.entries@[i]).0@ != (
            #[trigger] self.entries@[j]).0@
    }

    proof fn lemma_entry(&self, i: int)
        requires
            self.distinct(),
            0 <= i < self.entries@.len(),
        ensures
            self@.contains_key(self.entries@[i].0@),
            self@[self.entries@[i].0@] == self.entries@[i].1@,
    {
        let k = self.entries@[i].0@;
        assert(named(self.entries@, k, i));
        let j = choose|j: int| named(self.entries@, k, j);
        assert(named(self.entries@, k, j));
        if i < j {
            assert(self.entries@[i].0@ != self.entries@[j].0@);
        } else if j < i {
            assert(self.entries@[j].0@ != self.entries@[i].0@);
        }
    }

    /// An empty table.
    pub fn new() -> (t: TextTable)
        ensures
            t@ == Map::<Seq<char>, Seq<char>>::empty(),
    {
        let t = TextTable { entries: Vec::new() };
        assert(t@ =~= Map::empty());
        t
    }

    /// The text of a name.
    pub fn get(&self, name: &String) -> (r: Option<&String>)
        ensures
            match r {
                Some(t) => self@.contains_key(name@) && self@[name@] == t@,
                None => !self@.contains_key(name@),
            },
    {
        proof {
            use_type_invariant(&*self);
        }
        let mut i: usize = 0;
        while i < self.entries.len()
            invariant
                i <= self.entries@.len(),
                self.distinct(),
                forall|k: int| 0 <= k < i ==> (#[trigger] self.entries@[k]).0@ != name@,
            decreases self.entries@.len() - i,
        {
            if self.entries[i].0.eq(name) {
                proof {
                    self.lemma_entry(i as int);
                }
                return Some(&self.entries[i].1);
            }
            i += 1;
        }
        assert(!self@.contains_key(name@)) by {
            if self@.contains_key(name@) {
                let j = choose|j: int| named(self.entries@, name@, j);
                assert(named(self.entries@, name@, j));
            }
        }
        None
    }

    /// The table with `content` as the text of `name`, in place of an earlier one.
    pub fn with(self, name: String, content: String) -> (t: TextTable)
        ensures
            t@ == self@.insert(name@, content@),
    {
        proof {
            use_type_invariant(&self);
        }
        let ghost before = self;
        let mut entries: Vec<(String, String)> = self.entries;
        let mut i: usize = 0;
        while i < entries.len() && !entries[i].0.eq(&name)
            invariant
                i <= entries@.len(),
                entries@ == before.entries@,
                forall|k: int| 0 <= k < i ==> (#[trigger] entries@[k]).0@ != name@,
            decreases entries@.len() - i,
        {
            i += 1;
        }
        let ghost n = name@;
        let ghost c = content@;
        if i < entries.len() {
            let entry: (String, String) = (name, content);
            entries[i] = entry;
        } else {
            entries.push((name, content));
        }
        proof {
            assert(before.distinct());
            assert forall|a: int, b: int| 0 <= a < b < entries@.len() implies (#[trigger] entries@[a]).0@ != (
            #[trigger] entries@[b]).0@ by {
                if a < before.entries@.len() && b < before.entries@.len() {
                    assert(before.entries@[a].0@ != before.entries@[b].0@);
                }
            }
        }
        let t = TextTable { entries };
        proof {
            assert forall|k: Seq<char>| t@.contains_key(k) == before@.insert(n, c).contains_key(k) by {
                if t@.contains_key(k) {
                    let j = choose|j: int| named(t.entries@, k, j);
                    assert(named(t.entries@, k, j));
                    if k != n {
                        assert(named(before.entries@, k, j));
                    }
                }
                if before@.insert(n, c).contains_key(k) {
                    if k == n {
                        assert(named(t.entries@, k, i as int));
                    } else {
                        let j = choose|j: int| named(before.entries@, k, j);
                        assert(named(before.entries@, k, j));
                        assert(named(t.entries@, k, j));
                    }
                }
            }
            assert forall|k: Seq<char>| t@.contains_key(k) implies t@[k] == before@.insert(n, c)[k] by {
                let j = choose|j: int| named(t.entries@, k, j);
                assert(named(t.entries@, k, j));
                t.lemma_entry(j);
                if k == n {
                    assert(named(t.entries@, k, i as int));
                    t.lemma_entry(i as int);
                } else {
                    assert(named(before.entries@, k, j));
                    before.lemma_entry(j);
                }
            }
            assert(t@ =~= before@.insert(n, c));
        }
        t
    }
}

} // verus!
