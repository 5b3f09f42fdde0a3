use vstd::prelude::*;
use crate::scene::preprocessor::value::{SceneValue, Tree, opt_tree};

verus! {

/// The map that a sequence of definitions builds when each is inserted in turn:
/// a later definition of a name replaces an earlier one.
pub open spec fn defs_map(s: Seq<(String, SceneValue)>) -> Map<Seq<char>, Tree>
    decreases s.len(),
{
    if s.len() == 0 {
        Map::empty()
    } else {
        defs_map(s.drop_last()).insert(s.last().0@, s.last().1@)
    }
}

/// Named definitions (components and props), looked up by name.
pub struct Defs {
    entries: Vec<(String, SceneValue)>,
}

impl View for Defs {
    type V = Map<Seq<char>, Tree>;

    closed spec fn view(&self) -> Map<Seq<char>, Tree> {
        defs_map(self.entries@)
    }
}

/// A sequence of definitions builds a finite map.
pub proof fn lemma_defs_map_finite(s: Seq<(String, SceneValue)>)
    ensures
        defs_map(s).dom().finite(),
    decreases s.len(),
{
    if s.len() > 0 {
        lemma_defs_map_finite(s.drop_last());
    }
}

/// Definitions after position `i` that do not name `k` leave its lookup as it was.
proof fn lemma_defs_map_tail(s: Seq<(String, SceneValue)>, i: int, k: Seq<char>)
    requires
        0 <= i <= s.len(),
        forall|j: int| i <= j < s.len() ==> #[trigger] s[j].0@ != k,
    ensures
        defs_map(s).contains_key(k) == defs_map(s.take(i)).contains_key(k),
        defs_map(s).contains_key(k) ==> defs_map(s)[k] == defs_map(s.take(i))[k],
    decreases s.len() - i,
{
    if i < s.len() {
        assert(s.drop_last().take(i) =~= s.take(i));
        lemma_defs_map_tail(s.drop_last(), i, k);
    } else {
        assert(s.take(i) =~= s);
    }
}

/// Defining the definitions of `b` after those of `a` gives `b` the last word.
proof fn lemma_defs_map_append(a: Seq<(String, SceneValue)>, b: Seq<(String, SceneValue)>)
    ensures
        defs_map(a + b) =~= defs_map(a).union_prefer_right(defs_map(b)),
    decreases b.len(),
{
    if b.len() == 0 {
        assert(a + b =~= a);
    } else {
        assert((a + b).drop_last() =~= a + b.drop_last());
        lemma_defs_map_append(a, b.drop_last());
    }
}

impl Defs {
    /// No definitions.
    pub fn new() -> (d: Defs)
        ensures
            d@ == Map::<Seq<char>, Tree>::empty(),
    {
        Defs { entries: Vec::new() }
    }

    /// The definitions hold finitely many names.
    pub proof fn lemma_finite(&self)
        ensures
            self@.dom().finite(),
    {
        lemma_defs_map_finite(self.entries@);
    }

    /// The value defined under `name`, if any.
    pub fn get(&self, name: &str) -> (r: Option<&SceneValue>)
        ensures
            opt_tree(r) == (if self@.contains_key(name@) { Some(self@[name@]) } else { None }),
    {
        let key: String = name.to_owned();
        let mut i: usize = self.entries.len();
        while i > 0
            invariant
                i <= self.entries@.len(),
                key@ == name@,
                forall|j: int| i <= j < self.entries@.len() ==> #[trigger] self.entries@[j].0@ != name@,
            decreases i,
        {
            if self.entries[i - 1].0 == key {
                proof {
                    let s = self.entries@;
                    lemma_defs_map_tail(s, i as int, name@);
                    assert(s.take(i as int).drop_last() =~= s.take(i - 1));
                }
                return Some(&self.entries[i - 1].1);
            }
            i = i - 1;
        }
        proof {
            lemma_defs_map_tail(self.entries@, 0, name@);
            assert(self.entries@.take(0) =~= Seq::<(String, SceneValue)>::empty());
        }
        None
    }

    /// Defines `name` as `value`, replacing any earlier definition.
    pub fn insert(&mut self, name: String, value: SceneValue)
        ensures
            final(self)@ == old(self)@.insert(name@, value@),
    {
        let ghost before = self.entries@;
        self.entries.push((name, value));
        proof {
            assert(self.entries@.drop_last() =~= before);
        }
    }

    /// Adds all of `other`'s definitions, which replace those of the same name.
    pub fn extend(&mut self, other: Defs)
        ensures
            final(self)@ == old(self)@.union_prefer_right(other@),
    {
        let ghost a = self.entries@;
        let ghost b = other.entries@;
        let mut more = other.entries;
        self.entries.append(&mut more);
        proof {
            assert(self.entries@ =~= a + b);
            lemma_defs_map_append(a, b);
        }
    }
}

} // verus!
