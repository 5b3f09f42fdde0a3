use vstd::prelude::*;

verus! {

/// A scene-description value, shaped like a RON value.
///
/// Numbers are carried through unchanged; the expansion logic never reads them.
pub enum SceneValue {
    Bool(bool),
    Char(char),
    Dict(Vec<(SceneValue, SceneValue)>),
    Number(ron::Number),
    Opt(Option<Box<SceneValue>>),
    Text(String),
    Bytes(Vec<u8>),
    List(Vec<SceneValue>),
    Unit,
}

/// The mathematical shape of a [`SceneValue`]: the same tree with sequences in place of vectors.
pub enum Tree {
    Bool(bool),
    Char(char),
    Dict(Seq<(Tree, Tree)>),
    Number(ron::Number),
    Opt(Option<Box<Tree>>),
    Text(Seq<char>),
    Bytes(Seq<u8>),
    List(Seq<Tree>),
    Unit,
}

/// Whether no two entries of a map have the same key.
pub open spec fn distinct_keys(es: Seq<(Tree, Tree)>) -> bool {
    forall|i: int, j: int| 0 <= i < j < es.len() ==> es[i].0 != es[j].0
}

/// Whether every map in a tree, at any depth, has distinct keys, as RON's maps do.
pub open spec fn maps_distinct(t: Tree) -> bool
    decreases t,
{
    match t {
        Tree::Dict(es) => distinct_keys(es) && entries_maps_distinct(es),
        Tree::List(vs) => list_maps_distinct(vs),
        Tree::Opt(Some(b)) => maps_distinct(*b),
        _ => true,
    }
}

/// Whether the keys and values of map entries have only maps with distinct keys.
pub open spec fn entries_maps_distinct(es: Seq<(Tree, Tree)>) -> bool
    decreases es,
{
    es.len() == 0 || (maps_distinct(es[0].0) && maps_distinct(es[0].1) && entries_maps_distinct(es.drop_first()))
}

/// Whether the elements of a sequence have only maps with distinct keys.
pub open spec fn list_maps_distinct(vs: Seq<Tree>) -> bool
    decreases vs,
{
    vs.len() == 0 || (maps_distinct(vs[0]) && list_maps_distinct(vs.drop_first()))
}

/// The trees of a map's entries, in order.
pub open spec fn entries_tree(s: Seq<(SceneValue, SceneValue)>) -> Seq<(Tree, Tree)>
    decreases s,
{
    if s.len() == 0 {
        Seq::empty()
    } else {
        seq![(s[0].0.tree(), s[0].1.tree())] + entries_tree(s.drop_first())
    }
}

/// The trees of a sequence's elements, in order.
pub open spec fn list_tree(s: Seq<SceneValue>) -> Seq<Tree>
    decreases s,
{
    if s.len() == 0 {
        Seq::empty()
    } else {
        seq![s[0].tree()] + list_tree(s.drop_first())
    }
}

/// `list_tree` is taken element by element.
pub proof fn lemma_list_tree(s: Seq<SceneValue>)
    ensures
        list_tree(s).len() == s.len(),
        forall|i: int| 0 <= i < s.len() ==> #[trigger] list_tree(s)[i] == s[i].tree(),
    decreases s.len(),
{
    if s.len() > 0 {
        lemma_list_tree(s.drop_first());
    }
}

/// `entries_tree` is taken entry by entry.
pub proof fn lemma_entries_tree(s: Seq<(SceneValue, SceneValue)>)
    ensures
        entries_tree(s).len() == s.len(),
        forall|i: int| 0 <= i < s.len() ==> #[trigger] entries_tree(s)[i] == (s[i].0.tree(), s[i].1.tree()),
    decreases s.len(),
{
    if s.len() > 0 {
        lemma_entries_tree(s.drop_first());
    }
}

impl View for SceneValue {
    type V = Tree;

    open spec fn view(&self) -> Tree {
        self.tree()
    }
}

impl SceneValue {
    /// The tree that this value stands for.
    pub open spec fn tree(self) -> Tree
        decreases self,
    {
        match self {
            SceneValue::Bool(b) => Tree::Bool(b),
            SceneValue::Char(c) => Tree::Char(c),
            SceneValue::Dict(m) => Tree::Dict(entries_tree(m@)),
            SceneValue::Number(n) => Tree::Number(n),
            SceneValue::Opt(o) => match o {
                Some(b) => Tree::Opt(Some(Box::new((*b).tree()))),
                None => Tree::Opt(None),
            },
            SceneValue::Text(s) => Tree::Text(s@),
            SceneValue::Bytes(b) => Tree::Bytes(b@),
            SceneValue::List(l) => Tree::List(list_tree(l@)),
            SceneValue::Unit => Tree::Unit,
        }
    }

    #[verifier::loop_isolation(false)]
    /// A copy of the whole tree.
    pub fn deep_clone(&self) -> (r: SceneValue)
        ensures r.tree() == self.tree(),
        decreases self,
    {
        match self {
            SceneValue::Bool(b) => SceneValue::Bool(*b),
            SceneValue::Char(c) => SceneValue::Char(*c),
            SceneValue::Number(n) => SceneValue::Number(*n),
            SceneValue::Text(s) => SceneValue::Text(s.clone()),
            SceneValue::Unit => SceneValue::Unit,
            SceneValue::Bytes(b) => SceneValue::Bytes(b.clone()),
            SceneValue::Opt(o) => match o {
                Some(b) => SceneValue::Opt(Some(Box::new((**b).deep_clone()))),
                None => SceneValue::Opt(None),
            },
            SceneValue::List(l) => {
                let mut out: Vec<SceneValue> = Vec::new();
                let mut i: usize = 0;
                while i < l.len()
                    invariant
                        i <= l.len(),
                        out@.len() == i,
                        forall|j: int| 0 <= j < i ==> #[trigger] out@[j].tree() == l@[j].tree(),
                    decreases l.len() - i,
                {
                    proof {
                        assert(decreases_to!(*self => *l));
                        assert(decreases_to!(*l => l@));
                        assert(decreases_to!(l@ => l@[i as int]));
                    }
                    out.push(l[i].deep_clone());
                    i = i + 1;
                }
                proof {
                    lemma_list_tree(out@);
                    lemma_list_tree(l@);
                    assert(list_tree(out@) =~= list_tree(l@));
                }
                SceneValue::List(out)
            },
            SceneValue::Dict(m) => {
                let mut out: Vec<(SceneValue, SceneValue)> = Vec::new();
                let mut i: usize = 0;
                while i < m.len()
                    invariant
                        i <= m.len(),
                        out@.len() == i,
                        forall|j: int| 0 <= j < i ==> #[trigger] out@[j].0.tree() == m@[j].0.tree() && out@[j].1.tree() == m@[j].1.tree(),
                    decreases m.len() - i,
                {
                    proof {
                        assert(decreases_to!(*self => *m));
                        assert(decreases_to!(*m => m@));
                        assert(decreases_to!(m@ => m@[i as int]));
                        assert(decreases_to!(m@[i as int] => m@[i as int].0));
                        assert(decreases_to!(m@[i as int] => m@[i as int].1));
                    }
                    let k = m[i].0.deep_clone();
                    let v = m[i].1.deep_clone();
                    out.push((k, v));
                    i = i + 1;
                }
                proof {
                    lemma_entries_tree(out@);
                    lemma_entries_tree(m@);
                    assert(entries_tree(out@) =~= entries_tree(m@));
                }
                SceneValue::Dict(out)
            },
        }
    }
}


/// The value stored under the text key `key` in a map's entries: the first such entry.
pub open spec fn tree_get(es: Seq<(Tree, Tree)>, key: Seq<char>) -> Option<Tree>
    decreases es.len(),
{
    if es.len() == 0 {
        None
    } else if es[0].0 == Tree::Text(key) {
        Some(es[0].1)
    } else {
        tree_get(es.drop_first(), key)
    }
}

/// The text stored under `key`, when the value there is text.
pub open spec fn tree_get_str(es: Seq<(Tree, Tree)>, key: Seq<char>) -> Option<Seq<char>> {
    match tree_get(es, key) {
        Some(Tree::Text(s)) => Some(s),
        _ => None,
    }
}

/// The text elements of a list of trees, in order; other elements are skipped.
pub open spec fn texts_of(s: Seq<Tree>) -> Seq<Seq<char>>
    decreases s.len(),
{
    if s.len() == 0 {
        Seq::empty()
    } else {
        let rest = texts_of(s.drop_first());
        match s[0] {
            Tree::Text(t) => seq![t] + rest,
            _ => rest,
        }
    }
}

/// The strings of a sequence value; any other value has none.
pub open spec fn tree_strings(v: Tree) -> Seq<Seq<char>> {
    match v {
        Tree::List(s) => texts_of(s),
        _ => Seq::empty(),
    }
}

/// The view of an optional borrowed value.
pub open spec fn opt_tree(o: Option<&SceneValue>) -> Option<Tree> {
    match o {
        Some(v) => Some(v@),
        None => None,
    }
}

/// Looks up the entry with the text key `key` in a map's entries.
pub fn get<'a>(map: &'a Vec<(SceneValue, SceneValue)>, key: &str) -> (r: Option<&'a SceneValue>)
    ensures
        opt_tree(r) == tree_get(entries_tree(map@), key@),
{
    let k: String = key.to_owned();
    let mut i: usize = 0;
    proof {
        lemma_entries_tree(map@);
        assert(entries_tree(map@).skip(0) =~= entries_tree(map@));
    }
    while i < map.len()
        invariant
            i <= map.len(),
            k@ == key@,
            entries_tree(map@).len() == map@.len(),
            forall|j: int| 0 <= j < map@.len() ==> #[trigger] entries_tree(map@)[j] == (map@[j].0@, map@[j].1@),
            tree_get(entries_tree(map@), key@) == tree_get(entries_tree(map@).skip(i as int), key@),
        decreases map.len() - i,
    {
        let ghost es = entries_tree(map@).skip(i as int);
        assert(es.drop_first() =~= entries_tree(map@).skip(i + 1));
        match &map[i].0 {
            SceneValue::Text(s) => {
                if *s == k {
                    return Some(&map[i].1);
                }
            },
            _ => {},
        }
        i = i + 1;
    }
    None
}

/// Looks up the text stored under `key`, when the value there is text.
pub fn get_str<'a>(map: &'a Vec<(SceneValue, SceneValue)>, key: &str) -> (r: Option<&'a str>)
    ensures
        match r {
            Some(s) => tree_get_str(entries_tree(map@), key@) == Some(s@),
            None => tree_get_str(entries_tree(map@), key@) is None,
        },
{
    match get(map, key) {
        Some(SceneValue::Text(s)) => Some(s.as_str()),
        _ => None,
    }
}

/// The strings held by a sequence value, in order, skipping elements that are not strings.
pub fn seq_strings(v: &SceneValue) -> (r: Vec<String>)
    ensures
        r@.map_values(|s: String| s@) == tree_strings(v@),
{
    match v {
        SceneValue::List(s) => {
            let mut out: Vec<String> = Vec::new();
            let mut i: usize = 0;
            proof {
                lemma_list_tree(s@);
                assert(list_tree(s@).skip(0) =~= list_tree(s@));
                assert(out@.map_values(|t: String| t@) =~= Seq::<Seq<char>>::empty());
            }
            while i < s.len()
                invariant
                    i <= s.len(),
                    list_tree(s@).len() == s@.len(),
                    forall|j: int| 0 <= j < s@.len() ==> #[trigger] list_tree(s@)[j] == s@[j]@,
                    texts_of(list_tree(s@)) == out@.map_values(|t: String| t@) + texts_of(list_tree(s@).skip(i as int)),
                decreases s.len() - i,
            {
                let ghost rest = list_tree(s@).skip(i as int);
                assert(rest.drop_first() =~= list_tree(s@).skip(i + 1));
                assert(rest[0] == s@[i as int]@);
                match &s[i] {
                    SceneValue::Text(t) => {
                        let ghost before = out@;
                        out.push(t.clone());
                        assert(out@.map_values(|t: String| t@) =~= before.map_values(|t: String| t@) + seq![t@]);
                    },
                    _ => {},
                }
                i = i + 1;
            }
            assert(list_tree(s@).skip(s@.len() as int) =~= Seq::<Tree>::empty());
            assert(out@.map_values(|t: String| t@) + Seq::<Seq<char>>::empty() =~= out@.map_values(|t: String| t@));
            out
        },
        _ => {
            let out: Vec<String> = Vec::new();
            assert(out@.map_values(|t: String| t@) =~= Seq::<Seq<char>>::empty());
            out
        },
    }
}

} // verus!
