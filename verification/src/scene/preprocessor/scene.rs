use vstd::prelude::*;
use crate::scene::preprocessor::defs::Defs;
use crate::scene::preprocessor::error::{Error, Fail};
use crate::scene::preprocessor::expand::{
    ExpandedPrimitive, LeafView, expand, expand_list, leaves, leaves_result, names,
};
use crate::scene::preprocessor::transform::Placement;
use crate::scene::preprocessor::value::{
    SceneValue, Tree, entries_tree, list_tree, lemma_entries_tree, lemma_list_tree, tree_get,
    tree_strings, get, seq_strings, distinct_keys,
};

verus! {

/// The definitions that a map of components makes: each entry with a text key
/// defines that name; a later entry of the same name wins.
pub open spec fn collect_map(es: Seq<(Tree, Tree)>) -> Map<Seq<char>, Tree>
    decreases es.len(),
{
    if es.len() == 0 {
        Map::empty()
    } else {
        let m = collect_map(es.drop_last());
        match es.last().0 {
            Tree::Text(k) => m.insert(k, es.last().1),
            _ => m,
        }
    }
}

/// The components that a parsed imported file contributes: those of its `components`
/// map, when it is a map that has one.
pub open spec fn components_of(v: Tree) -> Map<Seq<char>, Tree> {
    match v {
        Tree::Dict(m) => match tree_get(m, "components"@) {
            Some(Tree::Dict(d)) => collect_map(d),
            _ => Map::empty(),
        },
        _ => Map::empty(),
    }
}

/// The components of all imported files, a later file winning over an earlier one.
pub open spec fn imported_map(files: Seq<Tree>) -> Map<Seq<char>, Tree>
    decreases files.len(),
{
    if files.len() == 0 {
        Map::empty()
    } else {
        imported_map(files.drop_last()).union_prefer_right(components_of(files.last()))
    }
}

/// Among the imported files, the last one that defines a name gives its definition, and
/// a name that no imported file defines is not defined.
pub proof fn lemma_last_import_wins(files: Seq<Tree>, i: int, k: Seq<char>)
    requires
        0 <= i < files.len(),
    ensures
        components_of(files[i]).contains_key(k) && (forall|j: int|
            i < j < files.len() ==> !(#[trigger] components_of(files[j])).contains_key(k)) ==> {
            &&& imported_map(files).contains_key(k)
            &&& imported_map(files)[k] == components_of(files[i])[k]
        },
        (forall|j: int| 0 <= j < files.len() ==> !(#[trigger] components_of(files[j])).contains_key(k))
            ==> !imported_map(files).contains_key(k),
    decreases files.len(),
{
    let p = files.drop_last();
    assert(files.last() == files[files.len() - 1]);
    if i < files.len() - 1 {
        lemma_last_import_wins(p, i, k);
        assert(p[i] == files[i]);
        if forall|j: int| i < j < files.len() ==> !(#[trigger] components_of(files[j])).contains_key(k) {
            assert forall|j: int| i < j < p.len() implies !(#[trigger] components_of(p[j])).contains_key(k) by {
                assert(p[j] == files[j]);
            }
        }
        if forall|j: int| 0 <= j < files.len() ==> !(#[trigger] components_of(files[j])).contains_key(k) {
            assert forall|j: int| 0 <= j < p.len() implies !(#[trigger] components_of(p[j])).contains_key(k) by {
                assert(p[j] == files[j]);
            }
        }
    } else if p.len() > 0 {
        lemma_last_import_wins(p, 0, k);
        if forall|j: int| 0 <= j < files.len() ==> !(#[trigger] components_of(files[j])).contains_key(k) {
            assert forall|j: int| 0 <= j < p.len() implies !(#[trigger] components_of(p[j])).contains_key(k) by {
                assert(p[j] == files[j]);
            }
        }
    }
}

/// The entries of a map without those under the text key `key`.
pub open spec fn without(es: Seq<(Tree, Tree)>, key: Seq<char>) -> Seq<(Tree, Tree)>
    decreases es.len(),
{
    if es.len() == 0 {
        Seq::empty()
    } else if es[0].0 == Tree::Text(key) {
        without(es.drop_first(), key)
    } else {
        seq![es[0]] + without(es.drop_first(), key)
    }
}

/// How many entries not under `key` come before the first entry under `key`.
pub open spec fn slot_of(es: Seq<(Tree, Tree)>, key: Seq<char>) -> int
    decreases es.len(),
{
    if es.len() == 0 {
        0
    } else if es[0].0 == Tree::Text(key) {
        0
    } else {
        1 + slot_of(es.drop_first(), key)
    }
}

/// Whether a scene description uses components, so that it needs expanding.
pub open spec fn uses_components(root: Tree) -> bool {
    match root {
        Tree::Dict(es) => tree_get(es, "components"@) is Some,
        _ => false,
    }
}

/// A scene after preprocessing: its fields other than `primitives`, and the expanded
/// primitives, which stand at `primitives_at` among the fields.
pub struct ExpandedScene {
    pub fields: Vec<(SceneValue, SceneValue)>,
    pub primitives_at: usize,
    pub primitives: Vec<ExpandedPrimitive>,
}

/// The mathematical content of an [`ExpandedScene`].
pub struct SceneView {
    pub fields: Seq<(Tree, Tree)>,
    pub primitives_at: int,
    pub primitives: Seq<LeafView>,
}

impl View for ExpandedScene {
    type V = SceneView;

    open spec fn view(&self) -> SceneView {
        SceneView {
            fields: entries_tree(self.fields@),
            primitives_at: self.primitives_at as int,
            primitives: leaves(self.primitives@),
        }
    }
}

/// The primitives that a scene lists: its `primitives` sequence, or none.
pub open spec fn scene_primitives(es: Seq<(Tree, Tree)>) -> Seq<Tree> {
    match tree_get(es, "primitives"@) {
        Some(Tree::List(p)) => p,
        _ => Seq::empty(),
    }
}

/// The definitions that a scene's own components add to the imported ones.
pub open spec fn scene_defs(es: Seq<(Tree, Tree)>, imported: Map<Seq<char>, Tree>) -> Map<Seq<char>, Tree> {
    match tree_get(es, "components"@) {
        Some(Tree::Dict(d)) => imported.union_prefer_right(collect_map(d)),
        _ => imported,
    }
}

/// In a map of components, the last entry under a name is the definition of that name.
pub proof fn lemma_collect_map_last_entry(d: Seq<(Tree, Tree)>, i: int, k: Seq<char>)
    requires
        0 <= i < d.len(),
        d[i].0 == Tree::Text(k),
        forall|j: int| i < j < d.len() ==> d[j].0 != Tree::Text(k),
    ensures
        collect_map(d).contains_key(k),
        collect_map(d)[k] == d[i].1,
    decreases d.len(),
{
    if i < d.len() - 1 {
        let p = d.drop_last();
        assert forall|j: int| i < j < p.len() implies p[j].0 != Tree::Text(k) by {
            assert(p[j] == d[j]);
        }
        lemma_collect_map_last_entry(p, i, k);
        assert(p[i] == d[i]);
        assert(d.last().0 != Tree::Text(k));
    }
}

/// A name defined by the scene's own components keeps the scene's definition, whatever
/// the imports define under it: the last entry of that name in the scene's `components`
/// map is the definition used. A name the scene does not define keeps the imported one.
pub proof fn lemma_local_components_win(
    es: Seq<(Tree, Tree)>,
    d: Seq<(Tree, Tree)>,
    imported: Map<Seq<char>, Tree>,
    i: int,
    k: Seq<char>,
)
    requires
        tree_get(es, "components"@) == Some(Tree::Dict(d)),
        0 <= i < d.len(),
        d[i].0 == Tree::Text(k),
        forall|j: int| i < j < d.len() ==> d[j].0 != Tree::Text(k),
    ensures
        scene_defs(es, imported).contains_key(k),
        scene_defs(es, imported)[k] == d[i].1,
        forall|n: Seq<char>|
            (forall|j: int| 0 <= j < d.len() ==> d[j].0 != Tree::Text(n)) && imported.contains_key(n)
                ==> #[trigger] scene_defs(es, imported).contains_key(n) && scene_defs(es, imported)[n] == imported[n],
{
    lemma_collect_map_last_entry(d, i, k);
    assert forall|n: Seq<char>|
        (forall|j: int| 0 <= j < d.len() ==> d[j].0 != Tree::Text(n)) && imported.contains_key(n)
            implies #[trigger] scene_defs(es, imported).contains_key(n) && scene_defs(es, imported)[n] == imported[n] by {
        lemma_collect_map_absent(d, n);
    }
}

/// A name that no entry of a map of components carries is not defined by it.
pub proof fn lemma_collect_map_absent(d: Seq<(Tree, Tree)>, n: Seq<char>)
    requires
        forall|j: int| 0 <= j < d.len() ==> d[j].0 != Tree::Text(n),
    ensures
        !collect_map(d).contains_key(n),
    decreases d.len(),
{
    if d.len() > 0 {
        let p = d.drop_last();
        assert forall|j: int| 0 <= j < p.len() implies p[j].0 != Tree::Text(n) by {
            assert(p[j] == d[j]);
        }
        lemma_collect_map_absent(p, n);
        assert(d.last() == d[d.len() - 1]);
    }
}

/// The fields that remain of a scene once components and imports are taken out, with an
/// empty `lights` sequence added when it has none.
pub open spec fn scene_fields(es: Seq<(Tree, Tree)>) -> Seq<(Tree, Tree)> {
    let rest = without(without(without(es, "components"@), "imports"@), "primitives"@);
    if tree_get(es, "lights"@) is None {
        rest.push((Tree::Text("lights"@), Tree::List(Seq::empty())))
    } else {
        rest
    }
}

/// Taking out the entries under `key` leaves nothing under `key` and every other field
/// as it was.
pub proof fn lemma_without(es: Seq<(Tree, Tree)>, key: Seq<char>, k: Seq<char>)
    ensures
        tree_get(without(es, key), k) == if k == key {
            None
        } else {
            tree_get(es, k)
        },
    decreases es.len(),
{
    if es.len() > 0 {
        lemma_without(es.drop_first(), key, k);
        if es[0].0 != Tree::Text(key) {
            let w = without(es.drop_first(), key);
            assert((seq![es[0]] + w).drop_first() =~= w);
            assert((seq![es[0]] + w)[0] == es[0]);
        }
    }
}

/// Taking out the entries under `key` keeps the others, in order, and so keeps their keys
/// distinct.
proof fn lemma_without_entries(es: Seq<(Tree, Tree)>, key: Seq<char>)
    ensures
        forall|j: int| 0 <= j < without(es, key).len() ==> es.contains(#[trigger] without(es, key)[j]),
        distinct_keys(es) ==> distinct_keys(without(es, key)),
    decreases es.len(),
{
    if es.len() > 0 {
        let t = es.drop_first();
        let w = without(t, key);
        lemma_without_entries(t, key);
        assert forall|j: int| 0 <= j < w.len() implies es.contains(#[trigger] w[j]) by {
            let i = choose|i: int| 0 <= i < t.len() && t[i] == w[j];
            assert(es[i + 1] == t[i]);
        }
        if es[0].0 != Tree::Text(key) {
            let r = seq![es[0]] + w;
            assert forall|j: int| 0 <= j < r.len() implies es.contains(#[trigger] r[j]) by {
                if j > 0 {
                    assert(r[j] == w[j - 1]);
                }
            }
            if distinct_keys(es) {
                assert(distinct_keys(t)) by {
                    assert forall|a: int, b: int| 0 <= a < b < t.len() implies t[a].0 != t[b].0 by {
                        assert(t[a] == es[a + 1] && t[b] == es[b + 1]);
                    }
                }
                assert forall|a: int, b: int| 0 <= a < b < r.len() implies r[a].0 != r[b].0 by {
                    assert(r[b] == w[b - 1]);
                    if a == 0 {
                        let i = choose|i: int| 0 <= i < t.len() && t[i] == w[b - 1];
                        assert(es[i + 1] == t[i]);
                    } else {
                        assert(r[a] == w[a - 1]);
                    }
                }
            }
        } else if distinct_keys(es) {
            assert forall|a: int, b: int| 0 <= a < b < t.len() implies t[a].0 != t[b].0 by {
                assert(t[a] == es[a + 1] && t[b] == es[b + 1]);
            }
        }
    }
}

/// A name that `tree_get` does not find is the key of no entry.
proof fn lemma_tree_get_none(es: Seq<(Tree, Tree)>, k: Seq<char>)
    requires
        tree_get(es, k) is None,
    ensures
        forall|j: int| 0 <= j < es.len() ==> (#[trigger] es[j]).0 != Tree::Text(k),
    decreases es.len(),
{
    if es.len() > 0 {
        lemma_tree_get_none(es.drop_first(), k);
        assert forall|j: int| 0 <= j < es.len() implies (#[trigger] es[j]).0 != Tree::Text(k) by {
            if j > 0 {
                assert(es[j] == es.drop_first()[j - 1]);
            }
        }
    }
}

/// A field added at the end is found only where no earlier entry has its name.
proof fn lemma_tree_get_push(es: Seq<(Tree, Tree)>, e: (Tree, Tree), k: Seq<char>)
    ensures
        tree_get(es.push(e), k) == match tree_get(es, k) {
            Some(v) => Some(v),
            None => if e.0 == Tree::Text(k) {
                Some(e.1)
            } else {
                None
            },
        },
    decreases es.len(),
{
    if es.len() > 0 {
        assert(es.push(e).drop_first() =~= es.drop_first().push(e));
        assert(es.push(e)[0] == es[0]);
        lemma_tree_get_push(es.drop_first(), e, k);
        if es[0].0 != Tree::Text(k) {
            assert(tree_get(es.push(e), k) == tree_get(es.drop_first().push(e), k));
            assert(tree_get(es, k) == tree_get(es.drop_first(), k));
        }
    } else {
        assert(es.push(e).drop_first() =~= Seq::<(Tree, Tree)>::empty());
        assert(es.push(e)[0] == e);
        assert(tree_get(es.push(e).drop_first(), k) is None);
        assert(tree_get(es, k) is None);
    }
}

/// The fields kept of a scene have no `components`, `imports` or `primitives` entry; the
/// `lights` entry is the scene's own where it has one and an empty sequence where it has
/// none; every other field is the scene's own; and where the scene's keys are distinct,
/// so are those of the kept fields, so no entry is ever doubled.
pub proof fn lemma_scene_fields(es: Seq<(Tree, Tree)>, k: Seq<char>)
    ensures
        tree_get(scene_fields(es), "components"@) is None,
        tree_get(scene_fields(es), "imports"@) is None,
        tree_get(scene_fields(es), "primitives"@) is None,
        tree_get(scene_fields(es), "lights"@) == match tree_get(es, "lights"@) {
            Some(v) => Some(v),
            None => Some(Tree::List(Seq::empty())),
        },
        k != "components"@ && k != "imports"@ && k != "primitives"@ && k != "lights"@ ==> tree_get(
            scene_fields(es),
            k,
        ) == tree_get(es, k),
        distinct_keys(es) ==> distinct_keys(scene_fields(es)),
{
    reveal_strlit("components");
    reveal_strlit("imports");
    reveal_strlit("primitives");
    reveal_strlit("lights");
    assert("components"@.len() == 10 && "imports"@.len() == 7 && "primitives"@.len() == 10 && "lights"@.len() == 6);
    assert("components"@ != "primitives"@) by {
        assert("components"@[0] != "primitives"@[0]);
    }
    let w1 = without(es, "components"@);
    let w2 = without(w1, "imports"@);
    let rest = without(w2, "primitives"@);
    let lights = (Tree::Text("lights"@), Tree::List(Seq::<Tree>::empty()));
    let names = seq!["components"@, "imports"@, "primitives"@, "lights"@, k];
    assert forall|i: int| 0 <= i < names.len() implies tree_get(rest, #[trigger] names[i]) == if names[i] == "components"@
        || names[i] == "imports"@ || names[i] == "primitives"@ {
        None
    } else {
        tree_get(es, names[i])
    } by {
        let n = names[i];
        lemma_without(es, "components"@, n);
        lemma_without(w1, "imports"@, n);
        lemma_without(w2, "primitives"@, n);
    }
    assert(names[0] == "components"@ && names[1] == "imports"@ && names[2] == "primitives"@);
    assert(names[3] == "lights"@ && names[4] == k);
    lemma_without_entries(es, "components"@);
    lemma_without_entries(w1, "imports"@);
    lemma_without_entries(w2, "primitives"@);
    if tree_get(es, "lights"@) is None {
        assert(tree_get(rest, names[3]) is None);
        lemma_tree_get_none(rest, "lights"@);
        if distinct_keys(rest) {
            let r = rest.push(lights);
            assert forall|a: int, b: int| 0 <= a < b < r.len() implies r[a].0 != r[b].0 by {
                assert(r[a] == rest[a]);
                if b < rest.len() {
                    assert(r[b] == rest[b]);
                }
            }
        }
        lemma_tree_get_push(rest, lights, "components"@);
        lemma_tree_get_push(rest, lights, "imports"@);
        lemma_tree_get_push(rest, lights, "primitives"@);
        lemma_tree_get_push(rest, lights, "lights"@);
        lemma_tree_get_push(rest, lights, k);
    }
}

/// The whole preprocessing of a scene that uses components, given the components of its
/// imports: the scene's fields, and its primitives expanded, or the first error.
pub open spec fn preprocess_scene(es: Seq<(Tree, Tree)>, imported: Map<Seq<char>, Tree>) -> Result<SceneView, Fail> {
    let defs = scene_defs(es, imported);
    let r = expand_list(scene_primitives(es), Seq::empty(), Map::empty(), defs, Seq::empty()).0;
    match r {
        Ok(prims) => Ok(
            SceneView {
                fields: scene_fields(es),
                primitives_at: slot_of(without(without(es, "components"@), "imports"@), "primitives"@),
                primitives: prims,
            },
        ),
        Err(e) => Err(e),
    }
}

/// Whether a parsed scene description uses components; one that does not is left as it is.
pub fn needs_expansion(root: &SceneValue) -> (b: bool)
    ensures
        b == uses_components(root@),
{
    match root {
        SceneValue::Dict(m) => get(m, "components").is_some(),
        _ => false,
    }
}

/// The paths of the files that a scene imports, in order.
pub fn import_paths(root: &SceneValue) -> (r: Vec<String>)
    ensures
        names(r@) == match root@ {
            Tree::Dict(es) => match tree_get(es, "imports"@) {
                Some(v) => tree_strings(v),
                None => Seq::empty(),
            },
            _ => Seq::empty(),
        },
{
    match root {
        SceneValue::Dict(m) => match get(m, "imports") {
            Some(v) => seq_strings(v),
            None => {
                let r: Vec<String> = Vec::new();
                assert(names(r@) =~= Seq::<Seq<char>>::empty());
                r
            },
        },
        _ => {
            let r: Vec<String> = Vec::new();
            assert(names(r@) =~= Seq::<Seq<char>>::empty());
            r
        },
    }
}

/// The definitions made by a map of components.
pub fn collect_defs(map: &Vec<(SceneValue, SceneValue)>) -> (d: Defs)
    ensures
        d@ == collect_map(entries_tree(map@)),
{
    let mut d = Defs::new();
    let mut i: usize = 0;
    let ghost es = entries_tree(map@);
    proof {
        lemma_entries_tree(map@);
        assert(es.take(0) =~= Seq::<(Tree, Tree)>::empty());
    }
    while i < map.len()
        invariant
            i <= map.len(),
            es == entries_tree(map@),
            es.len() == map@.len(),
            forall|j: int| 0 <= j < map@.len() ==> #[trigger] es[j] == (map@[j].0@, map@[j].1@),
            d@ == collect_map(es.take(i as int)),
        decreases map.len() - i,
    {
        proof {
            assert(es.take(i + 1).drop_last() =~= es.take(i as int));
        }
        match &map[i].0 {
            SceneValue::Text(k) => {
                d.insert(k.clone(), map[i].1.deep_clone());
            },
            _ => {},
        }
        i = i + 1;
    }
    proof {
        assert(es.take(map@.len() as int) =~= es);
    }
    d
}

/// The components of the imported files, given their parsed contents in import order.
pub fn load_imports(files: &Vec<SceneValue>) -> (d: Defs)
    ensures
        d@ == imported_map(list_tree(files@)),
{
    let mut d = Defs::new();
    let mut i: usize = 0;
    let ghost all = list_tree(files@);
    proof {
        lemma_list_tree(files@);
        assert(all.take(0) =~= Seq::<Tree>::empty());
    }
    while i < files.len()
        invariant
            i <= files.len(),
            all == list_tree(files@),
            all.len() == files@.len(),
            forall|j: int| 0 <= j < files@.len() ==> #[trigger] all[j] == files@[j]@,
            d@ == imported_map(all.take(i as int)),
        decreases files.len() - i,
    {
        proof {
            assert(all.take(i + 1).drop_last() =~= all.take(i as int));
        }
        match &files[i] {
            SceneValue::Dict(m) => match get(m, "components") {
                Some(SceneValue::Dict(c)) => {
                    d.extend(collect_defs(c));
                },
                _ => {
                    assert(d@.union_prefer_right(Map::empty()) =~= d@);
                },
            },
            _ => {
                assert(d@.union_prefer_right(Map::empty()) =~= d@);
            },
        }
        i = i + 1;
    }
    proof {
        assert(all.take(files@.len() as int) =~= all);
    }
    d
}

/// The entries of a map without those under `key`, and how many come before the first
/// entry under `key`.
fn remove_key(map: Vec<(SceneValue, SceneValue)>, key: &str) -> (r: (Vec<(SceneValue, SceneValue)>, usize))
    ensures
        entries_tree(r.0@) == without(entries_tree(map@), key@),
        r.1 as int == slot_of(entries_tree(map@), key@),
{
    let k: String = key.to_owned();
    let mut kept: Vec<(SceneValue, SceneValue)> = Vec::new();
    let mut slot: Option<usize> = None;
    let mut i: usize = 0;
    let ghost es = entries_tree(map@);
    proof {
        lemma_entries_tree(map@);
        assert(es.skip(0) =~= es);
        assert(entries_tree(kept@) =~= Seq::<(Tree, Tree)>::empty());
    }
    while i < map.len()
        invariant
            i <= map.len(),
            k@ == key@,
            es == entries_tree(map@),
            es.len() == map@.len(),
            forall|j: int| 0 <= j < map@.len() ==> #[trigger] es[j] == (map@[j].0@, map@[j].1@),
            without(es, key@) == entries_tree(kept@) + without(es.skip(i as int), key@),
            kept@.len() <= i,
            match slot {
                Some(a) => a as int == slot_of(es, key@),
                None => slot_of(es, key@) == kept@.len() + slot_of(es.skip(i as int), key@),
            },
        decreases map.len() - i,
    {
        let ghost rest = es.skip(i as int);
        assert(rest.drop_first() =~= es.skip(i + 1));
        assert(rest[0] == es[i as int]);
        let is_key = match &map[i].0 {
            SceneValue::Text(s) => *s == k,
            _ => false,
        };
        if is_key {
            if slot.is_none() {
                slot = Some(kept.len());
            }
        } else {
            let ghost before = kept@;
            kept.push((map[i].0.deep_clone(), map[i].1.deep_clone()));
            proof {
                lemma_entries_tree(before);
                lemma_entries_tree(kept@);
                assert(entries_tree(kept@) =~= entries_tree(before) + seq![es[i as int]]);
                assert(entries_tree(before) + (seq![es[i as int]] + without(rest.drop_first(), key@))
                    =~= entries_tree(kept@) + without(rest.drop_first(), key@));
            }
        }
        i = i + 1;
    }
    proof {
        assert(es.skip(map@.len() as int) =~= Seq::<(Tree, Tree)>::empty());
        assert(entries_tree(kept@) + Seq::<(Tree, Tree)>::empty() =~= entries_tree(kept@));
    }
    match slot {
        Some(a) => (kept, a),
        None => {
            let n = kept.len();
            (kept, n)
        },
    }
}

/// Expands a scene that uses components, given the components of its imports: takes
/// out its components and imports, expands its primitives with all the definitions, and
/// gives it an empty `lights` sequence when it has none.
pub fn preprocess(root: Vec<(SceneValue, SceneValue)>, imported: Defs) -> (r: Result<ExpandedScene, Error>)
    requires
        uses_components(Tree::Dict(entries_tree(root@))),
        distinct_keys(entries_tree(root@)),
    ensures
        match r {
            Ok(s) => preprocess_scene(entries_tree(root@), imported@) == Ok::<SceneView, Fail>(s@),
            Err(e) => preprocess_scene(entries_tree(root@), imported@) == Err::<SceneView, Fail>(e@),
        },
{
    let ghost es = entries_tree(root@);
    let mut defs = imported;
    match get(&root, "components") {
        Some(SceneValue::Dict(c)) => {
            defs.extend(collect_defs(c));
        },
        _ => {},
    }
    let primitives: Vec<SceneValue> = match get(&root, "primitives") {
        Some(SceneValue::List(p)) => {
            let mut out: Vec<SceneValue> = Vec::new();
            let mut i: usize = 0;
            proof {
                lemma_list_tree(p@);
            }
            while i < p.len()
                invariant
                    i <= p.len(),
                    out@.len() == i,
                    forall|j: int| 0 <= j < i ==> #[trigger] out@[j]@ == p@[j]@,
                decreases p.len() - i,
            {
                out.push(p[i].deep_clone());
                i = i + 1;
            }
            proof {
                lemma_list_tree(out@);
                lemma_list_tree(p@);
                assert(out@.len() == p@.len());
                assert forall|j: int| 0 <= j < p@.len() implies list_tree(out@)[j] == list_tree(p@)[j] by {
                    assert(out@[j]@ == p@[j]@);
                }
                assert(list_tree(out@) =~= list_tree(p@));
            }
            out
        },
        _ => {
            let out: Vec<SceneValue> = Vec::new();
            proof {
                lemma_list_tree(out@);
                assert(list_tree(out@) =~= Seq::<Tree>::empty());
            }
            out
        },
    };
    let has_lights = get(&root, "lights").is_some();
    let (a, _) = remove_key(root, "components");
    let (b, _) = remove_key(a, "imports");
    let (mut fields, at) = remove_key(b, "primitives");
    if !has_lights {
        let ghost before = fields@;
        fields.push((SceneValue::Text("lights".to_owned()), SceneValue::List(Vec::new())));
        proof {
            lemma_entries_tree(before);
            lemma_entries_tree(fields@);
            lemma_list_tree(fields@[fields@.len() - 1].1->List_0@);
            assert(entries_tree(fields@) =~= entries_tree(before).push((Tree::Text("lights"@), Tree::List(Seq::empty()))));
        }
    }
    let outer: Vec<Placement> = Vec::new();
    let props = Defs::new();
    let mut stack: Vec<String> = Vec::new();
    proof {
        assert(names(stack@) =~= Seq::<Seq<char>>::empty());
    }
    match expand(&primitives, &outer, &props, &defs, &mut stack) {
        Ok(p) => Ok(ExpandedScene { fields, primitives_at: at, primitives: p }),
        Err(e) => Err(e),
    }
}

} // verus!
