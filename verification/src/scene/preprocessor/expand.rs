use vstd::prelude::*;
use crate::scene::preprocessor::defs::Defs;
use crate::scene::preprocessor::error::{Error, Fail};
use crate::scene::preprocessor::resolve::{
    resolve, resolve_tree, prepend, lemma_resolve_tree_fails_on_ref, lemma_reference_lookup,
};
use crate::scene::preprocessor::transform::{Placement, placement_of, transform_from_map, compose};
use crate::scene::preprocessor::value::{
    SceneValue, Tree, entries_tree, list_tree, lemma_entries_tree, lemma_list_tree, tree_get,
    tree_get_str, tree_strings, get, get_str, seq_strings, texts_of,
};

verus! {

/// A primitive after expansion: its fields with references resolved, and the chain of
/// placements, outermost first, that its `transform` field is the composition of.
pub struct ExpandedPrimitive {
    /// The primitive's fields except `transform`, in order, values resolved.
    pub fields: Vec<(SceneValue, SceneValue)>,
    /// Where among `fields` the `transform` field stands.
    pub transform_at: usize,
    /// The placements, outermost first, whose composition is the primitive's transform.
    pub transform: Vec<Placement>,
}

/// The mathematical content of an [`ExpandedPrimitive`].
pub struct LeafView {
    pub fields: Seq<(Tree, Tree)>,
    pub transform_at: int,
    pub transform: Seq<Placement>,
}

impl View for ExpandedPrimitive {
    type V = LeafView;

    open spec fn view(&self) -> LeafView {
        LeafView {
            fields: entries_tree(self.fields@),
            transform_at: self.transform_at as int,
            transform: self.transform@,
        }
    }
}

/// The views of the strings of a stack of component names.
pub open spec fn names(s: Seq<String>) -> Seq<Seq<char>> {
    s.map_values(|x: String| x@)
}

/// The views of a sequence of expanded primitives.
pub open spec fn leaves(s: Seq<ExpandedPrimitive>) -> Seq<LeafView> {
    s.map_values(|x: ExpandedPrimitive| x@)
}

/// The view of the result of an expansion.
pub open spec fn leaves_result(r: Result<Vec<ExpandedPrimitive>, Error>) -> Result<Seq<LeafView>, Fail> {
    match r {
        Ok(v) => Ok(leaves(v@)),
        Err(e) => Err(e@),
    }
}

/// The placement that a primitive's own `transform` field gives; zero unless it is a map.
pub open spec fn own_placement(es: Seq<(Tree, Tree)>) -> Placement {
    match tree_get(es, "transform"@) {
        Some(Tree::Dict(m)) => placement_of(m),
        _ => Placement { translation: None, rotation: None },
    }
}

/// Whether a map entry is the `transform` field.
pub open spec fn is_transform_key(k: Tree) -> bool {
    k == Tree::Text("transform"@)
}

/// The fields of a primitive other than `transform`, in order, with values resolved.
pub open spec fn leaf_fields(
    es: Seq<(Tree, Tree)>,
    props: Map<Seq<char>, Tree>,
    defs: Map<Seq<char>, Tree>,
) -> Result<Seq<(Tree, Tree)>, Fail>
    decreases es.len(),
{
    if es.len() == 0 {
        Ok(Seq::empty())
    } else if is_transform_key(es[0].0) {
        leaf_fields(es.drop_first(), props, defs)
    } else {
        match resolve_tree(es[0].1, props, defs) {
            Err(e) => Err(e),
            Ok(r) => prepend(seq![(es[0].0, r)], leaf_fields(es.drop_first(), props, defs)),
        }
    }
}

/// How many fields other than `transform` come before the first `transform` field
/// (all of them when there is none).
pub open spec fn transform_slot(es: Seq<(Tree, Tree)>) -> int
    decreases es.len(),
{
    if es.len() == 0 {
        0
    } else if is_transform_key(es[0].0) {
        0
    } else {
        1 + transform_slot(es.drop_first())
    }
}

/// The primitives of a component definition and the props it declares, when `kind`
/// names a definition that is a map with a `primitives` sequence.
pub open spec fn component_of(defs: Map<Seq<char>, Tree>, kind: Seq<char>) -> Option<(Seq<Tree>, Seq<Seq<char>>)> {
    if defs.contains_key(kind) {
        match defs[kind] {
            Tree::Dict(d) => match tree_get(d, "primitives"@) {
                Some(Tree::List(inner)) => Some(
                    (
                        inner,
                        match tree_get(d, "props"@) {
                            Some(v) => tree_strings(v),
                            None => Seq::empty(),
                        },
                    ),
                ),
                _ => None,
            },
            _ => None,
        }
    } else {
        None
    }
}

/// The props given at a component's use: the `props` map of the primitive, if any.
pub open spec fn callsite_of(es: Seq<(Tree, Tree)>) -> Option<Seq<(Tree, Tree)>> {
    match tree_get(es, "props"@) {
        Some(Tree::Dict(m)) => Some(m),
        _ => None,
    }
}

/// The declared props of a component, each taken from the use site and resolved in the
/// enclosing scope, added in order to `acc`; the first missing or failing one is the error.
pub open spec fn resolve_props(
    decl: Seq<Seq<char>>,
    callsite: Option<Seq<(Tree, Tree)>>,
    kind: Seq<char>,
    props: Map<Seq<char>, Tree>,
    defs: Map<Seq<char>, Tree>,
    acc: Map<Seq<char>, Tree>,
) -> Result<Map<Seq<char>, Tree>, Fail>
    decreases decl.len(),
{
    if decl.len() == 0 {
        Ok(acc)
    } else {
        let p = decl[0];
        let raw = match callsite {
            Some(m) => tree_get(m, p),
            None => None,
        };
        match raw {
            None => Err(Fail::MissingProp(kind, p)),
            Some(r) => match resolve_tree(r, props, defs) {
                Err(e) => Err(e),
                Ok(v) => resolve_props(decl.drop_first(), callsite, kind, props, defs, acc.insert(p, v)),
            },
        }
    }
}

/// What remains to expand: the definitions not yet on the stack.
pub open spec fn unvisited(defs: Map<Seq<char>, Tree>, stack: Seq<Seq<char>>) -> nat {
    defs.dom().difference(stack.to_set()).len()
}

/// Expands a sequence of primitives placed by `chain`, under `props`, with the components
/// of `defs`, while the components on `stack` are being expanded. The result is the leaf
/// primitives in order, or the first error, and the stack as it is left.
pub open spec fn expand_list(
    prims: Seq<Tree>,
    chain: Seq<Placement>,
    props: Map<Seq<char>, Tree>,
    defs: Map<Seq<char>, Tree>,
    stack: Seq<Seq<char>>,
) -> (Result<Seq<LeafView>, Fail>, Seq<Seq<char>>)
    decreases unvisited(defs, stack), prims.len(),
    when defs.dom().finite()
{
    if prims.len() == 0 {
        (Ok(Seq::empty()), stack)
    } else {
        let (r1, s1) = expand_one(prims[0], chain, props, defs, stack);
        match r1 {
            Err(e) => (Err(e), s1),
            Ok(l1) => {
                let (r2, s2) = expand_list(prims.drop_first(), chain, props, defs, stack);
                (prepend(l1, r2), s2)
            },
        }
    }
}

/// Expands one primitive: a use of a component is replaced by the component's primitives,
/// expanded in turn; any other primitive is a leaf.
pub open spec fn expand_one(
    prim: Tree,
    chain: Seq<Placement>,
    props: Map<Seq<char>, Tree>,
    defs: Map<Seq<char>, Tree>,
    stack: Seq<Seq<char>>,
) -> (Result<Seq<LeafView>, Fail>, Seq<Seq<char>>)
    decreases unvisited(defs, stack), 0int,
    when defs.dom().finite()
{
    match prim {
        Tree::Dict(es) => match tree_get_str(es, "kind"@) {
            None => (Err(Fail::InvalidStructure("primitive missing 'kind'"@)), stack),
            Some(kind) => {
                let composed = chain.push(own_placement(es));
                match component_of(defs, kind) {
                    Some((inner, decl)) => {
                        if stack.contains(kind) {
                            (Err(Fail::CyclicDependency(stack.push(kind))), stack)
                        } else {
                            match resolve_props(decl, callsite_of(es), kind, props, defs, Map::empty()) {
                                Err(e) => (Err(e), stack),
                                Ok(rp) => {
                                    proof {
                                        broadcast use vstd::seq_lib::group_seq_properties;
                                        stack.lemma_push_to_set_commute(kind);
                                        defs.dom().lemma_set_insert_diff_decreases(stack.to_set(), kind);
                                    }
                                    let (r, s) = expand_list(inner, composed, rp, defs, stack.push(kind));
                                    match r {
                                        Ok(l) => (Ok(l), s.drop_last()),
                                        Err(e) => (Err(e), s),
                                    }
                                }
                            }
                        }
                    },
                    None => match leaf_fields(es, props, defs) {
                        Ok(f) => (
                            Ok(seq![LeafView { fields: f, transform_at: transform_slot(es), transform: composed }]),
                            stack,
                        ),
                        Err(e) => (Err(e), stack),
                    },
                }
            },
        },
        _ => (Err(Fail::InvalidStructure("primitive must be a map"@)), stack),
    }
}


/// A successful expansion leaves the stack as it found it.
pub proof fn lemma_expand_list_stack(
    prims: Seq<Tree>,
    chain: Seq<Placement>,
    props: Map<Seq<char>, Tree>,
    defs: Map<Seq<char>, Tree>,
    stack: Seq<Seq<char>>,
)
    requires
        defs.dom().finite(),
    ensures
        expand_list(prims, chain, props, defs, stack).0 is Ok ==> expand_list(prims, chain, props, defs, stack).1 == stack,
    decreases unvisited(defs, stack), prims.len(),
{
    if prims.len() > 0 {
        lemma_expand_one_stack(prims[0], chain, props, defs, stack);
        lemma_expand_list_stack(prims.drop_first(), chain, props, defs, stack);
    }
}

/// A successful expansion of one primitive leaves the stack as it found it.
pub proof fn lemma_expand_one_stack(
    prim: Tree,
    chain: Seq<Placement>,
    props: Map<Seq<char>, Tree>,
    defs: Map<Seq<char>, Tree>,
    stack: Seq<Seq<char>>,
)
    requires
        defs.dom().finite(),
    ensures
        expand_one(prim, chain, props, defs, stack).0 is Ok ==> expand_one(prim, chain, props, defs, stack).1 == stack,
    decreases unvisited(defs, stack), 0int,
{
    match prim {
        Tree::Dict(es) => match tree_get_str(es, "kind"@) {
            None => {},
            Some(kind) => {
                let composed = chain.push(own_placement(es));
                match component_of(defs, kind) {
                    Some((inner, decl)) => {
                        if !stack.contains(kind) {
                            match resolve_props(decl, callsite_of(es), kind, props, defs, Map::empty()) {
                                Err(e) => {},
                                Ok(rp) => {
                                    broadcast use vstd::seq_lib::group_seq_properties;
                                    stack.lemma_push_to_set_commute(kind);
                                    defs.dom().lemma_set_insert_diff_decreases(stack.to_set(), kind);
                                    lemma_expand_list_stack(inner, composed, rp, defs, stack.push(kind));
                                    let s = expand_list(inner, composed, rp, defs, stack.push(kind)).1;
                                    if expand_list(inner, composed, rp, defs, stack.push(kind)).0 is Ok {
                                        assert(s.drop_last() =~= stack);
                                    }
                                },
                            }
                        }
                    },
                    None => {},
                }
            },
        },
        _ => {},
    }
}

/// Reading a leaf's fields fails only on a reference to nothing.
proof fn lemma_leaf_fields_fail(es: Seq<(Tree, Tree)>, props: Map<Seq<char>, Tree>, defs: Map<Seq<char>, Tree>)
    ensures
        leaf_fields(es, props, defs) matches Err(e) ==> e is UndefinedRef,
    decreases es.len(),
{
    if es.len() > 0 {
        lemma_resolve_tree_fails_on_ref(es[0].1, props, defs);
        lemma_leaf_fields_fail(es.drop_first(), props, defs);
    }
}

/// Taking a component's props fails only on a missing prop or a reference to nothing.
proof fn lemma_resolve_props_fail(
    decl: Seq<Seq<char>>,
    callsite: Option<Seq<(Tree, Tree)>>,
    kind: Seq<char>,
    props: Map<Seq<char>, Tree>,
    defs: Map<Seq<char>, Tree>,
    acc: Map<Seq<char>, Tree>,
)
    ensures
        resolve_props(decl, callsite, kind, props, defs, acc) matches Err(e) ==> !(e is CyclicDependency),
    decreases decl.len(),
{
    if decl.len() > 0 {
        let p = decl[0];
        let raw = match callsite {
            Some(m) => tree_get(m, p),
            None => None,
        };
        match raw {
            None => {},
            Some(r) => {
                lemma_resolve_tree_fails_on_ref(r, props, defs);
                match resolve_tree(r, props, defs) {
                    Err(e) => {},
                    Ok(v) => lemma_resolve_props_fail(decl.drop_first(), callsite, kind, props, defs, acc.insert(p, v)),
                }
            },
        }
    }
}

/// The value given for the prop `p` at a component's use, if any.
pub open spec fn given_value(callsite: Option<Seq<(Tree, Tree)>>, p: Seq<char>) -> Option<Tree> {
    match callsite {
        Some(c) => tree_get(c, p),
        None => None,
    }
}

/// Whether the prop `p` is given a value at a component's use that resolves with the
/// props `props` and the definitions `defs`.
pub open spec fn given_resolves(
    callsite: Option<Seq<(Tree, Tree)>>,
    p: Seq<char>,
    props: Map<Seq<char>, Tree>,
    defs: Map<Seq<char>, Tree>,
) -> bool {
    given_value(callsite, p) matches Some(raw) && resolve_tree(raw, props, defs) is Ok
}

/// Each declared prop is bound to the value given for it at the component's use, resolved
/// in the enclosing scope: with the enclosing props `props` and the definitions `defs`.
/// Taking the props succeeds exactly when every declared prop is given a value there that
/// resolves in that scope; names that are not declared keep what `acc` held.
pub proof fn lemma_props_bound_in_enclosing_scope(
    decl: Seq<Seq<char>>,
    callsite: Option<Seq<(Tree, Tree)>>,
    kind: Seq<char>,
    props: Map<Seq<char>, Tree>,
    defs: Map<Seq<char>, Tree>,
    acc: Map<Seq<char>, Tree>,
)
    ensures
        resolve_props(decl, callsite, kind, props, defs, acc) is Ok <==> (forall|i: int|
            0 <= i < decl.len() ==> #[trigger] given_resolves(callsite, decl[i], props, defs)),
        resolve_props(decl, callsite, kind, props, defs, acc) matches Ok(m) ==> {
            &&& forall|i: int|
                0 <= i < decl.len() ==> {
                    &&& #[trigger] given_value(callsite, decl[i]) matches Some(raw)
                    &&& m.contains_key(decl[i])
                    &&& resolve_tree(raw, props, defs) == Ok::<Tree, Fail>(m[decl[i]])
                }
            &&& forall|k: Seq<char>|
                !decl.contains(k) ==> (#[trigger] m.contains_key(k) == acc.contains_key(k)) && (
                acc.contains_key(k) ==> m[k] == acc[k])
        },
    decreases decl.len(),
{
    if decl.len() > 0 {
        let p = decl[0];
        let rest = decl.drop_first();
        assert forall|i: int| 0 < i < decl.len() implies decl[i] == rest[i - 1] by {}
        if !given_resolves(callsite, p, props, defs) {
            assert(resolve_props(decl, callsite, kind, props, defs, acc) is Err);
        } else {
            let v = resolve_tree(given_value(callsite, p)->Some_0, props, defs)->Ok_0;
            let acc2 = acc.insert(p, v);
            lemma_props_bound_in_enclosing_scope(rest, callsite, kind, props, defs, acc2);
            let r = resolve_props(rest, callsite, kind, props, defs, acc2);
            assert(resolve_props(decl, callsite, kind, props, defs, acc) == r);
            assert((forall|i: int| 0 <= i < decl.len() ==> #[trigger] given_resolves(callsite, decl[i], props, defs))
                <==> (forall|i: int| 0 <= i < rest.len() ==> #[trigger] given_resolves(callsite, rest[i], props, defs))) by {
                if forall|i: int| 0 <= i < rest.len() ==> #[trigger] given_resolves(callsite, rest[i], props, defs) {
                    assert forall|i: int| 0 <= i < decl.len() implies #[trigger] given_resolves(callsite, decl[i], props, defs) by {
                        if i > 0 {
                            assert(given_resolves(callsite, rest[i - 1], props, defs));
                        }
                    }
                }
                if forall|i: int| 0 <= i < decl.len() ==> #[trigger] given_resolves(callsite, decl[i], props, defs) {
                    assert forall|i: int| 0 <= i < rest.len() implies #[trigger] given_resolves(callsite, rest[i], props, defs) by {
                        assert(rest[i] == decl[i + 1]);
                        assert(given_resolves(callsite, decl[i + 1], props, defs));
                    }
                }
            }
            if r is Ok {
                let m = r->Ok_0;
                assert(m.contains_key(p) && m[p] == v) by {
                    if rest.contains(p) {
                        let j = choose|j: int| 0 <= j < rest.len() && rest[j] == p;
                        assert(given_value(callsite, rest[j]) matches Some(raw));
                    }
                }
                assert forall|i: int| 0 <= i < decl.len() implies {
                    &&& #[trigger] given_value(callsite, decl[i]) matches Some(raw)
                    &&& m.contains_key(decl[i])
                    &&& resolve_tree(raw, props, defs) == Ok::<Tree, Fail>(m[decl[i]])
                } by {
                    if i > 0 {
                        assert(decl[i] == rest[i - 1]);
                        assert(given_value(callsite, rest[i - 1]) matches Some(raw));
                    }
                }
                assert forall|k: Seq<char>| !decl.contains(k) implies (#[trigger] m.contains_key(k)
                    == acc.contains_key(k)) && (acc.contains_key(k) ==> m[k] == acc[k]) by {
                    assert(decl[0] == p);
                    assert(k != p);
                    if rest.contains(k) {
                        let j = choose|j: int| 0 <= j < rest.len() && rest[j] == k;
                        assert(decl[j + 1] == k);
                    }
                }
            }
        }
    }
}

/// A use of a component whose body is one leaf primitive is replaced by that leaf, in
/// which a field written `@p`, for the component's declared prop `p`, holds the value
/// given for `p` at the use, resolved in the scope of the use. The leaf is placed by the
/// use's placement inside the outer chain. This holds for every component name, prop
/// name, field name, value and enclosing scope.
pub proof fn lemma_component_use_binds_props(
    kind: Seq<char>,
    leaf_kind: Seq<char>,
    p: Seq<char>,
    f: Seq<char>,
    val: Tree,
    chain: Seq<Placement>,
    props: Map<Seq<char>, Tree>,
    defs: Map<Seq<char>, Tree>,
    stack: Seq<Seq<char>>,
)
    requires
        defs.dom().finite(),
        defs.contains_key(kind),
        defs[kind] == Tree::Dict(
            seq![
                (Tree::Text("props"@), Tree::List(seq![Tree::Text(p)])),
                (Tree::Text("primitives"@), Tree::List(seq![Tree::Dict(
                    seq![(Tree::Text("kind"@), Tree::Text(leaf_kind)), (Tree::Text(f), Tree::Text(seq!['@'] + p))],
                )])),
            ],
        ),
        !defs.contains_key(leaf_kind),
        !stack.contains(kind),
        f != "transform"@,
        leaf_kind.len() == 0 || leaf_kind[0] != '@',
        resolve_tree(val, props, defs) is Ok,
    ensures
        expand_one(
            Tree::Dict(seq![(Tree::Text("kind"@), Tree::Text(kind)), (Tree::Text("props"@), Tree::Dict(seq![(Tree::Text(p), val)]))]),
            chain,
            props,
            defs,
            stack,
        ).0 == Ok::<Seq<LeafView>, Fail>(
            seq![LeafView {
                fields: seq![
                    (Tree::Text("kind"@), Tree::Text(leaf_kind)),
                    (Tree::Text(f), resolve_tree(val, props, defs)->Ok_0),
                ],
                transform_at: 2,
                transform: chain.push(Placement { translation: None, rotation: None }).push(
                    Placement { translation: None, rotation: None },
                ),
            }],
        ),
{
    reveal_strlit("kind");
    reveal_strlit("props");
    reveal_strlit("primitives");
    reveal_strlit("transform");
    assert("kind"@.len() == 4 && "props"@.len() == 5 && "transform"@.len() == 9 && "primitives"@.len() == 10);
    assert("kind"@ != "props"@ && "kind"@ != "transform"@ && "props"@ != "transform"@);
    assert("props"@ != "primitives"@);
    let zero = Placement { translation: None, rotation: None };
    let rv = resolve_tree(val, props, defs)->Ok_0;
    let leaf_es = seq![(Tree::Text("kind"@), Tree::Text(leaf_kind)), (Tree::Text(f), Tree::Text(seq!['@'] + p))];
    let leaf = Tree::Dict(leaf_es);
    let d = seq![
        (Tree::Text("props"@), Tree::List(seq![Tree::Text(p)])),
        (Tree::Text("primitives"@), Tree::List(seq![leaf])),
    ];
    let cs = seq![(Tree::Text(p), val)];
    let es = seq![(Tree::Text("kind"@), Tree::Text(kind)), (Tree::Text("props"@), Tree::Dict(cs))];
    // The use: its kind, no transform, its props.
    assert(tree_get_str(es, "kind"@) == Some(kind));
    assert(es.drop_first().drop_first() =~= Seq::<(Tree, Tree)>::empty());
    assert(es.drop_first()[0] == es[1]);
    assert(tree_get(es.drop_first(), "transform"@) == tree_get(es.drop_first().drop_first(), "transform"@));
    assert(own_placement(es) == zero);
    assert(tree_get(es, "props"@) == tree_get(es.drop_first(), "props"@));
    assert(callsite_of(es) == Some(cs));
    // The definition: its primitives and its declared props.
    assert(d.drop_first().drop_first() =~= Seq::<(Tree, Tree)>::empty());
    assert(d.drop_first()[0] == d[1]);
    assert(tree_get(d, "primitives"@) == tree_get(d.drop_first(), "primitives"@));
    assert(tree_get(d, "primitives"@) == Some(Tree::List(seq![leaf])));
    assert(tree_get(d, "props"@) == Some(Tree::List(seq![Tree::Text(p)])));
    let pl = seq![Tree::Text(p)];
    assert(pl.drop_first() =~= Seq::<Tree>::empty());
    assert(pl[0] == Tree::Text(p));
    assert(texts_of(pl.drop_first()) == Seq::<Seq<char>>::empty());
    assert(texts_of(pl) == seq![p] + texts_of(pl.drop_first()));
    assert(tree_strings(Tree::List(pl)) =~= seq![p]);
    assert(component_of(defs, kind) == Some((seq![leaf], seq![p])));
    // The props bound for the body.
    assert(tree_get(cs, p) == Some(val));
    let rp = Map::<Seq<char>, Tree>::empty().insert(p, rv);
    assert(seq![p].drop_first() =~= Seq::<Seq<char>>::empty());
    assert(seq![p][0] == p);
    assert(resolve_props(seq![p].drop_first(), Some(cs), kind, props, defs, rp) == Ok::<Map<Seq<char>, Tree>, Fail>(rp));
    assert(resolve_props(seq![p], Some(cs), kind, props, defs, Map::empty()) == Ok::<Map<Seq<char>, Tree>, Fail>(rp));
    // The body's leaf.
    assert(leaf_es.drop_first().drop_first() =~= Seq::<(Tree, Tree)>::empty());
    assert(tree_get_str(leaf_es, "kind"@) == Some(leaf_kind));
    assert(leaf_es.drop_first()[0] == leaf_es[1]);
    assert(tree_get(leaf_es.drop_first(), "transform"@) == tree_get(leaf_es.drop_first().drop_first(), "transform"@));
    assert(own_placement(leaf_es) == zero);
    assert(component_of(defs, leaf_kind) is None);
    lemma_reference_lookup(p, leaf_kind, rp, defs);
    let fields = seq![(Tree::Text("kind"@), Tree::Text(leaf_kind)), (Tree::Text(f), rv)];
    assert(leaf_fields(leaf_es.drop_first().drop_first(), rp, defs) == Ok::<Seq<(Tree, Tree)>, Fail>(Seq::empty()));
    assert(leaf_fields(leaf_es.drop_first(), rp, defs) == Ok::<Seq<(Tree, Tree)>, Fail>(seq![(Tree::Text(f), rv)])) by {
        assert(seq![(Tree::Text(f), rv)] + Seq::<(Tree, Tree)>::empty() =~= seq![(Tree::Text(f), rv)]);
    }
    assert(leaf_fields(leaf_es, rp, defs) == Ok::<Seq<(Tree, Tree)>, Fail>(fields)) by {
        assert(seq![(Tree::Text("kind"@), Tree::Text(leaf_kind))] + seq![(Tree::Text(f), rv)] =~= fields);
    }
    assert(transform_slot(leaf_es.drop_first().drop_first()) == 0);
    assert(transform_slot(leaf_es.drop_first()) == 1);
    assert(transform_slot(leaf_es) == 2);
    let composed = chain.push(zero);
    let inner_stack = stack.push(kind);
    let lv = LeafView { fields, transform_at: 2, transform: composed.push(zero) };
    assert(expand_one(leaf, composed, rp, defs, inner_stack).0 == Ok::<Seq<LeafView>, Fail>(seq![lv]));
    let body = seq![leaf];
    assert(body.drop_first() =~= Seq::<Tree>::empty());
    assert(expand_list(body.drop_first(), composed, rp, defs, inner_stack).0 == Ok::<Seq<LeafView>, Fail>(Seq::empty()));
    assert(seq![lv] + Seq::<LeafView>::empty() =~= seq![lv]);
    assert(expand_list(body, composed, rp, defs, inner_stack).0 == Ok::<Seq<LeafView>, Fail>(seq![lv]));
}

/// A component that hands its own prop on to a component it uses, by giving `@q` as the
/// value of a declared prop, binds that prop to the value of `q` in its own props.
pub proof fn lemma_forwarded_prop(
    decl: Seq<Seq<char>>,
    callsite: Seq<(Tree, Tree)>,
    kind: Seq<char>,
    props: Map<Seq<char>, Tree>,
    defs: Map<Seq<char>, Tree>,
    i: int,
    q: Seq<char>,
)
    requires
        0 <= i < decl.len(),
        tree_get(callsite, decl[i]) == Some(Tree::Text(seq!['@'] + q)),
        props.contains_key(q),
        resolve_props(decl, Some(callsite), kind, props, defs, Map::empty()) is Ok,
    ensures
        resolve_props(decl, Some(callsite), kind, props, defs, Map::empty())->Ok_0[decl[i]] == props[q],
{
    lemma_props_bound_in_enclosing_scope(decl, Some(callsite), kind, props, defs, Map::empty());
    assert((seq!['@'] + q).drop_first() =~= q);
    assert((seq!['@'] + q)[0] == '@');
    assert(resolve_tree(Tree::Text(seq!['@'] + q), props, defs) == Ok::<Tree, Fail>(props[q]));
    assert(given_value(Some(callsite), decl[i]) == Some(Tree::Text(seq!['@'] + q)));
}

/// A path of components that closes a cycle: it starts with `stack`, each name it adds
/// is a component of `defs`, and its last name occurs earlier in it.
pub open spec fn is_cycle_path(p: Seq<Seq<char>>, stack: Seq<Seq<char>>, defs: Map<Seq<char>, Tree>) -> bool {
    &&& stack.len() < p.len()
    &&& p.subrange(0, stack.len() as int) == stack
    &&& p.drop_last().contains(p.last())
    &&& forall|i: int| stack.len() <= i < p.len() ==> (#[trigger] component_of(defs, p[i])) is Some
}

/// A cyclic dependency reported while expanding a sequence of primitives is a real cycle
/// of components, reached from the components being expanded.
pub proof fn lemma_reported_cycle_list(
    prims: Seq<Tree>,
    chain: Seq<Placement>,
    props: Map<Seq<char>, Tree>,
    defs: Map<Seq<char>, Tree>,
    stack: Seq<Seq<char>>,
)
    requires
        defs.dom().finite(),
    ensures
        expand_list(prims, chain, props, defs, stack).0 matches Err(Fail::CyclicDependency(p))
            ==> is_cycle_path(p, stack, defs),
    decreases unvisited(defs, stack), prims.len(),
{
    if prims.len() > 0 {
        lemma_reported_cycle_one(prims[0], chain, props, defs, stack);
        lemma_reported_cycle_list(prims.drop_first(), chain, props, defs, stack);
    }
}

/// A cyclic dependency reported while expanding one primitive is a real cycle of
/// components, reached from the components being expanded.
pub proof fn lemma_reported_cycle_one(
    prim: Tree,
    chain: Seq<Placement>,
    props: Map<Seq<char>, Tree>,
    defs: Map<Seq<char>, Tree>,
    stack: Seq<Seq<char>>,
)
    requires
        defs.dom().finite(),
    ensures
        expand_one(prim, chain, props, defs, stack).0 matches Err(Fail::CyclicDependency(p))
            ==> is_cycle_path(p, stack, defs),
    decreases unvisited(defs, stack), 0int,
{
    match prim {
        Tree::Dict(es) => match tree_get_str(es, "kind"@) {
            None => {},
            Some(kind) => {
                let composed = chain.push(own_placement(es));
                match component_of(defs, kind) {
                    Some((inner, decl)) => {
                        if stack.contains(kind) {
                            let p = stack.push(kind);
                            assert(p.subrange(0, stack.len() as int) =~= stack);
                            assert(p.drop_last() =~= stack);
                            assert(p.last() == kind);
                            assert(p.drop_last().contains(p.last()));
                            assert forall|i: int| stack.len() <= i < p.len() implies (#[trigger] component_of(defs, p[i])) is Some by {
                                assert(p[i] == kind);
                            }
                            assert(is_cycle_path(p, stack, defs));
                        } else {
                            lemma_resolve_props_fail(decl, callsite_of(es), kind, props, defs, Map::empty());
                            match resolve_props(decl, callsite_of(es), kind, props, defs, Map::empty()) {
                                Err(e) => {},
                                Ok(rp) => {
                                    broadcast use vstd::seq_lib::group_seq_properties;
                                    stack.lemma_push_to_set_commute(kind);
                                    defs.dom().lemma_set_insert_diff_decreases(stack.to_set(), kind);
                                    let inner_stack = stack.push(kind);
                                    lemma_reported_cycle_list(inner, composed, rp, defs, inner_stack);
                                    match expand_list(inner, composed, rp, defs, inner_stack).0 {
                                        Err(Fail::CyclicDependency(p)) => {
                                            assert(is_cycle_path(p, inner_stack, defs));
                                            assert(inner_stack.len() < p.len());
                                            assert(p.subrange(0, inner_stack.len() as int) == inner_stack);
                                            assert(inner_stack.subrange(0, stack.len() as int) =~= stack);
                                            assert(p.subrange(0, stack.len() as int) =~= p.subrange(0, inner_stack.len() as int).subrange(0, stack.len() as int));
                                            assert(p[stack.len() as int] == p.subrange(0, inner_stack.len() as int)[stack.len() as int]);
                                            assert forall|i: int| stack.len() <= i < p.len() implies (#[trigger] component_of(defs, p[i])) is Some by {
                                                if i == stack.len() {
                                                    assert(p[i] == kind);
                                                }
                                            }
                                            assert(is_cycle_path(p, stack, defs));
                                        },
                                        _ => {},
                                    }
                                },
                            }
                        }
                    },
                    None => lemma_leaf_fields_fail(es, props, defs),
                }
            },
        },
        _ => {},
    }
}

/// Whether the chain of placements `t` begins with `chain` and has more after it.
pub open spec fn extends_chain(t: Seq<Placement>, chain: Seq<Placement>) -> bool {
    chain.len() < t.len() && t.subrange(0, chain.len() as int) == chain
}

/// Every primitive that an expansion yields is placed by the chain it was expanded
/// under, followed by placements of its own and of the components around it.
pub proof fn lemma_leaf_chain_list(
    prims: Seq<Tree>,
    chain: Seq<Placement>,
    props: Map<Seq<char>, Tree>,
    defs: Map<Seq<char>, Tree>,
    stack: Seq<Seq<char>>,
)
    requires
        defs.dom().finite(),
    ensures
        expand_list(prims, chain, props, defs, stack).0 matches Ok(ls)
            ==> forall|i: int| 0 <= i < ls.len() ==> extends_chain(#[trigger] ls[i].transform, chain),
    decreases unvisited(defs, stack), prims.len(),
{
    if prims.len() > 0 {
        lemma_leaf_chain_one(prims[0], chain, props, defs, stack);
        lemma_leaf_chain_list(prims.drop_first(), chain, props, defs, stack);
        let (r1, s1) = expand_one(prims[0], chain, props, defs, stack);
        let (r2, s2) = expand_list(prims.drop_first(), chain, props, defs, stack);
        match (r1, r2) {
            (Ok(l1), Ok(l2)) => {
                let ls = l1 + l2;
                assert forall|i: int| 0 <= i < ls.len() implies extends_chain(#[trigger] ls[i].transform, chain) by {
                    if i < l1.len() {
                        assert(ls[i] == l1[i]);
                    } else {
                        assert(ls[i] == l2[i - l1.len()]);
                    }
                }
            },
            _ => {},
        }
    }
}

/// Every primitive that the expansion of one primitive yields is placed by the chain it
/// was expanded under, followed by placements of its own and of the components around it.
pub proof fn lemma_leaf_chain_one(
    prim: Tree,
    chain: Seq<Placement>,
    props: Map<Seq<char>, Tree>,
    defs: Map<Seq<char>, Tree>,
    stack: Seq<Seq<char>>,
)
    requires
        defs.dom().finite(),
    ensures
        expand_one(prim, chain, props, defs, stack).0 matches Ok(ls)
            ==> forall|i: int| 0 <= i < ls.len() ==> extends_chain(#[trigger] ls[i].transform, chain),
    decreases unvisited(defs, stack), 0int,
{
    match prim {
        Tree::Dict(es) => match tree_get_str(es, "kind"@) {
            None => {},
            Some(kind) => {
                let composed = chain.push(own_placement(es));
                assert(composed.subrange(0, chain.len() as int) =~= chain);
                match component_of(defs, kind) {
                    Some((inner, decl)) => {
                        if !stack.contains(kind) {
                            match resolve_props(decl, callsite_of(es), kind, props, defs, Map::empty()) {
                                Err(e) => {},
                                Ok(rp) => {
                                    broadcast use vstd::seq_lib::group_seq_properties;
                                    stack.lemma_push_to_set_commute(kind);
                                    defs.dom().lemma_set_insert_diff_decreases(stack.to_set(), kind);
                                    lemma_leaf_chain_list(inner, composed, rp, defs, stack.push(kind));
                                    match expand_list(inner, composed, rp, defs, stack.push(kind)).0 {
                                        Ok(ls) => {
                                            assert forall|i: int| 0 <= i < ls.len() implies extends_chain(#[trigger] ls[i].transform, chain) by {
                                                let t = ls[i].transform;
                                                assert(extends_chain(t, composed));
                                                assert(t.subrange(0, chain.len() as int) =~= t.subrange(0, composed.len() as int).subrange(0, chain.len() as int));
                                            }
                                        },
                                        _ => {},
                                    }
                                },
                            }
                        }
                    },
                    None => {},
                }
            },
        },
        _ => {},
    }
}

/// Whether `kind` is on the stack.
fn stack_contains(stack: &Vec<String>, kind: &String) -> (b: bool)
    ensures
        b == names(stack@).contains(kind@),
{
    let mut i: usize = 0;
    while i < stack.len()
        invariant
            i <= stack.len(),
            forall|j: int| 0 <= j < i ==> stack@[j]@ != kind@,
        decreases stack.len() - i,
    {
        if stack[i] == *kind {
            proof {
                assert(names(stack@)[i as int] == kind@);
            }
            return true;
        }
        i = i + 1;
    }
    proof {
        if names(stack@).contains(kind@) {
            let j = choose|j: int| 0 <= j < names(stack@).len() && names(stack@)[j] == kind@;
            assert(stack@[j]@ == kind@);
        }
    }
    false
}

/// A copy of a stack of names.
fn copy_names(stack: &Vec<String>) -> (r: Vec<String>)
    ensures
        names(r@) == names(stack@),
{
    let mut r: Vec<String> = Vec::new();
    let mut i: usize = 0;
    while i < stack.len()
        invariant
            i <= stack.len(),
            names(r@) == names(stack@.take(i as int)),
        decreases stack.len() - i,
    {
        let ghost before = r@;
        r.push(stack[i].clone());
        proof {
            assert(r@ =~= before.push(stack@[i as int]));
            assert(stack@.take(i + 1) =~= stack@.take(i as int).push(stack@[i as int]));
            assert(names(r@) =~= names(before).push(stack@[i as int]@));
            assert(names(stack@.take(i + 1)) =~= names(stack@.take(i as int)).push(stack@[i as int]@));
        }
        i = i + 1;
    }
    proof {
        assert(stack@.take(stack@.len() as int) =~= stack@);
    }
    r
}

/// The primitives and declared props of the component that `kind` names, if it is one.
fn component<'a>(defs: &'a Defs, kind: &str) -> (r: Option<(&'a Vec<SceneValue>, Vec<String>)>)
    ensures
        match r {
            Some((inner, decl)) => component_of(defs@, kind@) == Some((list_tree(inner@), names(decl@))),
            None => component_of(defs@, kind@) is None,
        },
{
    match defs.get(kind) {
        Some(SceneValue::Dict(d)) => match get(d, "primitives") {
            Some(SceneValue::List(inner)) => {
                let decl = match get(d, "props") {
                    Some(v) => seq_strings(v),
                    None => Vec::new(),
                };
                proof {
                    if tree_get(entries_tree(d@), "props"@) is None {
                        assert(names(decl@) =~= Seq::<Seq<char>>::empty());
                    }
                }
                Some((inner, decl))
            },
            _ => None,
        },
        _ => None,
    }
}

/// The view of an optional map's entries.
pub open spec fn opt_entries(o: Option<&Vec<(SceneValue, SceneValue)>>) -> Option<Seq<(Tree, Tree)>> {
    match o {
        Some(m) => Some(entries_tree(m@)),
        None => None,
    }
}

/// Takes each declared prop from the use site and resolves it in the enclosing scope.
fn resolve_declared_props(
    decl: &Vec<String>,
    callsite: Option<&Vec<(SceneValue, SceneValue)>>,
    kind: &String,
    props: &Defs,
    defs: &Defs,
) -> (r: Result<Defs, Error>)
    ensures
        match r {
            Ok(d) => resolve_props(names(decl@), opt_entries(callsite), kind@, props@, defs@, Map::empty()) == Ok::<Map<Seq<char>, Tree>, Fail>(d@),
            Err(e) => resolve_props(names(decl@), opt_entries(callsite), kind@, props@, defs@, Map::empty()) == Err::<Map<Seq<char>, Tree>, Fail>(e@),
        },
{
    let mut acc = Defs::new();
    let mut i: usize = 0;
    let ghost all = names(decl@);
    proof {
        assert(all.skip(0) =~= all);
    }
    while i < decl.len()
        invariant
            i <= decl.len(),
            all == names(decl@),
            resolve_props(all, opt_entries(callsite), kind@, props@, defs@, Map::empty())
                == resolve_props(all.skip(i as int), opt_entries(callsite), kind@, props@, defs@, acc@),
        decreases decl.len() - i,
    {
        let ghost rest = all.skip(i as int);
        assert(rest.drop_first() =~= all.skip(i + 1));
        assert(rest[0] == decl@[i as int]@);
        let p = &decl[i];
        let raw = match callsite {
            Some(m) => get(m, p.as_str()),
            None => None,
        };
        match raw {
            None => {
                return Err(Error::MissingProp(kind.clone(), p.clone()));
            },
            Some(v) => match resolve(v.deep_clone(), props, defs) {
                Err(e) => {
                    return Err(e);
                },
                Ok(value) => {
                    acc.insert(p.clone(), value);
                },
            },
        }
        i = i + 1;
    }
    proof {
        assert(all.skip(decl@.len() as int) =~= Seq::<Seq<char>>::empty());
    }
    Ok(acc)
}

/// The fields of a leaf primitive other than `transform`, resolved, and where the
/// `transform` field stands among them.
fn leaf_fields_of(map: &Vec<(SceneValue, SceneValue)>, props: &Defs, defs: &Defs) -> (r: Result<(Vec<(SceneValue, SceneValue)>, usize), Error>)
    ensures
        match r {
            Ok((f, at)) => leaf_fields(entries_tree(map@), props@, defs@) == Ok::<Seq<(Tree, Tree)>, Fail>(entries_tree(f@))
                && at as int == transform_slot(entries_tree(map@)),
            Err(e) => leaf_fields(entries_tree(map@), props@, defs@) == Err::<Seq<(Tree, Tree)>, Fail>(e@),
        },
{
    let tkey: String = "transform".to_owned();
    let mut fields: Vec<(SceneValue, SceneValue)> = Vec::new();
    let mut at: Option<usize> = None;
    let mut i: usize = 0;
    let ghost es = entries_tree(map@);
    proof {
        lemma_entries_tree(map@);
        assert(es.skip(0) =~= es);
        assert(entries_tree(fields@) =~= Seq::<(Tree, Tree)>::empty());
    }
    while i < map.len()
        invariant
            i <= map.len(),
            tkey@ == "transform"@,
            es == entries_tree(map@),
            es.len() == map@.len(),
            forall|j: int| 0 <= j < map@.len() ==> #[trigger] es[j] == (map@[j].0@, map@[j].1@),
            leaf_fields(es, props@, defs@) == prepend(entries_tree(fields@), leaf_fields(es.skip(i as int), props@, defs@)),
            fields@.len() <= i,
            match at {
                Some(a) => a as int == transform_slot(es),
                None => transform_slot(es) == fields@.len() + transform_slot(es.skip(i as int)),
            },
        decreases map.len() - i,
    {
        let ghost rest = es.skip(i as int);
        assert(rest.drop_first() =~= es.skip(i + 1));
        assert(rest[0] == es[i as int]);
        let is_t = match &map[i].0 {
            SceneValue::Text(s) => *s == tkey,
            _ => false,
        };
        assert(is_t == is_transform_key(es[i as int].0));
        if is_t {
            if at.is_none() {
                at = Some(fields.len());
            }
        } else {
            match resolve(map[i].1.deep_clone(), props, defs) {
                Err(e) => {
                    return Err(e);
                },
                Ok(r) => {
                    let k = map[i].0.deep_clone();
                    let ghost before = fields@;
                    fields.push((k, r));
                    proof {
                        lemma_entries_tree(before);
                        lemma_entries_tree(fields@);
                        assert(entries_tree(fields@) =~= entries_tree(before) + seq![(map@[i as int].0@, r@)]);
                        let tail = leaf_fields(rest.drop_first(), props@, defs@);
                        match tail {
                            Ok(t) => {
                                assert(entries_tree(before) + (seq![(map@[i as int].0@, r@)] + t) =~= entries_tree(fields@) + t);
                            },
                            Err(_) => {},
                        }
                    }
                },
            }
        }
        i = i + 1;
    }
    proof {
        assert(es.skip(map@.len() as int) =~= Seq::<(Tree, Tree)>::empty());
        assert(entries_tree(fields@) + Seq::<(Tree, Tree)>::empty() =~= entries_tree(fields@));
    }
    match at {
        Some(a) => Ok((fields, a)),
        None => {
            let n = fields.len();
            Ok((fields, n))
        },
    }
}

/// Expands the primitives of a scene: each use of a component (a primitive whose `kind`
/// names a definition with `primitives`) is replaced, recursively, by the component's
/// primitives, placed inside it and with its props bound; every other primitive has its
/// references resolved. `stack` holds the components being expanded; one that uses itself
/// again is a cyclic dependency.
pub fn expand(
    primitives: &Vec<SceneValue>,
    outer_t: &Vec<Placement>,
    props: &Defs,
    defs: &Defs,
    stack: &mut Vec<String>,
) -> (r: Result<Vec<ExpandedPrimitive>, Error>)
    ensures
        (leaves_result(r), names(final(stack)@))
            == expand_list(list_tree(primitives@), outer_t@, props@, defs@, names(old(stack)@)),
    decreases unvisited(defs@, names(old(stack)@)), primitives@.len(),
{
    proof {
        defs.lemma_finite();
        lemma_list_tree(primitives@);
    }
    let ghost s0 = names(stack@);
    let ghost all = list_tree(primitives@);
    let mut out: Vec<ExpandedPrimitive> = Vec::new();
    let mut i: usize = 0;
    proof {
        assert(all.skip(0) =~= all);
        assert(leaves(out@) =~= Seq::<LeafView>::empty());
    }
    while i < primitives.len()
        invariant
            i <= primitives.len(),
            defs@.dom().finite(),
            all == list_tree(primitives@),
            all.len() == primitives@.len(),
            forall|j: int| 0 <= j < primitives@.len() ==> #[trigger] all[j] == primitives@[j]@,
            names(stack@) == s0,
            s0 == names(old(stack)@),
            expand_list(all, outer_t@, props@, defs@, s0) == (
                prepend(leaves(out@), expand_list(all.skip(i as int), outer_t@, props@, defs@, s0).0),
                expand_list(all.skip(i as int), outer_t@, props@, defs@, s0).1,
            ),
        decreases primitives.len() - i,
    {
        let ghost rest = all.skip(i as int);
        assert(rest.drop_first() =~= all.skip(i + 1));
        assert(rest[0] == primitives@[i as int]@);
        proof {
            lemma_expand_one_stack(rest[0], outer_t@, props@, defs@, s0);
        }
        match expand_primitive(&primitives[i], outer_t, props, defs, stack) {
            Err(e) => {
                return Err(e);
            },
            Ok(l) => {
                let ghost before = out@;
                let mut l = l;
                let ghost added = l@;
                out.append(&mut l);
                proof {
                    assert(leaves(out@) =~= leaves(before) + leaves(added));
                    let tail = expand_list(rest.drop_first(), outer_t@, props@, defs@, s0).0;
                    match tail {
                        Ok(t) => {
                            assert(leaves(before) + (leaves(added) + t) =~= leaves(out@) + t);
                        },
                        Err(_) => {},
                    }
                }
            },
        }
        i = i + 1;
    }
    proof {
        assert(all.skip(primitives@.len() as int) =~= Seq::<Tree>::empty());
        assert(leaves(out@) + Seq::<LeafView>::empty() =~= leaves(out@));
    }
    Ok(out)
}

/// Expands one primitive; see [`expand`].
fn expand_primitive(
    prim: &SceneValue,
    outer_t: &Vec<Placement>,
    props: &Defs,
    defs: &Defs,
    stack: &mut Vec<String>,
) -> (r: Result<Vec<ExpandedPrimitive>, Error>)
    requires
        defs@.dom().finite(),
    ensures
        (leaves_result(r), names(final(stack)@))
            == expand_one(prim@, outer_t@, props@, defs@, names(old(stack)@)),
    decreases unvisited(defs@, names(old(stack)@)), 0int,
{
    match prim {
        SceneValue::Dict(map) => {
            let kind: String = match get_str(map, "kind") {
                Some(k) => k.to_owned(),
                None => {
                    return Err(Error::InvalidStructure("primitive missing 'kind'"));
                },
            };
            let inner_t = match get(map, "transform") {
                Some(SceneValue::Dict(m)) => transform_from_map(m),
                _ => Placement::zero(),
            };
            let composed = compose(outer_t, inner_t);
            match component(defs, kind.as_str()) {
                Some((inner, decl)) => {
                    if stack_contains(stack, &kind) {
                        let mut chain = copy_names(stack);
                        let ghost before = chain@;
                        chain.push(kind);
                        proof {
                            assert(names(chain@) =~= names(before).push(kind@));
                        }
                        return Err(Error::CyclicDependency(chain));
                    }
                    let callsite = match get(map, "props") {
                        Some(SceneValue::Dict(m)) => Some(m),
                        _ => None,
                    };
                    let rp = match resolve_declared_props(&decl, callsite, &kind, props, defs) {
                        Ok(d) => d,
                        Err(e) => {
                            return Err(e);
                        },
                    };
                    let ghost s0 = names(stack@);
                    let ghost k = kind@;
                    let ghost before = stack@;
                    stack.push(kind);
                    proof {
                        assert(names(stack@) =~= s0.push(k));
                        broadcast use vstd::seq_lib::group_seq_properties;
                        s0.lemma_push_to_set_commute(k);
                        defs@.dom().lemma_set_insert_diff_decreases(s0.to_set(), k);
                        lemma_expand_list_stack(list_tree(inner@), composed@, rp@, defs@, s0.push(k));
                    }
                    match expand(inner, &composed, &rp, defs, stack) {
                        Ok(l) => {
                            let ghost mid = stack@;
                            stack.pop();
                            proof {
                                assert(names(stack@) =~= names(mid).drop_last());
                            }
                            Ok(l)
                        },
                        Err(e) => Err(e),
                    }
                },
                None => {
                    match leaf_fields_of(map, props, defs) {
                        Ok((fields, at)) => {
                            let mut v: Vec<ExpandedPrimitive> = Vec::new();
                            v.push(ExpandedPrimitive { fields, transform_at: at, transform: composed });
                            proof {
                                assert(leaves(v@) =~= seq![v@[0]@]);
                            }
                            Ok(v)
                        },
                        Err(e) => Err(e),
                    }
                },
            }
        },
        _ => Err(Error::InvalidStructure("primitive must be a map")),
    }
}

} // verus!
