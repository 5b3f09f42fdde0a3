use vstd::prelude::*;
use crate::scene::preprocessor::defs::Defs;
use crate::scene::preprocessor::error::{Error, Fail};
use crate::scene::preprocessor::value::{
    SceneValue, Tree, entries_tree, list_tree, lemma_entries_tree, lemma_list_tree,
};

verus! {

/// What a name refers to: a prop first, else a definition.
pub open spec fn lookup(
    props: Map<Seq<char>, Tree>,
    defs: Map<Seq<char>, Tree>,
    name: Seq<char>,
) -> Option<Tree> {
    if props.contains_key(name) {
        Some(props[name])
    } else if defs.contains_key(name) {
        Some(defs[name])
    } else {
        None
    }
}

/// `v` with every `@name` string replaced by what `name` refers to, searching maps and
/// sequences; the first reference that refers to nothing, in order, is the error.
pub open spec fn resolve_tree(
    v: Tree,
    props: Map<Seq<char>, Tree>,
    defs: Map<Seq<char>, Tree>,
) -> Result<Tree, Fail>
    decreases v,
{
    match v {
        Tree::Text(s) => {
            if s.len() > 0 && s[0] == '@' {
                match lookup(props, defs, s.drop_first()) {
                    Some(t) => Ok(t),
                    None => Err(Fail::UndefinedRef(s.drop_first())),
                }
            } else {
                Ok(v)
            }
        },
        Tree::Dict(es) => match resolve_entries(es, props, defs) {
            Ok(r) => Ok(Tree::Dict(r)),
            Err(e) => Err(e),
        },
        Tree::List(vs) => match resolve_list(vs, props, defs) {
            Ok(r) => Ok(Tree::List(r)),
            Err(e) => Err(e),
        },
        _ => Ok(v),
    }
}

/// The entries of a map with their values resolved, keys kept.
pub open spec fn resolve_entries(
    es: Seq<(Tree, Tree)>,
    props: Map<Seq<char>, Tree>,
    defs: Map<Seq<char>, Tree>,
) -> Result<Seq<(Tree, Tree)>, Fail>
    decreases es,
{
    if es.len() == 0 {
        Ok(Seq::empty())
    } else {
        match resolve_tree(es[0].1, props, defs) {
            Err(e) => Err(e),
            Ok(r) => match resolve_entries(es.drop_first(), props, defs) {
                Ok(rest) => Ok(seq![(es[0].0, r)] + rest),
                Err(e) => Err(e),
            },
        }
    }
}

/// The elements of a sequence, resolved.
pub open spec fn resolve_list(
    vs: Seq<Tree>,
    props: Map<Seq<char>, Tree>,
    defs: Map<Seq<char>, Tree>,
) -> Result<Seq<Tree>, Fail>
    decreases vs,
{
    if vs.len() == 0 {
        Ok(Seq::empty())
    } else {
        match resolve_tree(vs[0], props, defs) {
            Err(e) => Err(e),
            Ok(r) => match resolve_list(vs.drop_first(), props, defs) {
                Ok(rest) => Ok(seq![r] + rest),
                Err(e) => Err(e),
            },
        }
    }
}

/// Resolution fails only on a reference to nothing.
pub proof fn lemma_resolve_tree_fails_on_ref(v: Tree, props: Map<Seq<char>, Tree>, defs: Map<Seq<char>, Tree>)
    ensures
        resolve_tree(v, props, defs) matches Err(e) ==> e is UndefinedRef,
    decreases v,
{
    match v {
        Tree::Dict(es) => lemma_resolve_entries_fails_on_ref(es, props, defs),
        Tree::List(vs) => lemma_resolve_list_fails_on_ref(vs, props, defs),
        _ => {},
    }
}

/// Resolving map entries fails only on a reference to nothing.
pub proof fn lemma_resolve_entries_fails_on_ref(es: Seq<(Tree, Tree)>, props: Map<Seq<char>, Tree>, defs: Map<Seq<char>, Tree>)
    ensures
        resolve_entries(es, props, defs) matches Err(e) ==> e is UndefinedRef,
    decreases es,
{
    if es.len() > 0 {
        lemma_resolve_tree_fails_on_ref(es[0].1, props, defs);
        lemma_resolve_entries_fails_on_ref(es.drop_first(), props, defs);
    }
}

/// Resolving sequence elements fails only on a reference to nothing.
pub proof fn lemma_resolve_list_fails_on_ref(vs: Seq<Tree>, props: Map<Seq<char>, Tree>, defs: Map<Seq<char>, Tree>)
    ensures
        resolve_list(vs, props, defs) matches Err(e) ==> e is UndefinedRef,
    decreases vs,
{
    if vs.len() > 0 {
        lemma_resolve_tree_fails_on_ref(vs[0], props, defs);
        lemma_resolve_list_fails_on_ref(vs.drop_first(), props, defs);
    }
}

/// Whether a value holds no reference where resolution looks: no `@name` string among
/// it, its map values or its sequence elements, at any depth.
pub open spec fn ref_free(v: Tree) -> bool
    decreases v,
{
    match v {
        Tree::Text(s) => !(s.len() > 0 && s[0] == '@'),
        Tree::Dict(es) => entries_ref_free(es),
        Tree::List(vs) => list_ref_free(vs),
        _ => true,
    }
}

/// Whether no map value holds a reference.
pub open spec fn entries_ref_free(es: Seq<(Tree, Tree)>) -> bool
    decreases es,
{
    es.len() == 0 || (ref_free(es[0].1) && entries_ref_free(es.drop_first()))
}

/// Whether no sequence element holds a reference.
pub open spec fn list_ref_free(vs: Seq<Tree>) -> bool
    decreases vs,
{
    vs.len() == 0 || (ref_free(vs[0]) && list_ref_free(vs.drop_first()))
}

/// A reference `@name` resolves to the prop `name` when there is one, whatever the
/// definitions hold; else to the definition `name`; else it is an undefined reference.
/// Any other text is left as it is.
pub proof fn lemma_reference_lookup(
    name: Seq<char>,
    s: Seq<char>,
    props: Map<Seq<char>, Tree>,
    defs: Map<Seq<char>, Tree>,
)
    ensures
        props.contains_key(name) ==> resolve_tree(Tree::Text(seq!['@'] + name), props, defs)
            == Ok::<Tree, Fail>(props[name]),
        !props.contains_key(name) && defs.contains_key(name) ==> resolve_tree(
            Tree::Text(seq!['@'] + name),
            props,
            defs,
        ) == Ok::<Tree, Fail>(defs[name]),
        !props.contains_key(name) && !defs.contains_key(name) ==> resolve_tree(
            Tree::Text(seq!['@'] + name),
            props,
            defs,
        ) == Err::<Tree, Fail>(Fail::UndefinedRef(name)),
        (s.len() == 0 || s[0] != '@') ==> resolve_tree(Tree::Text(s), props, defs) == Ok::<Tree, Fail>(
            Tree::Text(s),
        ),
{
    let r = seq!['@'] + name;
    assert(r[0] == '@');
    assert(r.drop_first() =~= name);
}

/// A value without references resolves to itself, whatever the props and definitions.
pub proof fn lemma_resolve_ref_free(v: Tree, props: Map<Seq<char>, Tree>, defs: Map<Seq<char>, Tree>)
    requires
        ref_free(v),
    ensures
        resolve_tree(v, props, defs) == Ok::<Tree, Fail>(v),
    decreases v,
{
    match v {
        Tree::Dict(es) => lemma_resolve_entries_ref_free(es, props, defs),
        Tree::List(vs) => lemma_resolve_list_ref_free(vs, props, defs),
        _ => {},
    }
}

/// Map entries without references resolve to themselves.
pub proof fn lemma_resolve_entries_ref_free(es: Seq<(Tree, Tree)>, props: Map<Seq<char>, Tree>, defs: Map<Seq<char>, Tree>)
    requires
        entries_ref_free(es),
    ensures
        resolve_entries(es, props, defs) == Ok::<Seq<(Tree, Tree)>, Fail>(es),
    decreases es,
{
    if es.len() > 0 {
        lemma_resolve_ref_free(es[0].1, props, defs);
        lemma_resolve_entries_ref_free(es.drop_first(), props, defs);
        assert(seq![(es[0].0, es[0].1)] + es.drop_first() =~= es);
    } else {
        assert(es =~= Seq::<(Tree, Tree)>::empty());
    }
}

/// Sequence elements without references resolve to themselves.
pub proof fn lemma_resolve_list_ref_free(vs: Seq<Tree>, props: Map<Seq<char>, Tree>, defs: Map<Seq<char>, Tree>)
    requires
        list_ref_free(vs),
    ensures
        resolve_list(vs, props, defs) == Ok::<Seq<Tree>, Fail>(vs),
    decreases vs,
{
    if vs.len() > 0 {
        lemma_resolve_ref_free(vs[0], props, defs);
        lemma_resolve_list_ref_free(vs.drop_first(), props, defs);
        assert(seq![vs[0]] + vs.drop_first() =~= vs);
    } else {
        assert(vs =~= Seq::<Tree>::empty());
    }
}

/// The view of a result of the preprocessor.
pub open spec fn result_tree(r: Result<SceneValue, Error>) -> Result<Tree, Fail> {
    match r {
        Ok(v) => Ok(v@),
        Err(e) => Err(e@),
    }
}

/// Prefixes a successful sequence result; an error stays as it is.
pub open spec fn prepend<T>(p: Seq<T>, r: Result<Seq<T>, Fail>) -> Result<Seq<T>, Fail> {
    match r {
        Ok(rest) => Ok(p + rest),
        Err(e) => Err(e),
    }
}

/// Replaces every `@name` string in `value` by a copy of the prop or definition that
/// `name` refers to (props first), in maps and sequences at any depth.
pub fn resolve(value: SceneValue, props: &Defs, defs: &Defs) -> (r: Result<SceneValue, Error>)
    ensures
        result_tree(r) == resolve_tree(value@, props@, defs@),
{
    resolve_ref(&value, props, defs)
}

#[verifier::loop_isolation(false)]
fn resolve_ref(value: &SceneValue, props: &Defs, defs: &Defs) -> (r: Result<SceneValue, Error>)
    ensures
        result_tree(r) == resolve_tree(value@, props@, defs@),
    decreases value,
{
    match value {
        SceneValue::Text(s) => {
            let n = s.as_str().unicode_len();
            if n > 0 && s.as_str().get_char(0) == '@' {
                let name: String = s.as_str().substring_char(1, n).to_owned();
                proof {
                    assert(name@ =~= s@.drop_first());
                }
                match props.get(name.as_str()) {
                    Some(v) => Ok(v.deep_clone()),
                    None => match defs.get(name.as_str()) {
                        Some(v) => Ok(v.deep_clone()),
                        None => Err(Error::UndefinedRef(name)),
                    },
                }
            } else {
                Ok(value.deep_clone())
            }
        },
        SceneValue::Dict(m) => {
            let mut out: Vec<(SceneValue, SceneValue)> = Vec::new();
            let mut i: usize = 0;
            proof {
                lemma_entries_tree(m@);
                assert(entries_tree(m@).skip(0) =~= entries_tree(m@));
            }
            while i < m.len()
                invariant
                    i <= m.len(),
                    entries_tree(m@).len() == m@.len(),
                    forall|j: int| 0 <= j < m@.len() ==> #[trigger] entries_tree(m@)[j] == (m@[j].0@, m@[j].1@),
                    resolve_entries(entries_tree(m@), props@, defs@)
                        == prepend(entries_tree(out@), resolve_entries(entries_tree(m@).skip(i as int), props@, defs@)),
                decreases m.len() - i,
            {
                proof {
                    assert(decreases_to!(*value => *m));
                    assert(decreases_to!(*m => m@));
                    assert(decreases_to!(m@ => m@[i as int]));
                    assert(decreases_to!(m@[i as int] => m@[i as int].1));
                }
                let ghost rest = entries_tree(m@).skip(i as int);
                assert(rest.drop_first() =~= entries_tree(m@).skip(i + 1));
                match resolve_ref(&m[i].1, props, defs) {
                    Err(e) => {
                        return Err(e);
                    },
                    Ok(r) => {
                        let k = m[i].0.deep_clone();
                        let ghost before = out@;
                        out.push((k, r));
                        proof {
                            lemma_entries_tree(before);
                            lemma_entries_tree(out@);
                            assert(entries_tree(out@) =~= entries_tree(before) + seq![(m@[i as int].0@, r@)]);
                            assert(rest[0] == (m@[i as int].0@, m@[i as int].1@));
                            let tail = resolve_entries(rest.drop_first(), props@, defs@);
                            assert(resolve_entries(rest, props@, defs@) == prepend(seq![(m@[i as int].0@, r@)], tail));
                            match tail {
                                Ok(t) => {
                                    assert(entries_tree(before) + (seq![(m@[i as int].0@, r@)] + t) =~= entries_tree(out@) + t);
                                },
                                Err(_) => {},
                            }
                        }
                    },
                }
                i = i + 1;
            }
            proof {
                assert(entries_tree(m@).skip(m@.len() as int) =~= Seq::<(Tree, Tree)>::empty());
                assert(entries_tree(out@) + Seq::<(Tree, Tree)>::empty() =~= entries_tree(out@));
            }
            Ok(SceneValue::Dict(out))
        },
        SceneValue::List(l) => {
            let mut out: Vec<SceneValue> = Vec::new();
            let mut i: usize = 0;
            proof {
                lemma_list_tree(l@);
                assert(list_tree(l@).skip(0) =~= list_tree(l@));
            }
            while i < l.len()
                invariant
                    i <= l.len(),
                    list_tree(l@).len() == l@.len(),
                    forall|j: int| 0 <= j < l@.len() ==> #[trigger] list_tree(l@)[j] == l@[j]@,
                    resolve_list(list_tree(l@), props@, defs@)
                        == prepend(list_tree(out@), resolve_list(list_tree(l@).skip(i as int), props@, defs@)),
                decreases l.len() - i,
            {
                proof {
                    assert(decreases_to!(*value => *l));
                    assert(decreases_to!(*l => l@));
                    assert(decreases_to!(l@ => l@[i as int]));
                }
                let ghost rest = list_tree(l@).skip(i as int);
                assert(rest.drop_first() =~= list_tree(l@).skip(i + 1));
                match resolve_ref(&l[i], props, defs) {
                    Err(e) => {
                        return Err(e);
                    },
                    Ok(r) => {
                        let ghost before = out@;
                        out.push(r);
                        proof {
                            lemma_list_tree(before);
                            lemma_list_tree(out@);
                            assert(list_tree(out@) =~= list_tree(before) + seq![r@]);
                            assert(rest[0] == l@[i as int]@);
                            let tail = resolve_list(rest.drop_first(), props@, defs@);
                            assert(resolve_list(rest, props@, defs@) == prepend(seq![r@], tail));
                            match tail {
                                Ok(t) => {
                                    assert(list_tree(before) + (seq![r@] + t) =~= list_tree(out@) + t);
                                },
                                Err(_) => {},
                            }
                        }
                    },
                }
                i = i + 1;
            }
            proof {
                assert(list_tree(l@).skip(l@.len() as int) =~= Seq::<Tree>::empty());
                assert(list_tree(out@) + Seq::<Tree>::empty() =~= list_tree(out@));
            }
            Ok(SceneValue::List(out))
        },
        _ => Ok(value.deep_clone()),
    }
}

} // verus!
