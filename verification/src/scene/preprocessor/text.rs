//! Scene descriptions as RON text: reading text into the library's tree and writing a
//! tree back, through the `ron` crate, and the first decision of preprocessing.
use vstd::prelude::*;
use ron::Value as RonValue;
use crate::scene::preprocessor::error::{Error, Fail};
use crate::scene::preprocessor::expand::names;
use crate::scene::preprocessor::scene::{import_paths, uses_components};
use crate::scene::preprocessor::value::{SceneValue, Tree, entries_tree, tree_get, tree_strings, maps_distinct};

verus! {

/// The tree that `ron::from_str::<ron::Value>` reads from a text, or `None` where it
/// reports an error. RON's grammar is not restated here.
pub uninterp spec fn ron_tree(text: Seq<char>) -> Option<Tree>;

/// The text that `ron::to_string` writes for a tree, or `None` where it reports an error.
pub uninterp spec fn ron_text(v: Tree) -> Option<Seq<char>>;

/// The library's tree for a value that `ron` parsed, variant by variant. It claims
/// nothing; it is the conversion that `parse_ron` performs.
#[verifier::external_body]
fn from_ron(v: RonValue) -> SceneValue {
    match v {
        RonValue::Bool(b) => SceneValue::Bool(b),
        RonValue::Char(c) => SceneValue::Char(c),
        RonValue::Map(m) => SceneValue::Dict(m.into_iter().map(|(k, x)| (from_ron(k), from_ron(x))).collect()),
        RonValue::Number(n) => SceneValue::Number(n),
        RonValue::Option(o) => SceneValue::Opt(o.map(|b| Box::new(from_ron(*b)))),
        RonValue::String(s) => SceneValue::Text(s),
        RonValue::Bytes(b) => SceneValue::Bytes(b),
        RonValue::Seq(s) => SceneValue::List(s.into_iter().map(from_ron).collect()),
        RonValue::Unit => SceneValue::Unit,
    }
}

/// The `ron` value for a tree of the library, variant by variant. It claims nothing; it
/// is the conversion that `write_ron` performs.
#[verifier::external_body]
fn to_ron(v: &SceneValue) -> RonValue {
    match v {
        SceneValue::Bool(b) => RonValue::Bool(*b),
        SceneValue::Char(c) => RonValue::Char(*c),
        SceneValue::Dict(m) => RonValue::Map(m.iter().map(|(k, x)| (to_ron(k), to_ron(x))).collect()),
        SceneValue::Number(n) => RonValue::Number(*n),
        SceneValue::Opt(o) => RonValue::Option(o.as_ref().map(|b| Box::new(to_ron(b)))),
        SceneValue::Text(s) => RonValue::String(s.clone()),
        SceneValue::Bytes(b) => RonValue::Bytes(b.clone()),
        SceneValue::List(s) => RonValue::Seq(s.iter().map(to_ron).collect()),
        SceneValue::Unit => RonValue::Unit,
    }
}

/// Reads RON text with `ron::from_str::<ron::Value>`: the contract claims that the
/// result is a function of the text (named `ron_tree`), that its maps have distinct keys
/// (a `ron::Map` is a map), and that a failure is a parse error carrying the parser's
/// message.
#[verifier::external_body]
pub fn parse_ron(text: &str) -> (r: Result<SceneValue, Error>)
    ensures
        match r {
            Ok(v) => ron_tree(text@) == Some(v@) && maps_distinct(v@),
            Err(e) => ron_tree(text@) is None && e is Ron,
        },
{
    match ron::from_str::<RonValue>(text) {
        Ok(v) => Ok(from_ron(v)),
        Err(e) => Err(Error::Ron(e.to_string())),
    }
}

/// Writes a tree as RON text with `ron::to_string`: the contract claims that the result
/// is a function of the tree (named `ron_text`), and that a failure is a writing error
/// carrying the writer's message.
#[verifier::external_body]
pub fn write_ron(v: &SceneValue) -> (r: Result<String, Error>)
    ensures
        match r {
            Ok(s) => ron_text(v@) == Some(s@),
            Err(e) => ron_text(v@) is None && e is Ser,
        },
{
    match ron::to_string(&to_ron(v)) {
        Ok(s) => Ok(s),
        Err(e) => Err(Error::Ser(e.to_string())),
    }
}

/// What a scene description needs before its components are expanded.
pub enum Prepared {
    /// The description uses no components: it is used as it was written.
    Unchanged,
    /// The entries of the description's map, and the paths of the files it imports.
    Expand { root: Vec<(SceneValue, SceneValue)>, imports: Vec<String> },
}

/// The files that a scene imports.
pub open spec fn imports_of(es: Seq<(Tree, Tree)>) -> Seq<Seq<char>> {
    match tree_get(es, "imports"@) {
        Some(v) => tree_strings(v),
        None => Seq::empty(),
    }
}

/// Reads a scene description: one that is no map, or a map without `components`, stays
/// as it is written; one with components comes back as its entries and its imports.
pub fn prepare(source: &str) -> (r: Result<Prepared, Error>)
    ensures
        match ron_tree(source@) {
            None => r matches Err(e) && e is Ron,
            Some(t) => if uses_components(t) {
                r matches Ok(Prepared::Expand { root, imports }) && t == Tree::Dict(entries_tree(root@))
                    && names(imports@) == imports_of(entries_tree(root@)) && maps_distinct(t)
            } else {
                r matches Ok(Prepared::Unchanged)
            },
        },
{
    let v = match parse_ron(source) {
        Ok(v) => v,
        Err(e) => {
            return Err(e);
        },
    };
    if !crate::scene::preprocessor::scene::needs_expansion(&v) {
        return Ok(Prepared::Unchanged);
    }
    let imports = import_paths(&v);
    match v {
        SceneValue::Dict(root) => Ok(Prepared::Expand { root, imports }),
        _ => Ok(Prepared::Unchanged),
    }
}

} // verus!
