use vstd::prelude::*;
use crate::scene::preprocessor::value::{SceneValue, Tree, entries_tree, tree_get, get};

verus! {

/// Three numbers written as a sequence, such as a translation or rotation in a scene file.
#[derive(Clone, Copy)]
pub struct Triple {
    pub x: ron::Number,
    pub y: ron::Number,
    pub z: ron::Number,
}

/// The triple that a value spells: a sequence of exactly three numbers.
pub open spec fn triple_of(v: Tree) -> Option<Triple> {
    match v {
        Tree::List(s) => {
            if s.len() == 3 {
                match (s[0], s[1], s[2]) {
                    (Tree::Number(x), Tree::Number(y), Tree::Number(z)) => Some(Triple { x, y, z }),
                    _ => None,
                }
            } else {
                None
            }
        },
        _ => None,
    }
}

/// One level of placement: a translation and a rotation, each absent when it is zero.
#[derive(Clone, Copy)]
pub struct Placement {
    pub translation: Option<Triple>,
    pub rotation: Option<Triple>,
}

/// The placement that a `transform` map describes; a missing or malformed part is zero.
pub open spec fn placement_of(es: Seq<(Tree, Tree)>) -> Placement {
    Placement {
        translation: match tree_get(es, "translation"@) {
            Some(v) => triple_of(v),
            None => None,
        },
        rotation: match tree_get(es, "rotation"@) {
            Some(v) => triple_of(v),
            None => None,
        },
    }
}

/// A transform map's `translation` entry gives the placement's translation and its
/// `rotation` entry gives the rotation: an entry leading the map decides its part,
/// whatever follows, and a map of the two entries, in either order, gives both.
pub proof fn lemma_placement_reads_its_keys(t: Tree, r: Tree, rest: Seq<(Tree, Tree)>)
    ensures
        placement_of(seq![(Tree::Text("translation"@), t)] + rest).translation == triple_of(t),
        placement_of(seq![(Tree::Text("rotation"@), r)] + rest).rotation == triple_of(r),
        placement_of(seq![(Tree::Text("translation"@), t), (Tree::Text("rotation"@), r)])
            == (Placement { translation: triple_of(t), rotation: triple_of(r) }),
        placement_of(seq![(Tree::Text("rotation"@), r), (Tree::Text("translation"@), t)])
            == (Placement { translation: triple_of(t), rotation: triple_of(r) }),
{
    reveal_strlit("translation");
    reveal_strlit("rotation");
    assert("translation"@ != "rotation"@) by {
        assert("translation"@[1] != "rotation"@[1]);
    }
    let a = seq![(Tree::Text("translation"@), t)] + rest;
    let b = seq![(Tree::Text("rotation"@), r)] + rest;
    assert(a[0] == (Tree::Text("translation"@), t));
    assert(b[0] == (Tree::Text("rotation"@), r));
    let tr = seq![(Tree::Text("translation"@), t), (Tree::Text("rotation"@), r)];
    let rt = seq![(Tree::Text("rotation"@), r), (Tree::Text("translation"@), t)];
    assert(tr.drop_first() =~= seq![(Tree::Text("rotation"@), r)]);
    assert(rt.drop_first() =~= seq![(Tree::Text("translation"@), t)]);
    assert(tree_get(tr, "rotation"@) == tree_get(tr.drop_first(), "rotation"@));
    assert(tree_get(rt, "translation"@) == tree_get(rt.drop_first(), "translation"@));
}

impl Triple {
    /// Reads three numbers from a sequence value; anything else gives `None`.
    pub fn from_ron_value(v: &SceneValue) -> (r: Option<Triple>)
        ensures
            r == triple_of(v@),
    {
        match v {
            SceneValue::List(s) => {
                proof {
                    crate::scene::preprocessor::value::lemma_list_tree(s@);
                }
                if s.len() != 3 {
                    return None;
                }
                match (&s[0], &s[1], &s[2]) {
                    (SceneValue::Number(x), SceneValue::Number(y), SceneValue::Number(z)) => Some(
                        Triple { x: *x, y: *y, z: *z },
                    ),
                    _ => None,
                }
            },
            _ => None,
        }
    }
}

impl Placement {
    /// The placement that moves and turns nothing.
    pub fn zero() -> (p: Placement)
        ensures
            p.translation is None,
            p.rotation is None,
    {
        Placement { translation: None, rotation: None }
    }
}

/// Reads the translation and rotation of a `transform` map.
pub fn transform_from_map(m: &Vec<(SceneValue, SceneValue)>) -> (p: Placement)
    ensures
        p == placement_of(entries_tree(m@)),
{
    let translation = match get(m, "translation") {
        Some(v) => Triple::from_ron_value(v),
        None => None,
    };
    let rotation = match get(m, "rotation") {
        Some(v) => Triple::from_ron_value(v),
        None => None,
    };
    Placement { translation, rotation }
}

/// Places `inner` inside `outer`: the chain of placements from the outermost level in.
pub fn compose(outer: &Vec<Placement>, inner: Placement) -> (r: Vec<Placement>)
    ensures
        r@ == outer@.push(inner),
{
    let mut r: Vec<Placement> = Vec::new();
    let mut i: usize = 0;
    while i < outer.len()
        invariant
            i <= outer.len(),
            r@ == outer@.take(i as int),
        decreases outer.len() - i,
    {
        r.push(outer[i]);
        proof {
            assert(outer@.take(i + 1) =~= outer@.take(i as int).push(outer@[i as int]));
        }
        i = i + 1;
    }
    r.push(inner);
    proof {
        assert(outer@.take(outer@.len() as int) =~= outer@);
    }
    r
}

} // verus!
