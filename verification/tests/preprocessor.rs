use raytracer::scene::preprocessor::defs::Defs;
use raytracer::scene::preprocessor::error::Error;
use raytracer::scene::preprocessor::expand::expand;
use raytracer::scene::preprocessor::resolve::resolve;
use raytracer::scene::preprocessor::scene::{
    collect_defs, import_paths, load_imports, needs_expansion, preprocess,
};
use raytracer::scene::preprocessor::text::{parse_ron, prepare, write_ron, Prepared};
use raytracer::scene::preprocessor::transform::{compose, transform_from_map, Placement, Triple};
use raytracer::scene::preprocessor::value::{get, get_str, seq_strings, SceneValue};

fn txt(s: &str) -> SceneValue {
    SceneValue::Text(s.to_string())
}

fn num(x: f64) -> SceneValue {
    SceneValue::Number(ron::Number::new(x))
}

fn list(v: Vec<SceneValue>) -> SceneValue {
    SceneValue::List(v)
}

fn dict(v: Vec<(&str, SceneValue)>) -> SceneValue {
    SceneValue::Dict(v.into_iter().map(|(k, x)| (txt(k), x)).collect())
}

fn entries(v: SceneValue) -> Vec<(SceneValue, SceneValue)> {
    match v {
        SceneValue::Dict(m) => m,
        _ => panic!("not a map"),
    }
}

fn same(a: &SceneValue, b: &SceneValue) -> bool {
    match (a, b) {
        (SceneValue::Bool(x), SceneValue::Bool(y)) => x == y,
        (SceneValue::Char(x), SceneValue::Char(y)) => x == y,
        (SceneValue::Number(x), SceneValue::Number(y)) => x == y,
        (SceneValue::Text(x), SceneValue::Text(y)) => x == y,
        (SceneValue::Bytes(x), SceneValue::Bytes(y)) => x == y,
        (SceneValue::Unit, SceneValue::Unit) => true,
        (SceneValue::Opt(None), SceneValue::Opt(None)) => true,
        (SceneValue::Opt(Some(x)), SceneValue::Opt(Some(y))) => same(x, y),
        (SceneValue::List(x), SceneValue::List(y)) => x.len() == y.len() && x.iter().zip(y).all(|(p, q)| same(p, q)),
        (SceneValue::Dict(x), SceneValue::Dict(y)) => {
            x.len() == y.len() && x.iter().zip(y).all(|(p, q)| same(&p.0, &q.0) && same(&p.1, &q.1))
        }
        _ => false,
    }
}

fn triple(t: &Option<Triple>) -> Option<(f64, f64, f64)> {
    t.map(|t| (t.x.into_f64(), t.y.into_f64(), t.z.into_f64()))
}

fn field<'a>(fields: &'a Vec<(SceneValue, SceneValue)>, key: &str) -> Option<&'a SceneValue> {
    get(fields, key)
}

#[test]
fn lookup_by_text_key() {
    let m = entries(dict(vec![("a", num(1.0)), ("b", txt("x")), ("a", num(2.0))]));
    assert!(same(get(&m, "a").unwrap(), &num(1.0)));
    assert!(get(&m, "c").is_none());
    assert_eq!(get_str(&m, "b"), Some("x"));
    assert_eq!(get_str(&m, "a"), None);
}

#[test]
fn strings_of_a_sequence() {
    let v = list(vec![txt("a"), num(3.0), txt("b")]);
    assert_eq!(seq_strings(&v), vec!["a".to_string(), "b".to_string()]);
    assert!(seq_strings(&txt("a")).is_empty());
}

#[test]
fn defs_later_wins() {
    let mut d = Defs::new();
    d.insert("a".to_string(), num(1.0));
    d.insert("a".to_string(), num(2.0));
    assert!(same(d.get("a").unwrap(), &num(2.0)));
    let mut e = Defs::new();
    e.insert("a".to_string(), num(3.0));
    e.insert("b".to_string(), num(4.0));
    d.extend(e);
    assert!(same(d.get("a").unwrap(), &num(3.0)));
    assert!(same(d.get("b").unwrap(), &num(4.0)));
    assert!(d.get("c").is_none());
}

#[test]
fn collect_defs_keeps_text_keys() {
    let m = vec![(txt("a"), num(1.0)), (num(5.0), num(2.0)), (txt("a"), num(3.0))];
    let d = collect_defs(&m);
    assert!(same(d.get("a").unwrap(), &num(3.0)));
}

#[test]
fn resolve_replaces_references_props_first() {
    let mut props = Defs::new();
    props.insert("r".to_string(), num(2.0));
    let mut defs = Defs::new();
    defs.insert("r".to_string(), num(9.0));
    defs.insert("c".to_string(), txt("red"));
    let v = dict(vec![("radius", txt("@r")), ("colors", list(vec![txt("@c"), txt("plain")]))]);
    let r = resolve(v, &props, &defs).ok().unwrap();
    let expected = dict(vec![("radius", num(2.0)), ("colors", list(vec![txt("red"), txt("plain")]))]);
    assert!(same(&r, &expected));
}

#[test]
fn resolve_undefined_reference() {
    let e = resolve(list(vec![txt("@a"), txt("@b")]), &Defs::new(), &Defs::new()).err().unwrap();
    assert!(matches!(&e, Error::UndefinedRef(n) if n == "a"));
    assert_eq!(e.message(), "Undefined reference: @a");
}

#[test]
fn resolve_leaves_reference_free_values_alone() {
    let v = dict(vec![("a", list(vec![num(1.0), txt("x@y")])), ("b", SceneValue::Opt(Some(Box::new(txt("@z")))))]);
    let copy = dict(vec![("a", list(vec![num(1.0), txt("x@y")])), ("b", SceneValue::Opt(Some(Box::new(txt("@z")))))]);
    let r = resolve(v, &Defs::new(), &Defs::new()).ok().unwrap();
    assert!(same(&r, &copy));
}

#[test]
fn placements() {
    let m = entries(dict(vec![
        ("translation", list(vec![num(1.0), num(2.0), num(3.0)])),
        ("rotation", list(vec![num(1.0), num(2.0)])),
    ]));
    let p = transform_from_map(&m);
    assert_eq!(triple(&p.translation), Some((1.0, 2.0, 3.0)));
    assert_eq!(triple(&p.rotation), None);
    let z = Placement::zero();
    assert!(z.translation.is_none() && z.rotation.is_none());
    let chain = compose(&vec![z], p);
    assert_eq!(chain.len(), 2);
    assert_eq!(triple(&chain[1].translation), Some((1.0, 2.0, 3.0)));
    assert!(Triple::from_ron_value(&list(vec![num(1.0), txt("a"), num(2.0)])).is_none());
}

#[test]
fn error_messages() {
    assert_eq!(Error::Ron("bad".to_string()).message(), "RON parse error: bad");
    assert_eq!(Error::Ser("bad".to_string()).message(), "RON serialize error: bad");
    assert_eq!(Error::Io("gone".to_string()).message(), "IO error: gone");
    assert_eq!(
        Error::CyclicDependency(vec!["a".to_string(), "b".to_string(), "a".to_string()]).message(),
        "Cyclic dependency: a \u{2192} b \u{2192} a"
    );
    assert_eq!(Error::MissingProp("pair".to_string(), "r".to_string()).message(), "Missing prop 'r' for 'pair'");
    assert_eq!(Error::InvalidStructure("x").message(), "Invalid structure: x");
}

fn pair_defs() -> Defs {
    let pair = dict(vec![
        ("props", list(vec![txt("r")])),
        (
            "primitives",
            list(vec![
                dict(vec![
                    ("kind", txt("sphere")),
                    ("radius", txt("@r")),
                    ("transform", dict(vec![("translation", list(vec![num(1.0), num(0.0), num(0.0)]))])),
                ]),
                dict(vec![("kind", txt("sphere")), ("radius", txt("@r"))]),
            ]),
        ),
    ]);
    let mut d = Defs::new();
    d.insert("pair".to_string(), pair);
    d
}

#[test]
fn expand_component_use() {
    let defs = pair_defs();
    let prims = vec![dict(vec![
        ("kind", txt("pair")),
        ("props", dict(vec![("r", num(2.0))])),
        ("transform", dict(vec![("translation", list(vec![num(0.0), num(5.0), num(0.0)]))])),
    ])];
    let outer = vec![Placement::zero()];
    let mut stack: Vec<String> = vec![];
    let out = expand(&prims, &outer, &Defs::new(), &defs, &mut stack).ok().unwrap();
    assert!(stack.is_empty());
    assert_eq!(out.len(), 2);
    for leaf in &out {
        assert!(same(field(&leaf.fields, "kind").unwrap(), &txt("sphere")));
        assert!(same(field(&leaf.fields, "radius").unwrap(), &num(2.0)));
        assert!(field(&leaf.fields, "transform").is_none());
        assert_eq!(leaf.transform.len(), 3);
        assert!(leaf.transform[0].translation.is_none());
        assert_eq!(triple(&leaf.transform[1].translation), Some((0.0, 5.0, 0.0)));
    }
    assert_eq!(triple(&out[0].transform[2].translation), Some((1.0, 0.0, 0.0)));
    assert!(out[1].transform[2].translation.is_none());
    assert_eq!(out[0].transform_at, 2);
    assert_eq!(out[1].transform_at, 2);
}

#[test]
fn expand_reports_a_real_cycle() {
    let mut defs = Defs::new();
    defs.insert("a".to_string(), dict(vec![("primitives", list(vec![dict(vec![("kind", txt("b"))])]))]));
    defs.insert("b".to_string(), dict(vec![("primitives", list(vec![dict(vec![("kind", txt("a"))])]))]));
    let prims = vec![dict(vec![("kind", txt("a"))])];
    let mut stack: Vec<String> = vec![];
    let e = expand(&prims, &vec![], &Defs::new(), &defs, &mut stack).err().unwrap();
    match &e {
        Error::CyclicDependency(path) => {
            assert_eq!(path, &vec!["a".to_string(), "b".to_string(), "a".to_string()]);
            assert!(path[..path.len() - 1].contains(path.last().unwrap()));
        }
        _ => panic!("expected a cycle"),
    }
    assert_eq!(e.message(), "Cyclic dependency: a \u{2192} b \u{2192} a");
}

#[test]
fn expand_missing_prop() {
    let defs = pair_defs();
    let prims = vec![dict(vec![("kind", txt("pair"))])];
    let mut stack: Vec<String> = vec![];
    let e = expand(&prims, &vec![], &Defs::new(), &defs, &mut stack).err().unwrap();
    assert!(matches!(&e, Error::MissingProp(c, p) if c == "pair" && p == "r"));
}

#[test]
fn expand_invalid_structure() {
    let mut stack: Vec<String> = vec![];
    let e = expand(&vec![num(1.0)], &vec![], &Defs::new(), &Defs::new(), &mut stack).err().unwrap();
    assert_eq!(e.message(), "Invalid structure: primitive must be a map");
    let e = expand(&vec![dict(vec![("radius", num(1.0))])], &vec![], &Defs::new(), &Defs::new(), &mut stack)
        .err()
        .unwrap();
    assert_eq!(e.message(), "Invalid structure: primitive missing 'kind'");
}

#[test]
fn expand_leaf_chain_extends_outer_chain() {
    let defs = pair_defs();
    let outer = vec![Placement::zero(), Placement::zero()];
    let prims = vec![
        dict(vec![("kind", txt("plane"))]),
        dict(vec![("kind", txt("pair")), ("props", dict(vec![("r", num(1.0))]))]),
    ];
    let mut stack: Vec<String> = vec![];
    let out = expand(&prims, &outer, &Defs::new(), &defs, &mut stack).ok().unwrap();
    assert_eq!(out.len(), 3);
    assert!(out.iter().all(|l| l.transform.len() > outer.len()));
}

#[test]
fn scene_needs_expansion_only_with_components() {
    assert!(!needs_expansion(&dict(vec![("primitives", list(vec![]))])));
    assert!(needs_expansion(&dict(vec![("components", dict(vec![]))])));
    assert!(!needs_expansion(&list(vec![])));
}

#[test]
fn scene_import_paths_and_imports() {
    let root = dict(vec![("imports", list(vec![txt("a.ron"), txt("b.ron")]))]);
    assert_eq!(import_paths(&root), vec!["a.ron".to_string(), "b.ron".to_string()]);
    assert!(import_paths(&dict(vec![])).is_empty());
    let f1 = dict(vec![("components", dict(vec![("x", num(1.0)), ("y", num(2.0))]))]);
    let f2 = dict(vec![("components", dict(vec![("x", num(3.0))]))]);
    let d = load_imports(&vec![f1, f2, num(0.0)]);
    assert!(same(d.get("x").unwrap(), &num(3.0)));
    assert!(same(d.get("y").unwrap(), &num(2.0)));
}

#[test]
fn preprocess_whole_scene() {
    let pair = {
        let d = pair_defs();
        match d.get("pair") {
            Some(SceneValue::Dict(m)) => SceneValue::Dict(m.iter().map(|(k, v)| (copy(k), copy(v))).collect()),
            _ => panic!(),
        }
    };
    let root = entries(dict(vec![
        ("camera", txt("cam")),
        ("components", dict(vec![("pair", pair)])),
        ("imports", list(vec![])),
        ("primitives", list(vec![dict(vec![("kind", txt("pair")), ("props", dict(vec![("r", num(4.0))]))])])),
    ]));
    let s = preprocess(root, Defs::new()).ok().unwrap();
    assert_eq!(s.fields.len(), 2);
    assert!(same(field(&s.fields, "camera").unwrap(), &txt("cam")));
    assert!(same(field(&s.fields, "lights").unwrap(), &list(vec![])));
    assert!(field(&s.fields, "components").is_none());
    assert_eq!(s.primitives_at, 1);
    assert_eq!(s.primitives.len(), 2);
    assert!(same(field(&s.primitives[0].fields, "radius").unwrap(), &num(4.0)));
}

#[test]
fn preprocess_keeps_lights_and_uses_imports() {
    let mut imported = Defs::new();
    imported.insert("ball".to_string(), dict(vec![("primitives", list(vec![dict(vec![("kind", txt("sphere"))])]))]));
    let root = entries(dict(vec![
        ("components", dict(vec![])),
        ("lights", list(vec![txt("sun")])),
        ("primitives", list(vec![dict(vec![("kind", txt("ball"))])])),
    ]));
    let s = preprocess(root, imported).ok().unwrap();
    assert_eq!(s.fields.len(), 1);
    assert!(same(field(&s.fields, "lights").unwrap(), &list(vec![txt("sun")])));
    assert_eq!(s.primitives_at, 1);
    assert_eq!(s.primitives.len(), 1);
}

#[test]
fn preprocess_propagates_errors() {
    let root = entries(dict(vec![
        ("components", dict(vec![])),
        ("primitives", list(vec![dict(vec![("kind", txt("s")), ("r", txt("@nope"))])])),
    ]));
    let e = preprocess(root, Defs::new()).err().unwrap();
    assert_eq!(e.message(), "Undefined reference: @nope");
}

fn copy(v: &SceneValue) -> SceneValue {
    v.deep_clone()
}

#[test]
fn parse_ron_reads_maps_and_sequences() {
    let v = parse_ron("{\"a\": 1, \"b\": [\"x\", true]}").ok().unwrap();
    let m = entries(v);
    assert!(same(get(&m, "a").unwrap(), &num(1.0)) || matches!(get(&m, "a"), Some(SceneValue::Number(_))));
    assert!(same(get(&m, "b").unwrap(), &list(vec![txt("x"), SceneValue::Bool(true)])));
}

#[test]
fn parse_ron_reports_bad_text() {
    let e = parse_ron("{").err().unwrap();
    assert!(matches!(e, Error::Ron(_)));
    assert!(e.message().starts_with("RON parse error: "));
}

#[test]
fn write_ron_round_trips() {
    let v = dict(vec![("kind", txt("sphere")), ("tags", list(vec![txt("a"), SceneValue::Unit]))]);
    let text = write_ron(&v).ok().unwrap();
    let back = parse_ron(&text).ok().unwrap();
    assert!(same(&back, &v));
}

#[test]
fn prepare_leaves_scenes_without_components() {
    assert!(matches!(prepare("[1, 2]"), Ok(Prepared::Unchanged)));
    assert!(matches!(prepare("{\"lights\": [], \"imports\": [\"a.ron\"]}"), Ok(Prepared::Unchanged)));
    assert!(matches!(prepare("{}"), Ok(Prepared::Unchanged)));
}

#[test]
fn prepare_reads_components_and_imports() {
    match prepare("{\"components\": {}, \"imports\": [\"a.ron\", 3, \"b.ron\"]}") {
        Ok(Prepared::Expand { root, imports }) => {
            assert_eq!(root.len(), 2);
            assert_eq!(imports, vec!["a.ron".to_string(), "b.ron".to_string()]);
        }
        _ => panic!("expected a scene to expand"),
    }
}

#[test]
fn prepare_reports_bad_text() {
    assert!(matches!(prepare("{\"components\": "), Err(Error::Ron(_))));
}
