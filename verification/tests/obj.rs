use raytracer::primitives::obj::{face_idx, ObjModel};

fn text(w: &Vec<char>) -> String {
    w.iter().collect()
}

#[test]
fn face_index_is_one_based() {
    assert_eq!(face_idx("1"), Some(0));
    assert_eq!(face_idx("7"), Some(6));
    assert_eq!(face_idx("+2"), Some(1));
}

#[test]
fn face_index_zero_saturates() {
    assert_eq!(face_idx("0"), Some(0));
}

#[test]
fn face_index_takes_text_before_slash() {
    assert_eq!(face_idx("3/4/5"), Some(2));
    assert_eq!(face_idx("3//5"), Some(2));
    assert_eq!(face_idx("/2"), None);
}

#[test]
fn face_index_rejects_what_parse_rejects() {
    assert_eq!(face_idx(""), None);
    assert_eq!(face_idx("-1"), None);
    assert_eq!(face_idx("+"), None);
    assert_eq!(face_idx("1a"), None);
    assert_eq!(face_idx(" 1"), None);
    assert_eq!(face_idx("x/1"), None);
}

#[test]
fn face_index_at_the_limit() {
    let max = usize::MAX.to_string();
    assert_eq!(face_idx(&max), Some(usize::MAX - 1));
    let over = format!("{}0", max);
    assert_eq!(face_idx(&over), None);
}

#[test]
fn model_of_vertices_and_a_quad() {
    let src = "# a square\nv 0 0 0\nv 1 0 0\nv 1 1 0\nv 0 1 0\nvn 0 0 1\nf 1 2 3 4\n";
    let m = ObjModel::from_str(src).ok().unwrap();
    assert_eq!(m.vertices.len(), 4);
    assert_eq!(text(&m.vertices[2].0), "1");
    assert_eq!(text(&m.vertices[2].1), "1");
    assert_eq!(text(&m.vertices[2].2), "0");
    assert_eq!(m.triangles, vec![(0, 1, 2), (0, 2, 3)]);
}

#[test]
fn face_with_texture_and_normal_indices() {
    let m = ObjModel::from_str("f 1/1/1 2/2/2 3/3/3 4/4/4 5/5/5").ok().unwrap();
    assert_eq!(m.triangles, vec![(0, 1, 2), (0, 2, 3), (0, 3, 4)]);
}

#[test]
fn invalid_face_words_are_skipped() {
    let m = ObjModel::from_str("f 1 2 x 3 y 4").ok().unwrap();
    assert_eq!(m.triangles, vec![(0, 1, 2), (0, 2, 3)]);
}

#[test]
fn face_without_two_leading_indices_is_ignored() {
    let m = ObjModel::from_str("f x 1 2 3\nf 1\nf\nf 1 y 2 3").ok().unwrap();
    assert!(m.triangles.is_empty());
}

#[test]
fn short_vertex_line_fails() {
    assert!(ObjModel::from_str("v 1 2 3\nv 1 2\n").is_err());
    assert!(ObjModel::from_str("v").is_err());
}

#[test]
fn extra_vertex_words_are_ignored() {
    let m = ObjModel::from_str("v 1 2 3 4").ok().unwrap();
    assert_eq!(m.vertices.len(), 1);
    assert_eq!(text(&m.vertices[0].2), "3");
}

#[test]
fn crlf_and_unicode_whitespace() {
    let m = ObjModel::from_str("v\u{a0}1\t2  3\r\nf 1\u{3000}2 3\r\n").ok().unwrap();
    assert_eq!(m.vertices.len(), 1);
    assert_eq!(text(&m.vertices[0].0), "1");
    assert_eq!(text(&m.vertices[0].2), "3");
    assert_eq!(m.triangles, vec![(0, 1, 2)]);
}

#[test]
fn other_lines_and_empty_text() {
    let m = ObjModel::from_str("").ok().unwrap();
    assert!(m.vertices.is_empty() && m.triangles.is_empty());
    let m = ObjModel::from_str("vt 1 2\no name\ns off\nvv 1 2 3\nff 1 2 3").ok().unwrap();
    assert!(m.vertices.is_empty() && m.triangles.is_empty());
}

#[test]
fn fan_shares_first_vertex_and_edges() {
    let m = ObjModel::from_str("f 5 6 7 8 9 10").ok().unwrap();
    assert_eq!(m.triangles.len(), 4);
    for (i, t) in m.triangles.iter().enumerate() {
        assert_eq!(t.0, 4);
        if i > 0 {
            assert_eq!(t.1, m.triangles[i - 1].2);
        }
    }
}

#[test]
fn vertex_words_must_be_real_numbers() {
    assert!(ObjModel::from_str("v a b c").is_err());
    assert!(ObjModel::from_str("v 1 2 x").is_err());
    assert!(ObjModel::from_str("v . 1 2").is_err());
    assert!(ObjModel::from_str("v 1e 2 3").is_err());
    assert!(ObjModel::from_str("v 1e+ 2 3").is_err());
    assert!(ObjModel::from_str("v 0x1 2 3").is_err());
    assert!(ObjModel::from_str("v 1,5 2 3").is_err());
}

#[test]
fn vertex_words_in_every_real_form() {
    let m = ObjModel::from_str("v 1e5 -.5 +3.\nv inf -Infinity NaN\nv 2E-3 .0e+1 7").ok().unwrap();
    assert_eq!(m.vertices.len(), 3);
    for (x, y, z) in &m.vertices {
        for w in [x, y, z] {
            assert!(text(w).parse::<f32>().is_ok());
        }
    }
}
