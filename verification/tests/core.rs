use raytracer::camera::Resolution;
use raytracer::errors::{get_config_file, RaytracerError};
use raytracer::plugins::{light_path, material_path, primitive_path};
use raytracer::rendering::color::Color;
use raytracer::rendering::image::{is_ppm_path, ppm_header, ppm_image};
use raytracer::rendering::tiles::{pixel_index, TileGrid, TILE_SIZE};

fn args(list: &[&str]) -> Vec<String> {
    list.iter().map(|s| s.to_string()).collect()
}

#[test]
fn incorrect_arguments_message() {
    assert_eq!(RaytracerError::IncorrectArguments.message(), "Incorrect arguments!");
    assert!(RaytracerError::IncorrectArguments.source().is_none());
}

#[test]
fn io_error_message_and_source() {
    let e = RaytracerError::from("no such file".to_string());
    assert_eq!(e.message(), "IO error: no such file");
    assert_eq!(e.source().map(|s| s.as_str()), Some("no such file"));
}

#[test]
fn config_file_needs_a_path() {
    assert!(matches!(get_config_file(&args(&["raytracer"])), Err(RaytracerError::IncorrectArguments)));
    assert!(matches!(get_config_file(&args(&[])), Err(RaytracerError::IncorrectArguments)));
}

#[test]
fn config_file_without_flag() {
    match get_config_file(&args(&["raytracer", "scene.ron"])) {
        Ok((path, sfml)) => {
            assert_eq!(path, "scene.ron");
            assert!(!sfml);
        }
        Err(_) => panic!("a path was given"),
    }
}

#[test]
fn config_file_with_flag_anywhere_after() {
    let (path, sfml) = get_config_file(&args(&["raytracer", "scene.ron", "--sfml"])).ok().unwrap();
    assert_eq!(path, "scene.ron");
    assert!(sfml);
    let (path, sfml) = get_config_file(&args(&["raytracer", "a.ron", "x", "--sfml", "y"])).ok().unwrap();
    assert_eq!(path, "a.ron");
    assert!(sfml);
}

#[test]
fn config_file_path_is_never_the_flag() {
    let (path, sfml) = get_config_file(&args(&["raytracer", "--sfml"])).ok().unwrap();
    assert_eq!(path, "--sfml");
    assert!(!sfml);
}

#[test]
fn plugin_paths() {
    assert_eq!(primitive_path("sphere", "so"), "plugins/libraytracer_sphere.so");
    assert_eq!(material_path("flat_color", "so"), "plugins/libraytracer_material_flat_color.so");
    assert_eq!(light_path("point_light", "so"), "plugins/libraytracer_light_point_light.so");
    assert_eq!(primitive_path("cube", "dylib"), "plugins/libraytracer_cube.dylib");
}

#[test]
fn colors() {
    let c = Color::from_rgb(1, 2, 3);
    assert_eq!((c.r, c.g, c.b), (1, 2, 3));
    assert_eq!(Color::red(), Color::from_rgb(255, 0, 0));
    assert_eq!(Color::black(), Color::from_rgb(0, 0, 0));
}

#[test]
fn resolution_fields() {
    let r = Resolution { width: 720, height: 480 };
    assert_eq!(r.width * r.height, 345_600);
}

#[test]
fn ppm_paths() {
    assert!(is_ppm_path("image.ppm"));
    assert!(is_ppm_path(".ppm"));
    assert!(!is_ppm_path("image.png"));
    assert!(!is_ppm_path("ppm"));
    assert!(!is_ppm_path("image.PPM"));
    assert!(!is_ppm_path(""));
}

#[test]
fn ppm_header_text() {
    assert_eq!(ppm_header(720, 480), b"P6\n720 480\n255\n".to_vec());
    assert_eq!(ppm_header(0, 7), b"P6\n0 7\n255\n".to_vec());
}

#[test]
fn ppm_image_bytes() {
    let pixels = vec![Color::from_rgb(1, 2, 3), Color::from_rgb(250, 251, 252)];
    let bytes = ppm_image(2, 1, &pixels);
    let mut expected = b"P6\n2 1\n255\n".to_vec();
    expected.extend_from_slice(&[1, 2, 3, 250, 251, 252]);
    assert_eq!(bytes, expected);
}

#[test]
fn tile_grid_counts() {
    let g = TileGrid::new(33, 16);
    assert_eq!(TILE_SIZE, 16);
    assert_eq!(g.total_tiles(), 3);
    let last = g.tile_bounds(2);
    assert_eq!((last.x0, last.y0, last.x_end, last.y_end), (32, 0, 33, 16));
    assert_eq!(TileGrid::new(0, 10).total_tiles(), 0);
    assert_eq!(TileGrid::new(16, 16).total_tiles(), 1);
}

#[test]
fn every_pixel_lies_in_exactly_one_tile() {
    let (w, h) = (37usize, 21usize);
    let g = TileGrid::new(w, h);
    let mut seen = vec![0u32; w * h];
    for t in 0..g.total_tiles() {
        let b = g.tile_bounds(t);
        assert!(b.x0 < b.x_end && b.y0 < b.y_end && b.x_end <= w && b.y_end <= h);
        for y in b.y0..b.y_end {
            for x in b.x0..b.x_end {
                seen[pixel_index(x, y, w, h)] += 1;
            }
        }
    }
    assert!(seen.iter().all(|&n| n == 1));
}

#[test]
fn pixel_indices_are_row_major() {
    assert_eq!(pixel_index(0, 0, 4, 3), 0);
    assert_eq!(pixel_index(3, 0, 4, 3), 3);
    assert_eq!(pixel_index(0, 1, 4, 3), 4);
    assert_eq!(pixel_index(3, 2, 4, 3), 11);
}
