use track_mapper::geo_coder::{split_coords, trace_markers, traverse_path, GeoCoordsError, PathMask, Point};

#[test]
fn test_wrong_format() {
    assert_eq!(split_coords("++++"), Err(GeoCoordsError))
}

#[test]
fn ok_coords() {
    let (lat, lon) = split_coords("12.3456, 12.3457").unwrap();
    let parsed: (f32, f32) = (lat.parse().unwrap(), lon.parse().unwrap());
    assert_eq!(parsed, (12.3456, 12.3457))
}

#[test]
fn coordinates_drop_spaces_and_split_at_the_comma() {
    assert_eq!(split_coords(" 1 . 5 ,2 "), Ok(("1.5".to_string(), "2".to_string())));
    assert_eq!(split_coords(","), Ok((String::new(), String::new())));
}

#[test]
fn coordinates_need_exactly_one_comma() {
    assert_eq!(split_coords("1,2,3"), Err(GeoCoordsError));
    assert_eq!(split_coords("12.5"), Err(GeoCoordsError));
    assert_eq!(split_coords(""), Err(GeoCoordsError));
    assert_eq!(split_coords(",,"), Err(GeoCoordsError));
}

fn mask(width: u32, height: u32, path: &[(u32, u32)]) -> PathMask {
    let mut on_path = vec![false; (width * height) as usize];
    for &(x, y) in path {
        on_path[(y * width + x) as usize] = true;
    }
    PathMask { width, height, on_path }
}

#[test]
fn straight_trail_drops_a_marker_pair_every_thirty_rings() {
    let path: Vec<(u32, u32)> = (0..100).map(|x| (x, 1)).collect();
    let m = mask(100, 3, &path);
    assert_eq!(
        trace_markers(&m).map(|t| t.markers),
        Some(vec![Point(30, 1), Point(30, 1), Point(60, 1), Point(60, 1), Point(90, 1), Point(90, 1)])
    );
}

#[test]
fn diagonal_trail_is_followed() {
    let path: Vec<(u32, u32)> = (0..40).map(|x| (x, x)).collect();
    let m = mask(40, 40, &path);
    assert_eq!(trace_markers(&m).map(|t| t.markers), Some(vec![Point(30, 30), Point(30, 30)]));
}

#[test]
fn crossing_trails_mark_both_ends_of_a_ring() {
    let mut path: Vec<(u32, u32)> = (0..70).map(|x| (x, 10)).collect();
    path.extend((0..70).map(|y| (10, y)));
    let m = mask(70, 70, &path);
    assert_eq!(
        trace_markers(&m).map(|t| t.markers),
        Some(vec![Point(30, 10), Point(10, 31), Point(60, 10), Point(10, 61)])
    );
}

#[test]
fn short_trail_and_empty_picture_give_no_markers() {
    assert_eq!(trace_markers(&mask(2, 5, &[(0, 0)])).map(|t| t.markers), Some(vec![]));
    assert_eq!(trace_markers(&mask(4, 4, &[])).map(|t| t.markers), Some(vec![]));
    assert_eq!(trace_markers(&mask(0, 0, &[])).map(|t| t.markers), Some(vec![]));
}

#[test]
fn table_size_beyond_u32_ends_the_trace() {
    // 65536 * 65536 does not fit in u32.
    assert!(trace_markers(&mask(65536, 0, &[])).is_none());
}

#[test]
fn seen_slot_outside_the_table_ends_the_trace() {
    // Pixel (1, 3) of a 2-wide picture uses slot 1 * 2 + 3 = 5 of a 4-slot table.
    assert!(trace_markers(&mask(2, 5, &[(1, 3)])).is_none());
}

#[test]
fn flood_marks_what_it_looks_at() {
    let path: Vec<(u32, u32)> = (0..100).map(|x| (x, 1)).collect();
    let m = mask(100, 3, &path);
    let mut unvisited = vec![true; 100 * 100];
    let mut painted = Vec::new();
    let markers = traverse_path(&m, &Point(0, 1), &mut unvisited, &mut painted).unwrap();
    assert_eq!(markers.len(), 6);
    let trail: Vec<Point> = (0..100).map(|x| Point(x, 1)).collect();
    assert_eq!(painted, trail);
    // Every pixel of rows 0 to 2 is looked at; slot x * 100 + y.
    for x in 0..100usize {
        for y in 0..3usize {
            assert!(!unvisited[x * 100 + y]);
        }
        assert!(unvisited[x * 100 + 3]);
    }
}

#[test]
fn tracing_paints_every_reached_trail_pixel_once() {
    let path: Vec<(u32, u32)> = (0..40).map(|x| (x, x)).collect();
    let m = mask(40, 40, &path);
    let tracing = trace_markers(&m).unwrap();
    let trail: Vec<Point> = (0..40).map(|x| Point(x, x)).collect();
    assert_eq!(tracing.painted, trail);
    // A lone trail pixel is reached by its own flood.
    let lone = trace_markers(&mask(3, 3, &[(1, 1)])).unwrap();
    assert_eq!(lone.painted, vec![Point(1, 1)]);
    assert!(lone.markers.is_empty());
}

#[test]
fn markers_are_painted_trail_pixels_and_nothing_is_painted_twice() {
    let mut path: Vec<(u32, u32)> = (0..70).map(|x| (x, 10)).collect();
    path.extend((0..70).map(|y| (10, y)));
    path.extend((20..50).map(|x| (x, 40)));
    let m = mask(70, 70, &path);
    let tracing = trace_markers(&m).unwrap();
    assert_eq!(tracing.markers.len() % 2, 0);
    for marker in tracing.markers.iter() {
        assert!(tracing.painted.contains(marker));
        assert!(path.contains(&(marker.0 as u32, marker.1 as u32)));
    }
    let mut distinct = tracing.painted.clone();
    distinct.sort_by_key(|p| (p.0, p.1));
    distinct.dedup();
    assert_eq!(distinct.len(), tracing.painted.len());
    // Every trail pixel is reached by some flood.
    assert_eq!(tracing.painted.len(), 70 + 69 + 30);
}

#[test]
fn a_flood_grows_one_connected_piece_from_its_seed() {
    let path: Vec<(u32, u32)> = (5..25).map(|x| (x, 7)).chain((5..15).map(|y| (24, y))).collect();
    let m = mask(30, 30, &path);
    let mut unvisited = vec![true; 30 * 30];
    let mut painted = Vec::new();
    let seed = Point(5, 7);
    traverse_path(&m, &seed, &mut unvisited, &mut painted).unwrap();
    let touch = |p: &Point, q: &Point| (p.0 - q.0).abs() <= 1 && (p.1 - q.1).abs() <= 1;
    for (j, p) in painted.iter().enumerate() {
        assert!(touch(p, &seed) || painted[..j].iter().any(|q| touch(p, q)));
    }
    // Everything around the painted pixels has been looked at.
    for p in painted.iter() {
        for dx in -1..=1 {
            for dy in -1..=1 {
                let (x, y) = (p.0 + dx, p.1 + dy);
                if (0..30).contains(&x) && (0..30).contains(&y) {
                    assert!(!unvisited[(x * 30 + y) as usize]);
                }
            }
        }
    }
}

#[test]
fn every_trail_pixel_of_a_wide_picture_is_painted() {
    let path = [(0, 0), (1, 1), (7, 0), (8, 1), (9, 2), (4, 3), (4, 4), (0, 5), (9, 5)];
    let m = mask(10, 6, &path);
    let tracing = trace_markers(&m).unwrap();
    assert_eq!(tracing.painted.len(), path.len());
    for &(x, y) in path.iter() {
        assert!(tracing.painted.contains(&Point(x as i32, y as i32)));
    }
}

#[test]
fn flood_markers_sit_on_the_thirtieth_and_sixtieth_ring() {
    let path: Vec<(u32, u32)> = (0..65).map(|x| (x, 0)).collect();
    let m = mask(65, 1, &path);
    let mut unvisited = vec![true; 65 * 65];
    let mut painted = Vec::new();
    let markers = traverse_path(&m, &Point(0, 0), &mut unvisited, &mut painted).unwrap();
    assert_eq!(markers, vec![Point(30, 0), Point(30, 0), Point(60, 0), Point(60, 0)]);
    let expected: Vec<Point> = (0..65).map(|x| Point(x, 0)).collect();
    assert_eq!(painted, expected);
}
