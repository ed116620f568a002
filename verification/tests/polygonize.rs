use geo::Area;
use geo_types::{Coord, LineString, Polygon};
use ndarray::Array2;
use panoptes::grid::SegmentationMask;
use panoptes::polygonize::{polygonize_all, polygonize_class, PolygonizeError, VectorFeature};

fn geometry(f: &VectorFeature) -> Polygon<f64> {
    let coords: Vec<Coord<f64>> = f
        .ring
        .iter()
        .map(|&(x, y)| Coord {
            x: x as f64,
            y: y as f64,
        })
        .collect();
    Polygon::new(LineString::from(coords), vec![])
}

fn mean_confidence(f: &VectorFeature, conf: &Array2<f32>) -> f32 {
    let sum: f32 = f.pixels.iter().map(|&(x, y)| conf[[y, x]]).sum();
    sum / f.pixels.len() as f32
}

#[test]
fn test_polygonize_single_class() {
    let mut mask = SegmentationMask::zeros(10, 10);
    // Fill a 5x5 block with class 1
    for y in 2..7 {
        for x in 2..7 {
            mask.set(y, x, 1u8);
        }
    }
    let features = polygonize_class(&mask, 1, 1).unwrap();
    assert_eq!(features.len(), 1);
    assert_eq!(features[0].class_id, 1);
    assert!((features[0].area_px as f64 - 25.0).abs() < 1e-5);
    assert!((geometry(&features[0]).unsigned_area() - 25.0).abs() < 1e-5);
    assert_eq!(geometry(&features[0]).exterior().0.len(), 5);
}

#[test]
fn test_polygonize_mean_confidence() {
    let mut mask = SegmentationMask::zeros(10, 10);
    let mut conf = Array2::<f32>::zeros((10, 10));
    for y in 2..7 {
        for x in 2..7 {
            mask.set(y, x, 1u8);
            conf[[y, x]] = 0.8;
        }
    }
    let features = polygonize_class(&mask, 1, 1).unwrap();
    assert_eq!(features.len(), 1);
    assert!((mean_confidence(&features[0], &conf) - 0.8).abs() < 1e-5);
}

#[test]
fn test_polygonize_min_area_filter() {
    let mut mask = SegmentationMask::zeros(10, 10);
    mask.set(5, 5, 1);
    mask.set(5, 6, 1);
    let features = polygonize_class(&mask, 1, 5).unwrap();
    assert_eq!(features.len(), 0); // Too small
}

#[test]
fn test_polygonize_empty() {
    let mask = SegmentationMask::zeros(10, 10);
    let features = polygonize_class(&mask, 1, 1).unwrap();
    assert_eq!(features.len(), 0);
}

#[test]
fn test_polygonize_l_shape_is_not_bbox() {
    let mut mask = SegmentationMask::zeros(10, 10);
    for y in 2..5 {
        mask.set(y, 2, 1u8);
    }
    for x in 2..5 {
        mask.set(4, x, 1u8);
    }
    let features = polygonize_class(&mask, 1, 1).unwrap();
    assert_eq!(features.len(), 1);
    assert!((features[0].area_px as f64 - 5.0).abs() < 1e-5);

    let poly_area = geometry(&features[0]).unsigned_area();
    assert!(
        (poly_area - 5.0).abs() < 1e-5,
        "polygon area {poly_area} should match pixel count, not bbox area 9"
    );
    let unique_verts = geometry(&features[0]).exterior().0.len().saturating_sub(1);
    assert!(
        unique_verts > 4,
        "L-shape outline must have more than 4 vertices, got {unique_verts}"
    );
}

#[test]
fn square_outline_is_its_four_corners_clockwise() {
    let mut mask = SegmentationMask::zeros(10, 10);
    for y in 2..7 {
        for x in 2..7 {
            mask.set(y, x, 1u8);
        }
    }
    let features = polygonize_class(&mask, 1, 0).unwrap();
    assert_eq!(features[0].ring, vec![(2, 2), (7, 2), (7, 7), (2, 7), (2, 2)]);
    assert_eq!(features[0].pixels[0], (2, 2));
}

#[test]
fn l_shape_outline_vertices() {
    let mut mask = SegmentationMask::zeros(10, 10);
    for y in 2..5 {
        mask.set(y, 2, 1u8);
    }
    for x in 2..5 {
        mask.set(4, x, 1u8);
    }
    let features = polygonize_class(&mask, 1, 0).unwrap();
    assert_eq!(
        features[0].ring,
        vec![(2, 2), (3, 2), (3, 4), (5, 4), (5, 5), (2, 5), (2, 2)]
    );
}

#[test]
fn single_pixel_outline() {
    let mut mask = SegmentationMask::zeros(3, 3);
    mask.set(1, 1, 7);
    let features = polygonize_class(&mask, 7, 0).unwrap();
    assert_eq!(features.len(), 1);
    assert_eq!(features[0].ring, vec![(1, 1), (2, 1), (2, 2), (1, 2), (1, 1)]);
    assert_eq!(features[0].area_px, 1);
}

#[test]
fn empty_mask_is_an_error() {
    let mask = SegmentationMask::zeros(0, 5);
    assert_eq!(polygonize_class(&mask, 1, 1).unwrap_err(), PolygonizeError::EmptyMask);
    let mask = SegmentationMask::zeros(4, 0);
    assert_eq!(polygonize_class(&mask, 0, 0).unwrap_err(), PolygonizeError::EmptyMask);
    assert_eq!(polygonize_all(&mask, 2, 0).unwrap_err(), PolygonizeError::EmptyMask);
    assert!(polygonize_all(&mask, 0, 0).unwrap().is_empty());
}

#[test]
fn diagonal_pixels_are_separate_components_in_scan_order() {
    let mut mask = SegmentationMask::zeros(4, 4);
    mask.set(0, 1, 1);
    mask.set(1, 0, 1);
    mask.set(2, 2, 1);
    mask.set(2, 3, 1);
    let features = polygonize_class(&mask, 1, 0).unwrap();
    assert_eq!(features.len(), 3);
    assert_eq!(features[0].pixels, vec![(1, 0)]);
    assert_eq!(features[1].pixels, vec![(0, 1)]);
    let mut third = features[2].pixels.clone();
    third.sort();
    assert_eq!(third, vec![(2, 2), (3, 2)]);
    assert_eq!(features[2].area_px, 2);
    assert_eq!(features[2].ring, vec![(2, 2), (4, 2), (4, 3), (2, 3), (2, 2)]);
}

#[test]
fn components_cover_the_class_once_each() {
    let rows = [
        [1u8, 1, 0, 2, 2],
        [0, 1, 0, 0, 2],
        [1, 0, 1, 1, 0],
        [1, 1, 0, 1, 1],
    ];
    let mut mask = SegmentationMask::zeros(4, 5);
    for (y, row) in rows.iter().enumerate() {
        for (x, &v) in row.iter().enumerate() {
            mask.set(y, x, v);
        }
    }
    let features = polygonize_class(&mask, 1, 0).unwrap();
    let mut seen = Vec::new();
    for f in &features {
        assert_eq!(f.class_id, 1);
        assert_eq!(f.area_px, f.pixels.len());
        for &(x, y) in &f.pixels {
            assert_eq!(rows[y][x], 1);
            assert!(!seen.contains(&(x, y)));
            seen.push((x, y));
        }
    }
    let count = rows.iter().flatten().filter(|&&v| v == 1).count();
    assert_eq!(seen.len(), count);
    assert_eq!(features.len(), 3);
}

#[test]
fn hole_is_filled_by_the_outline() {
    let mut mask = SegmentationMask::zeros(5, 5);
    for y in 1..4 {
        for x in 1..4 {
            if !(x == 2 && y == 2) {
                mask.set(y, x, 1);
            }
        }
    }
    let features = polygonize_class(&mask, 1, 0).unwrap();
    assert_eq!(features.len(), 1);
    assert_eq!(features[0].area_px, 8);
    assert!((geometry(&features[0]).unsigned_area() - 9.0).abs() < 1e-9);
}

#[test]
fn polygonize_all_concatenates_classes_in_order() {
    let mut mask = SegmentationMask::zeros(2, 3);
    mask.set(0, 0, 1);
    mask.set(1, 2, 2);
    let all = polygonize_all(&mask, 3, 0).unwrap();
    let classes: Vec<u8> = all.iter().map(|f| f.class_id).collect();
    assert_eq!(classes, vec![0, 1, 2]);
    assert_eq!(all[0].area_px, 4);
    assert_eq!(all[1].pixels, vec![(0, 0)]);
    assert_eq!(all[2].pixels, vec![(2, 1)]);
    let filtered = polygonize_all(&mask, 3, 2).unwrap();
    assert_eq!(filtered.len(), 1);
    assert_eq!(filtered[0].class_id, 0);
}

fn mask_from(rows: &[&str]) -> SegmentationMask {
    let mut mask = SegmentationMask::zeros(rows.len(), rows[0].len());
    for (y, row) in rows.iter().enumerate() {
        for (x, ch) in row.chars().enumerate() {
            if ch == 'X' {
                mask.set(y, x, 1);
            }
        }
    }
    mask
}

#[test]
fn u_shape_outline() {
    let mask = mask_from(&["X.X", "XXX"]);
    let features = polygonize_class(&mask, 1, 0).unwrap();
    assert_eq!(features.len(), 1);
    assert_eq!(
        features[0].ring,
        vec![(0, 0), (1, 0), (1, 1), (2, 1), (2, 0), (3, 0), (3, 2), (0, 2), (0, 0)]
    );
    assert!((geometry(&features[0]).unsigned_area() - 5.0).abs() < 1e-9);
}

#[test]
fn hole_touching_the_outside_at_a_corner_is_walked_around() {
    // the hole at (1, 1) meets the notch at (2, 0) in the corner (2, 1)
    let mask = mask_from(&["XX.", "X.X", "XXX"]);
    let features = polygonize_class(&mask, 1, 0).unwrap();
    assert_eq!(features.len(), 1);
    assert_eq!(features[0].area_px, 7);
    assert_eq!(
        features[0].ring,
        vec![
            (0, 0),
            (2, 0),
            (2, 1),
            (1, 1),
            (1, 2),
            (2, 2),
            (2, 1),
            (3, 1),
            (3, 3),
            (0, 3),
            (0, 0)
        ]
    );
}

#[test]
fn outlines_are_closed_rectilinear_rings_on_pixel_corners() {
    let rows = [
        "XX..XXXX..",
        "X.X.X..X.X",
        "XXX.XX.XXX",
        "...X..X...",
        "XX.XXXX.XX",
        "X.X...XX.X",
        "XXXX.X.XXX",
    ];
    let mask = mask_from(&rows);
    let features = polygonize_class(&mask, 1, 0).unwrap();
    assert!(!features.is_empty());
    for f in &features {
        let r = &f.ring;
        assert!(r.len() >= 5, "ring {r:?}");
        assert_eq!(r[0], r[r.len() - 1]);
        for k in 0..r.len() - 1 {
            assert!(r[k].0 == r[k + 1].0 || r[k].1 == r[k + 1].1, "ring {r:?}");
        }
        for &(vx, vy) in r {
            assert!(f.pixels.iter().any(|&(x, y)| {
                let (x, y) = (x as i32, y as i32);
                (vx == x || vx == x + 1) && (vy == y || vy == y + 1)
            }));
        }
    }
}

#[test]
fn raising_min_area_only_drops_small_components() {
    let mask = mask_from(&[
        "X.....",
        "X..XXX",
        "...XXX",
        ".X....",
    ]);
    let loose = polygonize_class(&mask, 1, 1).unwrap();
    let strict = polygonize_class(&mask, 1, 3).unwrap();
    assert_eq!(loose.len(), 3);
    assert_eq!(loose.iter().map(|f| f.area_px).collect::<Vec<_>>(), vec![2, 6, 1]);
    assert_eq!(strict.len(), 1);
    assert_eq!(strict[0].area_px, 6);
    assert_eq!(strict[0].pixels[0], (3, 1));
    let kept = loose.iter().find(|f| f.pixels[0] == strict[0].pixels[0]).unwrap();
    let mut a = kept.pixels.clone();
    let mut b = strict[0].pixels.clone();
    a.sort();
    b.sort();
    assert_eq!(a, b);
    assert_eq!(kept.ring, strict[0].ring);
}

fn twice_area(ring: &[(i32, i32)]) -> i64 {
    ring.windows(2)
        .map(|w| w[0].0 as i64 * w[1].1 as i64 - w[1].0 as i64 * w[0].1 as i64)
        .sum()
}

#[test]
fn outline_area_equals_pixel_count_without_holes() {
    let shapes: [&[&str]; 4] = [
        &["X..", "XX.", "XXX"],
        &[".X.", "XXX", ".X."],
        &["X.X.X", "XXXXX", "..X..", ".XXX."],
        &["XX.", "X.X", "XXX"],
    ];
    for rows in shapes {
        let features = polygonize_class(&mask_from(rows), 1, 0).unwrap();
        assert_eq!(features.len(), 1, "{rows:?}");
        let f = &features[0];
        assert_eq!(twice_area(&f.ring), 2 * f.area_px as i64, "{rows:?}");
        assert!((geometry(f).unsigned_area() - f.area_px as f64).abs() < 1e-9);
    }
    // a hole is filled: the outline encloses one pixel more than the component has
    let holed = polygonize_class(&mask_from(&["XXX", "X.X", "XXX"]), 1, 0).unwrap();
    assert_eq!(twice_area(&holed[0].ring), 2 * 9);
    assert_eq!(holed[0].area_px, 8);
}

#[test]
fn outline_moves_with_the_pixels() {
    let rows = ["X.X", "XXX", ".X."];
    let base = polygonize_class(&mask_from(&rows), 1, 0).unwrap();
    let mut moved = SegmentationMask::zeros(7, 8);
    for (y, row) in rows.iter().enumerate() {
        for (x, ch) in row.chars().enumerate() {
            if ch == 'X' {
                moved.set(y + 3, x + 4, 1);
            }
        }
    }
    let shifted = polygonize_class(&moved, 1, 0).unwrap();
    assert_eq!(base.len(), 1);
    assert_eq!(shifted.len(), 1);
    let expected: Vec<(i32, i32)> = base[0].ring.iter().map(|&(x, y)| (x + 4, y + 3)).collect();
    assert_eq!(shifted[0].ring, expected);
}

#[test]
fn polygonize_all_is_each_class_in_turn_on_a_mask() {
    let mut mask = SegmentationMask::zeros(3, 4);
    mask.set(0, 0, 1);
    mask.set(0, 1, 1);
    mask.set(2, 3, 2);
    mask.set(1, 2, 1);
    let all = polygonize_all(&mask, 3, 1).unwrap();
    let mut per = Vec::new();
    for c in 0..3u8 {
        per.extend(polygonize_class(&mask, c, 1).unwrap());
    }
    assert_eq!(all.len(), per.len());
    for (a, b) in all.iter().zip(per.iter()) {
        assert_eq!(a.class_id, b.class_id);
        assert_eq!(a.pixels[0], b.pixels[0]);
        assert_eq!(a.area_px, b.area_px);
        assert_eq!(a.ring, b.ring);
    }
}
