use pfaedle::geometry::Point;
use pfaedle::hilbert::{compute_centroid, hilbert_index, route_hilbert_index, xy_to_hilbert};

fn point(x: f64, y: f64) -> Point {
    Point { x: (x * 1e7).round() as i32, y: (y * 1e7).round() as i32 }
}

#[test]
fn test_hilbert_basic() {
    // Points close together should have similar indices
    let idx1 = hilbert_index(point(-122.4, 37.8));
    let idx2 = hilbert_index(point(-122.35, 37.85));
    let idx3 = hilbert_index(point(0.0, 51.5)); // London - far away

    // SF points should be closer to each other than to London
    let diff_sf = (idx1 as i64 - idx2 as i64).abs();
    let diff_london = (idx1 as i64 - idx3 as i64).abs();

    assert!(diff_sf < diff_london);
}

#[test]
fn test_hilbert_ordering() {
    // Create a grid of points
    let mut points: Vec<(f64, f64, u64)> = Vec::new();
    for lon in (-180..180).step_by(30) {
        for lat in (-90..90).step_by(30) {
            let idx = hilbert_index(point(lon as f64, lat as f64));
            points.push((lon as f64, lat as f64, idx));
        }
    }

    // Sort by Hilbert index
    points.sort_by_key(|(_, _, idx)| *idx);

    // Check that consecutive points are relatively close
    for window in points.windows(2) {
        let (lon1, lat1, _) = window[0];
        let (lon2, lat2, _) = window[1];
        let dist = ((lon2 - lon1).powi(2) + (lat2 - lat1).powi(2)).sqrt();
        // Most consecutive points should be within ~60 degrees
        // (allowing for curve crossings)
        assert!(dist < 100.0, "Jump too large: {} degrees", dist);
    }
}

#[test]
fn test_centroid() {
    let points = vec![point(-122.0, 37.0), point(-122.0, 38.0), point(-123.0, 37.5)];
    let c = compute_centroid(&points);
    let (lon, lat) = (c.x as f64 / 1e7, c.y as f64 / 1e7);
    assert!((lon - (-122.333)).abs() < 0.01);
    assert!((lat - 37.5).abs() < 0.01);
}

#[test]
fn the_curve_visits_each_cell_once_and_moves_by_one() {
    let order = 3;
    let mut cells: Vec<(u64, i32, i32)> = Vec::new();
    for x in 0..8u32 {
        for y in 0..8u32 {
            cells.push((xy_to_hilbert(order, x, y), x as i32, y as i32));
        }
    }
    cells.sort();
    for (i, c) in cells.iter().enumerate() {
        assert_eq!(c.0, i as u64);
    }
    for w in cells.windows(2) {
        assert_eq!((w[0].1 - w[1].1).abs() + (w[0].2 - w[1].2).abs(), 1);
    }
    assert_eq!((cells[0].1, cells[0].2), (0, 0));
}

#[test]
fn the_index_of_a_route_is_that_of_its_centre() {
    let stops = vec![point(1.0, 2.0), point(3.0, 4.0)];
    assert_eq!(route_hilbert_index(&stops), hilbert_index(point(2.0, 3.0)));
}

#[test]
fn a_finer_curve_visits_the_quarters_of_each_cell_in_a_row() {
    for order in 1..5u32 {
        for x in 0..2u32 << order {
            for y in 0..2u32 << order {
                let fine = xy_to_hilbert(order + 1, x, y);
                assert_eq!(fine / 4, xy_to_hilbert(order, x / 2, y / 2));
            }
        }
    }
}
