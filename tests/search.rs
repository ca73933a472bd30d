use triangles::point::Point;
use triangles::search::{best_combination, best_triangle, candidate_triangles, combination, extreme_points};

fn pt(time: usize, lat: i64, lon: i64) -> Point {
    Point { time, lat, lon }
}

fn haversine(a: &Point, b: &Point) -> f64 {
    let (alat, alon) = (a.lat as f64 / 1e6, a.lon as f64 / 1e6);
    let (blat, blon) = (b.lat as f64 / 1e6, b.lon as f64 / 1e6);
    let d_lat = (blat - alat).to_radians();
    let d_lon = (blon - alon).to_radians();
    let h = (d_lat / 2.0).sin().powi(2)
        + (d_lon / 2.0).sin().powi(2) * alat.to_radians().cos() * blat.to_radians().cos();
    6371.0 * 2.0 * h.sqrt().atan2((1.0 - h).sqrt())
}

fn perimeter(t: &[Point], (i, j, k): (usize, usize, usize)) -> f64 {
    haversine(&t[i], &t[j]) + haversine(&t[j], &t[k]) + haversine(&t[k], &t[i])
}

fn square() -> Vec<Point> {
    vec![pt(1, 0, 0), pt(2, 1_000_000, 0), pt(3, 1_000_000, 1_000_000), pt(4, 0, 1_000_000)]
}

#[test]
fn empty_trace_has_no_extremes() {
    assert_eq!(extreme_points(&Vec::new()), None);
}

#[test]
fn single_point_is_every_extreme() {
    let t = vec![pt(7, 5, -5)];
    let e = extreme_points(&t).unwrap();
    assert_eq!(e, vec![(0, t[0]); 4]);
}

#[test]
fn square_extremes() {
    let t = square();
    let e = extreme_points(&t).unwrap();
    let idx: Vec<usize> = e.iter().map(|x| x.0).collect();
    assert_eq!(idx, vec![1, 0, 2, 0]);
    for (i, p) in &e {
        assert_eq!(*p, t[*i]);
    }
}

#[test]
fn first_of_equal_maxima_wins() {
    let t = vec![pt(1, 0, 0), pt(2, 9, 0), pt(3, 9, 0), pt(4, 9, 3), pt(5, -2, 3)];
    let e = extreme_points(&t).unwrap();
    assert_eq!(e[0].0, 1);
    assert_eq!(e[1].0, 4);
    assert_eq!(e[2].0, 3);
    assert_eq!(e[3].0, 0);
}

#[test]
fn seed_point_keeps_ties() {
    let t = vec![pt(1, 4, 4), pt(2, 4, 4), pt(3, 4, 4)];
    let e = extreme_points(&t).unwrap();
    assert!(e.iter().all(|x| x.0 == 0));
}

#[test]
fn combinations_in_fixed_order() {
    let c: Vec<(usize, usize, usize)> = (0..4).map(combination).collect();
    assert_eq!(c, vec![(0, 1, 2), (0, 1, 3), (0, 2, 3), (1, 2, 3)]);
}

#[test]
fn candidate_triangles_use_trace_indices() {
    let e = vec![(10, pt(0, 0, 0)), (20, pt(0, 0, 0)), (30, pt(0, 0, 0)), (40, pt(0, 0, 0))];
    assert_eq!(
        candidate_triangles(&e),
        vec![(10, 20, 30), (10, 20, 40), (10, 30, 40), (20, 30, 40)]
    );
}

#[test]
fn largest_key_wins() {
    assert_eq!(best_combination(&vec![1, 2, 9, 3]), (0, 2, 3));
    assert_eq!(best_combination(&vec![0, 0, 0, 4]), (1, 2, 3));
}

#[test]
fn first_of_equal_keys_wins() {
    assert_eq!(best_combination(&vec![5, 7, 7, 0]), (0, 1, 3));
}

#[test]
fn all_zero_keys_give_first_candidate() {
    assert_eq!(best_combination(&vec![0, 0, 0, 0]), (0, 0, 0));
}

#[test]
fn unit_square_scenario() {
    let t = square();
    let e = extreme_points(&t).unwrap();
    let tris = candidate_triangles(&e);
    let perims: Vec<f64> = tris.iter().map(|c| perimeter(&t, *c)).collect();
    // triangles 0 and 2 are the same three corners; 1 and 3 are degenerate
    assert!((perims[0] - perims[2]).abs() < 1e-9);
    assert!(perims[0] > perims[1]);
    assert!(perims[0] > perims[3]);
    // sides of 1 degree and the diagonal, on a sphere of radius 6371 km
    assert!((perims[0] - 379.622).abs() < 0.01, "{}", perims[0]);
    let keys: Vec<u64> = perims.iter().map(|p| p.to_bits()).collect();
    let mut best = (0, 0, 0);
    let mut max = 0.0;
    for (k, p) in perims.iter().enumerate() {
        if *p > max {
            max = *p;
            best = tris[k];
        }
    }
    let got = best_triangle(&e, &keys);
    assert_eq!(got, best);
    let mut corners = vec![got.0, got.1, got.2];
    corners.sort();
    assert_eq!(corners, vec![0, 1, 2]);
}

#[test]
fn search_is_repeatable() {
    let t = vec![pt(1, 3, 8), pt(2, -4, 1), pt(3, 6, -2), pt(4, 0, 9), pt(5, 6, 9)];
    let e1 = extreme_points(&t).unwrap();
    let e2 = extreme_points(&t).unwrap();
    assert_eq!(e1, e2);
    let keys: Vec<u64> = candidate_triangles(&e1).iter().map(|c| perimeter(&t, *c).to_bits()).collect();
    assert_eq!(best_triangle(&e1, &keys), best_triangle(&e2, &keys));
}
