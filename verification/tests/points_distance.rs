//! Great-circle distance and bounding boxes on micro-degree points.

use mkfiles::points::{dist_coords, GeoPoint};

fn point(lat: i64, lon: i64) -> GeoPoint {
    GeoPoint::new(lat, lon, None, None)
}

#[test]
fn distance_is_symmetric() {
    let pairs = [
        ((35_000_000, 139_000_000), (-33_000_000, 151_000_000)),
        ((0, 0), (10_000_000, 10_000_000)),
        ((89_000_000, -179_000_000), (-89_000_000, 179_000_000)),
        ((12_345_678, -87_654_321), (-1, 1)),
    ];
    for ((lat1, lon1), (lat2, lon2)) in pairs {
        let a = point(lat1, lon1);
        let b = point(lat2, lon2);
        assert_eq!(a.distance_to(&b), b.distance_to(&a));
        assert_eq!(
            dist_coords(lat1, lon1, lat2, lon2),
            dist_coords(lat2, lon2, lat1, lon1)
        );
    }
}

#[test]
fn distance_to_self_is_zero() {
    for (lat, lon) in [(0, 0), (45_000_000, 90_000_000), (-90_000_000, 180_000_000)] {
        let p = point(lat, lon);
        assert_eq!(p.distance_to(&p), 0);
    }
}

#[test]
fn distance_has_plausible_magnitude() {
    // ten degrees of longitude along the equator: close to 1112 km
    let d = dist_coords(0, 0, 0, 10_000_000);
    assert!(d > 1_080_000_000, "too short: {d}");
    assert!(d < 1_160_000_000, "too long: {d}");
    // antipodal points: close to half the circumference, about 20015 km
    let d2 = dist_coords(0, 0, 0, 180_000_000);
    assert!(d2 > 19_500_000_000, "too short: {d2}");
    assert!(d2 <= 20_015_086_232, "too long: {d2}");
}

#[test]
fn closer_points_measure_shorter() {
    let d1 = dist_coords(0, 0, 1_000_000, 0);
    let d2 = dist_coords(0, 0, 2_000_000, 0);
    let d3 = dist_coords(0, 0, 40_000_000, 0);
    assert!(0 < d1 && d1 < d2 && d2 < d3);
}

#[test]
fn within_is_the_closed_box() {
    let p = point(10_000_000, 20_000_000);
    assert!(p.within(10_000_000, 11_000_000, 19_000_000, 21_000_000));
    assert!(p.within(9_000_000, 10_000_000, 20_000_000, 20_000_000));
    assert!(!p.within(10_000_001, 11_000_000, 19_000_000, 21_000_000));
    assert!(!p.within(9_000_000, 11_000_000, 19_000_000, 19_999_999));
}

#[test]
fn identity_accessors() {
    let p = GeoPoint::new(1, 2, Some(7), Some(b"STA".to_vec()));
    assert_eq!(p.id(), 7);
    assert_eq!(p.code(), b"STA".to_vec());
    let q = GeoPoint::new(1, 2, None, None);
    assert_eq!(q.id(), 0);
    assert_eq!(q.code(), Vec::<u8>::new());
}
