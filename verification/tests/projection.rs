use gtfs_viz::errors::DegenerateGeometryError;
use gtfs_viz::gtfs::Gtfs;
use gtfs_viz::gtfs::Stop;
use gtfs_viz::gtfs::Trip;
use gtfs_viz::utils::boundaries::Boundaries;
use gtfs_viz::utils::math::coordinate_to_xy;
use gtfs_viz::utils::meta::Meta;

fn wide() -> Meta {
    Meta::from_coords(&[(0, 0), (2_000_000, 1_000_000)]).unwrap()
}

#[test]
fn meta_holds_the_box_and_the_size_of_the_drawing() {
    let meta = wide();
    assert_eq!(
        meta.boundaries,
        Boundaries { min_lng: 0, max_lng: 2_000_000, min_lat: 0, max_lat: 1_000_000 }
    );
    assert_eq!((meta.width, meta.height), (350_000, 200_000));
    assert!(meta.check());
}

#[test]
fn meta_of_a_single_point_is_an_error() {
    assert_eq!(Meta::from_coords(&[(19_040_000, 47_500_000)]), Err(DegenerateGeometryError));
}

#[test]
fn meta_of_points_on_one_parallel_is_an_error() {
    assert_eq!(Meta::from_coords(&[(1, 5), (2, 5), (3, 5)]), Err(DegenerateGeometryError));
}

#[test]
fn meta_of_nothing_is_that_of_the_empty_box() {
    let meta = Meta::from_coords(&[]).unwrap();
    assert_eq!(
        meta.boundaries,
        Boundaries {
            min_lng: 180_000_000,
            max_lng: -180_000_000,
            min_lat: 90_000_000,
            max_lat: -90_000_000
        }
    );
    assert_eq!((meta.width, meta.height), (850_000, 450_000));
}

#[test]
fn check_refuses_a_box_without_extent() {
    let flat = Meta {
        boundaries: Boundaries { min_lng: 0, max_lng: 5, min_lat: 3, max_lat: 3 },
        width: 350_000,
        height: -50_000,
    };
    assert!(!flat.check());
    let thin = Meta {
        boundaries: Boundaries { min_lng: 5, max_lng: 5, min_lat: 0, max_lat: 3 },
        width: 0,
        height: 0,
    };
    assert!(!thin.check());
}

#[test]
fn check_refuses_a_drawing_that_stretches_the_box_too_far() {
    let unit = Boundaries { min_lng: 0, max_lng: 1, min_lat: 0, max_lat: -2 };
    let scale: i64 = 1_073_741_824;
    assert!(Meta { boundaries: unit, width: scale, height: 2 * scale }.check());
    assert!(Meta { boundaries: unit, width: -scale, height: -2 * scale }.check());
    assert!(Meta { boundaries: unit, width: 0, height: 0 }.check());
    assert!(!Meta { boundaries: unit, width: scale + 1, height: 0 }.check());
    assert!(!Meta { boundaries: unit, width: -scale - 1, height: 0 }.check());
    assert!(!Meta { boundaries: unit, width: 0, height: 2 * scale + 1 }.check());
    assert!(!Meta { boundaries: unit, width: 0, height: -2 * scale - 1 }.check());
    assert!(!Meta { boundaries: unit, width: i64::MAX, height: i64::MIN }.check());
}

#[test]
fn a_drawing_of_any_size_can_be_projected_onto() {
    let meta = Meta {
        boundaries: Boundaries { min_lng: 0, max_lng: 10, min_lat: 0, max_lat: 10 },
        width: 1_000,
        height: 300,
    };
    assert!(meta.check());
    assert_eq!(coordinate_to_xy(0, 0, &meta), (-500, -150));
    assert_eq!(coordinate_to_xy(5, 5, &meta), (0, 0));
    assert_eq!(coordinate_to_xy(10, 10, &meta), (500, 150));
    assert_eq!(coordinate_to_xy(13, -3, &meta), (800, -240));
}

#[test]
fn the_farthest_points_at_the_largest_scale_do_not_overflow() {
    let scale: i64 = 1_073_741_824;
    let meta = Meta {
        boundaries: Boundaries { min_lng: i32::MIN, max_lng: i32::MIN + 1, min_lat: i32::MAX, max_lat: i32::MAX - 1 },
        width: -scale,
        height: scale,
    };
    assert!(meta.check());
    assert_eq!(
        coordinate_to_xy(i32::MAX, i32::MIN, &meta),
        (scale / 2 - 4_294_967_295 * scale, 4_294_967_295 * scale - scale / 2)
    );
}

#[test]
fn on_canvas_fits_the_box_to_the_canvas_given() {
    let wide = Boundaries { min_lng: 0, max_lng: 2_000_000, min_lat: 0, max_lat: 1_000_000 };
    let meta = Meta::on_canvas(wide, 800, 600).unwrap();
    assert_eq!(meta.boundaries, wide);
    assert_eq!((meta.width, meta.height), (650_000, 350_000));
    assert!(meta.check());
    assert_eq!(Meta::on_canvas(wide, 500, 500), Meta::from_coords(&[(0, 0), (2_000_000, 1_000_000)]));
    let point = Boundaries { min_lng: 1, max_lng: 1, min_lat: 2, max_lat: 2 };
    assert_eq!(Meta::on_canvas(point, 800, 600), Err(DegenerateGeometryError));
}

#[test]
fn meta_from_gtfs_covers_every_stop() {
    let mut gtfs = Gtfs::new();
    let places: Vec<(&str, i32, i32)> =
        vec![("a", 19_000_000, 47_400_000), ("b", 19_300_000, 47_600_000), ("c", 19_100_000, 47_500_000)];
    for (id, lng, lat) in places.iter() {
        let added = gtfs.add_stop(Stop {
            id: id.to_string(),
            name: id.to_string(),
            longitude: *lng,
            latitude: *lat,
        });
        assert!(added);
    }
    let meta = Meta::from_gtfs(&gtfs).unwrap();
    assert_eq!(
        meta.boundaries,
        Boundaries {
            min_lng: 19_000_000,
            max_lng: 19_300_000,
            min_lat: 47_400_000,
            max_lat: 47_600_000
        }
    );
    assert_eq!((meta.width, meta.height), (350_000, 283_333));
}

#[test]
fn meta_from_trip_covers_the_stops_of_the_trip() {
    let trip = Trip { id: "t".to_string(), coords: vec![(0, 0), (1_000_000, 2_000_000), (500_000, 1_000_000)] };
    let meta = Meta::from_trip(&trip).unwrap();
    assert_eq!((meta.width, meta.height), (100_000, 450_000));
    let still = Trip { id: "s".to_string(), coords: vec![(7, 7), (7, 7)] };
    assert_eq!(Meta::from_trip(&still), Err(DegenerateGeometryError));
}

#[test]
fn corners_of_the_box_are_the_corners_of_the_drawing() {
    let meta = wide();
    let (left, bottom) = coordinate_to_xy(0, 0, &meta);
    let (right, top) = coordinate_to_xy(2_000_000, 1_000_000, &meta);
    assert_eq!((left, bottom), (-175_000, -100_000));
    assert_eq!((right, top), (175_000, 100_000));
    assert_eq!((right - left, top - bottom), (meta.width, meta.height));
}

#[test]
fn corners_span_the_drawing_whatever_the_box() {
    let boxes: Vec<Vec<(i32, i32)>> = vec![
        vec![(0, 0), (3, 7)],
        vec![(0, 0), (7, 3)],
        vec![(0, 0), (1_000_000, 10_000_000)],
        vec![(19_000_000, 47_400_000), (19_300_000, 47_600_000)],
        vec![(-180_000_000, -90_000_000), (180_000_000, 90_000_000)],
        vec![(i32::MIN, i32::MIN), (i32::MAX, i32::MAX)],
        vec![],
    ];
    for coords in boxes.iter() {
        let meta = Meta::from_coords(coords).unwrap();
        let b = meta.boundaries;
        let (x0, y0) = coordinate_to_xy(b.min_lng, b.min_lat, &meta);
        let (x1, y1) = coordinate_to_xy(b.max_lng, b.max_lat, &meta);
        let (x2, y2) = coordinate_to_xy(b.min_lng, b.max_lat, &meta);
        let (x3, y3) = coordinate_to_xy(b.max_lng, b.min_lat, &meta);
        assert_eq!((x1 - x0, y1 - y0), (meta.width, meta.height), "{:?}", coords);
        assert_eq!((x2, y2), (x0, y1), "{:?}", coords);
        assert_eq!((x3, y3), (x1, y0), "{:?}", coords);
    }
}

#[test]
fn the_centre_of_the_box_is_the_centre_of_the_drawing() {
    let meta = wide();
    assert_eq!(coordinate_to_xy(1_000_000, 500_000, &meta), (0, 0));
    assert_eq!(coordinate_to_xy(500_000, 500_000, &meta), (-87_500, 0));
}

#[test]
fn an_odd_extent_is_split_with_the_larger_half_up() {
    let meta = Meta::from_coords(&[(0, 0), (3, 7)]).unwrap();
    assert_eq!((meta.width, meta.height), (64_285, 450_000));
    assert_eq!(coordinate_to_xy(0, 0, &meta), (-32_142, -225_000));
    assert_eq!(coordinate_to_xy(3, 7, &meta), (32_143, 225_000));
}

#[test]
fn projection_rounds_down() {
    let meta = Meta::from_coords(&[(0, 0), (3, 7)]).unwrap();
    assert_eq!(coordinate_to_xy(1, 1, &meta), (-10_714, -160_715));
    assert_eq!(coordinate_to_xy(2, 2, &meta), (10_714, -96_429));
    let fine = wide();
    assert_eq!(coordinate_to_xy(1, 1, &fine), (-175_000, -100_000));
    assert_eq!(coordinate_to_xy(1_999_999, 999_999, &fine), (174_999, 99_999));
}

#[test]
fn points_outside_the_box_are_not_clamped() {
    let meta = wide();
    assert_eq!(coordinate_to_xy(3_000_000, -1_000_000, &meta), (350_000, -300_000));
    assert_eq!(coordinate_to_xy(-2_000_000, 2_000_000, &meta), (-525_000, 300_000));
    let small = Meta::from_coords(&[(0, 0), (3, 7)]).unwrap();
    assert_eq!(coordinate_to_xy(4, 8, &small), (53_571, 289_285));
    assert_eq!(coordinate_to_xy(-1, -1, &small), (-53_571, -289_286));
}

#[test]
fn projection_keeps_the_order_of_longitudes_and_latitudes() {
    let meta = Meta::from_coords(&[(19_000_000, 47_400_000), (19_300_000, 47_600_000)]).unwrap();
    let mut lng: i32 = 18_900_000;
    let mut last_x: i64 = i64::MIN;
    while lng <= 19_400_000 {
        let (x, _) = coordinate_to_xy(lng, 47_500_000, &meta);
        assert!(last_x <= x);
        last_x = x;
        lng += 7_919;
    }
    let mut lat: i32 = 47_300_000;
    let mut last_y: i64 = i64::MIN;
    while lat <= 47_700_000 {
        let (_, y) = coordinate_to_xy(19_100_000, lat, &meta);
        assert!(last_y <= y);
        last_y = y;
        lat += 7_919;
    }
}

#[test]
fn a_negative_width_turns_the_order_around() {
    let meta = Meta::from_coords(&[(0, 0), (1_000_000, 10_000_000)]).unwrap();
    assert_eq!(meta.width, -100_000);
    let xs: Vec<i64> = vec![0, 250_000, 500_000, 1_000_000, 2_000_000]
        .into_iter()
        .map(|lng: i32| coordinate_to_xy(lng, 0, &meta).0)
        .collect();
    assert_eq!(xs, vec![50_000, 25_000, 0, -50_000, -150_000]);
}

#[test]
fn the_empty_box_projects_its_own_corners() {
    let meta = Meta::from_coords(&[]).unwrap();
    assert_eq!(coordinate_to_xy(180_000_000, 90_000_000, &meta), (-425_000, -225_000));
    assert_eq!(coordinate_to_xy(-180_000_000, -90_000_000, &meta), (425_000, 225_000));
    assert_eq!(coordinate_to_xy(0, 0, &meta), (0, 0));
}

#[test]
fn the_farthest_points_of_the_smallest_box_do_not_overflow() {
    let meta = Meta::from_coords(&[(0, 0), (1, 1)]).unwrap();
    assert_eq!((meta.width, meta.height), (350_000, 450_000));
    assert_eq!(
        coordinate_to_xy(i32::MAX, i32::MIN, &meta),
        (2_147_483_647 * 350_000 - 175_000, -2_147_483_648 * 450_000 - 225_000)
    );
}
