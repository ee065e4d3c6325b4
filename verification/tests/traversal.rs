use gtfs_viz::errors::NotFoundError;
use gtfs_viz::gtfs::Gtfs;
use gtfs_viz::gtfs::Stop;
use gtfs_viz::vizualizations::stops::find_closest;
use gtfs_viz::vizualizations::stops::Progress;
use gtfs_viz::vizualizations::stops::StopsViz;
use gtfs_viz::vizualizations::stops::BATCH_SIZE;

const DEGREE: i32 = 1_000_000;

fn feed(stops: &[(&str, i32, i32)]) -> Gtfs {
    let mut gtfs = Gtfs::new();
    for (id, longitude, latitude) in stops.iter() {
        let added = gtfs.add_stop(Stop {
            id: id.to_string(),
            name: id.to_string(),
            longitude: *longitude,
            latitude: *latitude,
        });
        assert!(added);
    }
    gtfs
}

/// `n` stops on a line, the stop `k` at `k * k` microdegrees east of the first.
fn line(n: usize) -> Gtfs {
    let mut gtfs = Gtfs::new();
    for k in 0..n {
        let east: i32 = (k * k) as i32;
        gtfs.add_stop(Stop { id: format!("s{}", k), name: String::new(), longitude: east, latitude: 0 });
    }
    gtfs
}

#[test]
fn a_start_that_is_no_stop_is_not_found() {
    let gtfs = feed(&[("A", 0, 0), ("B", DEGREE, DEGREE)]);
    assert_eq!(StopsViz::from_gtfs(&gtfs, "Z").err(), Some(NotFoundError));
    assert_eq!(StopsViz::from_gtfs(&gtfs, "a").err(), Some(NotFoundError));
    assert_eq!(StopsViz::from_gtfs(&Gtfs::new(), "A").err(), Some(NotFoundError));
}

#[test]
fn at_first_the_start_alone_is_visited() {
    let gtfs = feed(&[("A", 0, 0), ("B", DEGREE, DEGREE), ("C", DEGREE, 0)]);
    let viz = StopsViz::from_gtfs(&gtfs, "B").unwrap();
    assert_eq!(viz.start(), 1);
    assert!(viz.nexts().is_empty());
    assert!(!viz.is_visited(0));
    assert!(viz.is_visited(1));
    assert!(!viz.is_visited(2));
    assert!(!viz.is_visited(3));
    assert!(!viz.is_complete());
}

#[test]
fn the_closer_stop_is_chosen_before_the_farther() {
    // From A, C lies 1.0 degrees away and B 1.41 degrees.
    let gtfs = feed(&[("A", 0, 0), ("B", DEGREE, DEGREE), ("C", DEGREE, 0)]);
    let mut viz = StopsViz::from_gtfs(&gtfs, "A").unwrap();
    assert_eq!(viz.step(1), Progress::Advanced);
    assert_eq!(viz.nexts(), &vec![2]);
    assert_eq!(gtfs.stops[viz.nexts()[0]].id, "C");
    assert_eq!(viz.step(1), Progress::Exhausted);
    assert_eq!(viz.nexts(), &vec![1]);
    assert_eq!(gtfs.stops[viz.nexts()[0]].id, "B");
}

#[test]
fn the_order_of_the_feed_does_not_change_the_choice() {
    let gtfs = feed(&[("C", DEGREE, 0), ("B", DEGREE, DEGREE), ("A", 0, 0)]);
    let mut viz = StopsViz::from_gtfs(&gtfs, "A").unwrap();
    assert_eq!(viz.step(2), Progress::Exhausted);
    assert_eq!(viz.nexts(), &vec![0, 1]);
}

#[test]
fn of_stops_as_close_the_first_in_the_feed_is_chosen() {
    let gtfs = feed(&[("N", 0, 5), ("A", 0, 0), ("E", 5, 0), ("S", 0, -5), ("W", -5, 0)]);
    let mut viz = StopsViz::from_gtfs(&gtfs, "A").unwrap();
    assert_eq!(viz.step(1), Progress::Advanced);
    assert_eq!(viz.nexts(), &vec![0]);
    assert_eq!(viz.step(3), Progress::Exhausted);
    assert_eq!(viz.nexts(), &vec![2, 3, 4]);
}

#[test]
fn distances_are_compared_exactly() {
    // (1, 1) lies 1.41 microdegrees away and (1, 0) lies 1: rounded down they are the same.
    let gtfs = feed(&[("A", 0, 0), ("B", 1, 1), ("C", 1, 0)]);
    let mut viz = StopsViz::from_gtfs(&gtfs, "A").unwrap();
    assert_eq!(viz.step(2), Progress::Exhausted);
    assert_eq!(viz.nexts(), &vec![2, 1]);
    // 2 147 483 647 squared and that plus one differ in the 19th digit only.
    let far = feed(&[("A", 0, 0), ("B", i32::MAX, 1), ("C", i32::MAX, 0)]);
    let mut viz = StopsViz::from_gtfs(&far, "A").unwrap();
    assert_eq!(viz.step(2), Progress::Exhausted);
    assert_eq!(viz.nexts(), &vec![2, 1]);
}

#[test]
fn distances_are_measured_from_the_start_not_from_the_last_stop() {
    // B is the closest to A. From B, D would be next; from A, C is.
    let gtfs = feed(&[("A", 0, 0), ("B", 10, 0), ("C", -11, 0), ("D", 22, 0)]);
    let mut viz = StopsViz::from_gtfs(&gtfs, "A").unwrap();
    assert_eq!(viz.step(3), Progress::Exhausted);
    assert_eq!(viz.nexts(), &vec![1, 2, 3]);
}

#[test]
fn stops_more_than_five_degrees_away_are_chosen_too() {
    let gtfs = feed(&[("far", 40 * DEGREE, 30 * DEGREE), ("A", 0, 0), ("farther", -90 * DEGREE, 60 * DEGREE)]);
    let mut viz = StopsViz::from_gtfs(&gtfs, "A").unwrap();
    assert_eq!(viz.step(1), Progress::Advanced);
    assert_eq!(viz.nexts(), &vec![0]);
    assert_eq!(viz.step(1), Progress::Exhausted);
    assert_eq!(viz.nexts(), &vec![2]);
}

#[test]
fn each_step_replaces_the_frontier() {
    let gtfs = line(8);
    let mut viz = StopsViz::from_gtfs(&gtfs, "s0").unwrap();
    assert_eq!(viz.step(3), Progress::Advanced);
    assert_eq!(viz.nexts(), &vec![1, 2, 3]);
    assert_eq!(viz.step(3), Progress::Advanced);
    assert_eq!(viz.nexts(), &vec![4, 5, 6]);
    assert_eq!(viz.step(3), Progress::Exhausted);
    assert_eq!(viz.nexts(), &vec![7]);
}

#[test]
fn a_step_of_nothing_empties_the_frontier() {
    let gtfs = line(4);
    let mut viz = StopsViz::from_gtfs(&gtfs, "s0").unwrap();
    assert_eq!(viz.step(2), Progress::Advanced);
    assert_eq!(viz.step(0), Progress::Advanced);
    assert!(viz.nexts().is_empty());
    assert!(viz.is_visited(2));
    assert!(!viz.is_visited(3));
}

#[test]
fn steps_after_the_last_choose_nothing() {
    let gtfs = line(3);
    let mut viz = StopsViz::from_gtfs(&gtfs, "s1").unwrap();
    assert_eq!(viz.step(5), Progress::Exhausted);
    assert_eq!(viz.nexts(), &vec![0, 2]);
    assert!(viz.is_complete());
    assert_eq!(viz.step(5), Progress::Exhausted);
    assert!(viz.nexts().is_empty());
    assert_eq!(viz.step(1), Progress::Exhausted);
    assert!(viz.nexts().is_empty());
    assert!(viz.is_complete());
}

#[test]
fn a_feed_of_one_stop_is_complete_from_the_start() {
    let gtfs = feed(&[("only", 19_040_000, 47_500_000)]);
    let mut viz = StopsViz::from_gtfs(&gtfs, "only").unwrap();
    assert!(viz.is_complete());
    assert_eq!(viz.step(BATCH_SIZE), Progress::Exhausted);
    assert!(viz.nexts().is_empty());
}

#[test]
fn the_traversal_ends_after_as_many_steps_as_the_stops_need() {
    let mut n: usize = 1;
    while n <= 45 {
        let gtfs = line(n);
        let mut batch: usize = 1;
        while batch <= 23 {
            let mut viz = StopsViz::from_gtfs(&gtfs, "s0").unwrap();
            let needed: usize = (n - 1 + batch - 1) / batch;
            let mut seen: Vec<usize> = vec![viz.start()];
            let mut calls: usize = 0;
            while !viz.is_complete() {
                let progress = viz.step(batch);
                calls += 1;
                assert_eq!(progress == Progress::Exhausted, viz.is_complete());
                assert_eq!(progress == Progress::Exhausted, calls >= needed);
                seen.extend(viz.nexts().iter());
            }
            assert_eq!(calls, needed, "{} stops, {} a step", n, batch);
            let mut sorted: Vec<usize> = seen.clone();
            sorted.sort();
            let every: Vec<usize> = (0..n).collect();
            assert_eq!(sorted, every, "{} stops, {} a step", n, batch);
            batch += 1;
        }
        n += 1;
    }
}

#[test]
fn the_stops_come_out_by_distance_from_the_start() {
    let gtfs = feed(&[
        ("k0", 3 * DEGREE, 4 * DEGREE),
        ("k1", 0, 0),
        ("k2", -1 * DEGREE, 0),
        ("k3", 0, 2 * DEGREE),
        ("k4", -6 * DEGREE, -8 * DEGREE),
        ("k5", 1 * DEGREE, 1 * DEGREE),
        ("k6", 0, -2 * DEGREE),
    ]);
    let mut viz = StopsViz::from_gtfs(&gtfs, "k1").unwrap();
    let mut order: Vec<usize> = Vec::new();
    while !viz.is_complete() {
        viz.step(2);
        order.extend(viz.nexts().iter());
    }
    assert_eq!(order, vec![2, 5, 3, 6, 0, 4]);
}

#[test]
fn the_animation_draws_twenty_stops_a_frame() {
    assert_eq!(BATCH_SIZE, 20);
    let gtfs = line(50);
    let mut viz = StopsViz::from_gtfs(&gtfs, "s0").unwrap();
    assert_eq!(viz.step(BATCH_SIZE), Progress::Advanced);
    assert_eq!(viz.nexts().len(), 20);
    assert_eq!(viz.step(BATCH_SIZE), Progress::Advanced);
    assert_eq!(viz.nexts().len(), 20);
    assert_eq!(viz.step(BATCH_SIZE), Progress::Exhausted);
    assert_eq!(viz.nexts().len(), 9);
}

#[test]
fn find_closest_skips_what_is_visited() {
    let points: Vec<(i32, i32)> = vec![(0, 0), (1, 0), (5, 0), (-3, 0)];
    assert_eq!(find_closest((0, 0), &points, &[true, false, false, false]), Some(1));
    assert_eq!(find_closest((0, 0), &points, &[true, true, false, false]), Some(3));
    assert_eq!(find_closest((0, 0), &points, &[true, true, false, true]), Some(2));
    assert_eq!(find_closest((0, 0), &points, &[false, false, false, false]), Some(0));
}

#[test]
fn find_closest_finds_nothing_where_all_is_visited() {
    let points: Vec<(i32, i32)> = vec![(0, 0), (1, 0)];
    assert_eq!(find_closest((0, 0), &points, &[true, true]), None);
    assert_eq!(find_closest((0, 0), &[], &[]), None);
}

#[test]
fn find_closest_reaches_across_the_whole_plane() {
    let points: Vec<(i32, i32)> = vec![(i32::MAX, i32::MAX), (i32::MAX, i32::MAX - 1)];
    assert_eq!(find_closest((i32::MIN, i32::MIN), &points, &[false, false]), Some(1));
    assert_eq!(find_closest((i32::MIN, i32::MIN), &points, &[false, true]), Some(0));
}
