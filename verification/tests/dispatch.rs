use gtfs_viz::constants::CANVAS_HEIGHT;
use gtfs_viz::constants::CANVAS_WIDTH;
use gtfs_viz::constants::MARGIN_HEIGHT;
use gtfs_viz::constants::MARGIN_WIDTH;
use gtfs_viz::constants::MAX_LATITUDE;
use gtfs_viz::constants::MAX_LONGITUDE;
use gtfs_viz::constants::MICRODEGREES;
use gtfs_viz::constants::MIN_LATITUDE;
use gtfs_viz::constants::MIN_LONGITUDE;
use gtfs_viz::constants::SUBPIXELS;
use gtfs_viz::vizualizations::VizKind;
use gtfs_viz::vizualizations::Vizualization;

#[test]
fn each_visualization_goes_by_its_name() {
    assert_eq!(VizKind::from_arg(Some("stops")), VizKind::Stops);
    assert_eq!(VizKind::from_arg(Some("trips")), VizKind::Trips);
    assert_eq!(VizKind::from_arg(Some("audio")), VizKind::Audio);
}

#[test]
fn the_trips_stand_for_any_other_name() {
    assert_eq!(VizKind::from_arg(None), VizKind::Trips);
    assert_eq!(VizKind::from_arg(Some("")), VizKind::Trips);
    assert_eq!(VizKind::from_arg(Some("Stops")), VizKind::Trips);
    assert_eq!(VizKind::from_arg(Some("stops ")), VizKind::Trips);
    assert_eq!(VizKind::from_arg(Some("shapes")), VizKind::Trips);
}

struct Counter {
    runs: std::cell::Cell<u32>,
}

impl Vizualization for Counter {
    fn run(&self) {
        self.runs.set(self.runs.get() + 1);
    }
}

#[test]
fn a_visualization_is_run_through_the_trait() {
    let counter = Counter { runs: std::cell::Cell::new(0) };
    let viz: &dyn Vizualization = &counter;
    viz.run();
    viz.run();
    assert_eq!(counter.runs.get(), 2);
}

#[test]
fn the_canvas_is_500_pixels_square_with_fixed_margins() {
    assert_eq!((CANVAS_WIDTH, CANVAS_HEIGHT), (500, 500));
    assert_eq!((MARGIN_WIDTH, MARGIN_HEIGHT), (150, 50));
    assert_eq!(SUBPIXELS, 1000);
}

#[test]
fn the_earth_is_measured_in_microdegrees() {
    assert_eq!(MICRODEGREES, 1_000_000);
    assert_eq!((MIN_LONGITUDE, MAX_LONGITUDE), (-180 * MICRODEGREES, 180 * MICRODEGREES));
    assert_eq!((MIN_LATITUDE, MAX_LATITUDE), (-90 * MICRODEGREES, 90 * MICRODEGREES));
}

#[test]
fn each_error_has_a_message() {
    assert_eq!(
        gtfs_viz::errors::NotFoundError.message(),
        "no stop of the feed has the id that was asked for"
    );
    assert_eq!(
        gtfs_viz::errors::DegenerateGeometryError.message(),
        "the points span no area: their box has no width or no height"
    );
}
