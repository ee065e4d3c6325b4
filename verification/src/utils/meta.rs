use vstd::prelude::*;
use crate::constants::MAX_SCALE;
use crate::errors::DegenerateGeometryError;
use crate::gtfs::Gtfs;
use crate::gtfs::Trip;
use crate::utils::boundaries::Boundaries;
use crate::utils::math::lemma_floor_div_exact;
use crate::utils::math::lemma_floor_div_monotonic;
use crate::utils::math::lemma_floor_div_shift;
use crate::utils::math::map_range_spec;

verus! {

/// What a drawing needs to place a coordinate on the canvas: the box of the
/// points it shows and the size it takes on the canvas, in canvas units.
#[derive(Debug, Clone, Copy, PartialEq, Eq, Structural)]
pub struct Meta {
    pub boundaries: Boundaries,
    pub width: i64,
    pub height: i64,
}

impl Meta {
    /// A drawing of `width` by `height` can show the box: the box has an
    /// extent along both axes, and the drawing does not stretch it beyond
    /// what 64 bits hold. Every projection that this crate computes is
    /// well-formed.
    pub open spec fn wf(self) -> bool {
        self.boundaries.fits(self.width as int, self.height as int)
    }

    /// The projection that shows a sequence of `(longitude, latitude)`
    /// points, or the error where their box is degenerate.
    pub open spec fn of(coords: Seq<(i32, i32)>) -> Result<Meta, DegenerateGeometryError> {
        let boundaries = Boundaries::of(coords);
        if boundaries.degenerate() {
            Err(DegenerateGeometryError)
        } else {
            Ok(
                Meta {
                    boundaries,
                    width: boundaries.draw_width() as i64,
                    height: boundaries.draw_height() as i64,
                },
            )
        }
    }

    /// The canvas abscissa of the longitude `lng`, in canvas units: the
    /// box's span of longitudes is laid onto a span of `width` units centred
    /// on zero, and longitudes outside the box fall outside that span.
    pub open spec fn project_x(self, lng: int) -> int
        recommends
            self.wf(),
    {
        map_range_spec(
            lng,
            self.boundaries.min_lng as int,
            self.boundaries.max_lng as int,
            -(self.width / 2),
            self.width - self.width / 2,
        )
    }

    /// The canvas ordinate of the latitude `lat`, in canvas units: the box's
    /// span of latitudes is laid onto a span of `height` units centred on
    /// zero, and latitudes outside the box fall outside that span.
    pub open spec fn project_y(self, lat: int) -> int
        recommends
            self.wf(),
    {
        map_range_spec(
            lat,
            self.boundaries.min_lat as int,
            self.boundaries.max_lat as int,
            -(self.height / 2),
            self.height - self.height / 2,
        )
    }

    /// The projection keeps the order of longitudes, where the box is not
    /// inverted and the drawing has a width that is not negative: a point
    /// further east is drawn no further left.
    pub proof fn lemma_project_x_ordered(self, a: int, b: int)
        requires
            self.wf(),
            self.boundaries.min_lng < self.boundaries.max_lng,
            self.width >= 0,
            a <= b,
        ensures
            self.project_x(a) <= self.project_x(b),
    {
        let min = self.boundaries.min_lng as int;
        let out = self.width - self.width / 2 - (-(self.width / 2));
        assert((a - min) * out <= (b - min) * out) by (nonlinear_arith)
            requires
                a <= b,
                out >= 0,
        ;
        lemma_floor_div_monotonic((a - min) * out, (b - min) * out, self.boundaries.spec_width());
    }

    /// The projection keeps the order of latitudes, where the box is not
    /// inverted and the drawing has a height that is not negative: a point
    /// further north is drawn no lower.
    pub proof fn lemma_project_y_ordered(self, a: int, b: int)
        requires
            self.wf(),
            self.boundaries.min_lat < self.boundaries.max_lat,
            self.height >= 0,
            a <= b,
        ensures
            self.project_y(a) <= self.project_y(b),
    {
        let min = self.boundaries.min_lat as int;
        let out = self.height - self.height / 2 - (-(self.height / 2));
        assert((a - min) * out <= (b - min) * out) by (nonlinear_arith)
            requires
                a <= b,
                out >= 0,
        ;
        lemma_floor_div_monotonic((a - min) * out, (b - min) * out, self.boundaries.spec_height());
    }

    /// The corners of the box are drawn at the corners of the drawing: the
    /// two longitudes of the box lie `width` canvas units apart and its two
    /// latitudes `height` units, about zero.
    pub proof fn lemma_project_corners(self)
        requires
            self.wf(),
        ensures
            self.project_x(self.boundaries.min_lng as int) == -(self.width / 2),
            self.project_y(self.boundaries.min_lat as int) == -(self.height / 2),
            self.project_x(self.boundaries.max_lng as int) - self.project_x(
                self.boundaries.min_lng as int,
            ) == self.width,
            self.project_y(self.boundaries.max_lat as int) - self.project_y(
                self.boundaries.min_lat as int,
            ) == self.height,
    {
        let w = self.boundaries.spec_width();
        let h = self.boundaries.spec_height();
        let out_w = self.width - self.width / 2 - (-(self.width / 2));
        let out_h = self.height - self.height / 2 - (-(self.height / 2));
        lemma_floor_div_exact(0, w);
        lemma_floor_div_exact(0, h);
        lemma_floor_div_exact(out_w, w);
        lemma_floor_div_exact(out_h, h);
        assert(0 * out_w == 0 * w && 0 * out_h == 0 * h) by (nonlinear_arith);
        assert(w * out_w == out_w * w && h * out_h == out_h * h) by (nonlinear_arith);
    }

    /// The projection is linear: a step of one box width in longitude is a
    /// step of one drawing width on the canvas, inside the box and outside
    /// it alike, and so for latitude and height.
    pub proof fn lemma_project_linear(self, lng: int, lat: int, steps: int)
        requires
            self.wf(),
        ensures
            self.project_x(lng + steps * self.boundaries.spec_width()) == self.project_x(lng)
                + steps * self.width,
            self.project_y(lat + steps * self.boundaries.spec_height()) == self.project_y(lat)
                + steps * self.height,
    {
        let w = self.boundaries.spec_width();
        let h = self.boundaries.spec_height();
        let out_w = self.width - self.width / 2 - (-(self.width / 2));
        let out_h = self.height - self.height / 2 - (-(self.height / 2));
        let x0 = lng - self.boundaries.min_lng;
        let y0 = lat - self.boundaries.min_lat;
        assert((x0 + steps * w) * out_w == x0 * out_w + (steps * out_w) * w) by (nonlinear_arith);
        assert((y0 + steps * h) * out_h == y0 * out_h + (steps * out_h) * h) by (nonlinear_arith);
        lemma_floor_div_shift(x0 * out_w, steps * out_w, w);
        lemma_floor_div_shift(y0 * out_h, steps * out_h, h);
    }

    /// The projection that shows `boundaries` on a canvas of `canvas_width`
    /// by `canvas_height` pixels, or the error where the box is degenerate.
    pub fn on_canvas(boundaries: Boundaries, canvas_width: u16, canvas_height: u16) -> (r: Result<
        Self,
        DegenerateGeometryError,
    >)
        ensures
            match r {
                Ok(meta) => {
                    &&& meta.wf()
                    &&& meta.boundaries == boundaries
                    &&& meta.width == boundaries.draw_width_on(
                        canvas_width as int,
                        canvas_height as int,
                    )
                    &&& meta.height == boundaries.draw_height_on(
                        canvas_width as int,
                        canvas_height as int,
                    )
                },
                Err(_) => boundaries.degenerate(),
            },
    {
        match boundaries.canvas_size_on(canvas_width, canvas_height) {
            Ok((width, height)) => Ok(Meta { boundaries, width, height }),
            Err(e) => Err(e),
        }
    }

    /// Whether this projection is well-formed: a projection that was put
    /// together by hand has to pass here before it is used.
    pub fn check(&self) -> (ok: bool)
        ensures
            ok == self.wf(),
    {
        let (earth_w, earth_h) = self.boundaries.size();
        if earth_w == 0 || earth_h == 0 {
            return false;
        }
        let most_w: i64 = if earth_w < 0 { -earth_w * MAX_SCALE } else { earth_w * MAX_SCALE };
        let most_h: i64 = if earth_h < 0 { -earth_h * MAX_SCALE } else { earth_h * MAX_SCALE };
        -most_w <= self.width && self.width <= most_w && -most_h <= self.height && self.height
            <= most_h
    }

    /// The projection that shows every stop of a feed.
    pub fn from_gtfs(gtfs: &Gtfs) -> (r: Result<Self, DegenerateGeometryError>)
        ensures
            r == Self::of(gtfs.coords()),
            r is Ok ==> r->Ok_0.wf(),
    {
        let coords = gtfs.stop_coords();
        Self::from_coords(coords.as_slice())
    }

    /// The projection that shows the stops of one trip.
    pub fn from_trip(trip: &Trip) -> (r: Result<Self, DegenerateGeometryError>)
        ensures
            r == Self::of(trip.coords@),
            r is Ok ==> r->Ok_0.wf(),
    {
        Self::from_coords(trip.coords.as_slice())
    }

    /// The projection that shows a sequence of `(longitude, latitude)`
    /// points, in microdegrees.
    pub fn from_coords(coords: &[(i32, i32)]) -> (r: Result<Self, DegenerateGeometryError>)
        ensures
            r == Self::of(coords@),
            r is Ok ==> r->Ok_0.wf(),
    {
        let boundaries = Boundaries::from_coords(coords);
        match boundaries.canvas_size() {
            Ok((width, height)) => Ok(Meta { boundaries, width, height }),
            Err(e) => Err(e),
        }
    }
}

} // verus!
