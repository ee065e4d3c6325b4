use vstd::prelude::*;
use crate::constants::CANVAS_HEIGHT;
use crate::constants::CANVAS_WIDTH;
use crate::constants::MARGIN_HEIGHT;
use crate::constants::MARGIN_WIDTH;
use crate::constants::MAX_LATITUDE;
use crate::constants::MAX_LONGITUDE;
use crate::constants::MAX_SCALE;
use crate::constants::MIN_LATITUDE;
use crate::constants::MIN_LONGITUDE;
use crate::constants::SUBPIXELS;
use crate::errors::DegenerateGeometryError;
use crate::utils::math::floor_div;
use crate::utils::math::lemma_floor_div_bounded;
use crate::utils::math::lemma_floor_div_exact;
use crate::utils::math::mul_div_floor;

verus! {

/// Earth boundaries: the box of longitudes and latitudes, in microdegrees,
/// that holds a set of points.
#[derive(Debug, Clone, Copy, PartialEq, Eq, Structural)]
pub struct Boundaries {
    pub min_lng: i32,
    pub max_lng: i32,
    pub min_lat: i32,
    pub max_lat: i32,
}

impl Boundaries {
    /// The box of no point at all: each minimum stands at the largest value
    /// a coordinate on Earth can take and each maximum at the smallest, so
    /// that the first point on Earth moves all four.
    pub open spec fn empty() -> Boundaries {
        Boundaries {
            min_lng: MAX_LONGITUDE,
            max_lng: MIN_LONGITUDE,
            min_lat: MAX_LATITUDE,
            max_lat: MIN_LATITUDE,
        }
    }

    /// This box, stretched where the point `(longitude, latitude)` lies
    /// outside it.
    pub open spec fn including(self, point: (i32, i32)) -> Boundaries {
        Boundaries {
            min_lng: if point.0 < self.min_lng { point.0 } else { self.min_lng },
            max_lng: if point.0 > self.max_lng { point.0 } else { self.max_lng },
            min_lat: if point.1 < self.min_lat { point.1 } else { self.min_lat },
            max_lat: if point.1 > self.max_lat { point.1 } else { self.max_lat },
        }
    }

    /// The box of a sequence of `(longitude, latitude)` points.
    pub open spec fn of(coords: Seq<(i32, i32)>) -> Boundaries
        decreases coords.len(),
    {
        if coords.len() == 0 {
            Self::empty()
        } else {
            Self::of(coords.drop_last()).including(coords.last())
        }
    }

    /// Each bound of this box is the extreme, along its axis, of `coords`
    /// and of the matching bound of the empty box: none of them lies beyond
    /// it, and one of them meets it.
    pub open spec fn bounds(self, coords: Seq<(i32, i32)>) -> bool {
        &&& self.min_lng <= MAX_LONGITUDE
        &&& self.max_lng >= MIN_LONGITUDE
        &&& self.min_lat <= MAX_LATITUDE
        &&& self.max_lat >= MIN_LATITUDE
        &&& forall|i: int|
            0 <= i < coords.len() ==> self.min_lng <= (#[trigger] coords[i]).0 <= self.max_lng
                && self.min_lat <= coords[i].1 <= self.max_lat
        &&& self.min_lng == MAX_LONGITUDE || exists|i: int|
            0 <= i < coords.len() && (#[trigger] coords[i]).0 == self.min_lng
        &&& self.max_lng == MIN_LONGITUDE || exists|i: int|
            0 <= i < coords.len() && (#[trigger] coords[i]).0 == self.max_lng
        &&& self.min_lat == MAX_LATITUDE || exists|i: int|
            0 <= i < coords.len() && (#[trigger] coords[i]).1 == self.min_lat
        &&& self.max_lat == MIN_LATITUDE || exists|i: int|
            0 <= i < coords.len() && (#[trigger] coords[i]).1 == self.max_lat
    }

    /// The box of a sequence of points bounds them.
    pub proof fn lemma_of_bounds(coords: Seq<(i32, i32)>)
        ensures
            Self::of(coords).bounds(coords),
        decreases coords.len(),
    {
        if coords.len() > 0 {
            let front = coords.drop_last();
            Self::lemma_of_bounds(front);
            let inner = Self::of(front);
            let outer = Self::of(coords);
            let last = coords.len() - 1;
            assert(coords[last] == coords.last());
            assert forall|i: int| 0 <= i < coords.len() implies outer.min_lng <= (
            #[trigger] coords[i]).0 <= outer.max_lng && outer.min_lat <= coords[i].1
                <= outer.max_lat by {
                if i < last {
                    assert(coords[i] == front[i]);
                }
            }
            if outer.min_lng != MAX_LONGITUDE && outer.min_lng == inner.min_lng {
                let i = choose|i: int| 0 <= i < front.len() && (#[trigger] front[i]).0 == inner.min_lng;
                assert(coords[i] == front[i]);
            }
            if outer.max_lng != MIN_LONGITUDE && outer.max_lng == inner.max_lng {
                let i = choose|i: int| 0 <= i < front.len() && (#[trigger] front[i]).0 == inner.max_lng;
                assert(coords[i] == front[i]);
            }
            if outer.min_lat != MAX_LATITUDE && outer.min_lat == inner.min_lat {
                let i = choose|i: int| 0 <= i < front.len() && (#[trigger] front[i]).1 == inner.min_lat;
                assert(coords[i] == front[i]);
            }
            if outer.max_lat != MIN_LATITUDE && outer.max_lat == inner.max_lat {
                let i = choose|i: int| 0 <= i < front.len() && (#[trigger] front[i]).1 == inner.max_lat;
                assert(coords[i] == front[i]);
            }
        }
    }

    /// Only one box bounds a sequence of points.
    pub proof fn lemma_bounds_unique(self, other: Boundaries, coords: Seq<(i32, i32)>)
        requires
            self.bounds(coords),
            other.bounds(coords),
        ensures
            self == other,
    {
    }

    /// The box of at least one point is not inverted: on each axis its
    /// minimum is no larger than its maximum.
    pub proof fn lemma_of_ordered(coords: Seq<(i32, i32)>)
        requires
            coords.len() > 0,
        ensures
            Self::of(coords).min_lng <= Self::of(coords).max_lng,
            Self::of(coords).min_lat <= Self::of(coords).max_lat,
    {
        Self::lemma_of_bounds(coords);
        assert(Self::of(coords).min_lng <= coords[0].0);
    }

    /// The box of a single point on Earth is that point: it has no width
    /// and no height, and so is degenerate.
    pub proof fn lemma_single_point(point: (i32, i32))
        requires
            MIN_LONGITUDE <= point.0 <= MAX_LONGITUDE,
            MIN_LATITUDE <= point.1 <= MAX_LATITUDE,
        ensures
            Self::of(seq![point]) == (Boundaries {
                min_lng: point.0,
                max_lng: point.0,
                min_lat: point.1,
                max_lat: point.1,
            }),
            Self::of(seq![point]).spec_width() == 0,
            Self::of(seq![point]).spec_height() == 0,
            Self::of(seq![point]).degenerate(),
    {
        let one = seq![point];
        assert(one.drop_last() =~= Seq::<(i32, i32)>::empty());
        assert(one.last() == point);
        assert(Self::of(one.drop_last()) == Self::empty());
    }

    /// The box of a sequence of `(longitude, latitude)` points, in
    /// microdegrees. Without points it is the empty box, whose bounds are
    /// (180, -180, 90, -90) degrees.
    pub fn from_coords(coords: &[(i32, i32)]) -> (b: Self)
        ensures
            b == Self::of(coords@),
            b.bounds(coords@),
            coords@.len() == 0 ==> b == (Boundaries {
                min_lng: 180_000_000i32,
                max_lng: -180_000_000i32,
                min_lat: 90_000_000i32,
                max_lat: -90_000_000i32,
            }),
            coords@.len() > 0 ==> b.min_lng <= b.max_lng && b.min_lat <= b.max_lat,
    {
        let mut min_lat: i32 = MAX_LATITUDE;
        let mut max_lat: i32 = MIN_LATITUDE;
        let mut min_lng: i32 = MAX_LONGITUDE;
        let mut max_lng: i32 = MIN_LONGITUDE;
        let mut i: usize = 0;
        while i < coords.len()
            invariant
                i <= coords@.len(),
                Self::of(coords@.take(i as int)) == (Boundaries { min_lng, max_lng, min_lat, max_lat }),
            decreases coords@.len() - i,
        {
            let (longitude, latitude) = coords[i];
            proof {
                let next = coords@.take(i + 1);
                assert(next.drop_last() == coords@.take(i as int));
                assert(next.last() == coords@[i as int]);
            }
            if latitude < min_lat {
                min_lat = latitude;
            }
            if latitude > max_lat {
                max_lat = latitude;
            }
            if longitude < min_lng {
                min_lng = longitude;
            }
            if longitude > max_lng {
                max_lng = longitude;
            }
            i += 1;
        }
        proof {
            assert(coords@.take(i as int) == coords@);
            Self::lemma_of_bounds(coords@);
            if coords@.len() > 0 {
                Self::lemma_of_ordered(coords@);
            }
        }
        Boundaries { min_lng, max_lng, min_lat, max_lat }
    }

    /// The extent in longitude; negative where the box is inverted.
    pub open spec fn spec_width(self) -> int {
        self.max_lng - self.min_lng
    }

    /// The extent in latitude; negative where the box is inverted.
    pub open spec fn spec_height(self) -> int {
        self.max_lat - self.min_lat
    }

    /// The extent in longitude, in microdegrees.
    pub fn width(&self) -> (w: i64)
        ensures
            w == self.spec_width(),
    {
        self.max_lng as i64 - self.min_lng as i64
    }

    /// The extent in latitude, in microdegrees.
    pub fn height(&self) -> (h: i64)
        ensures
            h == self.spec_height(),
    {
        self.max_lat as i64 - self.min_lat as i64
    }

    /// Both extents: `(width, height)`.
    pub fn size(&self) -> (s: (i64, i64))
        ensures
            s.0 == self.spec_width(),
            s.1 == self.spec_height(),
    {
        (self.width(), self.height())
    }

    /// The box has no extent along one axis at least, as the box of a single
    /// point has, or of points on one meridian or one parallel.
    pub open spec fn degenerate(self) -> bool {
        self.spec_width() == 0 || self.spec_height() == 0
    }

    /// The side, in canvas units, that the larger extent is fitted to on a
    /// canvas of `canvas_width` by `canvas_height` pixels: the height where
    /// the box is taller than wide, else the width.
    pub open spec fn fitted_side(self, canvas_width: int, canvas_height: int) -> int {
        if self.spec_height() > self.spec_width() {
            canvas_height * SUBPIXELS
        } else {
            canvas_width * SUBPIXELS
        }
    }

    /// The larger of the two extents, the one that sets the scale.
    pub open spec fn fitted_extent(self) -> int {
        if self.spec_height() > self.spec_width() {
            self.spec_height()
        } else {
            self.spec_width()
        }
    }

    /// An extent in microdegrees brought to canvas units, rounded down. The
    /// scale is the same on both axes, `fitted_side / fitted_extent`, so that
    /// the larger extent fills its side of the canvas. The other extent may
    /// come out larger than its side where the box and the canvas differ
    /// much in shape.
    pub open spec fn scaled(self, extent: int, canvas_width: int, canvas_height: int) -> int
        recommends
            !self.degenerate(),
    {
        floor_div(extent * self.fitted_side(canvas_width, canvas_height), self.fitted_extent())
    }

    /// The width of the drawing on a canvas of `canvas_width` by
    /// `canvas_height` pixels, in canvas units: the scaled width less the
    /// margin.
    pub open spec fn draw_width_on(self, canvas_width: int, canvas_height: int) -> int
        recommends
            !self.degenerate(),
    {
        self.scaled(self.spec_width(), canvas_width, canvas_height) - MARGIN_WIDTH * SUBPIXELS
    }

    /// The height of the drawing on a canvas of `canvas_width` by
    /// `canvas_height` pixels, in canvas units: the scaled height less the
    /// margin.
    pub open spec fn draw_height_on(self, canvas_width: int, canvas_height: int) -> int
        recommends
            !self.degenerate(),
    {
        self.scaled(self.spec_height(), canvas_width, canvas_height) - MARGIN_HEIGHT * SUBPIXELS
    }

    /// The width of the drawing on the canvas of this crate.
    pub open spec fn draw_width(self) -> int
        recommends
            !self.degenerate(),
    {
        self.draw_width_on(CANVAS_WIDTH as int, CANVAS_HEIGHT as int)
    }

    /// The height of the drawing on the canvas of this crate.
    pub open spec fn draw_height(self) -> int
        recommends
            !self.degenerate(),
    {
        self.draw_height_on(CANVAS_WIDTH as int, CANVAS_HEIGHT as int)
    }

    /// A drawing of `width` by `height` canvas units can show this box: the
    /// box has an extent along both axes, and neither axis is stretched by
    /// more than `MAX_SCALE` canvas units to the microdegree, so that the
    /// place of every point fits in 64 bits.
    pub open spec fn fits(self, width: int, height: int) -> bool {
        &&& !self.degenerate()
        &&& self.spec_width() > 0 ==> -MAX_SCALE * self.spec_width() <= width <= MAX_SCALE
            * self.spec_width()
        &&& self.spec_width() < 0 ==> MAX_SCALE * self.spec_width() <= width <= -MAX_SCALE
            * self.spec_width()
        &&& self.spec_height() > 0 ==> -MAX_SCALE * self.spec_height() <= height <= MAX_SCALE
            * self.spec_height()
        &&& self.spec_height() < 0 ==> MAX_SCALE * self.spec_height() <= height <= -MAX_SCALE
            * self.spec_height()
    }

    /// The drawing of a box on a canvas of up to 65 535 pixels a side can
    /// show the box.
    pub proof fn lemma_draw_size_fits(self, canvas_width: int, canvas_height: int)
        requires
            !self.degenerate(),
            0 <= canvas_width <= u16::MAX,
            0 <= canvas_height <= u16::MAX,
        ensures
            self.fits(
                self.draw_width_on(canvas_width, canvas_height),
                self.draw_height_on(canvas_width, canvas_height),
            ),
    {
        let w = self.spec_width();
        let h = self.spec_height();
        let side = self.fitted_side(canvas_width, canvas_height);
        assert(0 <= side <= 65_535_000);
        if h > w {
            lemma_floor_div_exact(side, h);
            assert(side * h == h * side) by (nonlinear_arith);
            lemma_floor_div_bounded(w * side, h);
        } else {
            lemma_floor_div_exact(side, w);
            assert(side * w == w * side) by (nonlinear_arith);
            lemma_floor_div_bounded(h * side, w);
        }
        assert(-65_535_000 * w <= w * side <= 65_535_000 * w || 65_535_000 * w <= w * side
            <= -65_535_000 * w) by (nonlinear_arith)
            requires
                0 <= side <= 65_535_000,
        ;
        assert(-65_535_000 * h <= h * side <= 65_535_000 * h || 65_535_000 * h <= h * side
            <= -65_535_000 * h) by (nonlinear_arith)
            requires
                0 <= side <= 65_535_000,
        ;
    }

    /// The size of the drawing on a canvas of `canvas_width` by
    /// `canvas_height` pixels, `(width, height)` in canvas units, or the
    /// error where the box is degenerate.
    pub fn canvas_size_on(&self, canvas_width: u16, canvas_height: u16) -> (r: Result<
        (i64, i64),
        DegenerateGeometryError,
    >)
        ensures
            match r {
                Ok((width, height)) => {
                    &&& !self.degenerate()
                    &&& width == self.draw_width_on(canvas_width as int, canvas_height as int)
                    &&& height == self.draw_height_on(canvas_width as int, canvas_height as int)
                    &&& self.fits(width as int, height as int)
                },
                Err(_) => self.degenerate(),
            },
    {
        let (earth_w, earth_h) = self.size();
        if earth_w == 0 || earth_h == 0 {
            return Err(DegenerateGeometryError);
        }
        let side: i64 = if earth_h > earth_w {
            canvas_height as i64 * SUBPIXELS
        } else {
            canvas_width as i64 * SUBPIXELS
        };
        let extent: i64 = if earth_h > earth_w {
            earth_h
        } else {
            earth_w
        };
        let scaled_w: i128 = mul_div_floor(earth_w, side, extent);
        let scaled_h: i128 = mul_div_floor(earth_h, side, extent);
        proof {
            assert(-0x400_0000_0000_0000 <= earth_w * side <= 0x400_0000_0000_0000
                && -0x400_0000_0000_0000 <= earth_h * side <= 0x400_0000_0000_0000)
                by (nonlinear_arith)
                requires
                    -0x1_0000_0000 <= earth_w <= 0x1_0000_0000,
                    -0x1_0000_0000 <= earth_h <= 0x1_0000_0000,
                    0 <= side <= 0x400_0000,
            ;
            lemma_floor_div_bounded(earth_w * side, extent as int);
            lemma_floor_div_bounded(earth_h * side, extent as int);
            self.lemma_draw_size_fits(canvas_width as int, canvas_height as int);
        }
        let width: i64 = (scaled_w - (MARGIN_WIDTH * SUBPIXELS) as i128) as i64;
        let height: i64 = (scaled_h - (MARGIN_HEIGHT * SUBPIXELS) as i128) as i64;
        Ok((width, height))
    }

    /// The size of the drawing on the canvas of this crate, `(width, height)`
    /// in canvas units, or the error where the box is degenerate.
    pub fn canvas_size(&self) -> (r: Result<(i64, i64), DegenerateGeometryError>)
        ensures
            match r {
                Ok((width, height)) => {
                    &&& !self.degenerate()
                    &&& width == self.draw_width()
                    &&& height == self.draw_height()
                    &&& self.fits(width as int, height as int)
                },
                Err(_) => self.degenerate(),
            },
    {
        self.canvas_size_on(CANVAS_WIDTH as u16, CANVAS_HEIGHT as u16)
    }
}

impl Default for Boundaries {
    /// The whole Earth.
    fn default() -> (b: Self)
        ensures
            b == (Boundaries {
                min_lng: MIN_LONGITUDE,
                max_lng: MAX_LONGITUDE,
                min_lat: MIN_LATITUDE,
                max_lat: MAX_LATITUDE,
            }),
    {
        Boundaries {
            max_lat: MAX_LATITUDE,
            min_lat: MIN_LATITUDE,
            max_lng: MAX_LONGITUDE,
            min_lng: MIN_LONGITUDE,
        }
    }
}

} // verus!
