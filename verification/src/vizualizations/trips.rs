use rand::Rng;
use vstd::prelude::*;
use crate::errors::DegenerateGeometryError;
use crate::utils::meta::Meta;
use crate::vizualizations::Model;

verus! {

/// The state of the trip viewer: the trips shown so far, by position in the
/// feed, the last of them being on display, and the choice of background.
#[derive(Debug)]
pub struct TripsViz {
    pub history: Vec<usize>,
    pub light: bool,
}

impl TripsViz {
    /// No trip shown yet, on a dark background.
    pub fn new() -> (viz: Self)
        ensures
            viz.history@.len() == 0,
            !viz.light,
    {
        Self { history: Vec::new(), light: false }
    }
}

/// What the user did in the window of the trip viewer.
#[derive(Debug, Clone, Copy, PartialEq, Eq, Structural)]
pub enum Input {
    /// The backspace key went down.
    Back,
    /// A character was typed.
    Character(char),
    /// Anything else.
    Other,
}

/// What the window has to do after the trip viewer has taken an input.
#[derive(Debug)]
pub enum Action {
    /// Nothing but drawing the model as it now is.
    Idle,
    /// Save the frame to the file at this path.
    Capture(String),
}

/// The path of the file that holds the picture of the trip whose id is
/// `trip_id`.
pub open spec fn capture_path(trip_id: Seq<char>) -> Seq<char> {
    "./export/trips/trip_"@ + trip_id + ".png"@
}

/// The path of the file that the picture of a trip is saved to.
pub fn capture_file(trip_id: &str) -> (path: String)
    ensures
        path@ == capture_path(trip_id@),
{
    String::from_str("./export/trips/trip_").concat(trip_id).concat(".png")
}

/// A position below `len`, drawn with `rand::thread_rng().gen_range(0..len)`.
/// All that is claimed of it is that it lies in the range, which is what
/// `gen_range` documents of every draw. `gen_range` panics on an empty range:
/// `len > 0` rules that out. `thread_rng` panics where the system gives it no
/// seed, whatever `len` is.
#[verifier::external_body]
fn random_index(len: usize) -> (index: usize)
    requires
        len > 0,
    ensures
        index < len,
{
    rand::thread_rng().gen_range(0..len)
}

impl Model<TripsViz> {
    /// The projection that shows the trip at `index`, or the error where
    /// the box of its stops is degenerate.
    pub open spec fn trip_meta(&self, index: int) -> Result<Meta, DegenerateGeometryError> {
        Meta::of(self.gtfs.trips@[index].coords@)
    }

    /// Every trip of the history is a trip of the feed that can be shown,
    /// and the projection is that of the trip on display, the last of the
    /// history.
    pub open spec fn wf(&self) -> bool {
        &&& self.meta.wf()
        &&& forall|k: int|
            0 <= k < self.context.history@.len() ==> {
                &&& (#[trigger] self.context.history@[k]) < self.gtfs.trips@.len()
                &&& self.trip_meta(self.context.history@[k] as int) is Ok
            }
        &&& self.context.history@.len() > 0 ==> self.trip_meta(
            self.context.history@.last() as int,
        ) == Ok::<Meta, DegenerateGeometryError>(self.meta)
    }

    /// `later` is this model with the trip at `index` put on display: the
    /// trip stands last in the history and the projection is its own.
    pub open spec fn shows(&self, index: int, later: &Self) -> bool {
        &&& later.gtfs == self.gtfs
        &&& later.context.light == self.context.light
        &&& later.context.history@ == self.context.history@.push(index as usize)
        &&& self.trip_meta(index) == Ok::<Meta, DegenerateGeometryError>(later.meta)
    }

    /// `later` is this model after a step back: the trip on display has left
    /// the history and the one before it is on display again.
    pub open spec fn steps_back(&self, later: &Self) -> bool {
        &&& later.gtfs == self.gtfs
        &&& later.context.light == self.context.light
        &&& later.context.history@ == self.context.history@.drop_last()
        &&& self.trip_meta(later.context.history@.last() as int) == Ok::<
            Meta,
            DegenerateGeometryError,
        >(later.meta)
    }

    /// `later` is this model with the other background.
    pub open spec fn toggles(&self, later: &Self) -> bool {
        &&& later.gtfs == self.gtfs
        &&& later.meta == self.meta
        &&& later.context.history == self.context.history
        &&& later.context.light == !self.context.light
    }

    /// Whether this model is well-formed: a model that was put together or
    /// changed by hand has to pass here before it takes an input.
    pub fn check(&self) -> (ok: bool)
        ensures
            ok == self.wf(),
    {
        if !self.meta.check() {
            return false;
        }
        let shown = self.context.history.len();
        let mut k: usize = 0;
        while k < shown
            invariant
                k <= shown,
                shown == self.context.history@.len(),
                self.meta.wf(),
                forall|j: int|
                    0 <= j < k ==> {
                        &&& (#[trigger] self.context.history@[j]) < self.gtfs.trips@.len()
                        &&& self.trip_meta(self.context.history@[j] as int) is Ok
                    },
                k == shown && shown > 0 ==> self.trip_meta(self.context.history@.last() as int)
                    == Ok::<Meta, DegenerateGeometryError>(self.meta),
            decreases shown - k,
        {
            let index = self.context.history[k];
            if index >= self.gtfs.trips.len() {
                return false;
            }
            match Meta::from_trip(&self.gtfs.trips[index]) {
                Ok(meta) => {
                    if k == shown - 1 && meta != self.meta {
                        return false;
                    }
                },
                Err(_) => {
                    return false;
                },
            }
            k += 1;
        }
        true
    }

    /// Puts the trip at `index` on display. Where the box of its stops is
    /// degenerate the trip cannot be drawn: the model stays as it is and the
    /// error is returned.
    pub fn show_trip(&mut self, index: usize) -> (r: Result<(), DegenerateGeometryError>)
        requires
            old(self).wf(),
            index < old(self).gtfs.trips@.len(),
        ensures
            final(self).wf(),
            match r {
                Ok(_) => old(self).shows(index as int, final(self)),
                Err(_) => old(self).trip_meta(index as int) is Err && *final(self) == *old(self),
            },
    {
        match Meta::from_trip(&self.gtfs.trips[index]) {
            Ok(meta) => {
                self.meta = meta;
                self.context.history.push(index);
                Ok(())
            },
            Err(e) => Err(e),
        }
    }

    /// Puts a trip on display that is drawn at random from the feed, and
    /// returns its position. Where the trip drawn cannot be shown, the model
    /// stays as it is and the error is returned: in a feed whose trips can
    /// all be shown there is no error.
    pub fn new_trip(&mut self) -> (r: Result<usize, DegenerateGeometryError>)
        requires
            old(self).wf(),
            old(self).gtfs.trips@.len() > 0,
        ensures
            final(self).wf(),
            match r {
                Ok(index) => index < old(self).gtfs.trips@.len() && old(self).shows(
                    index as int,
                    final(self),
                ),
                Err(_) => *final(self) == *old(self) && exists|index: int|
                    0 <= index < old(self).gtfs.trips@.len() && #[trigger] old(self).trip_meta(
                        index,
                    ) is Err,
            },
    {
        let index = random_index(self.gtfs.trips.len());
        match self.show_trip(index) {
            Ok(_) => Ok(index),
            Err(e) => Err(e),
        }
    }

    /// Steps back to the trip that was on display before this one.
    pub fn back(&mut self)
        requires
            old(self).wf(),
            old(self).context.history@.len() > 1,
        ensures
            final(self).wf(),
            old(self).steps_back(final(self)),
    {
        self.context.history.pop();
        let last = self.context.history[self.context.history.len() - 1];
        match Meta::from_trip(&self.gtfs.trips[last]) {
            Ok(meta) => {
                self.meta = meta;
            },
            Err(_) => {},
        }
    }

    /// Takes one input of the user. Backspace steps back where there is a
    /// trip to step back to; a space puts a new trip on display, drawn at
    /// random; `r` asks for the picture of the trip on display to be saved;
    /// `i` changes the background. Everything else leaves the model as it
    /// is.
    pub fn event(&mut self, input: Input) -> (action: Action)
        requires
            old(self).wf(),
        ensures
            final(self).wf(),
            match input {
                Input::Back => {
                    &&& action is Idle
                    &&& if old(self).context.history@.len() > 1 {
                        old(self).steps_back(final(self))
                    } else {
                        *final(self) == *old(self)
                    }
                },
                Input::Character(c) => if c == ' ' {
                    &&& action is Idle
                    &&& *final(self) == *old(self) || exists|index: int|
                        0 <= index < old(self).gtfs.trips@.len() && #[trigger] old(self).shows(
                            index,
                            final(self),
                        )
                } else if c == 'r' {
                    &&& *final(self) == *old(self)
                    &&& match action {
                        Action::Capture(path) => {
                            &&& old(self).context.history@.len() > 0
                            &&& path@ == capture_path(
                                old(self).gtfs.trips@[old(self).context.history@.last() as int].id@,
                            )
                        },
                        Action::Idle => old(self).context.history@.len() == 0,
                    }
                } else if c == 'i' {
                    &&& action is Idle
                    &&& old(self).toggles(final(self))
                } else {
                    &&& action is Idle
                    &&& *final(self) == *old(self)
                },
                Input::Other => {
                    &&& action is Idle
                    &&& *final(self) == *old(self)
                },
            },
    {
        match input {
            Input::Back => {
                if self.context.history.len() > 1 {
                    self.back();
                }
                Action::Idle
            },
            Input::Character(c) => {
                if c == ' ' {
                    if self.gtfs.trips.len() > 0 {
                        let _ = self.new_trip();
                    }
                    Action::Idle
                } else if c == 'r' {
                    let shown = self.context.history.len();
                    if shown > 0 {
                        let last = self.context.history[shown - 1];
                        Action::Capture(capture_file(self.gtfs.trips[last].id.as_str()))
                    } else {
                        Action::Idle
                    }
                } else if c == 'i' {
                    self.context.light = !self.context.light;
                    Action::Idle
                } else {
                    Action::Idle
                }
            },
            Input::Other => Action::Idle,
        }
    }
}

} // verus!
