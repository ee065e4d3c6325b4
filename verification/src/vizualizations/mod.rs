pub mod audio;
pub mod stops;
pub mod trips;

use vstd::prelude::*;
use crate::errors::DegenerateGeometryError;
use crate::gtfs::Gtfs;
use crate::utils::meta::Meta;

verus! {

/// What one visualization holds while it runs: the feed, the projection in
/// use and the state of its own that the visualization keeps.
pub struct Model<Context> {
    pub meta: Meta,
    pub gtfs: Gtfs,
    pub context: Context,
}

impl<Context> Model<Context> {
    /// A model of the feed `gtfs` with the projection that shows all of its
    /// stops, or the error where their box is degenerate.
    pub fn from_gtfs(gtfs: Gtfs, context: Context) -> (r: Result<Self, DegenerateGeometryError>)
        ensures
            match r {
                Ok(model) => {
                    &&& model.gtfs == gtfs
                    &&& model.context == context
                    &&& model.meta.wf()
                    &&& Meta::of(gtfs.coords()) == Ok::<Meta, DegenerateGeometryError>(model.meta)
                },
                Err(_) => Meta::of(gtfs.coords()) is Err,
            },
    {
        match Meta::from_gtfs(&gtfs) {
            Ok(meta) => Ok(Model { meta, gtfs, context }),
            Err(e) => Err(e),
        }
    }
}

/// A visualization that can be run until its window closes.
pub trait Vizualization {
    fn run(&self);
}

/// The visualizations there are to choose from.
#[derive(Debug, Clone, Copy, PartialEq, Eq, Structural)]
pub enum VizKind {
    /// The stops of the feed, appearing by distance from one of them.
    Stops,
    /// One trip at a time, drawn along its shape.
    Trips,
    /// The stops one by one, each played as a chord.
    Audio,
}

impl VizKind {
    /// The visualization that goes by `name`; any name that is not known
    /// stands for the trips.
    pub open spec fn named(name: Seq<char>) -> VizKind {
        if name == "stops"@ {
            VizKind::Stops
        } else if name == "audio"@ {
            VizKind::Audio
        } else {
            VizKind::Trips
        }
    }

    /// The visualization that the first argument of the program asks for:
    /// the trips where there is no argument.
    pub fn from_arg(arg: Option<&str>) -> (kind: VizKind)
        ensures
            kind == match arg {
                Some(name) => Self::named(name@),
                None => VizKind::Trips,
            },
    {
        match arg {
            Some(name) => {
                let name: String = name.to_owned();
                if name == "stops".to_owned() {
                    VizKind::Stops
                } else if name == "audio".to_owned() {
                    VizKind::Audio
                } else {
                    VizKind::Trips
                }
            },
            None => VizKind::Trips,
        }
    }
}

} // verus!
