use vstd::prelude::*;

verus! {

/// A place where vehicles call.
#[derive(Debug)]
pub struct Stop {
    /// The identifier that tells this stop from every other.
    pub id: String,
    /// The name that riders know the stop by.
    pub name: String,
    /// Longitude, in microdegrees.
    pub longitude: i32,
    /// Latitude, in microdegrees.
    pub latitude: i32,
}

/// One run of a vehicle along its stops.
#[derive(Debug)]
pub struct Trip {
    /// The identifier that tells this trip from every other.
    pub id: String,
    /// The `(longitude, latitude)` of each stop the trip calls at, in the
    /// order of the calls, in microdegrees.
    pub coords: Vec<(i32, i32)>,
}

/// A transit feed held in memory: its stops and its trips, each in a fixed
/// order. A stop is known to the rest of the library by its position in
/// `stops`.
#[derive(Debug)]
pub struct Gtfs {
    pub stops: Vec<Stop>,
    pub trips: Vec<Trip>,
}

impl Gtfs {
    /// No two stops share an id.
    pub open spec fn wf(&self) -> bool {
        forall|i: int, j: int|
            0 <= i < self.stops@.len() && 0 <= j < self.stops@.len() && i != j ==> (
            #[trigger] self.stops@[i]).id@ != (#[trigger] self.stops@[j]).id@
    }

    /// A stop of the feed carries the id `id`.
    pub open spec fn has_stop(&self, id: Seq<char>) -> bool {
        exists|i: int| 0 <= i < self.stops@.len() && (#[trigger] self.stops@[i]).id@ == id
    }

    /// The `(longitude, latitude)` of every stop, in the order of `stops`.
    pub open spec fn coords(&self) -> Seq<(i32, i32)> {
        Seq::new(
            self.stops@.len(),
            |i: int| (self.stops@[i].longitude, self.stops@[i].latitude),
        )
    }

    /// In a well-formed feed an id stands for one position: two stops with
    /// one id are one stop. So the rest of the library tells stops apart by
    /// position, which says as much as their ids do.
    pub proof fn lemma_id_is_position(&self, i: int, j: int)
        requires
            self.wf(),
            0 <= i < self.stops@.len(),
            0 <= j < self.stops@.len(),
            self.stops@[i].id@ == self.stops@[j].id@,
        ensures
            i == j,
    {
    }

    /// A feed without stops or trips.
    pub fn new() -> (gtfs: Self)
        ensures
            gtfs.stops@.len() == 0,
            gtfs.trips@.len() == 0,
            gtfs.wf(),
    {
        Gtfs { stops: Vec::new(), trips: Vec::new() }
    }

    /// The position of the stop whose id is `id`: the first such stop, which
    /// is the only one in a well-formed feed.
    pub fn find_stop(&self, id: &str) -> (found: Option<usize>)
        ensures
            match found {
                Some(i) => i < self.stops@.len() && self.stops@[i as int].id@ == id@ && forall|
                    j: int,
                | 0 <= j < i ==> (#[trigger] self.stops@[j]).id@ != id@,
                None => !self.has_stop(id@),
            },
    {
        let wanted: String = id.to_owned();
        let mut i: usize = 0;
        while i < self.stops.len()
            invariant
                i <= self.stops@.len(),
                wanted@ == id@,
                forall|j: int| 0 <= j < i ==> (#[trigger] self.stops@[j]).id@ != id@,
            decreases self.stops@.len() - i,
        {
            if self.stops[i].id == wanted {
                return Some(i);
            }
            i += 1;
        }
        None
    }

    /// Adds a stop at the end, unless a stop of the same id is there
    /// already: then the feed stays as it is. Says whether the stop was
    /// added.
    pub fn add_stop(&mut self, stop: Stop) -> (added: bool)
        ensures
            added == !old(self).has_stop(stop.id@),
            added ==> final(self).stops@ == old(self).stops@.push(stop),
            !added ==> final(self).stops@ == old(self).stops@,
            final(self).trips@ == old(self).trips@,
            old(self).wf() ==> final(self).wf(),
    {
        match self.find_stop(stop.id.as_str()) {
            Some(_) => false,
            None => {
                self.stops.push(stop);
                true
            },
        }
    }

    /// Adds a trip at the end.
    pub fn add_trip(&mut self, trip: Trip)
        ensures
            final(self).trips@ == old(self).trips@.push(trip),
            final(self).stops@ == old(self).stops@,
    {
        self.trips.push(trip);
    }

    /// The `(longitude, latitude)` of every stop, in the order of `stops`.
    pub fn stop_coords(&self) -> (coords: Vec<(i32, i32)>)
        ensures
            coords@ == self.coords(),
    {
        let mut coords: Vec<(i32, i32)> = Vec::new();
        let mut i: usize = 0;
        while i < self.stops.len()
            invariant
                i <= self.stops@.len(),
                coords@ == self.coords().take(i as int),
            decreases self.stops@.len() - i,
        {
            coords.push((self.stops[i].longitude, self.stops[i].latitude));
            proof {
                assert(coords@ == self.coords().take(i + 1));
            }
            i += 1;
        }
        proof {
            assert(self.coords().take(i as int) == self.coords());
        }
        coords
    }
}

} // verus!
