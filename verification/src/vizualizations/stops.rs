use vstd::prelude::*;
use vstd::arithmetic::div_mod::lemma_fundamental_div_mod;
use vstd::set_lib::lemma_int_range;
use vstd::set_lib::lemma_len_subset;
use vstd::set_lib::lemma_subset_equality;
use vstd::set_lib::set_int_range;
use crate::errors::NotFoundError;
use crate::gtfs::Gtfs;
use crate::utils::math::distance_spec;
use crate::utils::math::distance_squared;
use crate::utils::math::lemma_floor_sqrt_monotonic;
use crate::utils::math::squared_distance;

verus! {

/// How many stops one frame of the animation adds to the drawing.
pub const BATCH_SIZE: usize = 20;

/// The points whose flag is set, by position.
pub open spec fn flagged(flags: Seq<bool>) -> Set<int> {
    Set::new(|i: int| 0 <= i < flags.len() && flags[i])
}

/// `i` is the position of a point that has not been visited.
pub open spec fn unvisited(points: Seq<(i32, i32)>, visited: Set<int>, i: int) -> bool {
    0 <= i < points.len() && !visited.contains(i)
}

/// How far apart two points are: the square of their planar distance, in
/// microdegrees. Of two points the closer is the one with the smaller
/// square, so that distances are compared exactly and no root is taken.
pub open spec fn separation(a: (i32, i32), b: (i32, i32)) -> int {
    distance_squared(a.0 as int, a.1 as int, b.0 as int, b.1 as int)
}

/// `i` is the position of the unvisited point closest to `start`: no
/// unvisited point is closer, and of those just as close none stands before
/// it.
pub open spec fn is_closest(
    start: (i32, i32),
    points: Seq<(i32, i32)>,
    visited: Set<int>,
    i: int,
) -> bool {
    &&& unvisited(points, visited, i)
    &&& forall|j: int| #[trigger]
        unvisited(points, visited, j) ==> separation(start, points[i]) <= separation(
            start,
            points[j],
        )
    &&& forall|j: int| #[trigger]
        unvisited(points, visited, j) && j < i ==> separation(start, points[i])
            < separation(start, points[j])
}

/// Two positions that are both the closest are one position.
pub proof fn lemma_closest_unique(
    start: (i32, i32),
    points: Seq<(i32, i32)>,
    visited: Set<int>,
    i: int,
    j: int,
)
    requires
        is_closest(start, points, visited, i),
        is_closest(start, points, visited, j),
    ensures
        i == j,
{
}

/// The closest point is the closest by rounded distance too: its distance
/// from `start`, rounded down to a whole microdegree, is no larger than that
/// of any unvisited point.
pub proof fn lemma_closest_by_distance(
    start: (i32, i32),
    points: Seq<(i32, i32)>,
    visited: Set<int>,
    i: int,
    j: int,
)
    requires
        is_closest(start, points, visited, i),
        unvisited(points, visited, j),
    ensures
        distance_spec(
            start.0 as int,
            start.1 as int,
            points[i].0 as int,
            points[i].1 as int,
        ) <= distance_spec(start.0 as int, start.1 as int, points[j].0 as int, points[j].1 as int),
{
    let dx = points[i].0 - start.0;
    let dy = points[i].1 - start.1;
    assert(dx * dx + dy * dy >= 0) by (nonlinear_arith);
    lemma_floor_sqrt_monotonic(separation(start, points[i]), separation(start, points[j]));
}

/// The closest unvisited point among the first `n`, found by looking at
/// them in order and keeping the first that beats all before it.
spec fn scan(start: (i32, i32), points: Seq<(i32, i32)>, visited: Set<int>, n: int) -> Option<int>
    decreases n,
{
    if n <= 0 {
        None
    } else {
        let best = scan(start, points, visited, n - 1);
        if visited.contains(n - 1) {
            best
        } else {
            match best {
                Some(b) => if separation(start, points[n - 1]) < separation(
                    start,
                    points[b],
                ) {
                    Some(n - 1)
                } else {
                    best
                },
                None => Some(n - 1),
            }
        }
    }
}

/// Looking at the first `n` points in order finds the closest of them.
proof fn lemma_scan(start: (i32, i32), points: Seq<(i32, i32)>, visited: Set<int>, n: int)
    requires
        0 <= n <= points.len(),
    ensures
        match scan(start, points, visited, n) {
            Some(i) => is_closest(start, points.take(n), visited, i),
            None => forall|j: int| !unvisited(points.take(n), visited, j),
        },
    decreases n,
{
    if n > 0 {
        lemma_scan(start, points, visited, n - 1);
        let before = points.take(n - 1);
        let after = points.take(n);
        assert forall|j: int| #[trigger] unvisited(after, visited, j) && j != n - 1 implies unvisited(
            before,
            visited,
            j,
        ) && after[j] == before[j] by {}
        assert(after[n - 1] == points[n - 1]);
        match scan(start, points, visited, n) {
            Some(i) => {
                if i < n - 1 {
                    assert(before[i] == after[i]);
                    assert(unvisited(before, visited, i));
                }
                assert(unvisited(after, visited, i));
                assert(is_closest(start, after, visited, i));
            },
            None => {},
        }
    }
}

/// Unless every point has been visited, one of them is the closest.
pub proof fn lemma_closest_exists(start: (i32, i32), points: Seq<(i32, i32)>, visited: Set<int>)
    ensures
        (exists|j: int| unvisited(points, visited, j)) ==> exists|i: int|
            is_closest(start, points, visited, i),
{
    lemma_scan(start, points, visited, points.len() as int);
    assert(points.take(points.len() as int) == points);
}

/// The unvisited point that is closest to `start`, by its position in
/// `points`, or `None` when every point has been visited. `visited` holds a
/// flag for each point. However far the closest point is, it is found: there
/// is no distance beyond which points are left out.
pub fn find_closest(start: (i32, i32), points: &[(i32, i32)], visited: &[bool]) -> (winner: Option<
    usize,
>)
    requires
        visited@.len() == points@.len(),
    ensures
        match winner {
            Some(i) => is_closest(start, points@, flagged(visited@), i as int),
            None => forall|j: int| !unvisited(points@, flagged(visited@), j),
        },
{
    let mut winner: Option<usize> = None;
    let mut record: u128 = 0;
    let mut i: usize = 0;
    while i < points.len()
        invariant
            i <= points@.len(),
            visited@.len() == points@.len(),
            match winner {
                Some(w) => w < i && record == separation(start, points@[w as int]) && scan(
                    start,
                    points@,
                    flagged(visited@),
                    i as int,
                ) == Some(w as int),
                None => scan(start, points@, flagged(visited@), i as int) == None::<int>,
            },
        decreases points@.len() - i,
    {
        if !visited[i] {
            let dist = squared_distance(start.0, start.1, points[i].0, points[i].1);
            let closer = match winner {
                Some(_) => dist < record,
                None => true,
            };
            if closer {
                winner = Some(i);
                record = dist;
            }
        }
        i += 1;
    }
    proof {
        lemma_scan(start, points@, flagged(visited@), points@.len() as int);
        assert(points@.take(points@.len() as int) == points@);
    }
    winner
}

/// A traversal as the contracts see it: the points, the anchor that all
/// distances are measured from, the points visited so far and those chosen
/// by the latest step, all by position.
pub struct Traversal {
    pub points: Seq<(i32, i32)>,
    pub start: int,
    pub visited: Set<int>,
    pub frontier: Seq<int>,
}

impl Traversal {
    /// The anchor is one of the points and has been visited, only points
    /// have been visited, and the frontier is among them.
    pub open spec fn wf(self) -> bool {
        &&& 0 <= self.start < self.points.len()
        &&& self.visited.contains(self.start)
        &&& forall|i: int| self.visited.contains(i) ==> 0 <= i < self.points.len()
        &&& forall|k: int|
            0 <= k < self.frontier.len() ==> self.visited.contains(#[trigger] self.frontier[k])
    }

    /// The traversal before its first step: the anchor alone is visited and
    /// the frontier is empty.
    pub open spec fn init(points: Seq<(i32, i32)>, start: int) -> Traversal {
        Traversal { points, start, visited: set![start], frontier: Seq::empty() }
    }

    /// The point that distances are measured from. It stays the same for the
    /// whole traversal: the points come out in rings around it, not as a
    /// chain from each point to its neighbour.
    pub open spec fn anchor(self) -> (i32, i32) {
        self.points[self.start]
    }

    /// Every point has been visited.
    pub open spec fn complete(self) -> bool {
        forall|i: int| !unvisited(self.points, self.visited, i)
    }

    /// The position of the unvisited point closest to the anchor, or `None`
    /// when the traversal is complete.
    pub open spec fn closest(self) -> Option<int> {
        if self.complete() {
            None
        } else {
            Some(choose|i: int| is_closest(self.anchor(), self.points, self.visited, i))
        }
    }

    /// The traversal after the point at `i` has been chosen: it is visited
    /// and stands last in the frontier.
    pub open spec fn visit(self, i: int) -> Traversal {
        Traversal { visited: self.visited.insert(i), frontier: self.frontier.push(i), ..self }
    }

    /// The traversal after `n` choices of the closest unvisited point, each
    /// one visited before the next is chosen, or after fewer when the points
    /// run out.
    pub open spec fn select(self, n: nat) -> Traversal
        decreases n,
    {
        if n == 0 {
            self
        } else {
            match self.closest() {
                Some(i) => self.visit(i).select((n - 1) as nat),
                None => self,
            }
        }
    }

    /// The traversal after one step of `batch` choices. The frontier holds
    /// the choices of this step only, in the order they were made.
    pub open spec fn step(self, batch: nat) -> Traversal {
        Traversal { frontier: Seq::empty(), ..self }.select(batch)
    }

    /// The closest point of a traversal is the closest unvisited point to
    /// its anchor, and there is one unless the traversal is complete.
    pub proof fn lemma_closest(self)
        ensures
            match self.closest() {
                Some(i) => is_closest(self.anchor(), self.points, self.visited, i),
                None => self.complete(),
            },
    {
        if !self.complete() {
            lemma_closest_exists(self.anchor(), self.points, self.visited);
        }
    }

    /// The visited points of a well-formed traversal are finitely many, no
    /// more than there are points, and as many only when it is complete.
    pub proof fn lemma_visited_len(self)
        requires
            self.wf(),
        ensures
            self.visited.finite(),
            self.visited.len() <= self.points.len(),
            self.complete() <==> self.visited.len() == self.points.len(),
    {
        let all = set_int_range(0, self.points.len() as int);
        lemma_int_range(0, self.points.len() as int);
        lemma_len_subset(self.visited, all);
        if self.visited.len() == self.points.len() {
            lemma_subset_equality(self.visited, all);
            assert forall|i: int| !unvisited(self.points, self.visited, i) by {
                if 0 <= i < self.points.len() {
                    assert(all.contains(i));
                }
            }
        }
        if self.complete() {
            assert forall|i: int| all.contains(i) implies self.visited.contains(i) by {
                assert(!unvisited(self.points, self.visited, i));
            }
            assert(self.visited =~= all);
        }
    }

    /// Choosing a point keeps the traversal well-formed and adds one visited
    /// point.
    pub proof fn lemma_visit(self, i: int)
        requires
            self.wf(),
            unvisited(self.points, self.visited, i),
        ensures
            self.visit(i).wf(),
            self.visit(i).visited.len() == self.visited.len() + 1,
    {
        self.lemma_visited_len();
        let next = self.visit(i);
        assert forall|k: int| 0 <= k < next.frontier.len() implies next.visited.contains(
            #[trigger] next.frontier[k],
        ) by {
            if k < self.frontier.len() {
                assert(next.frontier[k] == self.frontier[k]);
            }
        }
    }

    /// Choices add up: `m + n` choices are `m` choices and then `n` more.
    pub proof fn lemma_select_split(self, m: nat, n: nat)
        ensures
            self.select(m + n) == self.select(m).select(n),
        decreases m,
    {
        if m > 0 {
            match self.closest() {
                Some(i) => {
                    self.visit(i).lemma_select_split((m - 1) as nat, n);
                },
                None => {
                    self.lemma_select_complete(n);
                    self.lemma_select_complete(m + n);
                },
            }
        }
    }

    /// A complete traversal stays as it is, whatever is asked of it.
    pub proof fn lemma_select_complete(self, n: nat)
        requires
            self.complete(),
        ensures
            self.select(n) == self,
    {
    }

    /// `n` choices visit `n` more points, or all of them where fewer than
    /// `n` were left, and leave the points and the anchor as they were.
    pub proof fn lemma_select(self, n: nat)
        requires
            self.wf(),
        ensures
            self.select(n).wf(),
            self.select(n).points == self.points,
            self.select(n).start == self.start,
            self.visited.subset_of(self.select(n).visited),
            self.select(n).visited.len() == if self.visited.len() + n <= self.points.len() {
                self.visited.len() + n
            } else {
                self.points.len()
            },
        decreases n,
    {
        self.lemma_visited_len();
        if n > 0 {
            self.lemma_closest();
            match self.closest() {
                Some(i) => {
                    self.lemma_visit(i);
                    self.visit(i).lemma_select((n - 1) as nat);
                },
                None => {},
            }
        }
    }

    /// `later` is this traversal after some choices: its frontier is this
    /// one's and after it the points chosen since, each of them unvisited
    /// here and chosen once, and its visited points are those visited here
    /// and those chosen since.
    pub open spec fn extended_by(self, later: Traversal) -> bool {
        let old_len = self.frontier.len() as int;
        &&& later.points == self.points
        &&& later.start == self.start
        &&& old_len <= later.frontier.len()
        &&& forall|k: int| 0 <= k < old_len ==> later.frontier[k] == self.frontier[k]
        &&& forall|k: int|
            old_len <= k < later.frontier.len() ==> unvisited(
                self.points,
                self.visited,
                #[trigger] later.frontier[k],
            )
        &&& forall|k: int, l: int|
            old_len <= k < l < later.frontier.len() ==> later.frontier[k] != later.frontier[l]
        &&& forall|i: int|
            later.visited.contains(i) <==> self.visited.contains(i) || exists|k: int|
                old_len <= k < later.frontier.len() && later.frontier[k] == i
    }

    /// Choices extend a traversal: no point is chosen twice, none that was
    /// visited before, and all that are chosen are visited after.
    pub proof fn lemma_select_extends(self, n: nat)
        requires
            self.wf(),
        ensures
            self.extended_by(self.select(n)),
        decreases n,
    {
        if n > 0 {
            self.lemma_closest();
            match self.closest() {
                Some(i) => {
                    let next = self.visit(i);
                    let later = self.select(n);
                    let old_len = self.frontier.len() as int;
                    self.lemma_visit(i);
                    next.lemma_select_extends((n - 1) as nat);
                    assert(next.frontier[old_len] == i);
                    assert(later.frontier[old_len] == i);
                    assert forall|k: int| 0 <= k < old_len implies later.frontier[k]
                        == self.frontier[k] by {
                        assert(later.frontier[k] == next.frontier[k]);
                    }
                    assert forall|k: int| old_len <= k < later.frontier.len() implies unvisited(
                        self.points,
                        self.visited,
                        #[trigger] later.frontier[k],
                    ) by {
                        if k > old_len {
                            assert(unvisited(next.points, next.visited, later.frontier[k]));
                        }
                    }
                    assert forall|k: int, l: int|
                        old_len <= k < l < later.frontier.len() implies later.frontier[k]
                        != later.frontier[l] by {
                        assert(unvisited(next.points, next.visited, later.frontier[l]));
                        if k == old_len {
                            assert(next.visited.contains(i));
                        }
                    }
                    assert forall|j: int|
                        later.visited.contains(j) <==> self.visited.contains(j) || exists|k: int|
                            old_len <= k < later.frontier.len() && later.frontier[k] == j by {
                        if later.visited.contains(j) && !self.visited.contains(j) {
                            if j == i {
                                assert(later.frontier[old_len] == j);
                            } else {
                                assert(!next.visited.contains(j));
                                let k = choose|k: int|
                                    old_len + 1 <= k < later.frontier.len() && later.frontier[k]
                                        == j;
                                assert(old_len <= k < later.frontier.len() && later.frontier[k]
                                    == j);
                            }
                        }
                        if exists|k: int|
                            old_len <= k < later.frontier.len() && later.frontier[k] == j {
                            let k = choose|k: int|
                                old_len <= k < later.frontier.len() && later.frontier[k] == j;
                            if k == old_len {
                                assert(next.visited.contains(j));
                            } else {
                                assert(old_len + 1 <= k < later.frontier.len()
                                    && later.frontier[k] == j);
                            }
                        }
                        if self.visited.contains(j) {
                            assert(next.visited.contains(j));
                        }
                    }
                },
                None => {},
            }
        }
    }

    /// One step visits `batch` more points, or all of them where fewer were
    /// left. Its frontier holds no point twice and none that was visited
    /// before the step, and the points visited after the step are those
    /// visited before it and those of the frontier.
    pub proof fn lemma_step(self, batch: nat)
        requires
            self.wf(),
        ensures
            self.step(batch).wf(),
            self.step(batch).points == self.points,
            self.step(batch).start == self.start,
            self.step(batch).visited.len() == if self.visited.len() + batch <= self.points.len() {
                self.visited.len() + batch
            } else {
                self.points.len()
            },
            self.step(batch).frontier.no_duplicates(),
            forall|k: int|
                0 <= k < self.step(batch).frontier.len() ==> unvisited(
                    self.points,
                    self.visited,
                    #[trigger] self.step(batch).frontier[k],
                ),
            self.step(batch).visited == self.visited.union(self.step(batch).frontier.to_set()),
    {
        let cleared = Traversal { frontier: Seq::empty(), ..self };
        let later = self.step(batch);
        cleared.lemma_select(batch);
        cleared.lemma_select_extends(batch);
        assert forall|i: int| later.visited.contains(i) <==> self.visited.union(
            later.frontier.to_set(),
        ).contains(i) by {
            if later.frontier.to_set().contains(i) {
                let k = choose|k: int| 0 <= k < later.frontier.len() && later.frontier[k] == i;
                assert(0 <= k < later.frontier.len() && later.frontier[k] == i);
            }
            if later.visited.contains(i) && !self.visited.contains(i) {
                let k = choose|k: int| 0 <= k < later.frontier.len() && later.frontier[k] == i;
                assert(later.frontier.contains(later.frontier[k]));
            }
        }
        assert(later.visited =~= self.visited.union(later.frontier.to_set()));
    }

    /// The traversal after `calls` steps of `batch` choices each.
    pub open spec fn after(self, calls: nat, batch: nat) -> Traversal
        decreases calls,
    {
        if calls == 0 {
            self
        } else {
            self.after((calls - 1) as nat, batch).step(batch)
        }
    }

    /// The frontiers of the first `calls` steps of `batch` choices each, one
    /// after the other.
    pub open spec fn chosen(self, calls: nat, batch: nat) -> Seq<int>
        decreases calls,
    {
        if calls == 0 {
            Seq::empty()
        } else {
            self.chosen((calls - 1) as nat, batch) + self.after(calls, batch).frontier
        }
    }

    /// The number of steps of `batch` choices each that visit `points`
    /// points, the first of which is visited before any step: the quotient
    /// of `points - 1` by `batch`, rounded up.
    pub open spec fn steps_needed(points: nat, batch: nat) -> int
        recommends
            points > 0,
            batch > 0,
    {
        (points - 1 + batch - 1) / (batch as int)
    }

    /// `calls` steps visit `calls * batch` more points, or all of them where
    /// fewer were left. Taken together, what the steps chose holds no point
    /// twice and none that was visited before the first step, and the points
    /// visited after the last step are those visited before the first and
    /// those chosen.
    pub proof fn lemma_after(self, calls: nat, batch: nat)
        requires
            self.wf(),
        ensures
            self.after(calls, batch).wf(),
            self.after(calls, batch).points == self.points,
            self.after(calls, batch).start == self.start,
            self.after(calls, batch).visited.len() == if self.visited.len() + calls * batch
                <= self.points.len() {
                self.visited.len() + calls * batch
            } else {
                self.points.len()
            },
            self.chosen(calls, batch).no_duplicates(),
            forall|k: int|
                0 <= k < self.chosen(calls, batch).len() ==> unvisited(
                    self.points,
                    self.visited,
                    #[trigger] self.chosen(calls, batch)[k],
                ),
            self.after(calls, batch).visited == self.visited.union(
                self.chosen(calls, batch).to_set(),
            ),
        decreases calls,
    {
        self.lemma_visited_len();
        if calls == 0 {
            assert(self.visited.len() + calls * batch == self.visited.len()) by (nonlinear_arith)
                requires
                    calls == 0,
            ;
            assert(self.visited =~= self.visited.union(self.chosen(calls, batch).to_set()));
        } else {
            let before = self.after((calls - 1) as nat, batch);
            let now = self.after(calls, batch);
            let earlier = self.chosen((calls - 1) as nat, batch);
            let all = self.chosen(calls, batch);
            self.lemma_after((calls - 1) as nat, batch);
            before.lemma_step(batch);
            assert((calls - 1) * batch + batch == calls * batch) by (nonlinear_arith);
            assert forall|k: int| 0 <= k < all.len() implies unvisited(
                self.points,
                self.visited,
                #[trigger] all[k],
            ) by {
                if k < earlier.len() {
                    assert(all[k] == earlier[k]);
                } else {
                    assert(all[k] == now.frontier[k - earlier.len()]);
                    assert(unvisited(before.points, before.visited, all[k]));
                }
            }
            assert forall|k: int, l: int| 0 <= k < all.len() && 0 <= l < all.len() && k != l implies all[k]
                != all[l] by {
                if k < earlier.len() && l < earlier.len() {
                    assert(all[k] == earlier[k] && all[l] == earlier[l]);
                } else if k >= earlier.len() && l >= earlier.len() {
                    assert(all[k] == now.frontier[k - earlier.len()]);
                    assert(all[l] == now.frontier[l - earlier.len()]);
                } else {
                    let (e, f) = if k < earlier.len() {
                        (k, l)
                    } else {
                        (l, k)
                    };
                    assert(all[e] == earlier[e]);
                    assert(all[f] == now.frontier[f - earlier.len()]);
                    assert(unvisited(before.points, before.visited, all[f]));
                    assert(earlier.to_set().contains(earlier[e]));
                }
            }
            assert forall|i: int| now.visited.contains(i) <==> self.visited.union(
                all.to_set(),
            ).contains(i) by {
                if all.to_set().contains(i) {
                    let k = choose|k: int| 0 <= k < all.len() && all[k] == i;
                    if k < earlier.len() {
                        assert(earlier.to_set().contains(earlier[k]));
                    } else {
                        assert(now.frontier.to_set().contains(now.frontier[k - earlier.len()]));
                    }
                }
                if earlier.to_set().contains(i) {
                    let k = choose|k: int| 0 <= k < earlier.len() && earlier[k] == i;
                    assert(all[k] == i);
                }
                if now.frontier.to_set().contains(i) {
                    let k = choose|k: int| 0 <= k < now.frontier.len() && now.frontier[k] == i;
                    assert(all[earlier.len() + k] == i);
                }
            }
            assert(now.visited =~= self.visited.union(all.to_set()));
        }
    }

    /// A traversal of `points` that starts at `start` is complete after
    /// `steps_needed` steps of `batch` choices each and after no fewer. By
    /// then the steps have chosen every point but the start, each of them
    /// once.
    pub proof fn lemma_exhausted_after(
        points: Seq<(i32, i32)>,
        start: int,
        calls: nat,
        batch: nat,
    )
        requires
            0 <= start < points.len(),
            batch > 0,
        ensures
            Self::init(points, start).after(calls, batch).complete() <==> calls
                >= Self::steps_needed(points.len(), batch),
            Self::init(points, start).chosen(calls, batch).no_duplicates(),
            !Self::init(points, start).chosen(calls, batch).contains(start),
            Self::init(points, start).after(calls, batch).complete() ==> Self::init(
                points,
                start,
            ).chosen(calls, batch).to_set().insert(start) == set_int_range(0, points.len() as int),
    {
        let first = Self::init(points, start);
        let last = first.after(calls, batch);
        let all = first.chosen(calls, batch);
        assert(first.wf());
        assert(first.visited.len() == 1);
        first.lemma_after(calls, batch);
        last.lemma_visited_len();
        let needed = Self::steps_needed(points.len(), batch);
        let most = points.len() - 1;
        lemma_fundamental_div_mod(most + batch - 1, batch as int);
        assert(calls >= needed <==> 1 + calls * batch >= points.len()) by (nonlinear_arith)
            requires
                batch > 0,
                most == points.len() - 1,
                most + batch - 1 == batch * needed + (most + batch - 1) % (batch as int),
                0 <= (most + batch - 1) % (batch as int) < batch,
        ;
        if all.contains(start) {
            let k = choose|k: int| 0 <= k < all.len() && all[k] == start;
            assert(unvisited(first.points, first.visited, all[k]));
        }
        if last.complete() {
            assert forall|i: int| set_int_range(0, points.len() as int).contains(i)
                implies all.to_set().insert(start).contains(i) by {
                assert(!unvisited(last.points, last.visited, i));
            }
            assert forall|i: int| all.to_set().insert(start).contains(i)
                implies set_int_range(0, points.len() as int).contains(i) by {
                assert(last.visited.contains(i));
            }
            assert(all.to_set().insert(start) =~= set_int_range(0, points.len() as int));
        }
    }
}

/// What a step reports to the loop that drives the animation.
#[derive(Debug, Clone, Copy, PartialEq, Eq, Structural)]
pub enum Progress {
    /// Points are left to visit: step again.
    Advanced,
    /// Every point has been visited: stop after drawing the frontier.
    Exhausted,
}

/// The order in which the stops of a feed appear in the animation: always
/// the unvisited stop closest to the one the traversal started from.
#[derive(Debug)]
pub struct StopsViz {
    points: Vec<(i32, i32)>,
    start: usize,
    nexts: Vec<usize>,
    visited: Vec<bool>,
    remaining: usize,
}

impl View for StopsViz {
    type V = Traversal;

    closed spec fn view(&self) -> Traversal {
        Traversal {
            points: self.points@,
            start: self.start as int,
            visited: flagged(self.visited@),
            frontier: self.nexts@.map_values(|i: usize| i as int),
        }
    }
}

impl StopsViz {
    /// The traversal it stands for is well-formed, and what it holds beside
    /// that agrees with it.
    pub closed spec fn wf(&self) -> bool {
        &&& self@.wf()
        &&& self.visited@.len() == self.points@.len()
        &&& self.remaining == self.points@.len() - self@.visited.len()
    }

    /// Starts a traversal of the stops of `gtfs` at the stop whose id is
    /// `start_id`. The points of the traversal are the stops, in the order
    /// of the feed.
    pub fn from_gtfs(gtfs: &Gtfs, start_id: &str) -> (r: Result<Self, NotFoundError>)
        ensures
            match r {
                Ok(viz) => {
                    &&& viz.wf()
                    &&& viz@ == Traversal::init(gtfs.coords(), viz@.start)
                    &&& 0 <= viz@.start < gtfs.stops@.len()
                    &&& gtfs.stops@[viz@.start].id@ == start_id@
                    &&& forall|j: int|
                        0 <= j < viz@.start ==> (#[trigger] gtfs.stops@[j]).id@ != start_id@
                },
                Err(_) => !gtfs.has_stop(start_id@),
            },
    {
        match gtfs.find_stop(start_id) {
            Some(start) => {
                let points = gtfs.stop_coords();
                let mut visited: Vec<bool> = Vec::new();
                let mut i: usize = 0;
                while i < points.len()
                    invariant
                        i <= points@.len(),
                        visited@.len() == i,
                        forall|j: int| 0 <= j < i ==> !visited@[j],
                    decreases points@.len() - i,
                {
                    visited.push(false);
                    i += 1;
                }
                visited.set(start, true);
                let remaining = points.len() - 1;
                let viz = StopsViz { points, start, nexts: Vec::new(), visited, remaining };
                proof {
                    assert(viz@.visited =~= set![start as int]);
                    assert(viz@.frontier =~= Seq::<int>::empty());
                }
                Ok(viz)
            },
            None => Err(NotFoundError),
        }
    }

    /// One step of the traversal: up to `batch_size` times, the unvisited
    /// stop closest to the start is chosen and visited. The frontier is
    /// replaced by the stops chosen in this step, in the order of choice.
    pub fn step(&mut self, batch_size: usize) -> (progress: Progress)
        requires
            old(self).wf(),
        ensures
            final(self).wf(),
            final(self)@ == old(self)@.step(batch_size as nat),
            (progress == Progress::Exhausted) == final(self)@.complete(),
    {
        self.nexts = Vec::new();
        let ghost begin = self@;
        proof {
            assert(begin.frontier =~= Seq::<int>::empty());
            assert(begin == (Traversal { frontier: Seq::empty(), ..old(self)@ }));
        }
        let mut k: usize = 0;
        while k < batch_size && self.remaining > 0
            invariant
                k <= batch_size,
                self.wf(),
                begin.wf(),
                self@ == begin.select(k as nat),
            decreases batch_size - k,
        {
            let ghost current = self@;
            proof {
                current.lemma_visited_len();
                current.lemma_closest();
                begin.lemma_select_split(k as nat, 1);
            }
            let anchor = self.points[self.start];
            match find_closest(anchor, self.points.as_slice(), self.visited.as_slice()) {
                Some(i) => {
                    proof {
                        lemma_closest_unique(
                            anchor,
                            current.points,
                            current.visited,
                            i as int,
                            current.closest()->Some_0,
                        );
                        current.lemma_visit(i as int);
                    }
                    self.visited.set(i, true);
                    self.nexts.push(i);
                    self.remaining = self.remaining - 1;
                    proof {
                        assert(self@.visited =~= current.visited.insert(i as int));
                        assert(self@.frontier =~= current.frontier.push(i as int));
                        assert(self@ == current.visit(i as int));
                        assert(current.visit(i as int).select(0) == current.visit(i as int));
                        assert(current.select(1) == current.visit(i as int));
                    }
                },
                None => {},
            }
            k += 1;
        }
        proof {
            self@.lemma_visited_len();
            if k < batch_size {
                let rest = (batch_size - k) as nat;
                self@.lemma_select_complete(rest);
                begin.lemma_select_split(k as nat, rest);
            }
        }
        if self.remaining == 0 {
            Progress::Exhausted
        } else {
            Progress::Advanced
        }
    }

    /// Whether every stop has been visited.
    pub fn is_complete(&self) -> (complete: bool)
        requires
            self.wf(),
        ensures
            complete == self@.complete(),
    {
        proof {
            self@.lemma_visited_len();
        }
        self.remaining == 0
    }

    /// The stops chosen by the latest step, by position in the feed, in the
    /// order they were chosen.
    pub fn nexts(&self) -> (nexts: &Vec<usize>)
        ensures
            nexts@.map_values(|i: usize| i as int) == self@.frontier,
    {
        &self.nexts
    }

    /// The position in the feed of the stop the traversal started from.
    pub fn start(&self) -> (start: usize)
        ensures
            start == self@.start,
    {
        self.start
    }

    /// Whether the stop at `index` has been visited. No stop stands at a
    /// position past the end of the feed, and none is visited there.
    pub fn is_visited(&self, index: usize) -> (visited: bool)
        ensures
            visited == self@.visited.contains(index as int),
    {
        index < self.visited.len() && self.visited[index]
    }
}

} // verus!
