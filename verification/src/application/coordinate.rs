//! Visits of listed coordinates of a dense array.
//!
//! The coordinates are visited in list order; a coordinate that occurs more
//! than once is visited once per occurrence, so a scatter-add sees every
//! contribution, and each visit sees what the visits before it left.
use vstd::prelude::*;
use crate::domain::error::{LetoError, StorageFault};
use super::tensor::{copy_extents, flat_of, in_bounds, lemma_flat_bound, offset_of, same_shape, size, Tensor};

verus! {

/// The listed coordinates as sequences.
pub open spec fn coordinate_views(coords: Seq<Vec<usize>>) -> Seq<Seq<usize>> {
    Seq::new(coords.len(), |j: int| coords[j]@)
}

/// Every coordinate before position `k` names an element of `shape`.
pub open spec fn inside_prefix(coords: Seq<Seq<usize>>, shape: Seq<usize>, k: int) -> bool {
    forall|j: int| 0 <= j < k ==> #[trigger] in_bounds(coords[j], shape)
}

/// Position `k` holds the first coordinate that names no element of `shape`.
pub open spec fn first_outside(coords: Seq<Seq<usize>>, shape: Seq<usize>, k: int) -> bool {
    &&& 0 <= k < coords.len()
    &&& inside_prefix(coords, shape, k)
    &&& !in_bounds(coords[k], shape)
}

/// Visit number `j`: `f` receives the ordinal `j`, a copy `idx` of the
/// coordinate `coord` and the element there in `before`; its result replaces
/// that element, which gives `after`.
pub open spec fn visit_step<T, F: FnMut(usize, Vec<usize>, T) -> T>(
    f: F,
    shape: Seq<usize>,
    coord: Seq<usize>,
    j: usize,
    idx: Vec<usize>,
    before: Seq<T>,
    after: Seq<T>,
) -> bool {
    let p = flat_of(coord, shape);
    &&& idx@ == coord
    &&& exists|y: T| #[trigger] f.ensures((j, idx, before[p]), y) && after == before.update(p, y)
}

/// `states` are the contents before the first visit (`start`) and after each
/// of the visits of the first `passed.len()` coordinates, in order.
pub open spec fn coordinate_run<T, F: FnMut(usize, Vec<usize>, T) -> T>(
    f: F,
    shape: Seq<usize>,
    coords: Seq<Seq<usize>>,
    start: Seq<T>,
    passed: Seq<Vec<usize>>,
    states: Seq<Seq<T>>,
) -> bool {
    &&& passed.len() <= coords.len()
    &&& states.len() == passed.len() + 1
    &&& states[0] == start
    &&& forall|j: int|
        0 <= j < passed.len() ==> visit_step(f, shape, coords[j], j as usize, #[trigger] passed[j], states[j], states[j + 1])
}

/// `out` is what the visits of the first `k` coordinates leave of `start`.
pub open spec fn visited<T, F: FnMut(usize, Vec<usize>, T) -> T>(
    f: F,
    shape: Seq<usize>,
    coords: Seq<Seq<usize>>,
    start: Seq<T>,
    k: int,
    out: Seq<T>,
) -> bool {
    exists|passed: Seq<Vec<usize>>, states: Seq<Seq<T>>|
        #[trigger] coordinate_run(f, shape, coords, start, passed, states) && passed.len() == k && out == states.last()
}

/// `f` accepts every ordinal of `coords` with a copy of its coordinate and
/// any element.
pub open spec fn accepts_visits<T, F: FnMut(usize, Vec<usize>, T) -> T>(f: F, coords: Seq<Seq<usize>>) -> bool {
    forall|j: usize, idx: Vec<usize>, x: T|
        j < coords.len() && idx@ == coords[j as int] ==> #[trigger] f.requires((j, idx, x))
}

/// Whether `index` names an element of an array of `shape`.
fn coordinate_in_bounds(index: &[usize], shape: &[usize]) -> (r: bool)
    ensures
        r == in_bounds(index@, shape@),
{
    if index.len() != shape.len() {
        return false;
    }
    for d in 0..shape.len()
        invariant
            index@.len() == shape@.len(),
            forall|e: int| 0 <= e < d ==> #[trigger] index@[e] < shape@[e],
    {
        if index[d] >= shape[d] {
            return false;
        }
    }
    true
}

/// Extending a run by one visit.
proof fn lemma_run_push<T, F: FnMut(usize, Vec<usize>, T) -> T>(
    f: F,
    shape: Seq<usize>,
    coords: Seq<Seq<usize>>,
    start: Seq<T>,
    passed: Seq<Vec<usize>>,
    states: Seq<Seq<T>>,
    idx: Vec<usize>,
    after: Seq<T>,
)
    requires
        coordinate_run(f, shape, coords, start, passed, states),
        passed.len() < coords.len(),
        visit_step(f, shape, coords[passed.len() as int], passed.len() as usize, idx, states.last(), after),
    ensures
        coordinate_run(f, shape, coords, start, passed.push(idx), states.push(after)),
{
    let (p2, s2) = (passed.push(idx), states.push(after));
    assert forall|j: int| 0 <= j < p2.len() implies visit_step(
        f,
        shape,
        coords[j],
        j as usize,
        #[trigger] p2[j],
        s2[j],
        s2[j + 1],
    ) by {
        if j < passed.len() {
            assert(p2[j] == passed[j]);
            assert(s2[j] == states[j]);
            assert(s2[j + 1] == states[j + 1]);
        }
    }
}

/// How many coordinates from the front of the list name elements of
/// `shape`: the position of the first that does not, or the list length.
fn leading_inside(coordinates: &[Vec<usize>], shape: &[usize]) -> (k: usize)
    ensures
        k <= coordinates@.len(),
        inside_prefix(coordinate_views(coordinates@), shape@, k as int),
        k < coordinates@.len() ==> !in_bounds(coordinates@[k as int]@, shape@),
{
    let ghost cv = coordinate_views(coordinates@);
    for j in 0..coordinates.len()
        invariant
            cv == coordinate_views(coordinates@),
            inside_prefix(cv, shape@, j as int),
    {
        assert(cv[j as int] == coordinates@[j as int]@);
        if !coordinate_in_bounds(coordinates[j].as_slice(), shape) {
            return j;
        }
        assert(inside_prefix(cv, shape@, j + 1)) by {
            assert forall|e: int| 0 <= e < j + 1 implies #[trigger] in_bounds(cv[e], shape@) by {
                if e < j {
                    assert(in_bounds(cv[e], shape@));
                }
            }
        }
    }
    coordinates.len()
}

/// The first coordinate outside `shape` is at `stop` when `stop` is below
/// the list length, and there is none when it is not.
proof fn lemma_first_outside_at(coords: Seq<Seq<usize>>, shape: Seq<usize>, stop: int)
    requires
        0 <= stop <= coords.len(),
        inside_prefix(coords, shape, stop),
        stop < coords.len() ==> !in_bounds(coords[stop], shape),
    ensures
        forall|k: int| #[trigger] first_outside(coords, shape, k) ==> k == stop,
        inside_prefix(coords, shape, coords.len() as int) <==> stop == coords.len(),
{
    if stop < coords.len() && inside_prefix(coords, shape, coords.len() as int) {
        assert(in_bounds(coords[stop], shape));
    }
    assert forall|k: int| #[trigger] first_outside(coords, shape, k) implies k == stop by {
        if k < stop {
            assert(in_bounds(coords[k], shape));
        } else if k > stop {
            assert(in_bounds(coords[stop], shape));
        }
    }
}

/// Puts `y` at position `p` of `data` after `swap_remove(p)` took the
/// element there out of `orig`, restoring the order of all other elements:
/// the result is `orig` with `y` at `p`.
fn put_back<T>(data: &mut Vec<T>, p: usize, y: T, Ghost(orig): Ghost<Seq<T>>)
    requires
        p < orig.len(),
        old(data)@ == orig.update(p as int, orig.last()).drop_last(),
    ensures
        final(data)@ == orig.update(p as int, y),
{
    data.push(y);
    let last = data.len() - 1;
    if p < last {
        let displaced = data.swap_remove(p);
        data.push(displaced);
    }
    assert(data@ =~= orig.update(p as int, y));
}

/// Runs the visits of the first `stop` coordinates, all inside `shape`, on
/// `data`.
fn visit_prefix<T, F>(
    data: &mut Vec<T>,
    shape: &[usize],
    coordinates: &[Vec<usize>],
    stop: usize,
    mut f: F,
) where F: FnMut(usize, Vec<usize>, T) -> T
    requires
        old(data)@.len() == size(shape@),
        stop <= coordinates@.len(),
        inside_prefix(coordinate_views(coordinates@), shape@, stop as int),
        accepts_visits::<T, F>(f, coordinate_views(coordinates@)),
    ensures
        visited(f, shape@, coordinate_views(coordinates@), old(data)@, stop as int, final(data)@),
{
    let ghost f0 = f;
    let ghost cv = coordinate_views(coordinates@);
    let ghost start = data@;
    let len = data.len();
    let ghost mut passed: Seq<Vec<usize>> = Seq::empty();
    let ghost mut states: Seq<Seq<T>> = seq![start];
    for j in 0..stop
        invariant
            f == f0,
            start == old(data)@,
            cv == coordinate_views(coordinates@),
            stop <= coordinates@.len(),
            accepts_visits::<T, F>(f, cv),
            inside_prefix(cv, shape@, stop as int),
            len == data@.len(),
            len == size(shape@),
            passed.len() == j,
            coordinate_run(f, shape@, cv, start, passed, states),
            data@ == states.last(),
    {
        assert(cv[j as int] == coordinates@[j as int]@);
        assert(in_bounds(cv[j as int], shape@));
        proof {
            lemma_flat_bound(cv[j as int], shape@);
        }
        let p = offset_of(coordinates[j].as_slice(), shape);
        let idx = copy_extents(coordinates[j].as_slice());
        let ghost before = data@;
        let ghost passed_idx = idx;
        let x = data.swap_remove(p);
        let y = f(j, idx, x);
        put_back(data, p, y, Ghost(before));
        proof {
            assert(visit_step(f, shape@, cv[j as int], j, passed_idx, before, data@));
            lemma_run_push(f, shape@, cv, start, passed, states, passed_idx, data@);
            passed = passed.push(passed_idx);
            states = states.push(data@);
        }
    }
    assert(coordinate_run(f, shape@, cv, start, passed, states));
}

/// Visits the listed coordinates of `view` in order: visit number `j` calls
/// `f` with `j`, the coordinate and the element there, and the result
/// replaces that element. A coordinate listed twice is visited twice.
///
/// Fails with `OutOfBounds { index, shape }` at the first coordinate that
/// names no element, after the visits of the coordinates before it.
pub fn coordinate_map_inplace<T, F>(view: &mut Tensor<T>, coordinates: &[Vec<usize>], f: F) -> (r: Result<
    (),
    LetoError,
>) where F: FnMut(usize, Vec<usize>, T) -> T
    requires
        old(view)@.wf(),
        accepts_visits::<T, F>(f, coordinate_views(coordinates@)),
    ensures
        final(view)@.shape == old(view)@.shape,
        inside_prefix(coordinate_views(coordinates@), old(view)@.shape, coordinates@.len() as int) ==> r is Ok
            && visited(
            f,
            old(view)@.shape,
            coordinate_views(coordinates@),
            old(view)@.data,
            coordinates@.len() as int,
            final(view)@.data,
        ),
        forall|k: int|
            #[trigger] first_outside(coordinate_views(coordinates@), old(view)@.shape, k) ==> (r matches Err(
                LetoError::OutOfBounds { index, shape },
            ) && index@ == coordinates@[k]@ && shape@ == old(view)@.shape && visited(
                f,
                old(view)@.shape,
                coordinate_views(coordinates@),
                old(view)@.data,
                k,
                final(view)@.data,
            )),
{
    let shape = copy_extents(view.shape());
    let stop = leading_inside(coordinates, shape.as_slice());
    proof {
        if stop < coordinates.len() {
            assert(coordinate_views(coordinates@)[stop as int] == coordinates@[stop as int]@);
        }
        lemma_first_outside_at(coordinate_views(coordinates@), shape@, stop as int);
    }
    let mut data = view.take_data();
    visit_prefix(&mut data, shape.as_slice(), coordinates, stop, f);
    view.put_data(data);
    if stop < coordinates.len() {
        let index = copy_extents(coordinates[stop].as_slice());
        return Err(LetoError::OutOfBounds { index, shape });
    }
    Ok(())
}

/// One planned visit: its ordinal, its coordinate and the row-major position
/// of that coordinate.
#[derive(Debug)]
struct CoordinateMapEntry {
    ordinal: usize,
    index: Vec<usize>,
    offset: usize,
}

/// A list of coordinates checked once against the shape of the array it is
/// built for, with their row-major positions, to visit arrays of that shape
/// again and again as [`coordinate_map_inplace`] does.
#[derive(Debug)]
pub struct CoordinateMapPlan {
    shape: Vec<usize>,
    entries: Vec<CoordinateMapEntry>,
}

/// The mathematical content of a [`CoordinateMapPlan`]: the shape it was
/// built for and the planned coordinates in visiting order.
pub struct CoordinatePlanView {
    pub shape: Seq<usize>,
    pub coordinates: Seq<Seq<usize>>,
}

impl View for CoordinateMapPlan {
    type V = CoordinatePlanView;

    closed spec fn view(&self) -> CoordinatePlanView {
        CoordinatePlanView {
            shape: self.shape@,
            coordinates: Seq::new(self.entries@.len(), |k: int| self.entries@[k].index@),
        }
    }
}

impl CoordinateMapPlan {
    /// Entry `k` has ordinal `k`, a coordinate inside the shape and that
    /// coordinate's row-major position.
    #[verifier::type_invariant]
    closed spec fn entries_match(self) -> bool {
        forall|k: int|
            0 <= k < self.entries@.len() ==> {
                &&& (#[trigger] self.entries@[k]).ordinal == k
                &&& in_bounds(self.entries@[k].index@, self.shape@)
                &&& self.entries@[k].offset == flat_of(self.entries@[k].index@, self.shape@)
            }
    }

    /// Plans the visits of `coordinates` on arrays of the shape of `view`.
    ///
    /// Fails with `OutOfBounds { index, shape }` at the first coordinate that
    /// names no element of `view`.
    pub fn new<T>(view: &Tensor<T>, coordinates: &[Vec<usize>]) -> (r: Result<Self, LetoError>)
        requires
            view@.wf(),
        ensures
            inside_prefix(coordinate_views(coordinates@), view@.shape, coordinates@.len() as int) ==> r is Ok
                && r->Ok_0@ == (CoordinatePlanView { shape: view@.shape, coordinates: coordinate_views(coordinates@) }),
            forall|k: int|
                #[trigger] first_outside(coordinate_views(coordinates@), view@.shape, k) ==> (r matches Err(
                    LetoError::OutOfBounds { index, shape },
                ) && index@ == coordinates@[k]@ && shape@ == view@.shape),
    {
        let ghost cv = coordinate_views(coordinates@);
        let shape = copy_extents(view.shape());
        let stop = leading_inside(coordinates, shape.as_slice());
        proof {
            if stop < coordinates.len() {
                assert(cv[stop as int] == coordinates@[stop as int]@);
            }
            lemma_first_outside_at(cv, shape@, stop as int);
        }
        if stop < coordinates.len() {
            let index = copy_extents(coordinates[stop].as_slice());
            return Err(LetoError::OutOfBounds { index, shape });
        }
        let total = view.data().len();
        let mut entries: Vec<CoordinateMapEntry> = Vec::with_capacity(stop);
        for j in 0..stop
            invariant
                total == size(shape@),
                stop == coordinates@.len(),
                cv == coordinate_views(coordinates@),
                shape@ == view@.shape,
                view@.wf(),
                inside_prefix(cv, shape@, stop as int),
                entries@.len() == j,
                forall|k: int|
                    0 <= k < j ==> {
                        &&& (#[trigger] entries@[k]).ordinal == k
                        &&& entries@[k].index@ == cv[k]
                        &&& entries@[k].offset == flat_of(cv[k], shape@)
                    },
        {
            assert(cv[j as int] == coordinates@[j as int]@);
            assert(in_bounds(cv[j as int], shape@));
            let offset = offset_of(coordinates[j].as_slice(), shape.as_slice());
            let index = copy_extents(coordinates[j].as_slice());
            entries.push(CoordinateMapEntry { ordinal: j, index, offset });
        }
        assert forall|k: int| 0 <= k < entries@.len() implies in_bounds(entries@[k].index@, shape@) by {
            assert(in_bounds(cv[k], shape@));
        }
        let plan = CoordinateMapPlan { shape, entries };
        assert(plan@.coordinates =~= cv);
        Ok(plan)
    }

    /// The number of planned visits.
    pub fn len(&self) -> (r: usize)
        ensures
            r == self@.coordinates.len(),
    {
        self.entries.len()
    }

    /// Whether the plan holds no visit.
    pub fn is_empty(&self) -> (r: bool)
        ensures
            r == (self@.coordinates.len() == 0),
    {
        self.entries.len() == 0
    }

    /// The shape the plan was built for.
    pub fn layout(&self) -> (r: &[usize])
        ensures
            r@ == self@.shape,
    {
        self.shape.as_slice()
    }

    /// Runs the planned visits on `view`, in order, as
    /// [`coordinate_map_inplace`] does with the planned coordinates.
    ///
    /// Fails, leaving `view` unchanged, with `StorageError { reason:
    /// PlanLayout }` when `view` has another shape than the planned one.
    pub fn apply<T, F>(&self, view: &mut Tensor<T>, f: F) -> (r: Result<(), LetoError>) where
        F: FnMut(usize, Vec<usize>, T) -> T,

        requires
            old(view)@.wf(),
            accepts_visits::<T, F>(f, self@.coordinates),
        ensures
            old(view)@.shape != self@.shape ==> r == Err::<(), LetoError>(
                LetoError::StorageError { reason: StorageFault::PlanLayout },
            ) && final(view)@ == old(view)@,
            old(view)@.shape == self@.shape ==> r is Ok && final(view)@.shape == old(view)@.shape && visited(
                f,
                self@.shape,
                self@.coordinates,
                old(view)@.data,
                self@.coordinates.len() as int,
                final(view)@.data,
            ),
    {
        proof {
            use_type_invariant(self);
        }
        if !same_shape(view.shape(), self.shape.as_slice()) {
            return Err(LetoError::StorageError { reason: StorageFault::PlanLayout });
        }
        let mut data = view.take_data();
        self.visit_all(&mut data, f);
        view.put_data(data);
        Ok(())
    }

    /// Runs the planned visits on the row-major `data` of an array of the
    /// planned shape.
    fn visit_all<T, F>(&self, data: &mut Vec<T>, mut f: F) where F: FnMut(usize, Vec<usize>, T) -> T
        requires
            old(data)@.len() == size(self@.shape),
            accepts_visits::<T, F>(f, self@.coordinates),
        ensures
            visited(f, self@.shape, self@.coordinates, old(data)@, self@.coordinates.len() as int, final(data)@),
    {
        proof {
            use_type_invariant(self);
        }
        let ghost f0 = f;
        let ghost cv = self@.coordinates;
        let ghost start = data@;
        let len = data.len();
        let ghost mut passed: Seq<Vec<usize>> = Seq::empty();
        let ghost mut states: Seq<Seq<T>> = seq![start];
        for j in 0..self.entries.len()
            invariant
                f == f0,
                self.entries_match(),
                start == old(data)@,
                cv == self@.coordinates,
                accepts_visits::<T, F>(f, cv),
                len == data@.len(),
                len == size(self@.shape),
                passed.len() == j,
                coordinate_run(f, self@.shape, cv, start, passed, states),
                data@ == states.last(),
        {
            let entry = &self.entries[j];
            assert(cv[j as int] == entry.index@);
            proof {
                lemma_flat_bound(entry.index@, self.shape@);
            }
            let p = entry.offset;
            let idx = copy_extents(entry.index.as_slice());
            let ghost before = data@;
            let ghost passed_idx = idx;
            let x = data.swap_remove(p);
            let y = f(entry.ordinal, idx, x);
            put_back(data, p, y, Ghost(before));
            proof {
                assert(visit_step(f, self@.shape, cv[j as int], j, passed_idx, before, data@));
                lemma_run_push(f, self@.shape, cv, start, passed, states, passed_idx, data@);
                passed = passed.push(passed_idx);
                states = states.push(data@);
            }
        }
        assert(coordinate_run(f, self@.shape, cv, start, passed, states));
    }
}

/// A plan built from a coordinate list visits as the list itself does: for
/// every closure, every start and every outcome, running the plan's visits
/// produces the outcome exactly when visiting the listed coordinates
/// directly does.
pub proof fn lemma_plan_visits_as_listed<T, F: FnMut(usize, Vec<usize>, T) -> T>(
    plan: CoordinatePlanView,
    shape: Seq<usize>,
    coords: Seq<Vec<usize>>,
    f: F,
    start: Seq<T>,
    out: Seq<T>,
)
    requires
        plan == (CoordinatePlanView { shape, coordinates: coordinate_views(coords) }),
    ensures
        visited(f, plan.shape, plan.coordinates, start, plan.coordinates.len() as int, out) == visited(
            f,
            shape,
            coordinate_views(coords),
            start,
            coords.len() as int,
            out,
        ),
{
}

/// Plans the visits of `coordinates` on arrays of the shape of `view`, as
/// [`CoordinateMapPlan::new`] does.
pub fn coordinate_map_plan<T>(view: &Tensor<T>, coordinates: &[Vec<usize>]) -> (r: Result<
    CoordinateMapPlan,
    LetoError,
>)
    requires
        view@.wf(),
    ensures
        inside_prefix(coordinate_views(coordinates@), view@.shape, coordinates@.len() as int) ==> r is Ok
            && r->Ok_0@ == (CoordinatePlanView { shape: view@.shape, coordinates: coordinate_views(coordinates@) }),
        forall|k: int|
            #[trigger] first_outside(coordinate_views(coordinates@), view@.shape, k) ==> (r matches Err(
                LetoError::OutOfBounds { index, shape },
            ) && index@ == coordinates@[k]@ && shape@ == view@.shape),
{
    CoordinateMapPlan::new(view, coordinates)
}

/// Runs the visits of `plan` on `view`, as [`CoordinateMapPlan::apply`]
/// does.
pub fn coordinate_map_plan_inplace<T, F>(view: &mut Tensor<T>, plan: &CoordinateMapPlan, f: F) -> (r: Result<
    (),
    LetoError,
>) where F: FnMut(usize, Vec<usize>, T) -> T
    requires
        old(view)@.wf(),
        accepts_visits::<T, F>(f, plan@.coordinates),
    ensures
        old(view)@.shape != plan@.shape ==> r == Err::<(), LetoError>(
            LetoError::StorageError { reason: StorageFault::PlanLayout },
        ) && final(view)@ == old(view)@,
        old(view)@.shape == plan@.shape ==> r is Ok && final(view)@.shape == old(view)@.shape && visited(
            f,
            plan@.shape,
            plan@.coordinates,
            old(view)@.data,
            plan@.coordinates.len() as int,
            final(view)@.data,
        ),
{
    plan.apply(view, f)
}

} // verus!
