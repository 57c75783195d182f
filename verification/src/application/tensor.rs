//! Dense row-major (C-order) arrays and their index arithmetic.
//!
//! A [`Tensor`] stores the element at multi-index `index` of a `shape` at
//! position `flat_of(index, shape)` of its data, the mixed-radix number whose
//! digits are the coordinates and whose radices are the extents.
use vstd::prelude::*;
use crate::domain::error::{extent, LetoError, StorageFault};

verus! {

/// Number of elements of an array of this shape: the product of its extents.
pub open spec fn size(shape: Seq<usize>) -> nat
    decreases shape.len(),
{
    if shape.len() == 0 {
        1
    } else {
        size(shape.drop_last()) * (shape.last() as nat)
    }
}

/// Row-major position of `index` in an array of `shape`.
pub open spec fn flat_of(index: Seq<usize>, shape: Seq<usize>) -> int
    decreases shape.len(),
{
    if shape.len() == 0 {
        0
    } else {
        flat_of(index.drop_last(), shape.drop_last()) * shape.last() + index.last()
    }
}

/// `index` names an element of an array of `shape`.
pub open spec fn in_bounds(index: Seq<usize>, shape: Seq<usize>) -> bool {
    &&& index.len() == shape.len()
    &&& forall|d: int| 0 <= d < shape.len() ==> #[trigger] index[d] < shape[d]
}

/// The coordinates of position `f`, peeled off from the last axis: each
/// coordinate is the remainder by its extent, the quotient carrying on to
/// the axes before it. An axis of extent zero gets coordinate zero and
/// leaves the quotient unchanged.
pub open spec fn unflat(f: nat, shape: Seq<usize>) -> Seq<usize>
    decreases shape.len(),
{
    if shape.len() == 0 {
        Seq::empty()
    } else if shape.last() == 0 {
        unflat(f, shape.drop_last()).push(0)
    } else {
        unflat(f / (shape.last() as nat), shape.drop_last()).push((f % (shape.last() as nat)) as usize)
    }
}

proof fn lemma_mul_le(a: int, b: int, c: int)
    by (nonlinear_arith)
    requires
        0 <= a <= b,
        0 <= c,
    ensures
        a * c <= b * c,
{
}

/// Every in-bounds index lies below the element count.
pub proof fn lemma_flat_bound(index: Seq<usize>, shape: Seq<usize>)
    requires
        in_bounds(index, shape),
    ensures
        0 <= flat_of(index, shape) < size(shape),
    decreases shape.len(),
{
    if shape.len() > 0 {
        let (i0, s0) = (index.drop_last(), shape.drop_last());
        assert(in_bounds(i0, s0)) by {
            assert forall|d: int| 0 <= d < s0.len() implies #[trigger] i0[d] < s0[d] by {
                assert(index[d] < shape[d]);
            }
        }
        lemma_flat_bound(i0, s0);
        let f0 = flat_of(i0, s0);
        let s = shape.last() as int;
        assert(index[shape.len() - 1] < shape[shape.len() - 1]);
        lemma_mul_le(f0 + 1, size(s0) as int, s);
        assert((f0 + 1) * s == f0 * s + s) by (nonlinear_arith);
        assert(f0 * s >= 0) by (nonlinear_arith)
            requires
                f0 >= 0,
                s >= 0,
        ;
    }
}

/// Decomposing a position below the element count and recomposing it gives
/// it back, through an in-bounds index.
pub proof fn lemma_unflat_inverse(f: nat, shape: Seq<usize>)
    requires
        f < size(shape),
    ensures
        in_bounds(unflat(f, shape), shape),
        flat_of(unflat(f, shape), shape) == f,
    decreases shape.len(),
{
    if shape.len() == 0 {
        assert(f == 0);
    } else {
        let s0 = shape.drop_last();
        let s = shape.last() as nat;
        if s == 0 {
            assert(size(shape) == 0) by (nonlinear_arith)
                requires
                    size(shape) == size(s0) * s,
                    s == 0,
            ;
        } else {
            let q = f / s;
            assert(q < size(s0)) by (nonlinear_arith)
                requires
                    f < size(s0) * s,
                    q == f / s,
                    s > 0,
            ;
            lemma_unflat_inverse(q, s0);
            let u = unflat(f, shape);
            assert(u.drop_last() =~= unflat(q, s0));
            assert(u.last() == f % s);
            assert(f == q * s + f % s) by (nonlinear_arith)
                requires
                    s > 0,
                    q == f / s,
            ;
            assert(f % s < s) by (nonlinear_arith)
                requires
                    s > 0,
            ;
            assert forall|d: int| 0 <= d < shape.len() implies #[trigger] u[d] < shape[d] by {
                if d < shape.len() - 1 {
                    assert(u[d] == unflat(q, s0)[d]);
                    assert(unflat(q, s0)[d] < s0[d]);
                }
            }
        }
    }
}

/// Decomposing a position gives one coordinate per axis.
pub proof fn lemma_unflat_len(f: nat, shape: Seq<usize>)
    ensures
        unflat(f, shape).len() == shape.len(),
    decreases shape.len(),
{
    if shape.len() > 0 {
        let s = shape.last() as nat;
        if s == 0 {
            lemma_unflat_len(f, shape.drop_last());
        } else {
            lemma_unflat_len(f / s, shape.drop_last());
        }
    }
}

/// An in-bounds index is recovered from its position.
pub proof fn lemma_unflat_of_flat(index: Seq<usize>, shape: Seq<usize>)
    requires
        in_bounds(index, shape),
    ensures
        unflat(flat_of(index, shape) as nat, shape) == index,
    decreases shape.len(),
{
    if shape.len() > 0 {
        let (i0, s0) = (index.drop_last(), shape.drop_last());
        assert(in_bounds(i0, s0)) by {
            assert forall|d: int| 0 <= d < s0.len() implies #[trigger] i0[d] < s0[d] by {
                assert(index[d] < shape[d]);
            }
        }
        lemma_unflat_of_flat(i0, s0);
        lemma_flat_bound(i0, s0);
        let f0 = flat_of(i0, s0);
        let s = shape.last() as int;
        let c = index.last() as int;
        assert(index[shape.len() - 1] < shape[shape.len() - 1]);
        let f = f0 * s + c;
        assert(f / s == f0 && f % s == c) by (nonlinear_arith)
            requires
                f == f0 * s + c,
                0 <= c < s,
                f0 >= 0,
        ;
        assert(unflat(f as nat, shape) =~= index);
    }
}

/// Distinct in-bounds indices lie at distinct positions.
pub proof fn lemma_flat_injective(a: Seq<usize>, b: Seq<usize>, shape: Seq<usize>)
    requires
        in_bounds(a, shape),
        in_bounds(b, shape),
        flat_of(a, shape) == flat_of(b, shape),
    ensures
        a == b,
{
    lemma_unflat_of_flat(a, shape);
    lemma_unflat_of_flat(b, shape);
}

/// The coordinates of the row-major position `flat` in an array of `shape`,
/// computed from the last axis to the first; axes of extent zero get
/// coordinate zero.
pub fn index_from_flat(flat: usize, shape: &[usize]) -> (r: Vec<usize>)
    ensures
        r@ == unflat(flat as nat, shape@),
{
    let n = shape.len();
    let mut index: Vec<usize> = Vec::new();
    for k in 0..n
        invariant
            index.len() == k,
            forall|d: int| 0 <= d < k ==> #[trigger] index@[d] == 0,
    {
        index.push(0);
    }
    let mut temp = flat;
    let mut i = n;
    assert(shape@.take(n as int) =~= shape@);
    assert(index@.skip(n as int) =~= Seq::<usize>::empty());
    while i > 0
        invariant
            i <= n,
            n == shape@.len(),
            index.len() == n,
            forall|e: int| 0 <= e < i ==> #[trigger] index@[e] == 0,
            unflat(flat as nat, shape@) == unflat(temp as nat, shape@.take(i as int)) + index@.skip(i as int),
        decreases i,
    {
        let ghost before = index@;
        let ghost t0 = temp;
        let d = i - 1;
        let ghost pre = shape@.take(i as int);
        assert(pre.drop_last() =~= shape@.take(d as int));
        assert(pre.last() == shape@[d as int]);
        if shape[d] > 0 {
            index.set(d, temp % shape[d]);
            temp = temp / shape[d];
            assert(unflat(t0 as nat, pre) == unflat(temp as nat, shape@.take(d as int)).push(index@[d as int]));
        } else {
            assert(unflat(t0 as nat, pre) == unflat(temp as nat, shape@.take(d as int)).push(0));
        }
        assert(index@.skip(i as int) =~= before.skip(i as int));
        assert(index@.skip(d as int) =~= seq![index@[d as int]] + index@.skip(i as int));
        assert(unflat(temp as nat, shape@.take(d as int)) + index@.skip(d as int) =~= unflat(
            t0 as nat,
            pre,
        ) + before.skip(i as int));
        i = d;
    }
    assert(shape@.take(0) =~= Seq::<usize>::empty());
    assert(index@.skip(0) =~= index@);
    index
}

/// The element count of `shape`, or `None` when it exceeds `usize::MAX`.
pub fn checked_size(shape: &[usize]) -> (r: Option<usize>)
    ensures
        match r {
            Some(s) => s == size(shape@),
            None => size(shape@) > usize::MAX,
        },
{
    for z in 0..shape.len()
        invariant
            forall|e: int| 0 <= e < z ==> #[trigger] shape@[e] != 0,
    {
        if shape[z] == 0 {
            proof {
                lemma_size_zero(shape@, z as int);
            }
            return Some(0);
        }
    }
    let mut acc: usize = 1;
    for d in 0..shape.len()
        invariant
            forall|e: int| 0 <= e < shape@.len() ==> #[trigger] shape@[e] > 0,
            acc == size(shape@.take(d as int)),
    {
        assert(shape@.take(d + 1).drop_last() =~= shape@.take(d as int));
        match acc.checked_mul(shape[d]) {
            Some(next) => {
                acc = next;
            },
            None => {
                proof {
                    lemma_size_grows(shape@, d as int + 1);
                }
                return None;
            },
        }
    }
    assert(shape@.take(shape@.len() as int) =~= shape@);
    Some(acc)
}

/// An extent of zero makes the element count zero.
pub proof fn lemma_size_zero(shape: Seq<usize>, e: int)
    requires
        0 <= e < shape.len(),
        shape[e] == 0,
    ensures
        size(shape) == 0,
    decreases shape.len(),
{
    let (a, b) = (size(shape.drop_last()), shape.last() as nat);
    assert(size(shape) == a * b);
    if e < shape.len() - 1 {
        assert(shape.drop_last()[e] == shape[e]);
        lemma_size_zero(shape.drop_last(), e);
        assert(a * b == 0) by (nonlinear_arith)
            requires
                a == 0,
        ;
    } else {
        assert(a * b == 0) by (nonlinear_arith)
            requires
                b == 0,
        ;
    }
}

/// When every extent is positive, so is the element count.
pub proof fn lemma_size_positive(shape: Seq<usize>)
    requires
        forall|e: int| 0 <= e < shape.len() ==> #[trigger] shape[e] > 0,
    ensures
        size(shape) > 0,
    decreases shape.len(),
{
    if shape.len() > 0 {
        let s0 = shape.drop_last();
        assert forall|e: int| 0 <= e < s0.len() implies #[trigger] s0[e] > 0 by {
            assert(shape[e] > 0);
        }
        lemma_size_positive(s0);
        let (a, b) = (size(s0) as int, shape.last() as int);
        assert(shape[shape.len() - 1] > 0);
        assert(a * b > 0) by (nonlinear_arith)
            requires
                a > 0,
                b > 0,
        ;
    }
}

/// When every extent is positive, the count of a prefix is at most the count
/// of the whole shape.
pub proof fn lemma_size_grows(shape: Seq<usize>, k: int)
    requires
        0 <= k <= shape.len(),
        forall|e: int| 0 <= e < shape.len() ==> #[trigger] shape[e] > 0,
    ensures
        size(shape.take(k)) <= size(shape),
    decreases shape.len() - k,
{
    if k < shape.len() {
        lemma_size_grows(shape, k + 1);
        let p = shape.take(k + 1);
        assert(p.drop_last() =~= shape.take(k));
        assert(p.last() == shape[k]);
        lemma_mul_le(1, shape[k] as int, size(shape.take(k)) as int);
        assert(size(p) == size(shape.take(k)) * (shape[k] as nat));
        assert(size(shape.take(k)) * (shape[k] as nat) == (shape[k] as nat) * size(shape.take(k))) by (
        nonlinear_arith);
    } else {
        assert(shape.take(k) =~= shape);
    }
}


/// Row-major position of an in-bounds `index` (Horner's scheme over the axes).
pub fn offset_of(index: &[usize], shape: &[usize]) -> (r: usize)
    requires
        in_bounds(index@, shape@),
        size(shape@) <= usize::MAX,
    ensures
        r == flat_of(index@, shape@),
{
    proof {
        assert forall|e: int| 0 <= e < shape@.len() implies #[trigger] shape@[e] > 0 by {
            assert(index@[e] < shape@[e]);
        }
    }
    let mut acc: usize = 0;
    for d in 0..shape.len()
        invariant
            in_bounds(index@, shape@),
            size(shape@) <= usize::MAX,
            forall|e: int| 0 <= e < shape@.len() ==> #[trigger] shape@[e] > 0,
            acc == flat_of(index@.take(d as int), shape@.take(d as int)),
    {
        let ghost (ip, sp) = (index@.take(d + 1), shape@.take(d + 1));
        proof {
            assert(ip.drop_last() =~= index@.take(d as int));
            assert(sp.drop_last() =~= shape@.take(d as int));
            assert(in_bounds(ip, sp)) by {
                assert forall|e: int| 0 <= e < sp.len() implies #[trigger] ip[e] < sp[e] by {
                    assert(index@[e] < shape@[e]);
                }
            }
            lemma_flat_bound(ip, sp);
            lemma_size_grows(shape@, d + 1);
            assert(flat_of(ip, sp) == acc * shape@[d as int] + index@[d as int]);
            assert(acc * shape@[d as int] >= 0) by (nonlinear_arith)
                requires
                    acc >= 0,
                    shape@[d as int] >= 0,
            ;
        }
        acc = acc * shape[d] + index[d];
    }
    proof {
        assert(index@.take(shape@.len() as int) =~= index@);
        assert(shape@.take(shape@.len() as int) =~= shape@);
    }
    acc
}

/// The lane of `input` through `index` along `axis`: the elements at `index`
/// with its `axis` coordinate replaced by `0, 1, …, shape[axis] - 1`.
pub open spec fn lane_of<T>(input: TensorView<T>, index: Seq<usize>, axis: int) -> Seq<T> {
    Seq::new(input.shape[axis] as nat, |k: int| input.at(index.update(axis, k as usize)))
}

/// The keep-dim output shape: `shape` with extent one at `axis`.
pub open spec fn kept_shape(shape: Seq<usize>, axis: int) -> Seq<usize> {
    shape.update(axis, 1)
}

/// An owned copy of a shape.
pub fn copy_extents(shape: &[usize]) -> (r: Vec<usize>)
    ensures
        r@ == shape@,
{
    let mut r: Vec<usize> = Vec::new();
    for q in 0..shape.len()
        invariant
            r@ == shape@.take(q as int),
    {
        assert(shape@.take(q + 1) =~= r@.push(shape@[q as int]));
        r.push(shape[q]);
    }
    assert(shape@.take(shape@.len() as int) =~= shape@);
    r
}

/// Whether two shapes are equal, extent by extent.
pub fn same_shape(a: &[usize], b: &[usize]) -> (r: bool)
    ensures
        r == (a@ == b@),
{
    if a.len() != b.len() {
        return false;
    }
    for d in 0..a.len()
        invariant
            a@.len() == b@.len(),
            a@.take(d as int) == b@.take(d as int),
    {
        if a[d] != b[d] {
            assert(a@[d as int] != b@[d as int]);
            return false;
        }
        assert(a@.take(d + 1) =~= a@.take(d as int).push(a@[d as int]));
        assert(b@.take(d + 1) =~= b@.take(d as int).push(b@[d as int]));
    }
    assert(a@.take(a@.len() as int) =~= a@);
    assert(b@.take(b@.len() as int) =~= b@);
    true
}

/// A dense row-major array: the element at an in-bounds `index` is stored at
/// position `flat_of(index, shape)` of the data.
#[derive(Clone, Debug, PartialEq)]
pub struct Tensor<T> {
    shape: Vec<usize>,
    data: Vec<T>,
}

/// The mathematical content of a [`Tensor`].
pub struct TensorView<T> {
    pub shape: Seq<usize>,
    pub data: Seq<T>,
}

impl<T> TensorView<T> {
    /// The data holds exactly one element per index of the shape.
    pub open spec fn wf(self) -> bool {
        self.data.len() == size(self.shape)
    }

    /// The element at `index`.
    pub open spec fn at(self, index: Seq<usize>) -> T {
        self.data[flat_of(index, self.shape)]
    }
}

impl<T> View for Tensor<T> {
    type V = TensorView<T>;

    closed spec fn view(&self) -> TensorView<T> {
        TensorView { shape: self.shape@, data: self.data@ }
    }
}

impl<T> Tensor<T> {
    /// An array of `shape` over row-major `data`.
    ///
    /// Fails with `ShapeMismatch { lhs: shape, rhs: [data.len()] }` when the
    /// data does not hold exactly one element per index.
    pub fn from_shape_vec(shape: Vec<usize>, data: Vec<T>) -> (r: Result<Self, LetoError>)
        ensures
            data@.len() == size(shape@) ==> r is Ok && r->Ok_0@ == (TensorView { shape: shape@, data: data@ }),
            data@.len() != size(shape@) ==> (r matches Err(LetoError::ShapeMismatch { lhs, rhs }) && lhs@
                == shape@ && rhs@ == seq![data@.len() as usize]),
    {
        match checked_size(&shape) {
            Some(count) => {
                if count == data.len() {
                    return Ok(Tensor { shape, data });
                }
            },
            None => {},
        }
        let len = data.len();
        Err(LetoError::ShapeMismatch { lhs: shape, rhs: extent(len) })
    }

    /// An array over data already known to match its shape.
    pub(crate) fn from_valid(shape: Vec<usize>, data: Vec<T>) -> (r: Self)
        requires
            data@.len() == size(shape@),
        ensures
            r@ == (TensorView { shape: shape@, data: data@ }),
    {
        Tensor { shape, data }
    }

    /// The extents, one per axis.
    pub fn shape(&self) -> (r: &[usize])
        ensures
            r@ == self@.shape,
    {
        self.shape.as_slice()
    }

    /// The elements in row-major order.
    pub fn data(&self) -> (r: &[T])
        ensures
            r@ == self@.data,
    {
        self.data.as_slice()
    }

    /// Overwrites the element at row-major position `p`.
    pub(crate) fn set_flat(&mut self, p: usize, value: T)
        requires
            p < old(self)@.data.len(),
        ensures
            final(self)@ == (TensorView { data: old(self)@.data.update(p as int, value), ..old(self)@ }),
    {
        self.data.set(p, value);
    }

    /// Moves the elements out, leaving none.
    pub(crate) fn take_data(&mut self) -> (r: Vec<T>)
        ensures
            r@ == old(self)@.data,
            final(self)@ == (TensorView { data: Seq::<T>::empty(), ..old(self)@ }),
    {
        let mut taken: Vec<T> = Vec::new();
        std::mem::swap(&mut self.data, &mut taken);
        taken
    }

    /// Moves `data` in as the elements.
    pub(crate) fn put_data(&mut self, data: Vec<T>)
        ensures
            final(self)@ == (TensorView { data: data@, ..old(self)@ }),
    {
        self.data = data;
    }

    /// Consumes the array, returning its row-major elements.
    pub fn into_data(self) -> (r: Vec<T>)
        ensures
            r@ == self@.data,
    {
        self.data
    }
}

impl<T: Copy> Tensor<T> {
    /// An array of `shape` with every element `value`.
    ///
    /// Fails with `StorageError { reason: ExtentOverflow }` when the element
    /// count exceeds `usize::MAX`.
    pub fn from_elem(shape: Vec<usize>, value: T) -> (r: Result<Self, LetoError>)
        ensures
            size(shape@) <= usize::MAX ==> r is Ok && r->Ok_0@.wf() && r->Ok_0@.shape == shape@ && forall|p: int|
                0 <= p < r->Ok_0@.data.len() ==> #[trigger] r->Ok_0@.data[p] == value,
            size(shape@) > usize::MAX ==> r == Err::<Self, LetoError>(
                LetoError::StorageError { reason: StorageFault::ExtentOverflow },
            ),
    {
        match checked_size(&shape) {
            Some(count) => {
                let mut data: Vec<T> = Vec::with_capacity(count);
                for p in 0..count
                    invariant
                        data.len() == p,
                        forall|q: int| 0 <= q < p ==> #[trigger] data@[q] == value,
                {
                    data.push(value);
                }
                Ok(Tensor { shape, data })
            },
            None => Err(LetoError::StorageError { reason: StorageFault::ExtentOverflow }),
        }
    }
}

} // verus!
