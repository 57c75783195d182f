//! Sliding-window geometry shared by pooling and by unfold/fold.
//!
//! Window operations read arrays of shape `[batch, channel, spatial...]`.
//! Along spatial axis `a`, output position `o` and kernel tap `k` read the
//! input coordinate `o * stride[a] + k * dilation[a] - padding[a]`; a tap
//! whose coordinate falls before zero or past the extent lies in the padding
//! and reads nothing. An axis of extent `n` has
//! `(n + 2 * padding - span) / stride + 1` output positions, where
//! `span = dilation * (kernel - 1) + 1` is the extent the dilated kernel
//! covers.
use vstd::prelude::*;
use crate::domain::error::{InputFault, LetoError, OverflowFault};
use super::tensor::{checked_size, in_bounds, index_from_flat, lemma_unflat_len, size, unflat};

verus! {

/// Kernel, stride, padding and dilation of a sliding window, one entry per
/// spatial axis.
#[derive(Clone, Debug)]
pub struct WindowParameters {
    kernel: Vec<usize>,
    stride: Vec<usize>,
    padding: Vec<usize>,
    dilation: Vec<usize>,
}

/// The mathematical content of [`WindowParameters`].
pub struct WindowShape {
    pub kernel: Seq<usize>,
    pub stride: Seq<usize>,
    pub padding: Seq<usize>,
    pub dilation: Seq<usize>,
}

impl WindowShape {
    /// The number of spatial axes.
    pub open spec fn rank(self) -> nat {
        self.kernel.len()
    }

    /// One entry per axis in each array, and no zero kernel, stride or
    /// dilation entry.
    pub open spec fn wf(self) -> bool {
        &&& self.stride.len() == self.kernel.len()
        &&& self.padding.len() == self.kernel.len()
        &&& self.dilation.len() == self.kernel.len()
        &&& forall|a: int|
            #![trigger self.kernel[a]]
            #![trigger self.stride[a]]
            #![trigger self.dilation[a]]
            0 <= a < self.kernel.len() ==> self.kernel[a] > 0 && self.stride[a] > 0 && self.dilation[a] > 0
    }

    /// The extent covered by the dilated kernel along axis `a`.
    pub open spec fn span(self, a: int) -> int {
        self.dilation[a] * (self.kernel[a] - 1) + 1
    }

    /// An input extent `n` along axis `a` with the padding on both sides.
    pub open spec fn padded(self, n: int, a: int) -> int {
        n + 2 * self.padding[a]
    }

    /// What rejects an input extent `n` along axis `a`: a padded extent or
    /// span past `usize::MAX`, or a padded extent shorter than the span.
    pub open spec fn axis_fault(self, n: usize, a: int) -> Option<LetoError> {
        if self.padded(n as int, a) > usize::MAX || self.span(a) > usize::MAX {
            Some(LetoError::Overflow { reason: OverflowFault::WindowExtent })
        } else if self.padded(n as int, a) < self.span(a) {
            Some(LetoError::InvalidInput { reason: InputFault::WindowExtent })
        } else {
            None
        }
    }

    /// The fault of the first of the first `n` axes of `spatial` that has one.
    pub open spec fn extent_fault(self, spatial: Seq<usize>, n: nat) -> Option<LetoError>
        decreases n,
    {
        if n == 0 {
            None
        } else {
            match self.extent_fault(spatial, (n - 1) as nat) {
                Some(e) => Some(e),
                None => self.axis_fault(spatial[n - 1], n - 1),
            }
        }
    }

    /// Once an axis is rejected, the first fault stays the same over more axes.
    pub proof fn lemma_extent_fault_sticks(self, spatial: Seq<usize>, m: nat, n: nat)
        requires
            m <= n,
            self.extent_fault(spatial, m) is Some,
        ensures
            self.extent_fault(spatial, n) == self.extent_fault(spatial, m),
        decreases n - m,
    {
        if m < n {
            self.lemma_extent_fault_sticks(spatial, m, (n - 1) as nat);
        }
    }

    /// The number of output positions along axis `a` for input extent `n`.
    pub open spec fn out_extent(self, n: usize, a: int) -> int {
        (self.padded(n as int, a) - self.span(a)) / (self.stride[a] as int) + 1
    }

    /// The output extents for the input extents `spatial`.
    pub open spec fn output_spatial(self, spatial: Seq<usize>) -> Seq<usize> {
        Seq::new(spatial.len(), |a: int| self.out_extent(spatial[a], a) as usize)
    }

    /// The input coordinate that output position `o` reads through kernel tap
    /// `k` along axis `a`.
    pub open spec fn tap(self, o: usize, k: usize, a: int) -> int {
        o * self.stride[a] + k * self.dilation[a] - self.padding[a]
    }

    /// Output position `o` reads a coordinate below `n` through tap `k` along
    /// axis `a`: the products and their sum fit in `usize`, the sum reaches
    /// past the padding, and what remains is below `n`.
    pub open spec fn tap_ok(self, o: usize, k: usize, n: usize, a: int) -> bool {
        let s = o * self.stride[a];
        let t = k * self.dilation[a];
        &&& s <= usize::MAX
        &&& t <= usize::MAX
        &&& s + t <= usize::MAX
        &&& s + t >= self.padding[a]
        &&& s + t - self.padding[a] < n
    }

    /// The input spatial coordinates that output position `os` reads through
    /// the kernel taps `ks`, or `None` when one of them lies in the padding.
    pub open spec fn window_point(self, spatial: Seq<usize>, os: Seq<usize>, ks: Seq<usize>) -> Option<
        Seq<usize>,
    > {
        if forall|a: int| 0 <= a < self.rank() ==> #[trigger] self.tap_ok(os[a], ks[a], spatial[a], a) {
            Some(Seq::new(self.rank(), |a: int| self.tap(os[a], ks[a], a) as usize))
        } else {
            None
        }
    }
}

/// The batch, channel and spatial coordinates joined into one index.
pub open spec fn joined(batch: usize, channel: usize, spatial: Seq<usize>) -> Seq<usize> {
    seq![batch, channel] + spatial
}

/// The index of an array of `shape` that the index `oi` of a window output
/// reads through the kernel position of row-major number `kf`, or `None`
/// when that tap lies in the padding. Only the batch, channel and spatial
/// output coordinates of `oi` matter.
pub open spec fn window_source(shape: Seq<usize>, w: WindowShape, oi: Seq<usize>, kf: nat) -> Option<Seq<usize>> {
    match w.window_point(shape.skip(2), oi.skip(2), unflat(kf, w.kernel)) {
        Some(sp) => Some(joined(oi[0], oi[1], sp)),
        None => None,
    }
}

/// What rejects `shape` as the `[batch, channel, spatial...]` array of a
/// window operation: a window without axes or a rank other than the window
/// rank plus two, then the first rejected spatial extent, then a count of
/// window positions or of kernel taps past `usize::MAX`.
pub open spec fn geometry_fault(shape: Seq<usize>, w: WindowShape) -> Option<LetoError> {
    if w.rank() == 0 || shape.len() != w.rank() + 2 {
        Some(LetoError::InvalidInput { reason: InputFault::WindowRank })
    } else if w.extent_fault(shape.skip(2), w.rank()) is Some {
        w.extent_fault(shape.skip(2), w.rank())
    } else if size(w.output_spatial(shape.skip(2))) > usize::MAX {
        Some(LetoError::Overflow { reason: OverflowFault::OutputLocations })
    } else if size(w.kernel) > usize::MAX {
        Some(LetoError::Overflow { reason: OverflowFault::KernelVolume })
    } else {
        None
    }
}

/// The shape of a pooled array: batch and channel extents kept, spatial
/// extents replaced by the output extents.
pub open spec fn pooled_shape(shape: Seq<usize>, w: WindowShape) -> Seq<usize> {
    joined(shape[0], shape[1], w.output_spatial(shape.skip(2)))
}

impl View for WindowParameters {
    type V = WindowShape;

    closed spec fn view(&self) -> WindowShape {
        WindowShape {
            kernel: self.kernel@,
            stride: self.stride@,
            padding: self.padding@,
            dilation: self.dilation@,
        }
    }
}

impl WindowParameters {
    /// Window parameters from per-axis kernel extents, strides, paddings and
    /// dilations.
    ///
    /// Fails with `InvalidInput { reason: WindowParameter }` when the four
    /// arrays differ in length or a kernel, stride or dilation entry is zero.
    pub fn new(kernel: Vec<usize>, stride: Vec<usize>, padding: Vec<usize>, dilation: Vec<usize>) -> (r: Result<
        Self,
        LetoError,
    >)
        ensures
            (WindowShape { kernel: kernel@, stride: stride@, padding: padding@, dilation: dilation@ }).wf() ==> r
                is Ok && r->Ok_0@ == (WindowShape {
                kernel: kernel@,
                stride: stride@,
                padding: padding@,
                dilation: dilation@,
            }),
            !(WindowShape { kernel: kernel@, stride: stride@, padding: padding@, dilation: dilation@ }).wf() ==> r
                == Err::<Self, LetoError>(LetoError::InvalidInput { reason: InputFault::WindowParameter }),
    {
        let ghost w = WindowShape { kernel: kernel@, stride: stride@, padding: padding@, dilation: dilation@ };
        let n = kernel.len();
        if stride.len() != n || padding.len() != n || dilation.len() != n {
            return Err(LetoError::InvalidInput { reason: InputFault::WindowParameter });
        }
        let mut a: usize = 0;
        while a < n
            invariant
                w == (WindowShape { kernel: kernel@, stride: stride@, padding: padding@, dilation: dilation@ }),
                n == kernel@.len(),
                stride@.len() == n,
                padding@.len() == n,
                dilation@.len() == n,
                a <= n,
                forall|e: int| 0 <= e < a ==> #[trigger] kernel@[e] > 0,
                forall|e: int| 0 <= e < a ==> #[trigger] stride@[e] > 0,
                forall|e: int| 0 <= e < a ==> #[trigger] dilation@[e] > 0,
            decreases n - a,
        {
            if kernel[a] == 0 || stride[a] == 0 || dilation[a] == 0 {
                assert(!w.wf()) by {
                    assert(!(w.kernel[a as int] > 0 && w.stride[a as int] > 0 && w.dilation[a as int] > 0));
                }
                return Err(LetoError::InvalidInput { reason: InputFault::WindowParameter });
            }
            a = a + 1;
        }
        assert(w.wf()) by {
            assert forall|e: int| 0 <= e < n implies #[trigger] w.kernel[e] > 0 && w.stride[e] > 0 && w.dilation[e]
                > 0 by {
                assert(kernel@[e] > 0 && stride@[e] > 0 && dilation@[e] > 0);
            }
        }
        Ok(WindowParameters { kernel, stride, padding, dilation })
    }

    /// The number of spatial axes.
    pub fn rank(&self) -> (r: usize)
        ensures
            r == self@.rank(),
    {
        self.kernel.len()
    }

    /// The kernel extent along each spatial axis.
    pub fn kernel(&self) -> (r: &[usize])
        ensures
            r@ == self@.kernel,
    {
        self.kernel.as_slice()
    }

    /// The step between consecutive output positions along each axis.
    pub fn stride(&self) -> (r: &[usize])
        ensures
            r@ == self@.stride,
    {
        self.stride.as_slice()
    }

    /// The implicit padding before and after each axis.
    pub fn padding(&self) -> (r: &[usize])
        ensures
            r@ == self@.padding,
    {
        self.padding.as_slice()
    }

    /// The step between consecutive kernel taps along each axis.
    pub fn dilation(&self) -> (r: &[usize])
        ensures
            r@ == self@.dilation,
    {
        self.dilation.as_slice()
    }

    /// The number of kernel taps, the product of the kernel extents.
    ///
    /// Fails with `Overflow { reason: KernelVolume }` when it exceeds
    /// `usize::MAX`.
    pub fn kernel_volume(&self) -> (r: Result<usize, LetoError>)
        ensures
            size(self@.kernel) <= usize::MAX ==> r == Ok::<usize, LetoError>(size(self@.kernel) as usize),
            size(self@.kernel) > usize::MAX ==> r == Err::<usize, LetoError>(
                LetoError::Overflow { reason: OverflowFault::KernelVolume },
            ),
    {
        match checked_size(&self.kernel) {
            Some(v) => Ok(v),
            None => Err(LetoError::Overflow { reason: OverflowFault::KernelVolume }),
        }
    }

    /// The output extents for the input extents `spatial`, one per axis.
    ///
    /// Fails at the first axis whose padded extent or span exceeds
    /// `usize::MAX` (`Overflow { reason: WindowExtent }`) or whose padded
    /// extent is shorter than the span (`InvalidInput { reason: WindowExtent }`).
    pub fn output_shape(&self, spatial: &[usize]) -> (r: Result<Vec<usize>, LetoError>)
        requires
            self@.wf(),
            spatial@.len() == self@.rank(),
        ensures
            self@.extent_fault(spatial@, self@.rank()) matches Some(e) ==> r == Err::<Vec<usize>, LetoError>(e),
            self@.extent_fault(spatial@, self@.rank()) is None ==> (r matches Ok(v) && v@ == self@.output_spatial(
                spatial@,
            )),
    {
        let ghost w = self@;
        let mut out: Vec<usize> = Vec::new();
        for a in 0..spatial.len()
            invariant
                w == self@,
                w.wf(),
                spatial@.len() == w.rank(),
                w.extent_fault(spatial@, a as nat) is None,
                out@ == w.output_spatial(spatial@).take(a as int),
        {
            let n = spatial[a];
            let s = self.stride[a];
            let k = self.kernel[a];
            let d = self.dilation[a];
            let p = self.padding[a];
            assert(w.extent_fault(spatial@, (a + 1) as nat) == w.axis_fault(spatial@[a as int], a as int));
            assert(k > 0 && s > 0 && d > 0) by {
                assert(w.kernel[a as int] > 0);
            }
            let padded = match p.checked_mul(2) {
                Some(twice) => match n.checked_add(twice) {
                    Some(v) => v,
                    None => {
                        proof {
                            w.lemma_extent_fault_sticks(spatial@, (a + 1) as nat, w.rank());
                        }
                        return Err(LetoError::Overflow { reason: OverflowFault::WindowExtent });
                    },
                },
                None => {
                    proof {
                        w.lemma_extent_fault_sticks(spatial@, (a + 1) as nat, w.rank());
                    }
                    return Err(LetoError::Overflow { reason: OverflowFault::WindowExtent });
                },
            };
            let span = match d.checked_mul(k - 1) {
                Some(v) => match v.checked_add(1) {
                    Some(x) => x,
                    None => {
                        proof {
                            w.lemma_extent_fault_sticks(spatial@, (a + 1) as nat, w.rank());
                        }
                        return Err(LetoError::Overflow { reason: OverflowFault::WindowExtent });
                    },
                },
                None => {
                    proof {
                        w.lemma_extent_fault_sticks(spatial@, (a + 1) as nat, w.rank());
                    }
                    return Err(LetoError::Overflow { reason: OverflowFault::WindowExtent });
                },
            };
            if padded < span {
                proof {
                    w.lemma_extent_fault_sticks(spatial@, (a + 1) as nat, w.rank());
                }
                return Err(LetoError::InvalidInput { reason: InputFault::WindowExtent });
            }
            let gap = padded - span;
            let q = gap / s;
            assert(q <= gap) by (nonlinear_arith)
                requires
                    q == gap / s,
                    s > 0,
            ;
            assert(out@.push((q + 1) as usize) =~= w.output_spatial(spatial@).take(a + 1));
            out.push(q + 1);
        }
        assert(out@ =~= w.output_spatial(spatial@));
        Ok(out)
    }
}

/// The spatial coordinates of an index, past the batch and channel axes.
pub fn spatial_part(index: &[usize]) -> (r: Vec<usize>)
    requires
        index@.len() >= 2,
    ensures
        r@ == index@.skip(2),
{
    let mut r: Vec<usize> = Vec::new();
    let mut d: usize = 2;
    while d < index.len()
        invariant
            2 <= d <= index@.len(),
            r@ == index@.subrange(2, d as int),
        decreases index@.len() - d,
    {
        assert(index@.subrange(2, d + 1) =~= r@.push(index@[d as int]));
        r.push(index[d]);
        d = d + 1;
    }
    assert(r@ =~= index@.skip(2));
    r
}

/// The index joining batch, channel and spatial coordinates.
pub fn tensor_index(batch: usize, channel: usize, spatial: &[usize]) -> (r: Vec<usize>)
    ensures
        r@ == joined(batch, channel, spatial@),
{
    let mut r: Vec<usize> = Vec::new();
    r.push(batch);
    r.push(channel);
    for d in 0..spatial.len()
        invariant
            r@ == joined(batch, channel, spatial@.take(d as int)),
    {
        assert(joined(batch, channel, spatial@.take(d + 1)) =~= r@.push(spatial@[d as int]));
        r.push(spatial[d]);
    }
    assert(spatial@.take(spatial@.len() as int) =~= spatial@);
    r
}

/// The input spatial coordinates that output position `os` reads through
/// kernel taps `ks`, or `None` when one of them lies in the padding or a
/// product on the way exceeds `usize::MAX`.
pub fn window_input_coordinate(
    parameters: &WindowParameters,
    os: &[usize],
    ks: &[usize],
    spatial: &[usize],
) -> (r: Option<Vec<usize>>)
    requires
        parameters@.wf(),
        os@.len() == parameters@.rank(),
        ks@.len() == parameters@.rank(),
        spatial@.len() == parameters@.rank(),
    ensures
        (r is Some) == (parameters@.window_point(spatial@, os@, ks@) is Some),
        r is Some ==> parameters@.window_point(spatial@, os@, ks@) == Some(r->Some_0@),
{
    let ghost w = parameters@;
    let mut input: Vec<usize> = Vec::new();
    for a in 0..spatial.len()
        invariant
            w == parameters@,
            w.wf(),
            os@.len() == w.rank(),
            ks@.len() == w.rank(),
            spatial@.len() == w.rank(),
            forall|e: int| 0 <= e < a ==> #[trigger] w.tap_ok(os@[e], ks@[e], spatial@[e], e),
            input@ == Seq::new(a as nat, |e: int| w.tap(os@[e], ks@[e], e) as usize),
    {
        let s = parameters.stride[a];
        let d = parameters.dilation[a];
        let p = parameters.padding[a];
        let traversed = match os[a].checked_mul(s) {
            Some(x) => match ks[a].checked_mul(d) {
                Some(y) => x.checked_add(y),
                None => None,
            },
            None => None,
        };
        let coordinate = match traversed {
            Some(t) => t.checked_sub(p),
            None => None,
        };
        match coordinate {
            Some(c) => {
                if c >= spatial[a] {
                    assert(!w.tap_ok(os@[a as int], ks@[a as int], spatial@[a as int], a as int));
                    return None;
                }
                assert(w.tap_ok(os@[a as int], ks@[a as int], spatial@[a as int], a as int));
                assert(input@.push(c) =~= Seq::new((a + 1) as nat, |e: int| w.tap(os@[e], ks@[e], e) as usize));
                input.push(c);
            },
            None => {
                assert(!w.tap_ok(os@[a as int], ks@[a as int], spatial@[a as int], a as int));
                return None;
            },
        }
    }
    Some(input)
}

/// The geometry of a window operation over a `[batch, channel, spatial...]`
/// array.
pub struct WindowGeometry {
    /// The input spatial extents.
    pub input_spatial: Vec<usize>,
    /// The output spatial extents.
    pub output_spatial: Vec<usize>,
    /// The number of kernel taps.
    pub kernel_volume: usize,
    /// The number of output positions per batch and channel.
    pub output_locations: usize,
}

impl WindowGeometry {
    /// The geometry holds what the window `w` gives for an array of `shape`.
    pub open spec fn describes(self, shape: Seq<usize>, w: WindowShape) -> bool {
        &&& self.input_spatial@ == shape.skip(2)
        &&& self.output_spatial@ == w.output_spatial(shape.skip(2))
        &&& self.kernel_volume == size(w.kernel)
        &&& self.output_locations == size(w.output_spatial(shape.skip(2)))
    }
}

/// The geometry of a window operation over an array of `shape`, or the
/// fault that rejects it (see [`geometry_fault`]).
pub fn geometry_from_shape(shape: &[usize], parameters: &WindowParameters) -> (r: Result<
    WindowGeometry,
    LetoError,
>)
    requires
        parameters@.wf(),
    ensures
        geometry_fault(shape@, parameters@) matches Some(e) ==> r == Err::<WindowGeometry, LetoError>(e),
        geometry_fault(shape@, parameters@) is None ==> (r matches Ok(g) && g.describes(shape@, parameters@)),
{
    let rank = parameters.rank();
    if rank == 0 || shape.len() < 2 || shape.len() - 2 != rank {
        return Err(LetoError::InvalidInput { reason: InputFault::WindowRank });
    }
    let input_spatial = spatial_part(shape);
    let output_spatial = parameters.output_shape(&input_spatial)?;
    let output_locations = match checked_size(&output_spatial) {
        Some(v) => v,
        None => {
            return Err(LetoError::Overflow { reason: OverflowFault::OutputLocations });
        },
    };
    let kernel_volume = parameters.kernel_volume()?;
    Ok(WindowGeometry { input_spatial, output_spatial, kernel_volume, output_locations })
}

/// A tap that reads an input element reads one inside the array.
pub proof fn lemma_source_in_bounds(shape: Seq<usize>, w: WindowShape, oi: Seq<usize>, kf: nat)
    requires
        w.wf(),
        shape.len() == w.rank() + 2,
        in_bounds(oi, pooled_shape(shape, w)),
        window_source(shape, w, oi, kf) is Some,
    ensures
        in_bounds(window_source(shape, w, oi, kf)->Some_0, shape),
{
    let spatial = shape.skip(2);
    let os = oi.skip(2);
    let ks = unflat(kf, w.kernel);
    let sp = w.window_point(spatial, os, ks)->Some_0;
    let ii = joined(oi[0], oi[1], sp);
    let ps = pooled_shape(shape, w);
    assert(oi[0] < ps[0] && oi[1] < ps[1]);
    assert forall|d: int| 0 <= d < shape.len() implies #[trigger] ii[d] < shape[d] by {
        if d >= 2 {
            let a = d - 2;
            assert(w.tap_ok(os[a], ks[a], spatial[a], a));
            assert(sp[a] == w.tap(os[a], ks[a], a) as usize);
        }
    }
}

/// The input index that output index `oi`, with spatial part `os`, reads
/// through the kernel position of row-major number `kf`, or `None` when that
/// tap lies in the padding.
pub fn tap_source(
    shape: &[usize],
    parameters: &WindowParameters,
    geometry: &WindowGeometry,
    oi: &[usize],
    os: &[usize],
    kf: usize,
) -> (r: Option<Vec<usize>>)
    requires
        parameters@.wf(),
        shape@.len() == parameters@.rank() + 2,
        geometry.describes(shape@, parameters@),
        in_bounds(oi@, pooled_shape(shape@, parameters@)),
        os@ == oi@.skip(2),
    ensures
        r matches Some(ii) ==> window_source(shape@, parameters@, oi@, kf as nat) == Some(ii@) && in_bounds(
            ii@,
            shape@,
        ),
        r is None ==> window_source(shape@, parameters@, oi@, kf as nat) is None,
{
    let ks = index_from_flat(kf, parameters.kernel());
    proof {
        let ps = pooled_shape(shape@, parameters@);
        assert(ps.len() == shape@.len());
        assert(os@.len() == parameters@.rank());
        lemma_unflat_len(kf as nat, parameters@.kernel);
    }
    match window_input_coordinate(parameters, os, &ks, &geometry.input_spatial) {
        Some(sp) => {
            let ii = tensor_index(oi[0], oi[1], &sp);
            proof {
                lemma_source_in_bounds(shape@, parameters@, oi@, kf as nat);
            }
            Some(ii)
        },
        None => None,
    }
}

/// The pooled shape `[batch, channel, output spatial...]` of an array of
/// `shape` under a geometry that describes it.
pub fn pooled_extents(shape: &[usize], geometry: &WindowGeometry) -> (r: Vec<usize>)
    requires
        shape@.len() >= 2,
    ensures
        r@ == joined(shape@[0], shape@[1], geometry.output_spatial@),
{
    tensor_index(shape[0], shape[1], &geometry.output_spatial)
}

} // verus!
