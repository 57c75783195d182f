//! Cache geometry discovery for cache-aware kernel policy.
use vstd::prelude::*;

verus! {

/// Conservative L1 data-cache byte count used when topology detection is unavailable.
pub const FALLBACK_L1_BYTES: usize = 32 * 1024;

/// Conservative L2 data-cache byte count used when topology detection is unavailable.
pub const FALLBACK_L2_BYTES: usize = 256 * 1024;

/// Mid-range shared last-level-cache byte count (8 MiB) used when topology
/// detection is unavailable.
pub const FALLBACK_L3_BYTES: usize = 8 * 1024 * 1024;

/// Cache-line byte count used when no cache level reports a line width: the
/// narrowest line of current mainstream targets.
pub const FALLBACK_CACHE_LINE_BYTES: usize = 64;

/// One reported level of the cache hierarchy, as plain values.
#[derive(Clone, Copy, Debug, PartialEq, Eq, Structural)]
pub struct CacheLevel {
    /// Cache level (1 for L1, ...).
    pub level: u32,
    /// Cache size in bytes.
    pub size_bytes: usize,
    /// Cache-line size in bytes when the platform reports it.
    pub line_bytes: Option<usize>,
}

/// The mathematical content of a [`CacheGeometry`].
pub struct GeometryView {
    pub l1_bytes: usize,
    pub l2_bytes: usize,
    pub l3_bytes: usize,
    pub cache_line_bytes: usize,
}

/// CPU cache geometry used to derive cache-aware kernel tile shapes.
#[derive(Clone, Copy, Debug, Eq, PartialEq, Structural)]
pub struct CacheGeometry {
    l1_bytes: usize,
    l2_bytes: usize,
    l3_bytes: usize,
    cache_line_bytes: usize,
}

impl View for CacheGeometry {
    type V = GeometryView;

    closed spec fn view(&self) -> GeometryView {
        GeometryView {
            l1_bytes: self.l1_bytes,
            l2_bytes: self.l2_bytes,
            l3_bytes: self.l3_bytes,
            cache_line_bytes: self.cache_line_bytes,
        }
    }
}

/// The fallback geometry.
pub open spec fn fallback_view() -> GeometryView {
    GeometryView {
        l1_bytes: FALLBACK_L1_BYTES,
        l2_bytes: FALLBACK_L2_BYTES,
        l3_bytes: FALLBACK_L3_BYTES,
        cache_line_bytes: FALLBACK_CACHE_LINE_BYTES,
    }
}

/// Every capacity and the line width are positive.
pub open spec fn geometry_positive(g: GeometryView) -> bool {
    g.l1_bytes > 0 && g.l2_bytes > 0 && g.l3_bytes > 0 && g.cache_line_bytes > 0
}

/// The smallest positive capacity reported for `level` among the first `n`
/// levels, if any.
pub open spec fn smallest_at(levels: Seq<CacheLevel>, level: u32, n: int) -> Option<usize>
    decreases n,
{
    if n <= 0 {
        None
    } else {
        let prev = smallest_at(levels, level, n - 1);
        let l = levels[n - 1];
        if l.level == level && l.size_bytes > 0 {
            match prev {
                None => Some(l.size_bytes),
                Some(s) => Some(if l.size_bytes < s { l.size_bytes } else { s }),
            }
        } else {
            prev
        }
    }
}

/// The widest positive line width reported among the first `n` levels, if any.
pub open spec fn widest_line(levels: Seq<CacheLevel>, n: int) -> Option<usize>
    decreases n,
{
    if n <= 0 {
        None
    } else {
        let prev = widest_line(levels, n - 1);
        match levels[n - 1].line_bytes {
            Some(line) => if line > 0 {
                match prev {
                    None => Some(line),
                    Some(w) => Some(if line > w { line } else { w }),
                }
            } else {
                prev
            },
            None => prev,
        }
    }
}

/// `value` when reported, `fallback` otherwise.
pub open spec fn or_fallback(value: Option<usize>, fallback: usize) -> usize {
    match value {
        Some(v) => v,
        None => fallback,
    }
}

/// The geometry a cache report describes: per level the smallest reported
/// capacity, the widest reported line, fallbacks for what is not reported.
pub open spec fn geometry_of(levels: Seq<CacheLevel>) -> GeometryView {
    GeometryView {
        l1_bytes: or_fallback(smallest_at(levels, 1, levels.len() as int), FALLBACK_L1_BYTES),
        l2_bytes: or_fallback(smallest_at(levels, 2, levels.len() as int), FALLBACK_L2_BYTES),
        l3_bytes: or_fallback(smallest_at(levels, 3, levels.len() as int), FALLBACK_L3_BYTES),
        cache_line_bytes: or_fallback(widest_line(levels, levels.len() as int), FALLBACK_CACHE_LINE_BYTES),
    }
}

proof fn lemma_reported_positive(levels: Seq<CacheLevel>, level: u32, n: int)
    requires
        0 <= n <= levels.len(),
    ensures
        smallest_at(levels, level, n) matches Some(s) ==> s > 0,
        widest_line(levels, n) matches Some(w) ==> w > 0,
    decreases n,
{
    if n > 0 {
        lemma_reported_positive(levels, level, n - 1);
    }
}

impl CacheGeometry {
    /// Returns conservative fallback geometry with no runtime topology query.
    pub fn fallback() -> (r: Self)
        ensures
            r@ == fallback_view(),
    {
        CacheGeometry {
            l1_bytes: FALLBACK_L1_BYTES,
            l2_bytes: FALLBACK_L2_BYTES,
            l3_bytes: FALLBACK_L3_BYTES,
            cache_line_bytes: FALLBACK_CACHE_LINE_BYTES,
        }
    }

    /// Returns fallback capacities with an explicitly known cache-line width;
    /// `None` for a zero width.
    pub fn with_cache_line_bytes(cache_line_bytes: usize) -> (r: Option<Self>)
        ensures
            cache_line_bytes == 0 ==> r is None,
            cache_line_bytes != 0 ==> r is Some && r->Some_0@ == (GeometryView {
                cache_line_bytes,
                ..fallback_view()
            }),
    {
        if cache_line_bytes == 0 {
            return None;
        }
        let fallback = Self::fallback();
        Some(CacheGeometry { cache_line_bytes, ..fallback })
    }

    /// Returns the geometry of the current machine as `themis` reports it.
    pub fn detect() -> (r: Self)
        ensures
            exists|levels: Seq<CacheLevel>| #[trigger] geometry_of(levels) == r@,
            geometry_positive(r@),
    {
        detect_cache_geometry()
    }

    /// L1 data-cache capacity in bytes.
    pub fn l1_bytes(self) -> (r: usize)
        ensures
            r == self@.l1_bytes,
    {
        self.l1_bytes
    }

    /// L2 cache capacity in bytes.
    pub fn l2_bytes(self) -> (r: usize)
        ensures
            r == self@.l2_bytes,
    {
        self.l2_bytes
    }

    /// Shared last-level (L3) cache capacity in bytes.
    pub fn l3_bytes(self) -> (r: usize)
        ensures
            r == self@.l3_bytes,
    {
        self.l3_bytes
    }

    /// Cache-line width in bytes.
    pub fn cache_line_bytes(self) -> (r: usize)
        ensures
            r == self@.cache_line_bytes,
    {
        self.cache_line_bytes
    }
}

/// The geometry of a cache report: per level 1–3 the smallest reported
/// positive capacity (a task does not choose its core, so a tile must fit the
/// smallest cache), the widest reported positive line width, and fallbacks
/// for anything not reported. Levels other than 1–3 only contribute a line
/// width.
pub fn geometry_from_cache_levels(levels: &[CacheLevel]) -> (r: CacheGeometry)
    ensures
        r@ == geometry_of(levels@),
        geometry_positive(r@),
{
    let mut reported: [Option<usize>; 3] = [None, None, None];
    let mut reported_line_bytes: Option<usize> = None;
    let n = levels.len();
    for q in 0..n
        invariant
            n == levels@.len(),
            reported@[0] == smallest_at(levels@, 1, q as int),
            reported@[1] == smallest_at(levels@, 2, q as int),
            reported@[2] == smallest_at(levels@, 3, q as int),
            reported_line_bytes == widest_line(levels@, q as int),
    {
        let level = levels[q];
        if level.level >= 1 && level.level <= 3 && level.size_bytes > 0 {
            let index = (level.level - 1) as usize;
            let current = reported[index];
            let updated = match current {
                None => level.size_bytes,
                Some(smallest) => if level.size_bytes < smallest {
                    level.size_bytes
                } else {
                    smallest
                },
            };
            reported[index] = Some(updated);
        }
        match level.line_bytes {
            Some(line) => {
                if line > 0 {
                    reported_line_bytes = match reported_line_bytes {
                        None => Some(line),
                        Some(widest) => Some(if line > widest { line } else { widest }),
                    };
                }
            },
            None => {},
        }
    }
    let mut geometry = CacheGeometry::fallback();
    if let Some(l1) = reported[0] {
        geometry.l1_bytes = l1;
    }
    if let Some(l2) = reported[1] {
        geometry.l2_bytes = l2;
    }
    if let Some(l3) = reported[2] {
        geometry.l3_bytes = l3;
    }
    geometry.cache_line_bytes = match reported_line_bytes {
        Some(line) => line,
        None => FALLBACK_CACHE_LINE_BYTES,
    };
    proof {
        lemma_reported_positive(levels@, 1, n as int);
        lemma_reported_positive(levels@, 2, n as int);
        lemma_reported_positive(levels@, 3, n as int);
    }
    geometry
}

/// Returns the detected cache geometry (`themis` topology, fallbacks for
/// what the platform does not report).
pub fn detect_cache_geometry() -> (r: CacheGeometry)
    ensures
        exists|levels: Seq<CacheLevel>| #[trigger] geometry_of(levels) == r@,
        geometry_positive(r@),
{
    match detect_topology() {
        None => {
            let r = CacheGeometry::fallback();
            proof {
                assert(geometry_of(Seq::<CacheLevel>::empty()) == r@);
            }
            r
        },
        Some(topology) => {
            match reported_cache_levels(&topology) {
                Some(levels) => geometry_from_cache_levels(levels.as_slice()),
                None => {
                    let empty: Vec<CacheLevel> = Vec::new();
                    geometry_from_cache_levels(empty.as_slice())
                },
            }
        },
    }
}

/// Returns the active cache geometry policy (re-detects on every call).
pub fn cache_geometry() -> (r: CacheGeometry)
    ensures
        exists|levels: Seq<CacheLevel>| #[trigger] geometry_of(levels) == r@,
        geometry_positive(r@),
{
    CacheGeometry::detect()
}

#[verifier::external_type_specification]
#[verifier::external_body]
pub struct ExCpuTopology(themis::CpuTopology);

/// Calls `themis::CpuTopology::detect`, which reads the platform's CPU
/// topology. The result depends on the machine; nothing is claimed about it.
#[verifier::external_body]
fn detect_topology() -> Option<themis::CpuTopology> {
    themis::CpuTopology::detect()
}

/// Calls `themis::CpuTopology::cache_levels` and converts each reported
/// level to a [`CacheLevel`] (level, size, line width). The report depends on
/// the machine; nothing is claimed about it.
#[verifier::external_body]
fn reported_cache_levels(topology: &themis::CpuTopology) -> Option<Vec<CacheLevel>> {
    topology.cache_levels().map(
        |levels| {
            levels.iter().map(
                |l| CacheLevel { level: l.level, size_bytes: l.size_bytes, line_bytes: l.line_bytes },
            ).collect()
        },
    )
}

/// The row blocks of the existing matmul kernel specializations.
pub open spec fn supported_row_block(r: usize) -> bool {
    r == 1 || r == 2 || r == 4 || r == 8 || r == 16 || r == 32
}

/// Bytes of one output row: `cols * max(element_bytes, 1)`, saturating.
pub open spec fn row_bytes_of(element_bytes: usize, cols: usize) -> int {
    let eb = if element_bytes > 1 { element_bytes as int } else { 1 };
    if cols * eb > usize::MAX { usize::MAX as int } else { cols * eb }
}

/// Rows of `row_bytes` bytes fitting one quarter of `l2`, clamped to `[1, 32]`.
pub open spec fn row_capacity(l2: usize, row_bytes: int) -> int {
    let raw = (l2 / 4) as int / row_bytes;
    if raw < 1 { 1 } else if raw > 32 { 32 } else { raw }
}

/// `r` is the row block selected for rows of `cols` elements of
/// `element_bytes` bytes under an L2 capacity of `l2_bytes`: 1 for empty
/// rows, else the largest supported block not above the number of rows
/// fitting a quarter of L2 (clamped to `[1, 32]`).
pub open spec fn picks_row_block(l2_bytes: usize, element_bytes: usize, cols: usize, r: usize) -> bool {
    let row_bytes = row_bytes_of(element_bytes, cols);
    &&& supported_row_block(r)
    &&& row_bytes == 0 ==> r == 1
    &&& row_bytes > 0 ==> r <= row_capacity(l2_bytes, row_bytes) < 2 * r
    &&& r == 1 || r * row_bytes <= l2_bytes / 4
}

/// Selects the row-block shape for the existing matmul kernel family.
#[derive(Clone, Copy, Debug, Eq, PartialEq, Structural)]
pub struct MatmulTilePolicy {
    row_block: usize,
}

impl View for MatmulTilePolicy {
    type V = usize;

    closed spec fn view(&self) -> usize {
        self.row_block
    }
}

impl MatmulTilePolicy {
    /// Construct an explicit row-block policy; only the existing power-of-two
    /// kernel specializations are accepted.
    pub fn fixed(row_block: usize) -> (r: Option<Self>)
        ensures
            supported_row_block(row_block) ==> r is Some && r->Some_0@ == row_block,
            !supported_row_block(row_block) ==> r is None,
    {
        if row_block == 1 || row_block == 2 || row_block == 4 || row_block == 8 || row_block == 16
            || row_block == 32 {
            Some(MatmulTilePolicy { row_block })
        } else {
            None
        }
    }

    /// Select the automatic policy: what [`Self::for_geometry`] selects for
    /// the detected cache geometry.
    pub fn automatic(element_bytes: usize, cols: usize) -> (r: Self)
        ensures
            exists|levels: Seq<CacheLevel>|
                picks_row_block(#[trigger] geometry_of(levels).l2_bytes, element_bytes, cols, r@),
            supported_row_block(r@),
            row_bytes_of(element_bytes, cols) == 0 ==> r@ == 1,
    {
        let geometry = CacheGeometry::detect();
        let ghost levels = choose|levels: Seq<CacheLevel>| #[trigger] geometry_of(levels) == geometry@;
        let r = Self::for_geometry(geometry, element_bytes, cols);
        assert(picks_row_block(geometry_of(levels).l2_bytes, element_bytes, cols, r@));
        r
    }

    /// Select a conservative row block for `cols` output columns: the largest
    /// power of two not above the number of output rows fitting a quarter of
    /// L2, clamped to `[1, 32]` (1 for empty rows).
    pub fn for_geometry(geometry: CacheGeometry, element_bytes: usize, cols: usize) -> (r: Self)
        ensures
            picks_row_block(geometry@.l2_bytes, element_bytes, cols, r@),
    {
        let eb = if element_bytes > 1 {
            element_bytes
        } else {
            1
        };
        let row_bytes = if cols == 0 {
            0
        } else if eb > usize::MAX / cols {
            proof {
                assert(cols * eb > usize::MAX) by (nonlinear_arith)
                    requires
                        cols != 0,
                        eb > usize::MAX / cols,
                ;
            }
            usize::MAX
        } else {
            proof {
                assert(cols * eb <= usize::MAX) by (nonlinear_arith)
                    requires
                        cols != 0,
                        eb <= usize::MAX / cols,
                ;
            }
            cols * eb
        };
        if row_bytes == 0 {
            return MatmulTilePolicy { row_block: 1 };
        }
        let budget = geometry.l2_bytes / 4;
        let raw = budget / row_bytes;
        let capacity = if raw < 1 {
            1
        } else if raw > 32 {
            32
        } else {
            raw
        };
        let mut row_block: usize = 1;
        while row_block * 2 <= capacity
            invariant
                1 <= capacity <= 32,
                supported_row_block(row_block),
                row_block <= capacity,
            decreases capacity - row_block,
        {
            row_block = row_block * 2;
        }
        proof {
            if raw >= 1 {
                assert(row_block * row_bytes <= budget) by (nonlinear_arith)
                    requires
                        row_block <= raw,
                        raw == budget / row_bytes,
                        row_bytes > 0,
                ;
            }
        }
        MatmulTilePolicy { row_block }
    }

    /// Number of output rows processed by one kernel block.
    pub fn row_block(self) -> (r: usize)
        ensures
            r == self@,
    {
        self.row_block
    }
}

} // verus!
