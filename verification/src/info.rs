//! The illumination grid model: a two-dimensional grid of optional per-cell
//! overlay strengths, collected per depth level.
//!
//! A grid is a sequence of columns; each column's own length gives that
//! column's height, so columns may differ in height. A cell holds the alpha
//! of the black overlay to draw over its pixels, or `None` where the cell
//! is left untouched (no sample, a fully lit sample, or a negligible
//! overlay). Deriving these alphas from raw luminance samples is the
//! caller's step; the model itself holds plain 8-bit values.

use vstd::prelude::*;

verus! {

/// One grid of overlay strengths: column by column, bottom row first
/// within each column.
pub type ZLighting = Vec<Vec<Option<u8>>>;

/// Number of columns of a grid.
pub open spec fn grid_width(g: Seq<Vec<Option<u8>>>) -> int {
    g.len() as int
}

/// Height of column `gx` of a grid.
pub open spec fn col_height(g: Seq<Vec<Option<u8>>>, gx: int) -> int {
    g[gx]@.len() as int
}

/// The overlay strength of cell `(gx, gy)`.
pub open spec fn cell_alpha(g: Seq<Vec<Option<u8>>>, gx: int, gy: int) -> Option<u8> {
    g[gx]@[gy]
}

/// Whether `(gx, gy)` is a cell of the grid.
pub open spec fn is_cell(g: Seq<Vec<Option<u8>>>, gx: int, gy: int) -> bool {
    0 <= gx < grid_width(g) && 0 <= gy < col_height(g, gx)
}

/// Depth-ordered illumination grids: entry 0 is the ground ("no depth")
/// grid, and the grid for depth `d` sits at position `d + 1`.
#[derive(Clone)]
pub struct LightingInfo(pub Vec<ZLighting>);

impl LightingInfo {
    /// The grid for the requested depth: position `d + 1` for depth `d`,
    /// position 0 when no depth is requested; `None` when that position
    /// does not exist.
    pub fn get_info_for_z(&self, z: Option<u8>) -> (r: Option<&ZLighting>)
        ensures
            z matches Some(zv) ==> {
                if zv as int + 1 < self.0@.len() {
                    r matches Some(g) && *g == self.0@[zv as int + 1]
                } else {
                    r is None
                }
            },
            z is None ==> {
                if self.0@.len() > 0 {
                    r matches Some(g) && *g == self.0@[0]
                } else {
                    r is None
                }
            },
    {
        match z {
            Some(zv) => {
                let idx: usize = zv as usize + 1;
                if idx < self.0.len() {
                    Some(&self.0[idx])
                } else {
                    None
                }
            },
            None => {
                if self.0.len() > 0 {
                    Some(&self.0[0])
                } else {
                    None
                }
            },
        }
    }
}

/// Illumination grids keyed by an explicit integer depth, for data sources
/// that name their depths instead of ordering them.
pub struct DepthIndexedSet {
    pub entries: Vec<(u8, ZLighting)>,
}

impl DepthIndexedSet {
    /// Whether some entry carries depth key `k`.
    pub open spec fn has_key(self, k: u8) -> bool {
        exists|i: int| 0 <= i < self.entries@.len() && (#[trigger] self.entries@[i]).0 == k
    }

    /// Each depth key appears at most once.
    pub open spec fn wf(self) -> bool {
        forall|i: int, j: int|
            0 <= i < j < self.entries@.len() ==> (#[trigger] self.entries@[i]).0 != (
            #[trigger] self.entries@[j]).0
    }

    /// Wraps a list of keyed grids; refused exactly when two entries share
    /// a depth key.
    pub fn new(entries: Vec<(u8, ZLighting)>) -> (r: Option<Self>)
        ensures
            r matches Some(s) ==> s.wf() && s.entries@ == entries@,
            r is None ==> !(Self { entries }).wf(),
    {
        let n = entries.len();
        let mut i: usize = 0;
        while i < n
            invariant
                n == entries@.len(),
                i <= n,
                forall|p: int, q: int|
                    0 <= p < q < entries@.len() && p < i ==> (#[trigger] entries@[p]).0 != (
                    #[trigger] entries@[q]).0,
            decreases n - i,
        {
            let mut j: usize = i + 1;
            while j < n
                invariant
                    n == entries@.len(),
                    i < j <= n,
                    i < n,
                    forall|q: int| i < q < j ==> (#[trigger] entries@[q]).0 != entries@[i as int].0,
                decreases n - j,
            {
                if entries[i].0 == entries[j].0 {
                    proof {
                        let s = DepthIndexedSet { entries };
                        assert(0 <= (i as int) && (i as int) < (j as int) && (j as int)
                            < s.entries@.len());
                        assert((s.entries@[i as int]).0 == (s.entries@[j as int]).0);
                        assert(!s.wf());
                    }
                    return None;
                }
                j = j + 1;
            }
            i = i + 1;
        }
        Some(DepthIndexedSet { entries })
    }

    /// Resolves a requested depth to a grid.
    ///
    /// A set with exactly one grid answers with that grid whatever depth is
    /// asked for, including none: single-level data needs no key. Any other
    /// set answers a named depth with the grid at that key, `None` when the
    /// key is absent, and an unnamed request with `None`: with several
    /// grids and no key the request is ambiguous.
    pub fn select(&self, depth: Option<u8>) -> (r: Option<&ZLighting>)
        requires
            self.wf(),
        ensures
            self.entries@.len() == 1 ==> (r matches Some(g) && *g == self.entries@[0].1),
            self.entries@.len() != 1 && depth is None ==> r is None,
            self.entries@.len() != 1 ==> (depth matches Some(k) ==> {
                &&& (r is Some <==> self.has_key(k))
                &&& (r matches Some(g) ==> exists|i: int|
                    0 <= i < self.entries@.len() && (#[trigger] self.entries@[i]).0 == k
                        && *g == self.entries@[i].1)
            }),
    {
        if self.entries.len() == 1 {
            return Some(&self.entries[0].1);
        }
        match depth {
            None => None,
            Some(k) => {
                let n = self.entries.len();
                let mut i: usize = 0;
                while i < n
                    invariant
                        n == self.entries@.len(),
                        n != 1,
                        depth == Some(k),
                        i <= n,
                        forall|p: int|
                            0 <= p < i ==> (#[trigger] self.entries@[p]).0 != k,
                    decreases n - i,
                {
                    if self.entries[i].0 == k {
                        return Some(&self.entries[i].1);
                    }
                    i = i + 1;
                }
                None
            },
        }
    }
}

} // verus!
