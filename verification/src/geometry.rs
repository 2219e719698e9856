//! Fixed-point geometry for trajectory coordinates.
//!
//! A coordinate component is an integer count of milli-units: the text
//! value `4.500` is held as `4500`.  Whether a contact is formed compares
//! the Euclidean distance `d` against `r * cutoff` with `r` and `cutoff`
//! in milli-units too; squaring both sides (`d^2 * 10^6 < (r * cutoff)^2`)
//! keeps the test exact and avoids any square root.

use vstd::prelude::*;

verus! {

/// Largest coordinate magnitude, in milli-units, the parser ever yields
/// (an eight-character text field cannot reach it).
pub const COORD_LIMIT: i64 = 100_000_000_000;

/// Upper bound on a squared distance between in-range coordinates:
/// `3 * (2 * COORD_LIMIT)^2`.
pub const DIST_SQ_LIMIT: u128 = 120_000_000_000_000_000_000_000;

/// Largest accepted native contact distance, in milli-units.
pub const DISTANCE_LIMIT: u64 = 1_000_000_000_000;

/// Largest accepted cutoff multiplier, in milli-units (a multiplier of
/// one thousand).
pub const CUTOFF_LIMIT: u64 = 1_000_000;

/// A three-component coordinate in milli-units.
#[derive(Clone, Copy, Debug, PartialEq, Eq, Structural)]
pub struct Coordinate {
    pub x: i64,
    pub y: i64,
    pub z: i64,
}

impl Coordinate {
    /// Every component is within the magnitude the parser can produce.
    pub open spec fn wf(self) -> bool {
        -COORD_LIMIT <= self.x <= COORD_LIMIT && -COORD_LIMIT <= self.y <= COORD_LIMIT
            && -COORD_LIMIT <= self.z <= COORD_LIMIT
    }

    pub fn new(x: i64, y: i64, z: i64) -> (r: Coordinate)
        ensures
            r == (Coordinate { x, y, z }),
    {
        Coordinate { x, y, z }
    }

    /// The squared Euclidean distance, exactly, in squared milli-units.
    pub open spec fn spec_dist_sq(self, other: Coordinate) -> int {
        (self.x - other.x) * (self.x - other.x) + (self.y - other.y) * (self.y - other.y) + (self.z
            - other.z) * (self.z - other.z)
    }

    /// Squared Euclidean distance to `other`.
    pub fn dist_sq(&self, other: &Coordinate) -> (r: u128)
        requires
            self.wf(),
            other.wf(),
        ensures
            r == self.spec_dist_sq(*other),
            r <= DIST_SQ_LIMIT,
    {
        let dx = self.x - other.x;
        let dy = self.y - other.y;
        let dz = self.z - other.z;
        proof {
            lemma_square_bound(dx as int, 2 * COORD_LIMIT as int);
            lemma_square_bound(dy as int, 2 * COORD_LIMIT as int);
            lemma_square_bound(dz as int, 2 * COORD_LIMIT as int);
        }
        let sq = (dx as i128) * (dx as i128) + (dy as i128) * (dy as i128) + (dz as i128) * (
        dz as i128);
        sq as u128
    }
}

/// `-b <= a <= b` bounds the square of `a` by the square of `b`, and
/// squares are never negative.
proof fn lemma_square_bound(a: int, b: int)
    by (nonlinear_arith)
    requires
        -b <= a <= b,
    ensures
        0 <= a * a <= b * b,
{
}

/// The exact formation test: squared distance strictly below the squared
/// threshold `r * cutoff`, everything in milli-units.
pub open spec fn spec_within_cutoff(dsq: int, r: u64, cutoff: u64) -> bool {
    dsq * 1_000_000 < (r * cutoff) * (r * cutoff)
}

/// Decides `d < r * cutoff` from the squared distance.
pub fn within_cutoff(dsq: u128, r: u64, cutoff: u64) -> (b: bool)
    requires
        dsq <= DIST_SQ_LIMIT,
        r <= DISTANCE_LIMIT,
        cutoff <= CUTOFF_LIMIT,
    ensures
        b == spec_within_cutoff(dsq as int, r, cutoff),
{
    proof {
        lemma_bounded_product(r as int, cutoff as int, DISTANCE_LIMIT as int, CUTOFF_LIMIT as int);
        lemma_bounded_product(
            (r as int) * (cutoff as int),
            (r as int) * (cutoff as int),
            DISTANCE_LIMIT as int * CUTOFF_LIMIT as int,
            DISTANCE_LIMIT as int * CUTOFF_LIMIT as int,
        );
    }
    let lhs = dsq * 1_000_000;
    let rc = (r as u128) * (cutoff as u128);
    let rhs = rc * rc;
    lhs < rhs
}

/// Products of bounded non-negative factors stay bounded.
proof fn lemma_bounded_product(a: int, b: int, ca: int, cb: int)
    by (nonlinear_arith)
    requires
        0 <= a <= ca,
        0 <= b <= cb,
    ensures
        0 <= a * b <= ca * cb,
{
}

/// Per-frame coordinates: residue id to CA coordinate, keys sorted.
pub type FrameData = Vec<(i32, Coordinate)>;

/// A frame table is well-formed when its keys are strictly sorted and
/// every coordinate is in range.
pub open spec fn frame_data_wf(s: Seq<(i32, Coordinate)>) -> bool {
    crate::pairmap::pairs_sorted(s) && forall|k: int|
        0 <= k < s.len() ==> ((#[trigger] s[k]).1).wf()
}

} // verus!
