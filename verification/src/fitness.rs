//! Cities, edge lengths and tour fitness. The library works in exact
//! integer arithmetic: coordinates are fixed-point integers (callers pick
//! the scale when they load real data), an edge's length is the floor of
//! the Euclidean distance, and a tour's fitness is the reciprocal of its
//! total edge length, carried as that length itself (the denominator).

use vstd::prelude::*;

verus! {

/// Coordinates are fixed-point integers; callers scale real inputs when
/// loading them. Bounding them keeps every edge computation inside `u64`.
pub const COORD_LIMIT: i64 = 1_000_000_000;

/// The engine never handles more cities than this; together with
/// `COORD_LIMIT` it keeps the total tour length inside `u64`.
pub const MAX_CITIES: usize = 1_000_000;

/// No edge between two in-range cities is longer than this.
pub const EDGE_MAX: u64 = 3_000_000_000;

/// A city: an immutable 2-D coordinate, identified by its position in
/// the loaded city list. Never mutated after load.
#[derive(Clone, Copy, PartialEq, Eq, Structural, Debug)]
pub struct City {
    pub x: i64,
    pub y: i64,
}

impl City {
    pub open spec fn valid(self) -> bool {
        &&& -COORD_LIMIT <= self.x <= COORD_LIMIT
        &&& -COORD_LIMIT <= self.y <= COORD_LIMIT
    }
}

pub open spec fn valid_cities(cities: Seq<City>) -> bool {
    forall|i: int| 0 <= i < cities.len() ==> #[trigger] cities[i].valid()
}

/// The fitness of a tour: the reciprocal of the tour's total edge
/// length. The library works in integers, so a fitness is carried as its
/// denominator: a smaller denominator is a higher fitness, and a zero
/// denominator stands for the degenerate highest fitness (fewer than two
/// cities, or every edge of length zero).
#[derive(Clone, Copy, PartialEq, Eq, Structural, Debug)]
pub struct Fitness {
    pub denom: u64,
}

impl Fitness {
    /// `self` is a strictly higher fitness than `other`.
    pub open spec fn spec_higher_than(self, other: Fitness) -> bool {
        self.denom < other.denom
    }

    pub fn higher_than(&self, other: &Fitness) -> (r: bool)
        ensures
            r == self.spec_higher_than(*other),
    {
        self.denom < other.denom
    }
}

pub open spec fn sq(a: int) -> int {
    a * a
}

/// Floor of the square root, defined by stepping up from zero.
pub open spec fn sqrt_floor(v: int) -> int
    decreases v,
{
    if v <= 0 {
        0
    } else if sq(sqrt_floor(v - 1) + 1) <= v {
        sqrt_floor(v - 1) + 1
    } else {
        sqrt_floor(v - 1)
    }
}

pub proof fn lemma_sqrt_floor_bounds(v: int)
    requires
        v >= 0,
    ensures
        sqrt_floor(v) >= 0,
        sq(sqrt_floor(v)) <= v,
        v < sq(sqrt_floor(v) + 1),
    decreases v,
{
    if v > 0 {
        lemma_sqrt_floor_bounds(v - 1);
        let r0 = sqrt_floor(v - 1);
        if sq(r0 + 1) <= v {
            // The step up is taken; v then equals sq(r0 + 1) exactly.
            let r = r0 + 1;
            assert(sq(r + 1) == sq(r) + 2 * r + 1) by (nonlinear_arith);
        }
    }
}

pub proof fn lemma_sqrt_floor_unique(v: int, r: int)
    requires
        v >= 0,
        r >= 0,
        sq(r) <= v,
        v < sq(r + 1),
    ensures
        r == sqrt_floor(v),
{
    lemma_sqrt_floor_bounds(v);
    let s = sqrt_floor(v);
    if r < s {
        assert(sq(r + 1) <= sq(s)) by (nonlinear_arith)
            requires 0 <= r + 1 <= s;
    } else if s < r {
        assert(sq(s + 1) <= sq(r)) by (nonlinear_arith)
            requires 0 <= s + 1 <= r;
    }
}

/// Integer square root: the floor of the real square root, by binary
/// search.
pub fn isqrt(v: u64) -> (r: u64)
    ensures
        r as int == sqrt_floor(v as int),
        sq(r as int) <= v as int,
        (v as int) < sq(r as int + 1),
{
    let mut lo: u64 = 0;
    let mut hi: u64 = 4_294_967_296;
    proof {
        assert(sq(4_294_967_296int) > u64::MAX as int) by (nonlinear_arith);
    }
    while lo + 1 < hi
        invariant
            sq(lo as int) <= v as int,
            (v as int) < sq(hi as int),
            lo < hi <= 4_294_967_296,
        decreases hi - lo,
    {
        let mid = lo + (hi - lo) / 2;
        proof {
            assert((mid as int) * (mid as int) <= 4_294_967_296int * 4_294_967_296int)
                by (nonlinear_arith)
                requires 0 <= mid as int <= 4_294_967_296int;
        }
        let m2 = (mid as u128) * (mid as u128);
        proof {
            assert(m2 == sq(mid as int));
        }
        if m2 <= v as u128 {
            lo = mid;
        } else {
            hi = mid;
        }
    }
    proof {
        lemma_sqrt_floor_unique(v as int, lo as int);
    }
    lo
}

/// Length of one tour edge: the Euclidean distance between two cities,
/// rounded down to an integer.
pub open spec fn edge_cost(a: City, b: City) -> int {
    sqrt_floor(sq(a.x - b.x) + sq(a.y - b.y))
}

pub fn edge_cost_exec(a: &City, b: &City) -> (r: u64)
    requires
        a.valid(),
        b.valid(),
    ensures
        r as int == edge_cost(*a, *b),
        r <= EDGE_MAX,
{
    let dx = a.x - b.x;
    let dy = a.y - b.y;
    proof {
        assert(0 <= (dx as int) * (dx as int) <= 4_000_000_000_000_000_000int) by (nonlinear_arith)
            requires -2_000_000_000 <= dx as int <= 2_000_000_000;
        assert(0 <= (dy as int) * (dy as int) <= 4_000_000_000_000_000_000int) by (nonlinear_arith)
            requires -2_000_000_000 <= dy as int <= 2_000_000_000;
    }
    let s = (dx * dx + dy * dy) as u64;
    let r = isqrt(s);
    proof {
        if r > EDGE_MAX {
            assert(sq(EDGE_MAX as int + 1) > 8_000_000_000_000_000_000int) by (nonlinear_arith);
            assert(sq(EDGE_MAX as int + 1) <= sq(r as int)) by (nonlinear_arith)
                requires 0 <= EDGE_MAX as int + 1 <= r as int;
        }
    }
    r
}

/// Total length of the open tour: the sum of the edge lengths between
/// consecutive cities in the order. The tour does not close back to its
/// start, and with fewer than two cities there are no edges at all.
pub open spec fn path_cost(order: Seq<usize>, cities: Seq<City>) -> int
    decreases order.len(),
{
    if order.len() < 2 {
        0
    } else {
        path_cost(order.drop_last(), cities) + edge_cost(
            cities[order[order.len() - 2] as int],
            cities[order[order.len() - 1] as int],
        )
    }
}

} // verus!
