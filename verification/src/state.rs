//! The dynamic-programming state and its elapsed-time arithmetic.
//!
//! A state records where the partial tour stands (one node, or a candidate
//! set after a merge), how much time has elapsed (exactly, or within an
//! interval), which nodes every continuation must still visit, which nodes
//! only some merged-in continuation still requires, the number of decisions
//! taken, and a tolerance counter bounding the relaxation error.

use vstd::prelude::*;

use crate::bits::{bits_of, bit_width, idx_below};
use crate::instance::{TimeWindow, MAX_TIME};

verus! {

/// A point in time that is either known exactly or only known to lie in an
/// interval (the product of merging states or of window clipping).
#[derive(Clone, Copy, PartialEq, Eq, Structural, Debug)]
pub enum ElapsedTime {
    FixedAmount { duration: u64 },
    FuzzyAmount { earliest: u64, latest: u64 },
}

/// An interval with equal ends is written as an exact point.
pub open spec fn norm_range(e: u64, l: u64) -> ElapsedTime {
    if e == l {
        ElapsedTime::FixedAmount { duration: e }
    } else {
        ElapsedTime::FuzzyAmount { earliest: e, latest: l }
    }
}

impl ElapsedTime {
    /// Lower bound of the point in time.
    pub open spec fn spec_earliest(self) -> int {
        match self {
            ElapsedTime::FixedAmount { duration } => duration as int,
            ElapsedTime::FuzzyAmount { earliest, .. } => earliest as int,
        }
    }

    /// Upper bound of the point in time.
    pub open spec fn spec_latest(self) -> int {
        match self {
            ElapsedTime::FixedAmount { duration } => duration as int,
            ElapsedTime::FuzzyAmount { latest, .. } => latest as int,
        }
    }

    /// An interval never writes equal ends (those collapse to exact).
    pub open spec fn normalized(self) -> bool {
        match self {
            ElapsedTime::FixedAmount { .. } => true,
            ElapsedTime::FuzzyAmount { earliest, latest } => earliest != latest,
        }
    }

    pub fn earliest(&self) -> (r: u64)
        ensures
            r as int == self.spec_earliest(),
    {
        match *self {
            ElapsedTime::FixedAmount { duration } => duration,
            ElapsedTime::FuzzyAmount { earliest, .. } => earliest,
        }
    }

    pub fn latest(&self) -> (r: u64)
        ensures
            r as int == self.spec_latest(),
    {
        match *self {
            ElapsedTime::FixedAmount { duration } => duration,
            ElapsedTime::FuzzyAmount { latest, .. } => latest,
        }
    }

    /// Travelling for `d` shifts an exact point to `Exact(t + d)` and an
    /// interval to `Range(e + d, l + d)`.
    pub fn add_duration(&self, d: u64) -> (r: ElapsedTime)
        requires
            self.spec_earliest() + d <= u64::MAX,
            self.spec_latest() + d <= u64::MAX,
        ensures
            r == (match *self {
                ElapsedTime::FixedAmount { duration } => ElapsedTime::FixedAmount {
                    duration: (duration + d) as u64,
                },
                ElapsedTime::FuzzyAmount { earliest, latest } => ElapsedTime::FuzzyAmount {
                    earliest: (earliest + d) as u64,
                    latest: (latest + d) as u64,
                },
            }),
    {
        match *self {
            ElapsedTime::FixedAmount { duration } => ElapsedTime::FixedAmount {
                duration: duration + d,
            },
            ElapsedTime::FuzzyAmount { earliest, latest } => ElapsedTime::FuzzyAmount {
                earliest: earliest + d,
                latest: latest + d,
            },
        }
    }

    /// Clips an arrival time against a node's window: the lower end is
    /// raised to the window's opening (waiting), and for an interval the
    /// upper end is lowered to the window's closing, collapsing to an exact
    /// point when the ends meet. An exact arrival keeps a single point, so
    /// only its lower end moves. A lower end above the upper end signals
    /// infeasibility; the caller tests for it by comparison.
    pub fn clip_to_window(&self, w: TimeWindow) -> (r: ElapsedTime)
        ensures
            r == self.spec_clip(w),
            self is FuzzyAmount ==> r.spec_earliest() >= self.spec_earliest()
                && r.spec_latest() <= self.spec_latest(),
    {
        match *self {
            ElapsedTime::FixedAmount { duration } => ElapsedTime::FixedAmount {
                duration: if duration >= w.earliest {
                    duration
                } else {
                    w.earliest
                },
            },
            ElapsedTime::FuzzyAmount { earliest, latest } => {
                let e = if earliest >= w.earliest {
                    earliest
                } else {
                    w.earliest
                };
                let l = if latest <= w.latest {
                    latest
                } else {
                    w.latest
                };
                if e == l {
                    ElapsedTime::FixedAmount { duration: e }
                } else {
                    ElapsedTime::FuzzyAmount { earliest: e, latest: l }
                }
            },
        }
    }

    /// What `clip_to_window` returns.
    pub open spec fn spec_clip(self, w: TimeWindow) -> ElapsedTime {
        match self {
            ElapsedTime::FixedAmount { duration } => ElapsedTime::FixedAmount {
                duration: if duration >= w.earliest {
                    duration
                } else {
                    w.earliest
                },
            },
            ElapsedTime::FuzzyAmount { earliest, latest } => norm_range(
                if earliest >= w.earliest {
                    earliest
                } else {
                    w.earliest
                },
                if latest <= w.latest {
                    latest
                } else {
                    w.latest
                },
            ),
        }
    }
}

/// Where the partial tour currently stands: a single concrete node, or a
/// set of candidate nodes when the state is the result of a merge.
pub enum Position {
    Node(usize),
    Virtual(bitset_fixed::BitSet),
}

impl Position {
    /// The candidate nodes the tour may stand at.
    pub open spec fn cand_set(self) -> Set<int> {
        match self {
            Position::Node(i) => Set::<int>::empty().insert(i as int),
            Position::Virtual(b) => bits_of(b),
        }
    }

    /// Same shape and same candidates.
    pub open spec fn equiv(self, other: Position) -> bool {
        match (self, other) {
            (Position::Node(i), Position::Node(k)) => i == k,
            (Position::Virtual(x), Position::Virtual(y)) => bits_of(x) == bits_of(y) && bit_width(
                x,
            ) == bit_width(y),
            _ => false,
        }
    }
}

impl Clone for Position {
    fn clone(&self) -> (r: Self)
        ensures
            r.equiv(*self),
    {
        match self {
            Position::Node(i) => Position::Node(*i),
            Position::Virtual(b) => Position::Virtual(crate::bits::bs_clone(b)),
        }
    }
}

/// One node of the dynamic program.
pub struct State {
    /// Current position: one node, or the candidate set of a merged state.
    pub position: Position,
    /// Time elapsed since the tour left the depot.
    pub elapsed: ElapsedTime,
    /// Nodes that every continuation must still visit.
    pub must_visit: bitset_fixed::BitSet,
    /// Nodes required by some but not all merged-in continuations;
    /// `None` for an exact (never merged) state.
    pub maybe_visit: Option<bitset_fixed::BitSet>,
    /// Number of decisions taken since the initial state.
    pub depth: usize,
    /// Bound on how many optional nodes the relaxation may mishandle.
    pub tolerance: usize,
}

impl State {
    /// The mandatory-visit set.
    pub open spec fn must(self) -> Set<int> {
        bits_of(self.must_visit)
    }

    /// The optional-visit set (empty when the state was never merged).
    pub open spec fn maybe(self) -> Set<int> {
        match self.maybe_visit {
            Some(b) => bits_of(b),
            None => Set::<int>::empty(),
        }
    }

    /// The candidate position set.
    pub open spec fn cands(self) -> Set<int> {
        self.position.cand_set()
    }

    /// Well-formedness against an instance of `n` nodes: all sets live on
    /// the node range at width `n`, the depot and the already-reached
    /// position are no longer mandatory, mandatory and optional sets are
    /// disjoint, the elapsed bounds are within `MAX_TIME`, and the depth
    /// never exceeds the number of decision variables.
    pub open spec fn wf(self, n: int) -> bool {
        &&& self.depth <= n
        &&& match self.position {
            Position::Node(i) => i < n && !self.must().contains(i as int),
            Position::Virtual(b) => {
                &&& bit_width(b) == n
                &&& bits_of(b).subset_of(idx_below(n))
                &&& exists|t: int| bits_of(b).contains(t)
                &&& bits_of(b).disjoint(self.must())
            },
        }
        &&& bit_width(self.must_visit) == n
        &&& self.must().subset_of(idx_below(n))
        &&& !self.must().contains(0)
        &&& match self.maybe_visit {
            Some(b) => {
                &&& bit_width(b) == n
                &&& bits_of(b).subset_of(idx_below(n))
                &&& !bits_of(b).contains(0)
                &&& bits_of(b).disjoint(self.must())
            },
            None => true,
        }
        &&& 0 <= self.elapsed.spec_earliest() <= MAX_TIME
        &&& 0 <= self.elapsed.spec_latest() <= MAX_TIME
        &&& self.elapsed.normalized()
    }

    /// Equal in every observable respect: same position shape and
    /// candidates, same elapsed time, same sets, same depth and tolerance.
    pub open spec fn equiv(self, other: State) -> bool {
        &&& self.position.equiv(other.position)
        &&& self.elapsed == other.elapsed
        &&& self.must() == other.must()
        &&& bit_width(self.must_visit) == bit_width(other.must_visit)
        &&& match (self.maybe_visit, other.maybe_visit) {
            (Some(x), Some(y)) => bits_of(x) == bits_of(y) && bit_width(x) == bit_width(y),
            (None, None) => true,
            _ => false,
        }
        &&& self.depth == other.depth
        &&& self.tolerance == other.tolerance
    }
}

/// Observable equality preserves well-formedness: everything `wf` reads
/// is part of `equiv`.
pub proof fn lemma_equiv_wf(a: State, b: State, n: int)
    requires
        a.equiv(b),
        b.wf(n),
    ensures
        a.wf(n),
{
    match (a.position, b.position) {
        (Position::Node(i), Position::Node(k)) => {},
        (Position::Virtual(x), Position::Virtual(y)) => {},
        _ => {},
    }
}

impl Clone for State {
    fn clone(&self) -> (r: Self)
        ensures
            r.equiv(*self),
    {
        State {
            position: self.position.clone(),
            elapsed: self.elapsed,
            must_visit: crate::bits::bs_clone(&self.must_visit),
            maybe_visit: match &self.maybe_visit {
                Some(b) => Some(crate::bits::bs_clone(b)),
                None => None,
            },
            depth: self.depth,
            tolerance: self.tolerance,
        }
    }
}

} // verus!
