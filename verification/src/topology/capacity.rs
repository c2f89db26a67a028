//! Utilization scores that are compared without rounding.
use std::cmp::Ordering;
use vstd::prelude::*;

verus! {

/// A normalized utilization value. Known observations sort before unknown
/// observations and are compared without floating-point rounding.
#[derive(Debug, Clone, Copy, PartialEq, Eq, Structural)]
pub struct CapacityScore {
    pub used: u64,
    pub capacity: u64,
    pub known: bool,
}

impl CapacityScore {
    /// Used bytes.
    pub open spec fn used_bytes(self) -> u64 {
        self.used
    }

    /// Bytes in all.
    pub open spec fn capacity_bytes(self) -> u64 {
        self.capacity
    }

    /// The utilization is known.
    pub open spec fn is_known(self) -> bool {
        self.known
    }

    /// Where the utilization is known there is some capacity.
    pub open spec fn well_formed(self) -> bool {
        self.is_known() ==> self.capacity_bytes() > 0
    }

    /// Less utilized: `used / capacity` is smaller, or only `self` is known.
    pub open spec fn below(self, other: CapacityScore) -> bool {
        if self.is_known() && other.is_known() {
            self.used_bytes() * other.capacity_bytes() < other.used_bytes() * self.capacity_bytes()
        } else {
            self.is_known() && !other.is_known()
        }
    }

    /// Whether `self` is less utilized.
    pub fn is_below(&self, other: &CapacityScore) -> (r: bool)
        ensures
            r == self.below(*other),
    {
        if self.known && other.known {
            wide_product(self.used, other.capacity) < wide_product(other.used, self.capacity)
        } else {
            self.known && !other.known
        }
    }
}

fn wide_product(a: u64, b: u64) -> (r: u128)
    ensures
        r == a * b,
{
    assert(0 <= a * b <= 0xffff_ffff_ffff_ffff * 0xffff_ffff_ffff_ffff) by (nonlinear_arith)
        requires
            0 <= a <= 0xffff_ffff_ffff_ffff,
            0 <= b <= 0xffff_ffff_ffff_ffff,
    ;
    (a as u128) * (b as u128)
}

impl PartialOrd for CapacityScore {
    fn partial_cmp(&self, other: &Self) -> (r: Option<Ordering>) {
        if self.is_below(other) {
            Some(Ordering::Less)
        } else if other.is_below(self) {
            Some(Ordering::Greater)
        } else {
            Some(Ordering::Equal)
        }
    }
}

impl vstd::std_specs::cmp::PartialOrdSpecImpl for CapacityScore {
    open spec fn obeys_partial_cmp_spec() -> bool {
        true
    }

    open spec fn partial_cmp_spec(&self, other: &Self) -> Option<Ordering> {
        if self.below(*other) {
            Some(Ordering::Less)
        } else if other.below(*self) {
            Some(Ordering::Greater)
        } else {
            Some(Ordering::Equal)
        }
    }
}

/// No score is below itself, and of two scores at most one is below the other.
pub proof fn law_score_asymmetric(a: CapacityScore, b: CapacityScore)
    ensures
        !a.below(a),
        !(a.below(b) && b.below(a)),
{
}

/// A known utilization sorts before an unknown one.
pub proof fn law_known_before_unknown(a: CapacityScore, b: CapacityScore)
    requires
        a.is_known(),
        !b.is_known(),
    ensures
        a.below(b),
        !b.below(a),
{
}

/// Scores are ordered transitively.
pub proof fn law_score_transitive(a: CapacityScore, b: CapacityScore, c: CapacityScore)
    requires
        a.well_formed(),
        b.well_formed(),
        c.well_formed(),
        a.below(b),
        b.below(c),
    ensures
        a.below(c),
{
    if a.is_known() && b.is_known() && c.is_known() {
        let (au, ac) = (a.used_bytes() as int, a.capacity_bytes() as int);
        let (bu, bc) = (b.used_bytes() as int, b.capacity_bytes() as int);
        let (cu, cc) = (c.used_bytes() as int, c.capacity_bytes() as int);
        assert(au * cc < cu * ac) by (nonlinear_arith)
            requires
                au * bc < bu * ac,
                bu * cc < cu * bc,
                ac > 0,
                bc > 0,
                cc > 0,
                au >= 0,
                bu >= 0,
                cu >= 0,
        {
            assert(au * bc * cc < bu * ac * cc);
            assert(bu * cc * ac < cu * bc * ac);
            assert(bu * ac * cc == bu * cc * ac);
            assert((au * cc) * bc == au * bc * cc);
            assert((cu * ac) * bc == cu * bc * ac);
            assert((au * cc) * bc < (cu * ac) * bc);
        }
    }
}

/// Scores that are not told apart are equally far from every other score: what
/// is not below a score that is not below a third is not below the third.
pub proof fn law_score_ties_transitive(a: CapacityScore, b: CapacityScore, c: CapacityScore)
    requires
        a.well_formed(),
        b.well_formed(),
        c.well_formed(),
        !a.below(b),
        !b.below(c),
    ensures
        !a.below(c),
{
    if a.is_known() && b.is_known() && c.is_known() {
        let (au, ac) = (a.used_bytes() as int, a.capacity_bytes() as int);
        let (bu, bc) = (b.used_bytes() as int, b.capacity_bytes() as int);
        let (cu, cc) = (c.used_bytes() as int, c.capacity_bytes() as int);
        assert(au * cc >= cu * ac) by (nonlinear_arith)
            requires
                au * bc >= bu * ac,
                bu * cc >= cu * bc,
                ac > 0,
                bc > 0,
                cc > 0,
        {
            assert(au * bc * cc >= bu * ac * cc);
            assert(bu * cc * ac >= cu * bc * ac);
            assert(bu * ac * cc == bu * cc * ac);
            assert((au * cc) * bc == au * bc * cc);
            assert((cu * ac) * bc == cu * bc * ac);
            assert((au * cc) * bc >= (cu * ac) * bc);
        }
    }
}

} // verus!
