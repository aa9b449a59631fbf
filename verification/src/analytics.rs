//! The analytics of milestones: three counters that add up.

use std::ops::Add;
use vstd::prelude::*;
use vstd::std_specs::ops::AddSpecImpl;

verus! {

/// The analytics collected from the messages of a milestone.
#[derive(Debug, Copy, Clone, PartialEq, Eq, Structural)]
pub struct Analytics {
    /// The transaction count.
    pub transaction_count: u128,
    /// The message count.
    pub message_count: u128,
    /// The transferred tokens.
    pub transferred_tokens: u128,
}

impl Analytics {
    /// The analytics of no message at all.
    pub open spec fn zero() -> Analytics {
        Analytics { transaction_count: 0, message_count: 0, transferred_tokens: 0 }
    }

    /// Whether each counter of the sum of the two fits its field.
    pub open spec fn fits_with(self, other: Analytics) -> bool {
        &&& self.transaction_count + other.transaction_count <= u128::MAX
        &&& self.message_count + other.message_count <= u128::MAX
        &&& self.transferred_tokens + other.transferred_tokens <= u128::MAX
    }

    /// The sum of the two, counter by counter.
    pub open spec fn plus(self, other: Analytics) -> Analytics {
        Analytics {
            transaction_count: (self.transaction_count + other.transaction_count) as u128,
            message_count: (self.message_count + other.message_count) as u128,
            transferred_tokens: (self.transferred_tokens + other.transferred_tokens) as u128,
        }
    }
}

impl Default for Analytics {
    fn default() -> (analytics: Analytics)
        ensures
            analytics == Analytics::zero(),
    {
        Analytics { transaction_count: 0, message_count: 0, transferred_tokens: 0 }
    }
}

impl AddSpecImpl for Analytics {
    open spec fn obeys_add_spec() -> bool {
        true
    }

    open spec fn add_req(self, other: Analytics) -> bool {
        self.fits_with(other)
    }

    open spec fn add_spec(self, other: Analytics) -> Analytics {
        self.plus(other)
    }
}

impl Add for Analytics {
    type Output = Analytics;

    /// Adds two analytics counter by counter. The sums have to fit.
    fn add(self, other: Analytics) -> Analytics {
        Analytics {
            transaction_count: self.transaction_count + other.transaction_count,
            message_count: self.message_count + other.message_count,
            transferred_tokens: self.transferred_tokens + other.transferred_tokens,
        }
    }
}

/// Addition of analytics is commutative: whenever one order fits, the other
/// fits too and gives the same sum.
pub proof fn lemma_add_commutative(a: Analytics, b: Analytics)
    ensures
        a.fits_with(b) == b.fits_with(a),
        a.plus(b) == b.plus(a),
{
}

/// Addition of analytics is associative: where the sum of all three fits,
/// both groupings fit and give the same sum.
pub proof fn lemma_add_associative(a: Analytics, b: Analytics, c: Analytics)
    requires
        a.fits_with(b),
        a.plus(b).fits_with(c),
    ensures
        b.fits_with(c),
        a.fits_with(b.plus(c)),
        a.plus(b).plus(c) == a.plus(b.plus(c)),
{
}

/// The analytics of nothing are neutral: added to any analytics, on either
/// side, they fit and leave them as they are.
pub proof fn lemma_add_zero(x: Analytics)
    ensures
        Analytics::zero().fits_with(x),
        x.fits_with(Analytics::zero()),
        Analytics::zero().plus(x) == x,
        x.plus(Analytics::zero()) == x,
{
}

} // verus!
