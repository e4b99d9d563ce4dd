//! The share pool valuation that borrowing is checked against.
use cosmwasm_std::Uint128;
use vstd::prelude::*;

verus! {

/// What the logic reads of a share pool, as plain values: the amount the pool
/// holds and the number of whole shares it has issued.
pub struct Pool {
    pub size: u128,
    pub shares: u128,
}

/// The value of `shares` in a pool of `size` with `total` shares issued:
/// nothing for no shares, else the pool's size in proportion, rounded down.
pub open spec fn ownership_of(size: u128, total: u128, shares: u128) -> int {
    if shares == 0 {
        0
    } else {
        (size as int * shares as int) / (total as int)
    }
}

/// Relies on cosmwasm_std::Uint128::checked_multiply_ratio: `a * num / den`
/// rounded down, computed without intermediate overflow; an error when `den`
/// is zero or the quotient does not fit in 128 bits.
#[verifier::external_body]
fn multiply_ratio(a: u128, num: u128, den: u128) -> (r: Option<u128>)
    ensures
        r == (if den != 0 && (a as int * num as int) / (den as int) <= u128::MAX {
            Some(((a as int * num as int) / (den as int)) as u128)
        } else {
            None
        }),
{
    match Uint128::new(a).checked_multiply_ratio(num, den) {
        Ok(v) => Some(v.u128()),
        Err(_) => None,
    }
}

impl Pool {
    pub open spec fn ownership_spec(&self, shares: u128) -> int {
        ownership_of(self.size, self.shares, shares)
    }

    /// The value of `shares` can be computed: no shares, or a pool with
    /// shares issued and a value that fits in 128 bits.
    pub open spec fn valuation_defined(&self, shares: u128) -> bool {
        shares == 0 || (self.shares != 0 && self.ownership_spec(shares) <= u128::MAX)
    }

    /// The value of `shares` of this pool.
    pub fn ownership(&self, shares: u128) -> (r: u128)
        requires
            self.valuation_defined(shares),
        ensures
            r == self.ownership_spec(shares),
    {
        if shares == 0 {
            return 0;
        }
        match multiply_ratio(self.size, shares, self.shares) {
            Some(v) => v,
            None => {
                proof {
                    assert(false);
                }
                0
            },
        }
    }
}

} // verus!
