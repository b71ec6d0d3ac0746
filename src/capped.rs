//! A fixed ceiling on the total supply of a fungible token.
use vstd::prelude::*;

use crate::uint256::Uint256;

verus! {

/// The supply after an increase would exceed the cap.
#[derive(Clone, Copy, Debug, PartialEq, Eq, Structural)]
pub struct ERC20ExceededCap {
    pub increased_supply: Uint256,
    pub cap: Uint256,
}

/// The supplied cap is not a valid cap value.
#[derive(Clone, Copy, Debug, PartialEq, Eq, Structural)]
pub struct ERC20InvalidCap {
    pub cap: Uint256,
}

/// A Capped error.
#[derive(Clone, Copy, Debug, PartialEq, Eq, Structural)]
pub enum Error {
    /// The total supply would exceed the cap.
    ExceededCap(ERC20ExceededCap),
    /// The cap supplied at construction is zero.
    InvalidCap(ERC20InvalidCap),
}

/// State of a capped token: its immutable, non-zero ceiling.
#[derive(Debug)]
pub struct Capped {
    cap: Uint256,
}

impl Capped {
    /// The ceiling this guard was built with.
    pub closed spec fn cap_value(&self) -> Uint256 {
        self.cap
    }

    /// Builds a guard with ceiling `cap`, refusing a zero ceiling.
    pub fn new(cap: Uint256) -> (r: Result<Capped, Error>)
        ensures
            cap.value() == 0 ==> r == Err::<Capped, Error>(
                Error::InvalidCap(ERC20InvalidCap { cap }),
            ),
            cap.value() > 0 ==> r is Ok && r->Ok_0.cap_value() == cap,
    {
        if cap.is_zero() {
            Err(Error::InvalidCap(ERC20InvalidCap { cap }))
        } else {
            Ok(Capped { cap })
        }
    }

    /// Returns the cap on the token's total supply.
    pub fn cap(&self) -> (r: Uint256)
        ensures
            r == self.cap_value(),
    {
        self.cap
    }

    /// Checks a total supply that an increase would reach against this
    /// guard's cap.
    pub fn check_supply(&self, increased_supply: Uint256) -> (r: Result<(), Error>)
        ensures
            r == check_cap_spec(increased_supply, self.cap_value()),
    {
        check_cap_not_exceeded(increased_supply, self.cap)
    }
}

/// What checking `increased_supply` against `cap` yields.
pub open spec fn check_cap_spec(increased_supply: Uint256, cap: Uint256) -> Result<(), Error> {
    if increased_supply.value() > cap.value() {
        Err(Error::ExceededCap(ERC20ExceededCap { increased_supply, cap }))
    } else {
        Ok(())
    }
}

/// Fails with `ExceededCap(increased_supply, cap)` exactly when the
/// total supply after an increase exceeds `cap`.
pub fn check_cap_not_exceeded(increased_supply: Uint256, cap: Uint256) -> (r: Result<(), Error>)
    ensures
        r == check_cap_spec(increased_supply, cap),
        r is Ok <==> increased_supply.value() <= cap.value(),
{
    if cap.lt(&increased_supply) {
        Err(Error::ExceededCap(ERC20ExceededCap { increased_supply, cap }))
    } else {
        Ok(())
    }
}

/// At the cap itself the check succeeds; one unit above it, it fails
/// with `ExceededCap` carrying both operands.
pub proof fn lemma_cap_boundary(cap: Uint256, above: Uint256)
    requires
        above.value() == cap.value() + 1,
    ensures
        check_cap_spec(cap, cap) == Ok::<(), Error>(()),
        check_cap_spec(above, cap) == Err::<(), Error>(
            Error::ExceededCap(ERC20ExceededCap { increased_supply: above, cap }),
        ),
{
}

} // verus!
