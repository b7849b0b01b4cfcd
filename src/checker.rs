use vstd::prelude::*;

verus! {

/// The sign of a real number.
#[derive(Clone, Copy, Debug, PartialEq, Eq, Structural)]
pub enum Sign {
    Negative,
    Zero,
    Positive,
}

/// Which of a checker texture's two children shows at a point.
#[derive(Clone, Copy, Debug, PartialEq, Eq, Structural)]
pub enum CheckerSide {
    Odd,
    Even,
}

/// The sign of a product of three factors with signs `x`, `y` and `z`.
pub open spec fn product_sign(x: Sign, y: Sign, z: Sign) -> Sign {
    if x == Sign::Zero || y == Sign::Zero || z == Sign::Zero {
        Sign::Zero
    } else if (x == Sign::Negative) ^ (y == Sign::Negative) ^ (z == Sign::Negative) {
        Sign::Negative
    } else {
        Sign::Positive
    }
}

/// The opposite sign.
pub open spec fn flip(s: Sign) -> Sign {
    match s {
        Sign::Negative => Sign::Positive,
        Sign::Zero => Sign::Zero,
        Sign::Positive => Sign::Negative,
    }
}

/// The side of a checker texture at a point where `sin(10x)`, `sin(10y)` and
/// `sin(10z)` have the signs `x`, `y` and `z`: the odd child where their
/// product is negative, the even one elsewhere.
pub fn checker_side(x: Sign, y: Sign, z: Sign) -> (r: CheckerSide)
    ensures
        r == (if product_sign(x, y, z) == Sign::Negative {
            CheckerSide::Odd
        } else {
            CheckerSide::Even
        }),
{
    let mut negatives: u8 = 0;
    if x == Sign::Zero || y == Sign::Zero || z == Sign::Zero {
        return CheckerSide::Even;
    }
    if x == Sign::Negative {
        negatives = negatives + 1;
    }
    if y == Sign::Negative {
        negatives = negatives + 1;
    }
    if z == Sign::Negative {
        negatives = negatives + 1;
    }
    if negatives % 2 == 1 {
        CheckerSide::Odd
    } else {
        CheckerSide::Even
    }
}

/// Crossing a plane where exactly one of the three sines changes sign, and
/// none of them is zero, moves to the other child; points whose sines share
/// their signs show the same child.
pub proof fn lemma_checker_alternates(x: Sign, y: Sign, z: Sign)
    requires
        x != Sign::Zero,
        y != Sign::Zero,
        z != Sign::Zero,
    ensures
        product_sign(flip(x), y, z) != product_sign(x, y, z),
        product_sign(x, flip(y), z) != product_sign(x, y, z),
        product_sign(x, y, flip(z)) != product_sign(x, y, z),
        product_sign(x, y, z) != Sign::Zero,
{
}

} // verus!
