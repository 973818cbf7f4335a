use vstd::prelude::*;

verus! {

/// An operation applied to a number by `perform_calculation`.
pub enum Op {
    /// Add the operand.
    Add(i32),
    /// Subtract the operand.
    Sub(i32),
    /// Raise the number to at least `low`, then lower it to at most `high`.
    Clamp { low: i32, high: i32 },
}

/// The result of applying `op` to `x`, over the integers.
pub open spec fn spec_calculation(x: i32, op: Op) -> int {
    match op {
        Op::Add(y) => x + y,
        Op::Sub(y) => x - y,
        Op::Clamp { low, high } => {
            let raised = if x >= low { x as int } else { low as int };
            if raised <= high { raised } else { high as int }
        },
    }
}

/// Applies `op` to `x`. Addition and subtraction must not overflow `i32`.
/// `Clamp` takes the larger of `x` and `low`, then the smaller of that and `high`; when
/// `low > high` the result is therefore `high`.
pub fn perform_calculation(x: i32, op: Op) -> (r: i32)
    requires
        i32::MIN <= spec_calculation(x, op) <= i32::MAX,
    ensures
        r == spec_calculation(x, op),
{
    match op {
        Op::Add(y) => x + y,
        Op::Sub(y) => x - y,
        Op::Clamp { low, high } => {
            let raised = if x >= low { x } else { low };
            if raised <= high { raised } else { high }
        },
    }
}

/// `Add` and `Sub` are integer addition and subtraction for operands of either sign, and
/// subtracting what was added gives the number back.
pub proof fn law_add_and_sub(x: i32, y: i32)
    ensures
        spec_calculation(x, Op::Add(y)) == x as int + y as int,
        spec_calculation(x, Op::Sub(y)) == x as int - y as int,
        i32::MIN <= spec_calculation(x, Op::Add(y)) <= i32::MAX ==> spec_calculation(
            spec_calculation(x, Op::Add(y)) as i32,
            Op::Sub(y),
        ) == x,
{
}

/// `Clamp` gives a number no smaller than `low` and no larger than `high` when
/// `low <= high`, and leaves a number already in that range as it is.
pub proof fn law_clamp_bounds(x: i32, low: i32, high: i32)
    ensures
        low <= high ==> low <= spec_calculation(x, Op::Clamp { low, high }) <= high,
        low <= x <= high ==> spec_calculation(x, Op::Clamp { low, high }) == x,
        spec_calculation(x, Op::Clamp { low, high }) <= high,
{
}

} // verus!
