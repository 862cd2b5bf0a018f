//! App-unit arithmetic from the `app_units` crate, on the plain `i32` an
//! `Au` wraps.

use app_units::Au;
use vstd::prelude::*;

verus! {

/// The largest app-unit length, `app_units::MAX_AU`; the smallest is its negation.
pub open spec fn max_au() -> int {
    1073741823
}

/// A length within `MIN_AU..=MAX_AU`, the range `Au` values are meant to stay in.
pub open spec fn au_valid(x: int) -> bool {
    -max_au() <= x <= max_au()
}

/// `x` clamped into `MIN_AU..=MAX_AU`.
pub open spec fn clamp_au(x: int) -> int {
    if x < -max_au() {
        -max_au()
    } else if x > max_au() {
        max_au()
    } else {
        x
    }
}

/// Integer division rounding towards zero, as Rust's `/` on `i32` does.
pub open spec fn trunc_div(a: int, d: int) -> int {
    let q = (if a < 0 { -a } else { a }) / (if d < 0 { -d } else { d });
    if (a < 0) != (d < 0) {
        -q
    } else {
        q
    }
}

/// `<Au as Add>::add`: the source computes `Au(self.0 + other.0).clamp()`,
/// so the sum is clamped into `MIN_AU..=MAX_AU`; the `i32` addition itself
/// must not overflow.
#[verifier::external_body]
pub fn au_add(a: i32, b: i32) -> (r: i32)
    requires
        i32::MIN <= a + b <= i32::MAX,
    ensures
        r == clamp_au(a + b),
{
    (Au(a) + Au(b)).0
}

/// `<Au as Mul<i32>>::mul`: the source multiplies with `checked_mul` and
/// clamps; on overflow it returns `MIN_AU` or `MAX_AU` by the signs of the
/// factors, which is again the clamped product.
#[verifier::external_body]
pub fn au_mul(a: i32, k: i32) -> (r: i32)
    ensures
        r == clamp_au(a * k),
{
    (Au(a) * k).0
}

/// `<Au as Div<i32>>::div`: the source computes `Au(self.0 / other)`, an
/// `i32` division rounding towards zero, without clamping.
#[verifier::external_body]
pub fn au_div(a: i32, d: i32) -> (r: i32)
    requires
        d != 0,
        !(a == i32::MIN && d == -1),
    ensures
        r == trunc_div(a as int, d as int),
{
    (Au(a) / d).0
}

} // verus!
