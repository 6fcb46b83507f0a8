//! Integer side of the normal-map integration: range remapping and the
//! neighbour coordinates of a pixel.

use std::ops::{Add, Div, Mul, Sub};
use vstd::prelude::*;
use vstd::std_specs::ops::{AddSpec, DivSpec, MulSpec, SubSpec};

verus! {

/// Where `s` lands when the interval `from_range` is stretched onto
/// `to_range`: on the straight line through the end points, written with the
/// operators of `T` itself.
pub open spec fn map_range_spec<T>(from_range: (T, T), to_range: (T, T), s: T) -> T
    where T: Add<T, Output = T> + Sub<T, Output = T> + Mul<T, Output = T> + Div<T, Output = T>
{
    let run = s.sub_spec(from_range.0);
    let rise = to_range.1.sub_spec(to_range.0);
    let length = from_range.1.sub_spec(from_range.0);
    to_range.0.add_spec(run.mul_spec(rise).div_spec(length))
}

/// Whether every operation of [`map_range_spec`] is defined: the operators of
/// `T` follow their specifications, no step overflows, and the source
/// interval is not empty.
pub open spec fn map_range_defined<T>(from_range: (T, T), to_range: (T, T), s: T) -> bool
    where T: Add<T, Output = T> + Sub<T, Output = T> + Mul<T, Output = T> + Div<T, Output = T>
{
    let run = s.sub_spec(from_range.0);
    let rise = to_range.1.sub_spec(to_range.0);
    let length = from_range.1.sub_spec(from_range.0);
    &&& T::obeys_add_spec()
    &&& T::obeys_sub_spec()
    &&& T::obeys_mul_spec()
    &&& T::obeys_div_spec()
    &&& s.sub_req(from_range.0)
    &&& to_range.1.sub_req(to_range.0)
    &&& from_range.1.sub_req(from_range.0)
    &&& run.mul_req(rise)
    &&& run.mul_spec(rise).div_req(length)
    &&& to_range.0.add_req(run.mul_spec(rise).div_spec(length))
}

/// Maps `s` from the interval `from_range` onto the interval `to_range`, so
/// that the ends of the one land on the ends of the other and everything in
/// between, or beyond, on the straight line through them.
pub fn map_range<T: Copy>(from_range: (T, T), to_range: (T, T), s: T) -> (mapped: T)
    where T: Add<T, Output = T> + Sub<T, Output = T> + Mul<T, Output = T> + Div<T, Output = T>
    requires
        map_range_defined(from_range, to_range, s),
    ensures
        mapped == map_range_spec(from_range, to_range, s),
{
    to_range.0 + (s - from_range.0) * (to_range.1 - to_range.0) / (from_range.1 - from_range.0)
}

/// The quotient of `a` by `b`, rounded towards zero as the integer types of
/// the machine round it.
pub open spec fn div_toward_zero(a: int, b: int) -> int {
    if a >= 0 {
        a / b
    } else {
        -((-a) / b)
    }
}

/// On 64-bit integers, as long as no step overflows, [`map_range`] computes
/// `to.0 + (s - from.0) * (to.1 - to.0) / (from.1 - from.0)` with the
/// quotient rounded towards zero.
pub proof fn lemma_map_range_i64(from: (i64, i64), to: (i64, i64), s: i64)
    requires
        from.0 != from.1,
        i64::MIN <= s - from.0 <= i64::MAX,
        i64::MIN <= to.1 - to.0 <= i64::MAX,
        i64::MIN < from.1 - from.0 <= i64::MAX,
        i64::MIN < (s - from.0) * (to.1 - to.0) <= i64::MAX,
        i64::MIN <= to.0 + div_toward_zero((s - from.0) * (to.1 - to.0), from.1 - from.0)
            <= i64::MAX,
    ensures
        map_range_defined(from, to, s),
        map_range_spec(from, to, s) == to.0 + div_toward_zero(
            (s - from.0) * (to.1 - to.0),
            from.1 - from.0,
        ),
{
    let run = s.sub_spec(from.0);
    let rise = to.1.sub_spec(to.0);
    let length = from.1.sub_spec(from.0);
    let area = run.mul_spec(rise);
    assert(area == run * rise);
    assert(i64::MIN <= div_toward_zero(area as int, length as int) <= i64::MAX) by {
        lemma_quotient_is_no_larger(area as int, length as int);
    }
    assert(area.div_spec(length) == div_toward_zero(area as int, length as int));
}

/// A quotient rounded towards zero is no larger in size than what was divided.
proof fn lemma_quotient_is_no_larger(a: int, b: int)
    requires
        b != 0,
    ensures
        a >= 0 ==> -a <= div_toward_zero(a, b) <= a,
        a < 0 ==> a <= div_toward_zero(a, b) <= -a,
{
    let size = if a >= 0 { a } else { -a };
    assert(-size <= size / b <= size) by (nonlinear_arith)
        requires
            size >= 0,
            b != 0,
    ;
}

/// The four neighbours of a pixel along the axes. `Up` is towards row zero.
#[derive(Clone, Copy, Debug, PartialEq, Eq)]
pub enum Direction {
    Up,
    Down,
    Left,
    Right,
}

/// The four neighbours of a pixel across its corners.
#[derive(Clone, Copy, Debug, PartialEq, Eq)]
pub enum Diagonal {
    UpLeft,
    UpRight,
    DownLeft,
    DownRight,
}

impl Direction {
    /// The step in `x` and `y` that leads to the neighbour.
    pub open spec fn step(self) -> (int, int) {
        match self {
            Direction::Up => (0, -1),
            Direction::Down => (0, 1),
            Direction::Left => (-1, 0),
            Direction::Right => (1, 0),
        }
    }
}

impl Diagonal {
    /// The step in `x` and `y` that leads to the neighbour.
    pub open spec fn step(self) -> (int, int) {
        match self {
            Diagonal::UpLeft => (-1, -1),
            Diagonal::UpRight => (1, -1),
            Diagonal::DownLeft => (-1, 1),
            Diagonal::DownRight => (1, 1),
        }
    }
}

/// The pixel one `step` away from `(x, y)`, if it lies inside an image of
/// `dim.0` by `dim.1` pixels.
pub open spec fn neighbour(dim: (u32, u32), x: u32, y: u32, step: (int, int)) -> Option<
    (u32, u32),
> {
    let nx = x + step.0;
    let ny = y + step.1;
    if 0 <= nx < dim.0 && 0 <= ny < dim.1 {
        Some((nx as u32, ny as u32))
    } else {
        None
    }
}

/// `(x, y)` if it names a pixel of the image, else `None`.
fn pixel_checked(dim: (u32, u32), x: u32, y: u32) -> (found: Option<(u32, u32)>)
    ensures
        found == neighbour(dim, x, y, (0, 0)),
{
    if x < dim.0 && y < dim.1 {
        Some((x, y))
    } else {
        None
    }
}

/// The coordinates of the neighbour of `(x, y)` in `direction`, or `None`
/// where the image ends.
pub fn get_direction(dim: (u32, u32), x: u32, y: u32, direction: Direction) -> (found: Option<
    (u32, u32),
>)
    ensures
        found == neighbour(dim, x, y, direction.step()),
{
    match direction {
        Direction::Up => {
            if let Some(y) = y.checked_sub(1) {
                return pixel_checked(dim, x, y);
            }
            None
        },
        Direction::Down => {
            if let Some(y) = y.checked_add(1) {
                return pixel_checked(dim, x, y);
            }
            None
        },
        Direction::Left => {
            if let Some(x) = x.checked_sub(1) {
                return pixel_checked(dim, x, y);
            }
            None
        },
        Direction::Right => {
            if let Some(x) = x.checked_add(1) {
                return pixel_checked(dim, x, y);
            }
            None
        },
    }
}

/// The coordinates of the neighbour of `(x, y)` across the corner `diagonal`,
/// or `None` where the image ends.
pub fn get_diagonal(dim: (u32, u32), x: u32, y: u32, diagonal: Diagonal) -> (found: Option<
    (u32, u32),
>)
    ensures
        found == neighbour(dim, x, y, diagonal.step()),
{
    match diagonal {
        Diagonal::UpLeft => {
            if let (Some(y), Some(x)) = (y.checked_sub(1), x.checked_sub(1)) {
                return pixel_checked(dim, x, y);
            }
            None
        },
        Diagonal::UpRight => {
            if let (Some(y), Some(x)) = (y.checked_sub(1), x.checked_add(1)) {
                return pixel_checked(dim, x, y);
            }
            None
        },
        Diagonal::DownLeft => {
            if let (Some(y), Some(x)) = (y.checked_add(1), x.checked_sub(1)) {
                return pixel_checked(dim, x, y);
            }
            None
        },
        Diagonal::DownRight => {
            if let (Some(y), Some(x)) = (y.checked_add(1), x.checked_add(1)) {
                return pixel_checked(dim, x, y);
            }
            None
        },
    }
}

} // verus!
