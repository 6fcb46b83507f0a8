//! Exact geometry of the lattice: where its nodes sit, and which pixels each
//! node reaches.
//!
//! An axis of `extent` pixels is cut into `cells` cells, so node `n` sits at
//! `extent * n / cells` pixels. Positions are kept as the numerator of that
//! fraction, which makes every comparison and every rounding exact.
//!
//! A node paints the pixels within half a cell of it. Along one axis these
//! are the pixels from [`reach_bound`] of the node up to `reach_bound` of the
//! next node, and the reaches of all nodes tile the axis
//! ([`lemma_reach_tiles_axis`]).

use crate::gradient::{Gradient, TURN_STEPS};
use vstd::arithmetic::div_mod::{
    lemma_div_denominator, lemma_div_is_ordered, lemma_div_multiples_vanish,
    lemma_div_pos_is_pos, lemma_fundamental_div_mod,
};
use vstd::prelude::*;

verus! {

/// A position in the image, in `cells`-ths of a pixel: a point at `x / cells`
/// pixels holds the numerator `x`.
#[derive(Clone, Copy, Debug, PartialEq, Eq)]
pub struct Position {
    pub x: u64,
    pub y: u64,
}

/// A lattice node: where it sits and which way its gradient points.
#[derive(Clone, Copy, Debug, PartialEq, Eq)]
pub struct GridPoint {
    pub pos: Position,
    pub gradient: Gradient,
}

/// `value`, or the largest 32-bit number where `value` is larger.
pub open spec fn capped(value: int) -> int {
    if value <= u32::MAX {
        value
    } else {
        u32::MAX as int
    }
}

impl Position {
    /// Whether the offset from `other` to this position fits a pair of signed
    /// 64-bit numbers.
    pub open spec fn within_reach_of(&self, other: Position) -> bool {
        &&& i64::MIN <= self.x - other.x <= i64::MAX
        &&& i64::MIN <= self.y - other.y <= i64::MAX
    }

    /// The position of pixel `(x, y)` in an image whose lattice has `cells`
    /// cells per axis.
    pub fn new(x: u32, y: u32, cells: u32) -> (pos: Position)
        ensures
            pos.x == cells * x,
            pos.y == cells * y,
    {
        assert(cells * x <= u64::MAX && cells * y <= u64::MAX) by (nonlinear_arith)
            requires
                x <= u32::MAX,
                y <= u32::MAX,
                cells <= u32::MAX,
        ;
        Position { x: cells as u64 * x as u64, y: cells as u64 * y as u64 }
    }

    /// The offset from `other` to this position, component by component.
    pub fn subtract(&self, other: &Position) -> (offset: (i64, i64))
        requires
            self.within_reach_of(*other),
        ensures
            offset.0 == self.x - other.x,
            offset.1 == self.y - other.y,
    {
        ((self.x as i128 - other.x as i128) as i64, (self.y as i128 - other.y as i128) as i64)
    }

    /// The pixel that holds the position: both coordinates in whole pixels,
    /// the fraction cut off, and capped at the largest 32-bit number.
    pub fn as_u32(&self, cells: u32) -> (pixel: (u32, u32))
        requires
            cells > 0,
        ensures
            pixel.0 == capped(self.x as int / cells as int),
            pixel.1 == capped(self.y as int / cells as int),
    {
        let x = self.x / cells as u64;
        let y = self.y / cells as u64;
        (
            if x <= u32::MAX as u64 {
                x as u32
            } else {
                u32::MAX
            },
            if y <= u32::MAX as u64 {
                y as u32
            } else {
                u32::MAX
            },
        )
    }
}

/// The nodes of a lattice that is stored row by row.
pub open spec fn rows_of(grid: Vec<Vec<GridPoint>>) -> Seq<Seq<GridPoint>> {
    Seq::new(grid@.len(), |row: int| grid@[row]@)
}

/// Whether `grid` is the lattice of an image of `width` by `height` pixels
/// cut into `cells` cells per axis: `cells + 1` rows of `cells + 1` nodes,
/// row `row` at `x = width * row / cells` and column `col` at
/// `y = height * col / cells`, each with a valid gradient direction.
pub open spec fn is_lattice(grid: Seq<Seq<GridPoint>>, width: int, height: int, cells: int) -> bool {
    &&& grid.len() == cells + 1
    &&& forall|row: int| 0 <= row <= cells ==> (#[trigger] grid[row]).len() == cells + 1
    &&& forall|row: int, col: int|
        0 <= row <= cells && 0 <= col <= cells ==> {
            &&& (#[trigger] grid[row][col]).pos.x == width * row
            &&& grid[row][col].pos.y == height * col
            &&& grid[row][col].gradient@ < TURN_STEPS
        }
}

/// Bit of the quadrant above and to the left of a node.
pub const UP_LEFT: u8 = 0b1000;

/// Bit of the quadrant above and to the right of a node.
pub const UP_RIGHT: u8 = 0b0100;

/// Bit of the quadrant below and to the left of a node.
pub const DOWN_LEFT: u8 = 0b0010;

/// Bit of the quadrant below and to the right of a node.
pub const DOWN_RIGHT: u8 = 0b0001;

/// All four quadrants.
pub const ALL_QUADRANTS: u8 = 0b1111;

/// The quadrants around a node at `pos` that lie inside an image whose far
/// corner is `far`, one bit each. The origin is the top left corner: a node on
/// the top edge (`y = 0`) has nothing above it, a node on the bottom edge
/// nothing below, and likewise to the left and right.
pub open spec fn valid_quadrants(pos: Position, far: Position) -> u8 {
    let up = pos.y != 0;
    let down = pos.y == 0 || pos.y != far.y;
    let left = pos.x != 0;
    let right = pos.x == 0 || pos.x != far.x;
    let up_left = if up && left { UP_LEFT } else { 0 };
    let up_right = if up && right { UP_RIGHT } else { 0 };
    let down_left = if down && left { DOWN_LEFT } else { 0 };
    let down_right = if down && right { DOWN_RIGHT } else { 0 };
    (up_left + up_right + down_left + down_right) as u8
}

/// A node in the top left corner has only its lower right quadrant, a node in
/// the far corner only its upper left one, and a node strictly inside the
/// image all four.
pub proof fn lemma_quadrants_of_corners_and_inside(pos: Position, far: Position)
    requires
        far.x > 0,
        far.y > 0,
    ensures
        pos.x == 0 && pos.y == 0 ==> valid_quadrants(pos, far) == DOWN_RIGHT,
        pos == far ==> valid_quadrants(pos, far) == UP_LEFT,
        0 < pos.x < far.x && 0 < pos.y < far.y ==> valid_quadrants(pos, far) == ALL_QUADRANTS,
{
}

/// The quadrants of the node in row `row` and column `col` of a lattice with
/// `cells` cells per axis that lie inside the image. Rows run along `x` and
/// columns along `y`: the first row is the left edge, the first column the
/// top edge. A corner node has one quadrant, any other edge node two, and a
/// node inside the lattice all four.
pub open spec fn node_quadrants(cells: int, row: int, col: int) -> u8 {
    let up = col > 0;
    let down = col < cells;
    let left = row > 0;
    let right = row < cells;
    let up_left = if up && left { UP_LEFT } else { 0 };
    let up_right = if up && right { UP_RIGHT } else { 0 };
    let down_left = if down && left { DOWN_LEFT } else { 0 };
    let down_right = if down && right { DOWN_RIGHT } else { 0 };
    (up_left + up_right + down_left + down_right) as u8
}

/// The position of the node in row `row` and column `col` of the lattice of
/// an image of `width` by `height` pixels.
pub open spec fn node_position(width: int, height: int, row: int, col: int) -> Position {
    Position { x: (width * row) as u64, y: (height * col) as u64 }
}

/// Going by its position, a lattice node has the quadrants that its row and
/// column give it: a node lies on an edge of the image exactly when it is the
/// first or the last of its axis.
pub proof fn lemma_quadrants_of_node(width: int, height: int, cells: int, row: int, col: int)
    requires
        0 < width <= u32::MAX,
        0 < height <= u32::MAX,
        0 < cells <= u32::MAX,
        0 <= row <= cells,
        0 <= col <= cells,
    ensures
        valid_quadrants(
            node_position(width, height, row, col),
            node_position(width, height, cells, cells),
        ) == node_quadrants(cells, row, col),
{
    lemma_edge_nodes(width, cells, row);
    lemma_edge_nodes(height, cells, col);
}

/// Whether pixel `(x, y)` lies in the rectangle from `(x_start, y_start)` up
/// to, not including, `(x_end, y_end)`.
pub open spec fn in_rect(
    x_start: int,
    x_end: int,
    y_start: int,
    y_end: int,
    x: int,
    y: int,
) -> bool {
    x_start <= x < x_end && y_start <= y < y_end
}

/// Whether the offsets of the pixels `start .. end` from a node at `at`, in
/// `cells`-ths of a pixel, all fit a signed 64-bit number.
pub open spec fn offsets_fit(cells: int, at: int, start: int, end: int) -> bool {
    i64::MIN <= cells * start - at && cells * (end - 1) - at <= i64::MAX
}

/// The pixel boundary `k` half cells along an axis: `extent * k / (2 * cells)`,
/// rounded down.
pub open spec fn half_edge(extent: int, cells: int, k: int) -> int {
    (extent * k) / (2 * cells)
}

/// First pixel in the reach of node `node` along an axis: half a cell before
/// the node. The first node reaches from the image edge, and past the last
/// node the bound is the far edge, so that node `n` reaches the pixels from
/// `reach_bound(n)` up to, not including, `reach_bound(n + 1)`.
pub open spec fn reach_bound(extent: int, cells: int, node: int) -> int {
    if node <= 0 {
        0
    } else if node > cells {
        extent
    } else {
        half_edge(extent, cells, 2 * node - 1)
    }
}

/// The pixel column (or row) of node `node` itself: its position rounded down.
pub open spec fn reach_mid(extent: int, cells: int, node: int) -> int {
    (extent * node) / cells
}

/// Whether pixel coordinate `x` lies in the reach of node `node` along one axis.
pub open spec fn in_reach(extent: int, cells: int, node: int, x: int) -> bool {
    reach_bound(extent, cells, node) <= x < reach_bound(extent, cells, node + 1)
}

/// The reach of a node starts before the node and ends after it, and stays
/// inside the image.
pub proof fn lemma_reach_ordered(extent: int, cells: int, node: int)
    requires
        0 < extent,
        0 < cells,
        0 <= node <= cells,
    ensures
        0 <= reach_bound(extent, cells, node) <= reach_mid(extent, cells, node),
        reach_mid(extent, cells, node) <= reach_bound(extent, cells, node + 1) <= extent,
        node == 0 ==> reach_mid(extent, cells, node) == 0,
        node == cells ==> reach_mid(extent, cells, node) == extent,
{
    let span = 2 * cells;
    let at = extent * node;
    lemma_scaled_product(extent, node);
    lemma_scaled_product(extent, node + 1);
    lemma_product_bounds(extent, cells, node);
    assert((2 * at) / span == at / cells) by {
        lemma_div_denominator(2 * at, 2, cells);
    }
    lemma_div_multiples_vanish(extent, cells);
    if node > 0 {
        lemma_div_is_ordered(2 * at - extent, 2 * at, span);
        lemma_div_pos_is_pos(2 * at - extent, span);
    }
    if node < cells {
        assert(span * extent == 2 * (extent * cells)) by (nonlinear_arith)
            requires
                span == 2 * cells,
        ;
        lemma_div_is_ordered(2 * at, 2 * at + extent, span);
        lemma_div_is_ordered(2 * at + extent, span * extent, span);
        lemma_div_multiples_vanish(extent, span);
        assert(extent * (2 * (node + 1) - 1) == extent * (2 * node + 1));
    }
}

/// Reaches come in the order of their nodes: a later node starts no earlier.
pub proof fn lemma_reach_monotone(extent: int, cells: int, first: int, second: int)
    requires
        0 < extent,
        0 < cells,
        0 <= first <= second <= cells + 1,
    ensures
        reach_bound(extent, cells, first) <= reach_bound(extent, cells, second),
    decreases second - first,
{
    if first < second {
        lemma_reach_ordered(extent, cells, first);
        lemma_reach_monotone(extent, cells, first + 1, second);
    }
}

/// Along one axis every pixel of the image lies in the reach of exactly one
/// node: the reaches tile the axis without gap or overlap.
pub proof fn lemma_reach_tiles_axis(extent: int, cells: int, x: int)
    requires
        0 < extent,
        0 < cells,
        0 <= x < extent,
    ensures
        exists|node: int| 0 <= node <= cells && in_reach(extent, cells, node, x),
        forall|a: int, b: int|
            0 <= a <= cells && 0 <= b <= cells && in_reach(extent, cells, a, x) && in_reach(
                extent,
                cells,
                b,
                x,
            ) ==> a == b,
{
    lemma_reach_covers_up_to(extent, cells, x, cells);
    assert forall|a: int, b: int|
        0 <= a <= cells && 0 <= b <= cells && in_reach(extent, cells, a, x) && in_reach(
            extent,
            cells,
            b,
            x,
        ) implies a == b by {
        if a < b {
            lemma_reach_monotone(extent, cells, a + 1, b);
        }
        if b < a {
            lemma_reach_monotone(extent, cells, b + 1, a);
        }
    }
}

/// A pixel in the reach of a node is at most half a cell and one pixel away
/// from it: twice its offset, in `cells`-ths of a pixel, stays between
/// `-(extent + 2 * cells)` and `extent`.
pub proof fn lemma_offset_in_reach(extent: int, cells: int, node: int, x: int)
    requires
        0 < extent,
        0 < cells,
        0 <= node <= cells,
        0 <= x < extent,
        in_reach(extent, cells, node, x),
    ensures
        -(extent + 2 * cells) < 2 * (cells * x - extent * node) <= extent,
{
    let span = 2 * cells;
    let at = extent * node;
    lemma_scaled_product(extent, node);
    lemma_product_bounds(extent, cells, node);
    assert(span * x == 2 * (cells * x)) by (nonlinear_arith)
        requires
            span == 2 * cells,
    ;
    assert(0 <= cells * x < cells * extent) by (nonlinear_arith)
        requires
            0 < cells,
            0 <= x < extent,
    ;
    if node > 0 {
        let low = (2 * at - extent) / span;
        lemma_fundamental_div_mod(2 * at - extent, span);
        assert(span * low <= span * x) by (nonlinear_arith)
            requires
                low <= x,
                0 < span,
        ;
    }
    if node < cells {
        let high = (2 * at + extent) / span;
        lemma_fundamental_div_mod(2 * at + extent, span);
        assert(span * (x + 1) <= span * high) by (nonlinear_arith)
            requires
                x + 1 <= high,
                0 < span,
        ;
        assert(span * (x + 1) == span * x + span) by (nonlinear_arith);
    }
}

/// A node lies on an edge of the image exactly when it is the first or the
/// last of its axis, and every position up to the far corner fits 64 bits.
proof fn lemma_edge_nodes(extent: int, cells: int, node: int)
    requires
        0 < extent <= u32::MAX,
        0 < cells <= u32::MAX,
        0 <= node <= cells,
    ensures
        (extent * node == 0) == (node == 0),
        (extent * node == extent * cells) == (node == cells),
        0 <= extent * node <= extent * cells <= u64::MAX,
{
    assert(extent * cells <= u64::MAX) by (nonlinear_arith)
        requires
            0 < extent <= u32::MAX,
            0 < cells <= u32::MAX,
    ;
    assert((extent * node == 0) == (node == 0)) by (nonlinear_arith)
        requires
            0 < extent,
            0 <= node,
    ;
    assert((extent * node == extent * cells) == (node == cells) && 0 <= extent * node <= extent
        * cells) by (nonlinear_arith)
        requires
            0 < extent,
            0 <= node <= cells,
    ;
}

proof fn lemma_scaled_product(extent: int, k: int)
    ensures
        extent * (2 * k - 1) == 2 * (extent * k) - extent,
        extent * (2 * k + 1) == 2 * (extent * k) + extent,
{
    assert(extent * (2 * k - 1) == 2 * (extent * k) - extent) by (nonlinear_arith);
    assert(extent * (2 * k + 1) == 2 * (extent * k) + extent) by (nonlinear_arith);
}

proof fn lemma_product_bounds(extent: int, cells: int, node: int)
    requires
        0 < extent,
        0 <= node <= cells,
    ensures
        0 <= extent * node <= extent * cells,
        extent * cells == cells * extent,
        node < cells ==> extent * node + extent <= extent * cells,
{
    assert(0 <= extent * node <= extent * cells) by (nonlinear_arith)
        requires
            0 < extent,
            0 <= node <= cells,
    ;
    assert(extent * cells == cells * extent) by (nonlinear_arith);
    if node < cells {
        assert(extent * node + extent <= extent * cells) by (nonlinear_arith)
            requires
                0 < extent,
                0 <= node,
                node + 1 <= cells,
        ;
    }
}

proof fn lemma_reach_covers_up_to(extent: int, cells: int, x: int, last: int)
    requires
        0 < extent,
        0 < cells,
        0 <= last <= cells,
        0 <= x < reach_bound(extent, cells, last + 1),
    ensures
        exists|node: int| 0 <= node <= last && in_reach(extent, cells, node, x),
    decreases last,
{
    if x >= reach_bound(extent, cells, last) {
        assert(in_reach(extent, cells, last, x));
    } else {
        lemma_reach_covers_up_to(extent, cells, x, last - 1);
    }
}

} // verus!
