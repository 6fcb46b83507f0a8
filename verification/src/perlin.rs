//! The noise engine: a lattice of gradient nodes and the pass that paints
//! every pixel of the image from the node that reaches it.
//!
//! The engine decides which node paints which pixel and what that node is
//! asked: the offset of the pixel from the node and the gradient direction of
//! the node. Turning the two into an intensity is the work of the shading
//! function that the caller hands to [`Perlin::generate`]. It is called as
//! `shade(dx, dy, turn)`, where `(dx, dy)` is the offset from the node to the
//! pixel in `cells`-ths of a pixel and `turn` the step of the gradient on the
//! circle of [`TURN_STEPS`] steps. A pixel that coincides with its node has no
//! direction to project: it gets [`NEUTRAL`] and `shade` is not asked.

use crate::canvas::Canvas;
use crate::gradient::{Gradient, TURN_STEPS};
use crate::lattice::{
    in_reach, in_rect, is_lattice, lemma_offset_in_reach, lemma_quadrants_of_node,
    lemma_reach_ordered, lemma_reach_tiles_axis, node_position, offsets_fit, reach_bound,
    rows_of, valid_quadrants, GridPoint, Position, DOWN_LEFT, DOWN_RIGHT, UP_LEFT, UP_RIGHT,
};
use rand::rngs::StdRng;
use vstd::prelude::*;

verus! {

/// Intensity of a pixel that coincides with its node: there is no direction
/// to project onto the gradient.
pub const NEUTRAL: u8 = 0;

/// Whether `intensity` is what pixel `(x, y)` gets from the node `point`: the
/// neutral value where the pixel coincides with the node, else a value that
/// `shade` gives for the offset of the pixel from the node, in `cells`-ths of
/// a pixel, and the gradient direction of the node.
pub open spec fn shaded<F: Fn(i64, i64, u32) -> u8>(
    shade: F,
    point: GridPoint,
    cells: int,
    x: int,
    y: int,
    intensity: u8,
) -> bool {
    let dx = cells * x - point.pos.x;
    let dy = cells * y - point.pos.y;
    if dx == 0 && dy == 0 {
        intensity == NEUTRAL
    } else {
        call_ensures(shade, (dx as i64, dy as i64, point.gradient@ as u32), intensity)
    }
}

/// Whether `shade` accepts every offset other than zero together with every
/// valid gradient direction.
pub open spec fn accepts_all<F: Fn(i64, i64, u32) -> u8>(shade: F) -> bool {
    forall|dx: i64, dy: i64, turn: u32|
        (dx != 0 || dy != 0) && turn < TURN_STEPS ==> #[trigger] call_requires(
            shade,
            (dx, dy, turn),
        )
}

/// Whether `shade` gives one intensity for one input.
pub open spec fn single_valued<F: Fn(i64, i64, u32) -> u8>(shade: F) -> bool {
    forall|dx: i64, dy: i64, turn: u32, a: u8, b: u8|
        #[trigger] call_ensures(shade, (dx, dy, turn), a) && #[trigger] call_ensures(
            shade,
            (dx, dy, turn),
            b,
        ) ==> a == b
}

/// Why a configuration was turned down.
#[derive(Clone, Copy, Debug, PartialEq, Eq)]
pub enum ConfigError {
    /// The image has no pixels: its width or its height is zero.
    EmptyImage,
    /// The lattice would have no cells.
    NoSubdivisions,
    /// The canvas handed in is not of the configured size.
    SizeMismatch,
}

/// The fault of a configuration, if it has one. An empty image is reported
/// first, then a lattice without cells, then a canvas of another size.
pub open spec fn config_fault(size: (u32, u32), subdivisions: u32, canvas: (nat, nat)) -> Option<
    ConfigError,
> {
    if size.0 == 0 || size.1 == 0 {
        Some(ConfigError::EmptyImage)
    } else if subdivisions == 0 {
        Some(ConfigError::NoSubdivisions)
    } else if canvas != (size.0 as nat, size.1 as nat) {
        Some(ConfigError::SizeMismatch)
    } else {
        None
    }
}

impl ConfigError {
    /// A sentence that names the fault.
    pub fn message(&self) -> (text: String)
        ensures
            text@ == match *self {
                ConfigError::EmptyImage => "image width and height must be positive"@,
                ConfigError::NoSubdivisions => "subdivision count must be positive"@,
                ConfigError::SizeMismatch => "canvas size differs from the configured size"@,
            },
    {
        match self {
            ConfigError::EmptyImage => "image width and height must be positive".to_owned(),
            ConfigError::NoSubdivisions => "subdivision count must be positive".to_owned(),
            ConfigError::SizeMismatch => "canvas size differs from the configured size".to_owned(),
        }
    }
}

/// The noise engine: the image size, the number of lattice cells per axis,
/// the lattice and the canvas that it paints.
pub struct Perlin {
    size: (u32, u32),
    subdivisions: u32,
    image: Canvas,
    grid: Vec<Vec<GridPoint>>,
}

impl Perlin {
    /// Width of the image in pixels.
    pub closed spec fn width(&self) -> int {
        self.size.0 as int
    }

    /// Height of the image in pixels.
    pub closed spec fn height(&self) -> int {
        self.size.1 as int
    }

    /// Number of lattice cells per axis.
    pub closed spec fn cells(&self) -> int {
        self.subdivisions as int
    }

    /// The canvas that the engine paints.
    pub closed spec fn canvas(&self) -> Canvas {
        self.image
    }

    /// The lattice, row by row.
    pub closed spec fn lattice(&self) -> Seq<Seq<GridPoint>> {
        rows_of(self.grid)
    }

    /// The engine is configured soundly: a non-empty image, at least one
    /// cell, a canvas of the image size and a full lattice.
    pub open spec fn wf(&self) -> bool {
        &&& 0 < self.width() <= u32::MAX
        &&& 0 < self.height() <= u32::MAX
        &&& 0 < self.cells() <= u32::MAX
        &&& self.canvas().wf()
        &&& self.canvas().width() == self.width()
        &&& self.canvas().height() == self.height()
        &&& is_lattice(self.lattice(), self.width(), self.height(), self.cells())
    }

    /// The lattice node in row `row` and column `col`.
    pub open spec fn node(&self, row: int, col: int) -> GridPoint {
        self.lattice()[row][col]
    }

    /// The far corner of the image, as a lattice position.
    pub open spec fn far_corner(&self) -> Position {
        node_position(self.width(), self.height(), self.cells(), self.cells())
    }

    /// Whether pixel `(x, y)` lies in the reach of the node in row `row` and
    /// column `col`: within half a cell of it along both axes.
    pub open spec fn reaches(&self, row: int, col: int, x: int, y: int) -> bool {
        &&& in_reach(self.width(), self.cells(), row, x)
        &&& in_reach(self.height(), self.cells(), col, y)
    }

    /// Whether pixel `(x, y)` of the canvas holds what the node in row `row`
    /// and column `col` gives it under `shade`.
    pub open spec fn painted_from<F: Fn(i64, i64, u32) -> u8>(
        &self,
        shade: F,
        row: int,
        col: int,
        x: int,
        y: int,
    ) -> bool {
        shaded(shade, self.node(row, col), self.cells(), x, y, self.canvas().pixel(x, y))
    }

    /// Whether the canvas holds a finished image under `shade`: every pixel
    /// within the reach of a node holds what that node gives it.
    pub open spec fn rendered<F: Fn(i64, i64, u32) -> u8>(&self, shade: F) -> bool {
        forall|row: int, col: int, x: int, y: int|
            0 <= row <= self.cells() && 0 <= col <= self.cells() && self.reaches(row, col, x, y)
                ==> #[trigger] self.painted_from(shade, row, col, x, y)
    }

    /// Builds the lattice for an image of `size` pixels cut into
    /// `subdivisions` cells per axis. The positions are exact; each gradient
    /// direction is drawn from `rng`.
    pub fn generate_grid(size: (u32, u32), subdivisions: u32, rng: &mut StdRng) -> (grid: Vec<
        Vec<GridPoint>,
    >)
        ensures
            is_lattice(rows_of(grid), size.0 as int, size.1 as int, subdivisions as int),
    {
        let mut grid: Vec<Vec<GridPoint>> = Vec::new();
        let mut row_idx: u64 = 0;
        while row_idx <= subdivisions as u64
            invariant
                row_idx <= subdivisions + 1,
                grid@.len() == row_idx,
                forall|row: int|
                    0 <= row < row_idx ==> (#[trigger] grid@[row])@.len() == subdivisions + 1,
                forall|row: int, col: int|
                    0 <= row < row_idx && 0 <= col <= subdivisions ==> {
                        &&& (#[trigger] grid@[row]@[col]).pos.x == size.0 * row
                        &&& grid@[row]@[col].pos.y == size.1 * col
                        &&& grid@[row]@[col].gradient@ < TURN_STEPS
                    },
            decreases subdivisions + 1 - row_idx,
        {
            assert(size.0 * row_idx <= u64::MAX) by (nonlinear_arith)
                requires
                    size.0 <= u32::MAX,
                    row_idx <= u32::MAX,
            ;
            let x_pos: u64 = size.0 as u64 * row_idx;
            let mut row: Vec<GridPoint> = Vec::new();
            let mut col: u64 = 0;
            while col <= subdivisions as u64
                invariant
                    col <= subdivisions + 1,
                    row@.len() == col,
                    x_pos == size.0 * row_idx,
                    forall|c: int|
                        0 <= c < col ==> {
                            &&& (#[trigger] row@[c]).pos.x == x_pos
                            &&& row@[c].pos.y == size.1 * c
                            &&& row@[c].gradient@ < TURN_STEPS
                        },
                decreases subdivisions + 1 - col,
            {
                assert(size.1 * col <= u64::MAX) by (nonlinear_arith)
                    requires
                        size.1 <= u32::MAX,
                        col <= u32::MAX,
                ;
                let y_pos: u64 = size.1 as u64 * col;
                row.push(
                    GridPoint {
                        pos: Position { x: x_pos, y: y_pos },
                        gradient: Gradient::random(rng),
                    },
                );
                col += 1;
            }
            grid.push(row);
            row_idx += 1;
        }
        grid
    }

    /// Sets up an engine for an image of `size` pixels with `subdivisions`
    /// lattice cells per axis, painting into `image` and drawing the gradient
    /// directions from `rng`. A configuration with an empty image, without
    /// cells or with a canvas of another size is turned down.
    pub fn new(size: (u32, u32), subdivisions: u32, image: Canvas, rng: &mut StdRng) -> (made:
        Result<Perlin, ConfigError>)
        requires
            image.wf(),
        ensures
            made is Ok <==> config_fault(size, subdivisions, (image.width(), image.height()))
                is None,
            made matches Ok(perlin) ==> {
                &&& perlin.wf()
                &&& perlin.width() == size.0
                &&& perlin.height() == size.1
                &&& perlin.cells() == subdivisions
                &&& perlin.canvas() == image
            },
            made matches Err(error) ==> config_fault(
                size,
                subdivisions,
                (image.width(), image.height()),
            ) == Some(error),
    {
        if size.0 == 0 || size.1 == 0 {
            return Err(ConfigError::EmptyImage);
        }
        if subdivisions == 0 {
            return Err(ConfigError::NoSubdivisions);
        }
        let (width, height) = image.dimensions();
        if width != size.0 || height != size.1 {
            return Err(ConfigError::SizeMismatch);
        }
        let grid = Perlin::generate_grid(size, subdivisions, rng);
        Ok(Perlin { size, subdivisions, image, grid })
    }

    /// Width and height of the image in pixels.
    pub fn size(&self) -> (size: (u32, u32))
        ensures
            size.0 == self.width(),
            size.1 == self.height(),
    {
        self.size
    }

    /// Number of lattice cells per axis.
    pub fn subdivisions(&self) -> (subdivisions: u32)
        ensures
            subdivisions == self.cells(),
    {
        self.subdivisions
    }

    /// The lattice node in row `row` and column `col`, or `None` past the
    /// last row or column.
    pub fn point(&self, row: usize, col: usize) -> (found: Option<GridPoint>)
        ensures
            found == if row < self.lattice().len() && col < self.lattice()[row as int].len() {
                Some(self.node(row as int, col as int))
            } else {
                None
            },
    {
        proof {
            self.lemma_rows(row as int);
        }
        if row < self.grid.len() && col < self.grid[row].len() {
            Some(self.grid[row][col])
        } else {
            None
        }
    }

    /// The canvas, to read the image from.
    pub fn image(&self) -> (image: &Canvas)
        ensures
            *image == self.canvas(),
    {
        &self.image
    }

    /// Gives up the engine for its canvas.
    pub fn into_image(self) -> (image: Canvas)
        ensures
            image == self.canvas(),
    {
        self.image
    }

    /// The quadrants around `point` that lie inside the image, as a mask of
    /// the four quadrant bits.
    pub fn check_bounds(&self, point: &GridPoint) -> (check: u8)
        ensures
            check == valid_quadrants(point.pos, self.far_corner()),
    {
        assert(self.size.0 * self.subdivisions <= u64::MAX && self.size.1 * self.subdivisions
            <= u64::MAX) by (nonlinear_arith)
            requires
                self.size.0 <= u32::MAX,
                self.size.1 <= u32::MAX,
                self.subdivisions <= u32::MAX,
        ;
        let far_x: u64 = self.size.0 as u64 * self.subdivisions as u64;
        let far_y: u64 = self.size.1 as u64 * self.subdivisions as u64;
        assert(0b1111u8 & 0b0011 == 0b0011 && 0b1111u8 & 0b1100 == 0b1100 && 0b1111u8 & 0b0101
            == 0b0101 && 0b1111u8 & 0b1010 == 0b1010 && 0b0011u8 & 0b0101 == 0b0001 && 0b0011u8
            & 0b1010 == 0b0010 && 0b1100u8 & 0b0101 == 0b0100 && 0b1100u8 & 0b1010 == 0b1000)
            by (bit_vector);
        let mut check: u8 = 0b1111;

        if point.pos.y == 0 {
            check = check & 0b0011;
        } else if point.pos.y == far_y {
            check = check & 0b1100;
        }
        if point.pos.x == 0 {
            check = check & 0b0101;
        } else if point.pos.x == far_x {
            check = check & 0b1010;
        }
        check
    }

    /// Paints the pixels of the rectangle from `(x_start, y_start)` up to, not
    /// including, `(x_end, y_end)` from the node `point`: each gets the
    /// intensity that `shade` gives for its offset from the node and the
    /// gradient of the node, or the neutral value where it coincides with the
    /// node. Every pixel of the rectangle is written once, no other is touched.
    pub fn loop_through<F: Fn(i64, i64, u32) -> u8>(
        point: &GridPoint,
        x_start: u32,
        x_end: u32,
        y_start: u32,
        y_end: u32,
        image: &mut Canvas,
        subdivisions: u32,
        shade: &F,
    )
        requires
            old(image).wf(),
            accepts_all(*shade),
            x_start < x_end && y_start < y_end ==> {
                &&& x_end <= old(image).width()
                &&& y_end <= old(image).height()
                &&& offsets_fit(
                    subdivisions as int,
                    point.pos.x as int,
                    x_start as int,
                    x_end as int,
                )
                &&& offsets_fit(
                    subdivisions as int,
                    point.pos.y as int,
                    y_start as int,
                    y_end as int,
                )
            },
        ensures
            final(image).wf(),
            final(image).same_frame(*old(image)),
            forall|x: int, y: int|
                in_rect(x_start as int, x_end as int, y_start as int, y_end as int, x, y)
                    ==> shaded(
                    *shade,
                    *point,
                    subdivisions as int,
                    x,
                    y,
                    #[trigger] final(image).pixel(x, y),
                ),
            forall|x: int, y: int|
                in_rect(x_start as int, x_end as int, y_start as int, y_end as int, x, y)
                    ==> #[trigger] final(image).writes(x, y) == old(image).writes(x, y) + 1,
            forall|x: int, y: int|
                old(image).contains(x, y) && !in_rect(
                    x_start as int,
                    x_end as int,
                    y_start as int,
                    y_end as int,
                    x,
                    y,
                ) ==> #[trigger] final(image).pixel(x, y) == old(image).pixel(x, y),
            forall|x: int, y: int|
                !in_rect(x_start as int, x_end as int, y_start as int, y_end as int, x, y)
                    ==> #[trigger] final(image).writes(x, y) == old(image).writes(x, y),
    {
        if x_start >= x_end || y_start >= y_end {
            return;
        }
        let ghost cells = subdivisions as int;
        let ghost (x0, x1) = (x_start as int, x_end as int);
        let ghost (y0, y1) = (y_start as int, y_end as int);
        let ghost before = *image;
        let turn = point.gradient.turn();
        let mut x = x_start;
        while x < x_end
            invariant
                x_start <= x <= x_end,
                y_start < y_end,
                cells == subdivisions,
                (x0, x1) == (x_start as int, x_end as int),
                (y0, y1) == (y_start as int, y_end as int),
                turn == point.gradient@,
                turn < TURN_STEPS,
                accepts_all(*shade),
                image.wf(),
                image.same_frame(before),
                x_end <= image.width(),
                y_end <= image.height(),
                offsets_fit(cells, point.pos.x as int, x0, x1),
                offsets_fit(cells, point.pos.y as int, y0, y1),
                forall|a: int, b: int|
                    in_rect(x0, x as int, y0, y1, a, b) ==> shaded(
                        *shade,
                        *point,
                        cells,
                        a,
                        b,
                        #[trigger] image.pixel(a, b),
                    ),
                forall|a: int, b: int|
                    in_rect(x0, x as int, y0, y1, a, b) ==> #[trigger] image.writes(a, b)
                        == before.writes(a, b) + 1,
                forall|a: int, b: int|
                    before.contains(a, b) && !in_rect(x0, x as int, y0, y1, a, b)
                        ==> #[trigger] image.pixel(a, b) == before.pixel(a, b),
                forall|a: int, b: int|
                    !in_rect(x0, x as int, y0, y1, a, b) ==> #[trigger] image.writes(a, b)
                        == before.writes(a, b),
            decreases x_end - x,
        {
            let mut y = y_start;
            while y < y_end
                invariant
                    x_start <= x < x_end,
                    y_start <= y <= y_end,
                    cells == subdivisions,
                    (x0, x1) == (x_start as int, x_end as int),
                    (y0, y1) == (y_start as int, y_end as int),
                    turn == point.gradient@,
                    turn < TURN_STEPS,
                    accepts_all(*shade),
                    image.wf(),
                    image.same_frame(before),
                    x_end <= image.width(),
                    y_end <= image.height(),
                    offsets_fit(cells, point.pos.x as int, x0, x1),
                    offsets_fit(cells, point.pos.y as int, y0, y1),
                    forall|a: int, b: int|
                        in_rect(x0, x as int, y0, y1, a, b) || in_rect(
                            x as int,
                            x + 1,
                            y0,
                            y as int,
                            a,
                            b,
                        ) ==> shaded(*shade, *point, cells, a, b, #[trigger] image.pixel(a, b)),
                    forall|a: int, b: int|
                        in_rect(x0, x as int, y0, y1, a, b) || in_rect(
                            x as int,
                            x + 1,
                            y0,
                            y as int,
                            a,
                            b,
                        ) ==> #[trigger] image.writes(a, b) == before.writes(a, b) + 1,
                    forall|a: int, b: int|
                        before.contains(a, b) && !in_rect(x0, x as int, y0, y1, a, b) && !in_rect(
                            x as int,
                            x + 1,
                            y0,
                            y as int,
                            a,
                            b,
                        ) ==> #[trigger] image.pixel(a, b) == before.pixel(a, b),
                    forall|a: int, b: int|
                        !in_rect(x0, x as int, y0, y1, a, b) && !in_rect(
                            x as int,
                            x + 1,
                            y0,
                            y as int,
                            a,
                            b,
                        ) ==> #[trigger] image.writes(a, b) == before.writes(a, b),
                decreases y_end - y,
            {
                proof {
                    lemma_offset_between(cells, point.pos.x as int, x0, x1, x as int);
                    lemma_offset_between(cells, point.pos.y as int, y0, y1, y as int);
                }
                let (dx, dy) = Position::new(x, y, subdivisions).subtract(&point.pos);
                let intensity = if dx == 0 && dy == 0 {
                    NEUTRAL
                } else {
                    shade(dx, dy, turn)
                };

                image.put_pixel(x, y, intensity);
                y += 1;
            }
            x += 1;
        }
    }

    /// Paints the whole image: every node paints the pixels within its reach,
    /// each with what `shade` makes of its offset from the node and of the
    /// gradient of the node. The reaches tile the image, so every pixel is
    /// written exactly once, whatever the canvas held before.
    pub fn generate<F: Fn(i64, i64, u32) -> u8>(&mut self, shade: F)
        requires
            old(self).wf(),
            accepts_all(shade),
        ensures
            final(self).wf(),
            final(self).width() == old(self).width(),
            final(self).height() == old(self).height(),
            final(self).cells() == old(self).cells(),
            final(self).lattice() == old(self).lattice(),
            final(self).canvas().same_frame(old(self).canvas()),
            forall|x: int, y: int|
                old(self).canvas().contains(x, y) ==> #[trigger] final(self).canvas().writes(x, y)
                    == old(self).canvas().writes(x, y) + 1,
            final(self).rendered(shade),
    {
        proof {
            self.lemma_rows(0);
        }
        let rows = self.grid.len();
        let mut row: usize = 0;
        while row < rows
            invariant
                self.wf(),
                accepts_all(shade),
                self.size == old(self).size,
                self.subdivisions == old(self).subdivisions,
                self.grid == old(self).grid,
                self.image.same_frame(old(self).image),
                rows == self.cells() + 1,
                row <= rows,
                forall|x: int, y: int|
                    self.image.contains(x, y) && x < reach_bound(
                        self.width(),
                        self.cells(),
                        row as int,
                    ) ==> #[trigger] self.image.writes(x, y) == old(self).image.writes(x, y) + 1,
                forall|x: int, y: int|
                    x >= reach_bound(self.width(), self.cells(), row as int)
                        ==> #[trigger] self.image.writes(x, y) == old(self).image.writes(x, y),
                forall|r: int, c: int, x: int, y: int|
                    0 <= r < row && 0 <= c <= self.cells() && self.reaches(r, c, x, y)
                        ==> #[trigger] self.painted_from(shade, r, c, x, y),
            decreases rows - row,
        {
            proof {
                self.lemma_rows(row as int);
            }
            let cols = self.grid[row].len();
            let mut col: usize = 0;
            while col < cols
                invariant
                    self.wf(),
                    accepts_all(shade),
                    self.size == old(self).size,
                    self.subdivisions == old(self).subdivisions,
                    self.grid == old(self).grid,
                    self.image.same_frame(old(self).image),
                    rows == self.cells() + 1,
                    cols == self.cells() + 1,
                    row < rows,
                    col <= cols,
                    forall|x: int, y: int|
                        self.image.contains(x, y) && self.painted_before(
                            row as int,
                            col as int,
                            x,
                            y,
                        ) ==> #[trigger] self.image.writes(x, y) == old(self).image.writes(x, y)
                            + 1,
                    forall|x: int, y: int|
                        !self.painted_before(row as int, col as int, x, y)
                            ==> #[trigger] self.image.writes(x, y) == old(self).image.writes(x, y),
                    forall|r: int, c: int, x: int, y: int|
                        0 <= r <= row && 0 <= c <= self.cells() && (r < row || c < col)
                            && self.reaches(r, c, x, y) ==> #[trigger] self.painted_from(
                            shade,
                            r,
                            c,
                            x,
                            y,
                        ),
                decreases cols - col,
            {
                let ghost before = *self;
                self.paint_node(row, col, &shade);
                proof {
                    lemma_reach_ordered(self.width(), self.cells(), row as int);
                    lemma_reach_ordered(self.height(), self.cells(), col as int);
                    assert forall|r: int, c: int, x: int, y: int|
                        0 <= r <= row && 0 <= c <= self.cells() && (r < row || c < col + 1)
                            && self.reaches(r, c, x, y) implies #[trigger] self.painted_from(
                        shade,
                        r,
                        c,
                        x,
                        y,
                    ) by {
                        before.lemma_reach_is_exclusive(r, c, x, y);
                        if r != row || c != col {
                            assert(before.painted_from(shade, r, c, x, y));
                        }
                    }
                }
                col += 1;
            }
            proof {
                lemma_reach_ordered(self.width(), self.cells(), row as int);
            }
            row += 1;
        }
    }

    /// Paints the reach of the node in row `row` and column `col`, one
    /// quadrant after the other.
    fn paint_node<F: Fn(i64, i64, u32) -> u8>(&mut self, row: usize, col: usize, shade: &F)
        requires
            old(self).wf(),
            row <= old(self).cells(),
            col <= old(self).cells(),
            accepts_all(*shade),
        ensures
            final(self).wf(),
            final(self).size == old(self).size,
            final(self).subdivisions == old(self).subdivisions,
            final(self).grid == old(self).grid,
            final(self).image.same_frame(old(self).image),
            forall|x: int, y: int|
                old(self).reaches(row as int, col as int, x, y) ==> shaded(
                    *shade,
                    old(self).node(row as int, col as int),
                    old(self).cells(),
                    x,
                    y,
                    #[trigger] final(self).image.pixel(x, y),
                ),
            forall|x: int, y: int|
                old(self).reaches(row as int, col as int, x, y)
                    ==> #[trigger] final(self).image.writes(x, y) == old(self).image.writes(x, y)
                    + 1,
            forall|x: int, y: int|
                old(self).image.contains(x, y) && !old(self).reaches(row as int, col as int, x, y)
                    ==> #[trigger] final(self).image.pixel(x, y) == old(self).image.pixel(x, y),
            forall|x: int, y: int|
                !old(self).reaches(row as int, col as int, x, y)
                    ==> #[trigger] final(self).image.writes(x, y) == old(self).image.writes(x, y),
    {
        proof {
            self.lemma_rows(row as int);
        }
        let point: GridPoint = self.grid[row][col];
        let check = self.check_bounds(&point);
        let width: u128 = self.size.0 as u128;
        let height: u128 = self.size.1 as u128;
        let cells: u128 = self.subdivisions as u128;
        let at_x: u128 = point.pos.x as u128;
        let at_y: u128 = point.pos.y as u128;
        proof {
            let w = width as int;
            let h = height as int;
            let n = cells as int;
            lemma_quadrants_of_node(w, h, n, row as int, col as int);
            lemma_quadrant_bits(check);
            lemma_reach_ordered(w, n, row as int);
            lemma_reach_ordered(h, n, col as int);
            assert(w * (2 * row - 1) == 2 * (w * row) - w) by (nonlinear_arith);
            assert(w * (2 * row + 1) == 2 * (w * row) + w) by (nonlinear_arith);
            assert(h * (2 * col - 1) == 2 * (h * col) - h) by (nonlinear_arith);
            assert(h * (2 * col + 1) == 2 * (h * col) + h) by (nonlinear_arith);
        }
        let (x_mid, y_mid) = point.pos.as_u32(self.subdivisions);

        if check & UP_LEFT != 0 {
            let x_start: u32 = ((2 * at_x - width) / (2 * cells)) as u32;
            let y_start: u32 = ((2 * at_y - height) / (2 * cells)) as u32;
            proof {
                self.lemma_offsets_fit(row as int, col as int, x_start, x_mid, y_start, y_mid);
            }
            Perlin::loop_through(
                &point,
                x_start,
                x_mid,
                y_start,
                y_mid,
                &mut self.image,
                self.subdivisions,
                shade,
            );
        }
        if check & UP_RIGHT != 0 {
            let x_end: u32 = ((2 * at_x + width) / (2 * cells)) as u32;
            let y_start: u32 = ((2 * at_y - height) / (2 * cells)) as u32;
            proof {
                self.lemma_offsets_fit(row as int, col as int, x_mid, x_end, y_start, y_mid);
            }
            Perlin::loop_through(
                &point,
                x_mid,
                x_end,
                y_start,
                y_mid,
                &mut self.image,
                self.subdivisions,
                shade,
            );
        }
        if check & DOWN_LEFT != 0 {
            let x_start: u32 = ((2 * at_x - width) / (2 * cells)) as u32;
            let y_end: u32 = ((2 * at_y + height) / (2 * cells)) as u32;
            proof {
                self.lemma_offsets_fit(row as int, col as int, x_start, x_mid, y_mid, y_end);
            }
            Perlin::loop_through(
                &point,
                x_start,
                x_mid,
                y_mid,
                y_end,
                &mut self.image,
                self.subdivisions,
                shade,
            );
        }
        if check & DOWN_RIGHT != 0 {
            let x_end: u32 = ((2 * at_x + width) / (2 * cells)) as u32;
            let y_end: u32 = ((2 * at_y + height) / (2 * cells)) as u32;
            proof {
                self.lemma_offsets_fit(row as int, col as int, x_mid, x_end, y_mid, y_end);
            }
            Perlin::loop_through(
                &point,
                x_mid,
                x_end,
                y_mid,
                y_end,
                &mut self.image,
                self.subdivisions,
                shade,
            );
        }
    }

    /// Every pixel of the image lies in the reach of exactly one lattice
    /// node: the reaches tile the image without gap or overlap.
    pub proof fn lemma_reaches_tile_image(&self, x: int, y: int)
        requires
            self.wf(),
            self.canvas().contains(x, y),
        ensures
            exists|row: int, col: int|
                0 <= row <= self.cells() && 0 <= col <= self.cells() && #[trigger] self.reaches(
                    row,
                    col,
                    x,
                    y,
                ),
            forall|row: int, col: int, r: int, c: int|
                0 <= row <= self.cells() && 0 <= col <= self.cells() && 0 <= r <= self.cells() && 0
                    <= c <= self.cells() && #[trigger] self.reaches(row, col, x, y)
                    && #[trigger] self.reaches(r, c, x, y) ==> row == r && col == c,
    {
        lemma_reach_tiles_axis(self.width(), self.cells(), x);
        lemma_reach_tiles_axis(self.height(), self.cells(), y);
        let row = choose|row: int|
            0 <= row <= self.cells() && in_reach(self.width(), self.cells(), row, x);
        let col = choose|col: int|
            0 <= col <= self.cells() && in_reach(self.height(), self.cells(), col, y);
        assert(self.reaches(row, col, x, y));
    }

    /// Generation is repeatable: two engines with the same lattice, both
    /// holding a finished image under the same `shade`, hold the same image,
    /// provided `shade` gives one intensity for one input.
    pub proof fn lemma_same_lattice_same_image<F: Fn(i64, i64, u32) -> u8>(
        first: Perlin,
        second: Perlin,
        shade: F,
    )
        requires
            first.wf(),
            second.wf(),
            first.width() == second.width(),
            first.height() == second.height(),
            first.cells() == second.cells(),
            first.lattice() == second.lattice(),
            first.rendered(shade),
            second.rendered(shade),
            single_valued(shade),
        ensures
            forall|x: int, y: int|
                first.canvas().contains(x, y) ==> #[trigger] first.canvas().pixel(x, y)
                    == second.canvas().pixel(x, y),
    {
        assert forall|x: int, y: int| first.canvas().contains(x, y)
            implies #[trigger] first.canvas().pixel(x, y) == second.canvas().pixel(x, y) by {
            first.lemma_reaches_tile_image(x, y);
            let (row, col) = choose|row: int, col: int|
                0 <= row <= first.cells() && 0 <= col <= first.cells() && #[trigger] first.reaches(
                    row,
                    col,
                    x,
                    y,
                );
            assert(second.reaches(row, col, x, y));
            assert(first.painted_from(shade, row, col, x, y));
            assert(second.painted_from(shade, row, col, x, y));
        }
    }

    /// The lattice holds the rows of nodes as they are stored.
    proof fn lemma_rows(&self, row: int)
        ensures
            self.lattice().len() == self.grid@.len(),
            0 <= row < self.grid@.len() ==> self.lattice()[row] == self.grid@[row]@,
    {
    }

    /// Whether pixel `(x, y)` belongs to a node that comes before the node in
    /// row `row` and column `col`, nodes taken row by row.
    spec fn painted_before(&self, row: int, col: int, x: int, y: int) -> bool {
        x < reach_bound(self.width(), self.cells(), row) || (in_reach(
            self.width(),
            self.cells(),
            row,
            x,
        ) && y < reach_bound(self.height(), self.cells(), col))
    }

    /// A pixel in the reach of one node is in the image and in the reach of no
    /// other node.
    proof fn lemma_reach_is_exclusive(&self, row: int, col: int, x: int, y: int)
        requires
            self.wf(),
            0 <= row <= self.cells(),
            0 <= col <= self.cells(),
            self.reaches(row, col, x, y),
        ensures
            self.canvas().contains(x, y),
            forall|r: int, c: int|
                0 <= r <= self.cells() && 0 <= c <= self.cells() && #[trigger] self.reaches(
                    r,
                    c,
                    x,
                    y,
                ) ==> r == row && c == col,
    {
        lemma_reach_ordered(self.width(), self.cells(), row);
        lemma_reach_ordered(self.height(), self.cells(), col);
        lemma_reach_tiles_axis(self.width(), self.cells(), x);
        lemma_reach_tiles_axis(self.height(), self.cells(), y);
    }

    /// The offsets of the pixels of a rectangle inside the reach of a node
    /// fit signed 64-bit numbers.
    proof fn lemma_offsets_fit(
        &self,
        row: int,
        col: int,
        x_start: u32,
        x_end: u32,
        y_start: u32,
        y_end: u32,
    )
        requires
            self.wf(),
            0 <= row <= self.cells(),
            0 <= col <= self.cells(),
            reach_bound(self.width(), self.cells(), row) <= x_start,
            x_end <= reach_bound(self.width(), self.cells(), row + 1),
            reach_bound(self.height(), self.cells(), col) <= y_start,
            y_end <= reach_bound(self.height(), self.cells(), col + 1),
        ensures
            x_start < x_end && y_start < y_end ==> {
                &&& offsets_fit(
                    self.cells(),
                    self.node(row, col).pos.x as int,
                    x_start as int,
                    x_end as int,
                )
                &&& offsets_fit(
                    self.cells(),
                    self.node(row, col).pos.y as int,
                    y_start as int,
                    y_end as int,
                )
            },
    {
        if x_start < x_end && y_start < y_end {
            lemma_reach_ordered(self.width(), self.cells(), row);
            lemma_reach_ordered(self.height(), self.cells(), col);
            lemma_offset_in_reach(self.width(), self.cells(), row, x_start as int);
            lemma_offset_in_reach(self.width(), self.cells(), row, x_end - 1);
            lemma_offset_in_reach(self.height(), self.cells(), col, y_start as int);
            lemma_offset_in_reach(self.height(), self.cells(), col, y_end - 1);
        }
    }
}

/// The bits of a quadrant mask, read back from the sum that makes it.
proof fn lemma_quadrant_bits(check: u8)
    requires
        check < 16,
    ensures
        (check & UP_LEFT != 0) == (check >= 8),
        (check & UP_RIGHT != 0) == (check % 8 >= 4),
        (check & DOWN_LEFT != 0) == (check % 4 >= 2),
        (check & DOWN_RIGHT != 0) == (check % 2 == 1),
{
    assert(check < 16 ==> ((check & 0b1000 != 0) == (check >= 8)) && ((check & 0b0100 != 0) == (
    check % 8 >= 4)) && ((check & 0b0010 != 0) == (check % 4 >= 2)) && ((check & 0b0001 != 0) == (
    check % 2 == 1))) by (bit_vector);
}

/// Offsets grow with the pixel coordinate, so one that lies between two that
/// fit also fits.
proof fn lemma_offset_between(cells: int, at: int, start: int, end: int, x: int)
    requires
        0 <= cells,
        start <= x < end,
        offsets_fit(cells, at, start, end),
    ensures
        i64::MIN <= cells * x - at <= i64::MAX,
{
    assert(cells * start <= cells * x <= cells * (end - 1)) by (nonlinear_arith)
        requires
            0 <= cells,
            start <= x <= end - 1,
    ;
}

} // verus!
