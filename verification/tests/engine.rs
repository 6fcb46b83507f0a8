use std::cell::Cell;
use std::f32::consts::PI;

use image::GrayImage;
use perlin_noise::canvas::Canvas;
use perlin_noise::gradient::{Gradient, TURN_STEPS};
use perlin_noise::lattice::{GridPoint, Position};
use perlin_noise::perlin::{ConfigError, Perlin};
use rand::rngs::StdRng;
use rand::{RngCore, SeedableRng};

fn blank(width: u32, height: u32, fill: u8) -> Canvas {
    Canvas::from_raw(width, height, vec![fill; (width * height) as usize]).unwrap()
}

fn engine(width: u32, height: u32, cells: u32, seed: u64, fill: u8) -> Perlin {
    let mut rng = StdRng::seed_from_u64(seed);
    Perlin::new((width, height), cells, blank(width, height, fill), &mut rng).unwrap()
}

/// Projection of the unit offset onto the unit gradient, scaled to a byte.
fn project(cells: u32, dx: i64, dy: i64, turn: u32) -> u8 {
    let angle = (turn as f32 / TURN_STEPS as f32) * 2.0 * PI;
    let (gx, gy) = (angle.sin(), angle.cos());
    let (ox, oy) = (dx as f32 / cells as f32, dy as f32 / cells as f32);
    let mag = (ox * ox + oy * oy).sqrt();
    let (nx, ny) = if mag != 0.0 { (ox / mag, oy / mag) } else { (ox, oy) };
    ((nx * gx + ny * gy) * 255.0) as u8
}

/// First pixel in the reach of a node, worked out independently of the library.
fn bound(extent: u64, cells: u64, node: u64) -> u64 {
    if node == 0 {
        0
    } else if node > cells {
        extent
    } else {
        extent * (2 * node - 1) / (2 * cells)
    }
}

/// The node whose reach holds pixel coordinate `x`.
fn owner(extent: u64, cells: u64, x: u64) -> u64 {
    let owners: Vec<u64> = (0..=cells)
        .filter(|&node| bound(extent, cells, node) <= x && x < bound(extent, cells, node + 1))
        .collect();
    assert_eq!(owners.len(), 1, "pixel {} must have exactly one owner", x);
    owners[0]
}

#[test]
fn end_to_end_128_with_three_subdivisions() {
    let mut perlin = engine(128, 128, 3, 42, 0);
    assert_eq!(perlin.size(), (128, 128));
    assert_eq!(perlin.subdivisions(), 3);
    let mut nodes = 0;
    for row in 0..4 {
        for col in 0..4 {
            assert!(perlin.point(row, col).is_some());
            nodes += 1;
        }
    }
    assert_eq!(nodes, 16);
    assert!(perlin.point(4, 0).is_none());
    assert!(perlin.point(0, 4).is_none());

    perlin.generate(|dx, dy, turn| project(3, dx, dy, turn));

    assert_eq!(perlin.image().dimensions(), (128, 128));
    // The top left lattice corner coincides with pixel (0, 0): neutral value.
    assert_eq!(perlin.image().get_pixel(0, 0), Some(0));
    // The other three lattice corners lie on the far edges, outside the image.
    assert_eq!(perlin.image().get_pixel(128, 0), None);
    assert_eq!(perlin.image().get_pixel(0, 128), None);
    assert_eq!(perlin.image().get_pixel(128, 128), None);

    for x in 0..128u32 {
        for y in 0..128u32 {
            let row = owner(128, 3, x as u64);
            let col = owner(128, 3, y as u64);
            let node = perlin.point(row as usize, col as usize).unwrap();
            let dx = 3 * x as i64 - node.pos.x as i64;
            let dy = 3 * y as i64 - node.pos.y as i64;
            let turn = node.gradient.turn();
            let expected = if dx == 0 && dy == 0 { 0 } else { project(3, dx, dy, turn) };
            assert_eq!(perlin.image().get_pixel(x, y), Some(expected), "pixel ({}, {})", x, y);
        }
    }
    let raw = perlin.into_image().into_raw();
    assert_eq!(raw.len(), 128 * 128);
    let image = GrayImage::from_raw(128, 128, raw).unwrap();
    assert_eq!(image.dimensions(), (128, 128));
}

#[test]
fn generate_writes_every_pixel_exactly_once() {
    for &(width, height, cells) in
        &[(8u32, 8u32, 4u32), (128, 128, 3), (7, 5, 2), (3, 9, 7), (1, 1, 1), (10, 4, 1), (5, 5, 9)]
    {
        let mut perlin = engine(width, height, cells, 7, 7);
        let calls = Cell::new(0u64);
        perlin.generate(|dx, dy, turn| {
            calls.set(calls.get() + 1);
            assert!(dx != 0 || dy != 0);
            assert!(turn < TURN_STEPS);
            200
        });
        // A pixel that coincides with the node that reaches it is written
        // without a call.
        let mut coincident = 0u64;
        for x in 0..width {
            for y in 0..height {
                let row = owner(width as u64, cells as u64, x as u64);
                let col = owner(height as u64, cells as u64, y as u64);
                let on_node = cells as u64 * x as u64 == width as u64 * row
                    && cells as u64 * y as u64 == height as u64 * col;
                let expected = if on_node { 0 } else { 200 };
                if on_node {
                    coincident += 1;
                }
                assert_eq!(perlin.image().get_pixel(x, y), Some(expected), "pixel ({}, {})", x, y);
            }
        }
        assert_eq!(calls.get() + coincident, width as u64 * height as u64);
        let raw = perlin.into_image().into_raw();
        assert_eq!(raw.len() as u64, width as u64 * height as u64);
        assert!(raw.iter().all(|&v| v != 7));
    }
}

#[test]
fn every_pixel_is_painted_from_the_node_that_reaches_it() {
    let (width, height, cells) = (20u32, 12u32, 3u32);
    let mut perlin = engine(width, height, cells, 99, 0);
    let code = |dx: i64, dy: i64, turn: u32| -> u8 {
        (1 + (dx * 31 + dy * 17 + turn as i64).rem_euclid(250)) as u8
    };
    perlin.generate(code);
    for x in 0..width {
        for y in 0..height {
            let row = owner(width as u64, cells as u64, x as u64);
            let col = owner(height as u64, cells as u64, y as u64);
            let node = perlin.point(row as usize, col as usize).unwrap();
            let dx = cells as i64 * x as i64 - node.pos.x as i64;
            let dy = cells as i64 * y as i64 - node.pos.y as i64;
            // The node is at most half a cell and one pixel away.
            assert!(2 * dx.abs() <= (width + 2 * cells) as i64);
            assert!(2 * dy.abs() <= (height + 2 * cells) as i64);
            let expected = if dx == 0 && dy == 0 { 0 } else { code(dx, dy, node.gradient.turn()) };
            assert_eq!(perlin.image().get_pixel(x, y), Some(expected), "pixel ({}, {})", x, y);
        }
    }
}

#[test]
fn generation_is_repeatable() {
    let mut first = engine(64, 48, 5, 2024, 0);
    let mut second = engine(64, 48, 5, 2024, 255);
    first.generate(|dx, dy, turn| project(5, dx, dy, turn));
    second.generate(|dx, dy, turn| project(5, dx, dy, turn));
    let once: Vec<u8> = (0..48u32)
        .flat_map(|y| (0..64u32).map(move |x| (x, y)))
        .map(|(x, y)| first.image().get_pixel(x, y).unwrap())
        .collect();
    first.generate(|dx, dy, turn| project(5, dx, dy, turn));
    let twice = first.into_image().into_raw();
    assert_eq!(once, twice);
    assert_eq!(twice, second.into_image().into_raw());
}

#[test]
fn same_seed_gives_the_same_lattice() {
    let first = engine(32, 32, 4, 5, 0);
    let second = engine(32, 32, 4, 5, 0);
    let other = engine(32, 32, 4, 6, 0);
    let mut differs = false;
    for row in 0..5 {
        for col in 0..5 {
            assert_eq!(first.point(row, col), second.point(row, col));
            differs |= first.point(row, col) != other.point(row, col);
        }
    }
    assert!(differs);
}

#[test]
fn lattice_positions_are_exact_and_gradients_follow_the_generator() {
    let mut rng = StdRng::seed_from_u64(11);
    let mut replay = rng.clone();
    let grid = Perlin::generate_grid((128, 96), 3, &mut rng);
    assert_eq!(grid.len(), 4);
    for (row, nodes) in grid.iter().enumerate() {
        assert_eq!(nodes.len(), 4);
        for (col, node) in nodes.iter().enumerate() {
            assert_eq!(node.pos, Position { x: 128 * row as u64, y: 96 * col as u64 });
            assert_eq!(node.gradient.turn(), replay.next_u32() >> 8);
            assert_eq!(node.pos.as_u32(3), ((128 * row as u32) / 3, (96 * col as u32) / 3));
        }
    }
    // Both generators have advanced by the same sixteen draws.
    assert_eq!(rng.next_u32(), replay.next_u32());
}

#[test]
fn positions_count_in_cell_fractions() {
    assert_eq!(Position::new(3, 4, 5), Position { x: 15, y: 20 });
    assert_eq!(Position::new(0, 0, 9), Position { x: 0, y: 0 });
    assert_eq!(Position::new(7, 2, 0), Position { x: 0, y: 0 });
    assert_eq!(
        Position::new(u32::MAX, u32::MAX, u32::MAX),
        Position { x: 0xffff_fffe_0000_0001, y: 0xffff_fffe_0000_0001 }
    );
    // Whole pixels, the fraction cut off, not rounded.
    assert_eq!(Position { x: 128, y: 256 }.as_u32(3), (42, 85));
    assert_eq!(Position { x: 384, y: 0 }.as_u32(3), (128, 0));
    assert_eq!(Position { x: 2, y: 5 }.as_u32(3), (0, 1));
    assert_eq!(Position { x: 15, y: 20 }.as_u32(5), (3, 4));
    // A position past the largest pixel coordinate is capped.
    assert_eq!(Position { x: u64::MAX, y: 1 << 32 }.as_u32(1), (u32::MAX, u32::MAX));
    assert_eq!(Position { x: (1 << 32) - 1, y: 1 << 33 }.as_u32(2), (0x7fff_ffff, u32::MAX));
}

#[test]
fn offsets_are_differences_of_positions() {
    let node = Position { x: 128, y: 256 };
    assert_eq!(Position::new(42, 85, 3).subtract(&node), (-2, -1));
    assert_eq!(Position::new(43, 86, 3).subtract(&node), (1, 2));
    assert_eq!(node.subtract(&node), (0, 0));
    assert_eq!(Position { x: 0, y: 5 }.subtract(&Position { x: 7, y: 0 }), (-7, 5));
    let far = Position { x: i64::MAX as u64, y: 1 << 63 };
    assert_eq!(far.subtract(&Position { x: 0, y: 1 }), (i64::MAX, i64::MAX));
    assert_eq!(Position { x: 0, y: 1 }.subtract(&Position { x: 1 << 63, y: 1 }), (i64::MIN, 0));
}

#[test]
fn lattice_without_cells_is_a_single_node() {
    let mut rng = StdRng::seed_from_u64(1);
    let grid = Perlin::generate_grid((10, 10), 0, &mut rng);
    assert_eq!(grid.len(), 1);
    assert_eq!(grid[0].len(), 1);
    assert_eq!(grid[0][0].pos, Position { x: 0, y: 0 });
}

#[test]
fn configuration_faults_are_reported() {
    let mut rng = StdRng::seed_from_u64(3);
    let empty = Canvas::from_raw(0, 4, Vec::new()).unwrap();
    assert_eq!(Perlin::new((0, 4), 2, empty, &mut rng).err(), Some(ConfigError::EmptyImage));
    let empty = Canvas::from_raw(4, 0, Vec::new()).unwrap();
    assert_eq!(Perlin::new((4, 0), 2, empty, &mut rng).err(), Some(ConfigError::EmptyImage));
    // An empty image is reported before a lattice without cells.
    let empty = Canvas::from_raw(0, 0, Vec::new()).unwrap();
    assert_eq!(Perlin::new((0, 0), 0, empty, &mut rng).err(), Some(ConfigError::EmptyImage));
    assert_eq!(
        Perlin::new((4, 4), 0, blank(4, 4, 0), &mut rng).err(),
        Some(ConfigError::NoSubdivisions)
    );
    // A lattice without cells is reported before a canvas of another size.
    assert_eq!(
        Perlin::new((4, 4), 0, blank(4, 5, 0), &mut rng).err(),
        Some(ConfigError::NoSubdivisions)
    );
    assert_eq!(
        Perlin::new((4, 4), 2, blank(4, 5, 0), &mut rng).err(),
        Some(ConfigError::SizeMismatch)
    );
    assert_eq!(
        Perlin::new((4, 4), 2, blank(5, 4, 0), &mut rng).err(),
        Some(ConfigError::SizeMismatch)
    );
    assert!(Perlin::new((4, 4), 2, blank(4, 4, 0), &mut rng).is_ok());
}

#[test]
fn configuration_faults_have_messages() {
    assert_eq!(ConfigError::EmptyImage.message(), "image width and height must be positive");
    assert_eq!(ConfigError::NoSubdivisions.message(), "subdivision count must be positive");
    assert_eq!(
        ConfigError::SizeMismatch.message(),
        "canvas size differs from the configured size"
    );
}

#[test]
fn new_keeps_the_canvas_it_is_given() {
    let mut rng = StdRng::seed_from_u64(8);
    let canvas = Canvas::from_raw(2, 2, vec![1, 2, 3, 4, 5]).unwrap();
    let perlin = Perlin::new((2, 2), 1, canvas, &mut rng).unwrap();
    assert_eq!(perlin.image().get_pixel(1, 1), Some(4));
    assert_eq!(perlin.into_image().into_raw(), vec![1, 2, 3, 4, 5]);
}

#[test]
fn generate_leaves_spare_intensities_alone() {
    let mut rng = StdRng::seed_from_u64(8);
    let canvas = Canvas::from_raw(2, 2, vec![1, 2, 3, 4, 5, 6]).unwrap();
    let mut perlin = Perlin::new((2, 2), 1, canvas, &mut rng).unwrap();
    perlin.generate(|_, _, _| 90);
    assert_eq!(perlin.image().dimensions(), (2, 2));
    assert_eq!(perlin.into_image().into_raw(), vec![0, 90, 90, 90, 5, 6]);
}

#[test]
fn bounds_of_corner_edge_and_interior_nodes() {
    let perlin = engine(128, 128, 3, 1, 0);
    let gradient = Gradient::from_sample(0);
    let at = |x: u64, y: u64| GridPoint { pos: Position { x, y }, gradient };
    // Positions are in thirds of a pixel: the far corner is at (384, 384).
    assert_eq!(perlin.check_bounds(&at(0, 0)), 0b0001);
    assert_eq!(perlin.check_bounds(&at(384, 384)), 0b1000);
    assert_eq!(perlin.check_bounds(&at(128, 256)), 0b1111);
    assert_eq!(perlin.check_bounds(&at(384, 0)), 0b0010);
    assert_eq!(perlin.check_bounds(&at(0, 384)), 0b0100);
    assert_eq!(perlin.check_bounds(&at(128, 0)), 0b0011);
    assert_eq!(perlin.check_bounds(&at(128, 384)), 0b1100);
    assert_eq!(perlin.check_bounds(&at(0, 128)), 0b0101);
    assert_eq!(perlin.check_bounds(&at(384, 128)), 0b1010);
    // A position that is no lattice node counts as interior.
    assert_eq!(perlin.check_bounds(&at(1, 1)), 0b1111);
    assert_eq!(perlin.check_bounds(&at(385, 385)), 0b1111);
}

#[test]
fn bounds_of_the_lattice_nodes() {
    let perlin = engine(128, 128, 3, 1, 0);
    for row in 0..4usize {
        for col in 0..4usize {
            let node = perlin.point(row, col).unwrap();
            let mut expected = 0u8;
            if row > 0 && col > 0 {
                expected |= 0b1000;
            }
            if row < 3 && col > 0 {
                expected |= 0b0100;
            }
            if row > 0 && col < 3 {
                expected |= 0b0010;
            }
            if row < 3 && col < 3 {
                expected |= 0b0001;
            }
            assert_eq!(perlin.check_bounds(&node), expected, "node ({}, {})", row, col);
        }
    }
}

#[test]
fn region_fill_projects_offsets_onto_the_gradient() {
    // Direction 0 is the gradient (sin 0, cos 0) = (0, 1).
    let node = GridPoint { pos: Position { x: 0, y: 0 }, gradient: Gradient::from_sample(0) };
    let mut canvas = blank(4, 4, 9);
    Perlin::loop_through(&node, 0, 3, 0, 3, &mut canvas, 1, &|dx, dy, turn| {
        project(1, dx, dy, turn)
    });
    assert_eq!(canvas.get_pixel(0, 0), Some(0)); // on the node: neutral
    assert_eq!(canvas.get_pixel(0, 1), Some(255)); // along the gradient
    assert_eq!(canvas.get_pixel(0, 2), Some(255));
    assert_eq!(canvas.get_pixel(1, 0), Some(0)); // across the gradient
    assert_eq!(canvas.get_pixel(1, 1), Some(180)); // 255 / sqrt(2), cut off
    assert_eq!(canvas.get_pixel(1, 2), Some(228)); // 255 * 2 / sqrt(5), cut off
    // Outside the rectangle nothing is touched.
    assert_eq!(canvas.get_pixel(3, 0), Some(9));
    assert_eq!(canvas.get_pixel(0, 3), Some(9));
    assert_eq!(canvas.get_pixel(3, 3), Some(9));
}

#[test]
fn region_fill_clamps_negative_projections_to_zero() {
    // Half a turn is the gradient (sin pi, cos pi) = (0, -1).
    let node =
        GridPoint { pos: Position { x: 4, y: 4 }, gradient: Gradient::from_sample(1 << 31) };
    assert_eq!(node.gradient.turn(), TURN_STEPS / 2);
    let mut canvas = blank(4, 4, 9);
    Perlin::loop_through(&node, 1, 3, 1, 4, &mut canvas, 2, &|dx, dy, turn| {
        project(2, dx, dy, turn)
    });
    assert_eq!(canvas.get_pixel(2, 2), Some(0)); // on the node
    assert_eq!(canvas.get_pixel(2, 1), Some(255)); // above the node: along (0, -1)
    assert_eq!(canvas.get_pixel(2, 3), Some(0)); // below: negative, cut to zero
    assert_eq!(canvas.get_pixel(1, 1), Some(180));
    assert_eq!(canvas.get_pixel(0, 1), Some(9));
    assert_eq!(canvas.get_pixel(3, 1), Some(9));
    assert_eq!(canvas.get_pixel(1, 0), Some(9));
}

#[test]
fn region_fill_hands_offsets_in_cell_fractions() {
    let node =
        GridPoint { pos: Position { x: 10, y: 7 }, gradient: Gradient::from_sample(0x0000_0300) };
    let mut canvas = blank(5, 5, 0);
    let calls = std::cell::RefCell::new(Vec::new());
    Perlin::loop_through(&node, 2, 4, 1, 3, &mut canvas, 3, &|dx, dy, turn| {
        calls.borrow_mut().push((dx, dy, turn));
        77
    });
    assert_eq!(
        calls.into_inner(),
        vec![(-4, -4, 3), (-4, -1, 3), (-1, -4, 3), (-1, -1, 3)]
    );
    assert_eq!(canvas.into_raw().iter().filter(|&&v| v == 77).count(), 4);
}

#[test]
fn region_fill_of_an_empty_rectangle_does_nothing() {
    let node = GridPoint { pos: Position { x: 0, y: 0 }, gradient: Gradient::from_sample(0) };
    let mut canvas = blank(3, 3, 5);
    Perlin::loop_through(&node, 2, 2, 0, 3, &mut canvas, 1, &|_, _, _| 1);
    Perlin::loop_through(&node, 0, 3, 1, 1, &mut canvas, 1, &|_, _, _| 1);
    Perlin::loop_through(&node, 3, 1, 0, 3, &mut canvas, 1, &|_, _, _| 1);
    assert_eq!(canvas.into_raw(), vec![5; 9]);
}

#[test]
fn more_cells_than_pixels_still_tiles() {
    let mut perlin = engine(3, 2, 8, 13, 9);
    perlin.generate(|_, _, _| 50);
    let raw = perlin.into_image().into_raw();
    // With cells narrower than a pixel the first nodes reach no pixel at all:
    // pixel (0, 0) belongs to a later node, so it is shaded like the others.
    assert_eq!(raw, vec![50, 50, 50, 50, 50, 50]);
    let mut perlin = engine(3, 2, 1, 13, 9);
    perlin.generate(|_, _, _| 50);
    // With one cell the first node reaches pixel (0, 0) and coincides with it.
    assert_eq!(perlin.into_image().into_raw(), vec![0, 50, 50, 50, 50, 50]);
}
