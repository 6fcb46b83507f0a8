//! Lattice gradient noise, rasterised into a grayscale pixel buffer.
//!
//! A square lattice of nodes is laid over the image, each node with a unit
//! gradient pointing in a random direction. Every pixel is painted from the
//! one node that reaches it: the direction from the node to the pixel is
//! projected onto the gradient of the node.
//!
//! * [`gradient`]: gradient directions as exact fractions of a full turn.
//! * [`lattice`]: node positions and the pixels that each node reaches.
//! * [`canvas`]: the pixel buffer.
//! * [`perlin`]: the engine that builds the lattice and paints the image.
//! * [`normal_to_height`]: range remapping and pixel neighbours for the
//!   integration of normal maps.

pub mod canvas;
pub mod gradient;
pub mod lattice;
pub mod normal_to_height;
pub mod perlin;
