//! Grid bookkeeping for a mass-spring cloth: the row-major layout of the
//! particle grid, the spring topology and anchors of a fresh cloth, the line
//! indices handed to a renderer, and the picking of the particle under the
//! cursor.
pub mod grid;
pub mod cloth;
pub mod render;
pub mod picking;
