//! A verified perfect-maze generator over a rectangular grid.
//!
//! The core is a union-find forest (`disjoint_set`) and the randomized
//! carving algorithm (`maze`) that grows a spanning tree over the grid's
//! adjacency graph.  Grid addressing, the injected random source, the pixel
//! buffer that renders walls, and the player movement checker sit around it.

pub mod disjoint_set;
pub mod draw_api;
pub mod grid;
pub mod items;
pub mod maze;
pub mod player;
pub mod rng;
pub mod screen_buffer;
