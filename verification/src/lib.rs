//! A greedy color-diffusion painter.
//!
//! Given a palette holding exactly one color per grid cell and a set of seed
//! coordinates, the library grows colored regions outward from the seeds: at
//! every step the next palette color is committed to the empty frontier cell
//! whose already-colored neighbors match it best, until every cell is colored.

pub mod color;
pub mod engine;
pub mod image;

pub use color::Rgb;
pub use color::color_dist;
pub use color::generate_equally_spaced_rgb_colors;
pub use engine::Engine;
pub use engine::generate;
pub use engine::try_generate;
pub use image::Image;
