//! Texture maps from images, and hand-painted relief for pixel art.

pub mod batch;
pub mod binary32;
pub mod cutout;
pub mod distance;
pub mod drift;
pub mod grid;
pub mod light;
pub mod normalmap;
pub mod paced;
pub mod pixels;
pub mod preview;
pub mod relief;
pub mod rounding;
pub mod session;
pub mod shape;
pub mod sheet;
pub mod strokes;
pub mod text;
pub mod theme;
pub mod timeline;
pub mod tools;
pub mod zoom;
