//! The verified core of a Lottie animation renderer.
//!
//! Pixels are premultiplied ARGB32 words, `0xAARRGGBB`.

pub mod argb;
pub mod blend;
pub mod budget;
pub mod canvas;
pub mod compose;
pub mod composition;
pub mod cov_cache;
pub mod decode;
pub mod dirty;
pub mod error;
pub mod fill;
pub mod gradient;
pub mod hash;
pub mod heap;
pub mod host;
pub mod jobs;
pub mod json;
pub mod layer;
pub mod limits;
pub mod luts;
pub mod mask;
pub mod names;
pub mod number;
pub mod options;
pub mod pieces;
pub mod pixel;
pub mod plan;
pub mod plane;
pub mod png;
pub mod property;
pub mod recall;
pub mod renderer;
pub mod replay;
pub mod scene;
pub mod scratch;
pub mod shape;
pub mod spans;
pub mod static_jobs;
pub mod stats;
pub mod still;
pub mod stops;
pub mod stroke;
pub mod style;
pub mod tidy;
pub mod touched;
pub mod tree;
pub mod trim;
