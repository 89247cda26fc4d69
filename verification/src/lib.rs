//! The discrete core of a small ray tracer.
//!
//! A ray tracer computes with real numbers: where a ray meets a sphere, how
//! brightly a surface is lit. This library holds what it decides without
//! them: which root of a sphere's quadratic is a hit (`shapes`), which of the
//! shapes that a ray meets it strikes first (`search`), how far a chain of
//! mirror reflections is followed and which hit a pixel shows in the end
//! (`bounce`), how the rows of the image are shared out among workers
//! (`tiling`), how the workers' buffers make up the image (`driver`), and how
//! a colour becomes three bytes (`pixel`). The geometry is the caller's: it
//! is handed in as functions and as numbers already computed.

pub mod bounce;
pub mod driver;
pub mod pixel;
pub mod search;
pub mod shapes;
pub mod tiling;
