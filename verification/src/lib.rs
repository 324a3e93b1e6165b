//! Verified core of an astronomical frame-alignment pipeline.
//!
//! The library models frames as row-major grids of integer samples and
//! verifies the alignment logic: grid indexing with clamped and toroidal
//! border policies, connected-component extraction, exact single-pass
//! statistics, star detection with flux-weighted centroids, median
//! filtering and correlation-peak unwrapping, and construction of the
//! gauge-fixed least-squares system that reconciles pairwise offsets.
//!
//! Floating-point work with no logical content of its own (the FFT proper,
//! the dense least-squares solve, PNG decoding) is left to callers; the
//! library states and proves everything that can be said exactly.

pub mod alg;
pub mod correlate;
pub mod image;
pub mod registration;
pub mod starfinder;
