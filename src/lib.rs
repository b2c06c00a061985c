//! Alpha-border dilation of raw pixel buffers: colour from opaque pixels is
//! spread into neighbouring transparent pixels, so that filtering or
//! recompression does not pull dark fringes in at alpha edges.
//!
//! A buffer is `w * h` pixels in row-major order, of three or four bytes each;
//! the last byte of a pixel is its alpha-like byte. The mathematical model of a
//! pass, of the multi-pass driver, of the alpha-preserving merge and of the
//! region write-back is in [`model`]; the executable functions in [`dilate`]
//! and [`region`] are proved to compute exactly it, and [`laws`] states and
//! proves the properties that follow from it.
pub mod model;

pub mod dilate;

pub mod region;

pub mod laws;

pub use dilate::{converge, copy_color_values, dilate};
pub use region::{
    dilate_image, dilate_image_sub, dilate_region, try_dilate_image, try_dilate_image_sub,
    DilateError, DILATE_ALPHA_THRESHOLD, DILATE_ROUNDS,
};
