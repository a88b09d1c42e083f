//! Strided pixel buffers, windowed evaluation over them, and the
//! index logic of corner detection and patch description.

pub mod pixel;
pub mod image;
pub mod parallel;
pub mod ops;
pub mod suppress;
pub mod descriptor;
