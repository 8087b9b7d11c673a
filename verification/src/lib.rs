//! Windows over an ordered collection that keep the imperfect tail.
//!
//! A generator walks a borrowed slice and emits sub-ranges ("windows") of a
//! requested size, advancing a fixed step between window starts.  Unlike
//! `std::slice::Windows`, the final window is still emitted when the tail of
//! the collection is shorter than the requested size.

pub mod model;
pub mod window;
pub mod windows;

pub use window::Window;
pub use windows::Windower;
pub use windows::Windows;
