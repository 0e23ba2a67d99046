//! A row-major pixel buffer, a clipped region cursor over it, and a display
//! surface that keeps such a buffer ready for transfer to a screen.

pub mod buffer;
pub mod screen;
