//! Image framing: rounded corners, drop shadows, generated backgrounds and
//! aspect-ratio driven canvas layout, over a plain RGBA8 pixel buffer.

pub mod background;
pub mod color;
pub mod error;
pub mod layout;
pub mod pipeline;
pub mod pixels;
pub mod rounding;
pub mod shadow;
