//! Physical quantities with exact magnitudes: unit tables per dimension,
//! conversion between the units of one dimension, same-dimension
//! arithmetic and the fixed set of cross-dimension products and quotients.

pub mod number;
pub mod magnitude;
pub mod value;
pub mod length;
pub mod area;
pub mod volume;
pub mod mass;
pub mod time;
pub mod velocity;
pub mod calc;
pub mod text;
pub mod laws;
