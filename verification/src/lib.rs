pub mod bitmap;
pub mod dither;
pub mod encode;
pub mod names;
pub mod registry;
