pub mod clip;
pub mod color;
