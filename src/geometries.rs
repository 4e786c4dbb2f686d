pub mod gaussian;
pub mod hole;
pub mod plane;
pub mod sphere;
