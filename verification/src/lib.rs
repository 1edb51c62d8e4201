//! Loading and choosing the questions of a point-and-line viewer, and the
//! integer decisions of its drawing, each stated as a contract and proved.

pub mod cli;
pub mod connets;
pub mod geometry;
pub mod gpu_setup;
pub mod number;
pub mod parser;
pub mod points;
pub mod question;
pub mod raster;
pub mod text;
