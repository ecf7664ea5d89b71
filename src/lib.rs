pub mod field;
pub mod transcript;
pub mod multilinear;
pub mod univariate;
pub mod composed;
pub mod sumcheck;
pub mod circuit;
pub mod gkr;
pub mod kzg;
pub mod dense;
