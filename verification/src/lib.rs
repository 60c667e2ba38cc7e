pub mod error;
pub mod fragment;
pub mod generator;
pub mod processor;
pub mod text;
pub mod value;
