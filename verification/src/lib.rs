mod error;
pub mod article;
pub mod index;
pub mod queue;
pub mod scan;
pub mod score;
pub mod search;
pub mod tokenize;

pub use error::Error;
