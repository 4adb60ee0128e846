pub mod adapter;
pub mod analysis;
pub mod rows;
pub mod similarity;
pub mod syntax;
