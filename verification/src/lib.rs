pub mod ast;
pub mod plan;
pub mod sql;
pub mod text;
pub mod source;
pub mod protocol;
pub mod query;
pub mod format;
pub mod adapters;
