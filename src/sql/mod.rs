pub mod command;
pub mod query;
pub mod tokenize;
