pub mod event;
pub mod parser;
