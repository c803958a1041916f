pub mod document;
pub mod storage;
pub mod cli;
