pub mod laws;
pub mod printer;
pub mod reader;
pub mod step1_read_print;
pub mod types;
