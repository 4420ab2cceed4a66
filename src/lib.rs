pub mod algorithms;
pub mod cmd_line;
pub mod data_input;
pub mod graphs;
mod text;
