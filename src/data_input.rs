pub mod file_input;
