pub mod code_pair;
