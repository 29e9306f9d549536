pub mod syntax_base;
