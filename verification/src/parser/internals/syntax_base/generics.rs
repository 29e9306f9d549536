pub mod inline;
