pub mod html_entities;
pub mod utils;
