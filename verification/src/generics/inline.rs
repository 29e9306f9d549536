pub mod full_link;
