pub mod clustering;
