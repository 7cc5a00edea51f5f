pub mod typ;
