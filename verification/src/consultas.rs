pub mod select;
