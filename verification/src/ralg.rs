pub mod module;
pub mod ring;
