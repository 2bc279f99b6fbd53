pub mod canon;
pub mod map;
