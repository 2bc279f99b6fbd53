pub mod ring;
pub mod torsion;
pub mod canon;
pub mod map;
pub mod direct;
