pub mod canon;
