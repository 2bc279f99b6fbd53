pub mod matrix;
pub mod number;
pub mod seq;
pub mod smith;
pub mod order;
pub mod ident;
pub mod iterator;
pub mod category_of_relations;
pub mod sort;
