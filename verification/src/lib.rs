//! Lazy combinatorial enumeration: stateful generators that produce, on
//! demand, all k-combinations, k-combinations with replacement, all subsets
//! (powerset), or the cartesian product of several sequences, pulling source
//! elements only as they are first needed.

pub mod accumulate;
pub mod combinations;
pub mod combinations_with_replacement;
pub mod laws;
pub mod lazy_buffer;
pub mod model;
pub mod multi_product;
pub mod powerset;
pub mod size_hint;
pub mod vec_items;
