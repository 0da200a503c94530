//! A template-driven knowledge-graph construction engine with a columnar
//! triple store partitioned by predicate and object type.
pub mod value;
pub mod model;
pub mod batch;
pub mod triplestore;
pub mod constants;
pub mod remap;
pub mod mapping;
pub mod default;
pub mod sparql;
pub mod ntriples;
