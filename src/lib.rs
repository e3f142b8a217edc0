//! Exact arbitrary-precision decimal arithmetic — signed integers over
//! base-ten digit sequences and scaled decimals built on them — and a small
//! symbolic expression tree that can be simplified and evaluated exactly.
pub mod digits;
pub mod float;
pub mod formula;
pub mod integer;
pub mod text;
