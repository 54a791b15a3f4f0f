//! N-Queens by incremental constraint propagation: a board keeps, for every
//! row that is still undecided, the columns that no committed queen attacks.
//! The search commits one row at a time and prunes the rows below it.

pub mod board;
pub mod completeness;
pub mod layout;
pub mod order;
pub mod record;
pub mod render;
pub mod search;
pub mod soundness;
