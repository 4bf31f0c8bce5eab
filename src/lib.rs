//! Compiles textual descriptions of directory trees (ASCII drawings or nested
//! mappings) into one canonical tree, and plans its materialization.
pub mod tree;
pub mod text;
pub mod ascii;
pub mod structured;
pub mod materialize;
pub mod laws;
pub mod dedent_laws;
pub mod order_laws;
