//! Decoding of a cluster resource manager's textual inventory reports:
//! one line per entity, attributes as whitespace-separated `Key=Value`
//! tokens, and node membership written in a compact hostlist syntax
//! (`node[39-40,42-43]`).
//!
//! The crate tokenizes lines, maps tokens onto typed node and partition
//! records, expands hostlist expressions into explicit name lists, and
//! builds name-keyed, uniqueness-enforced collections of the records.
//! Every function is specified and verified; running commands and
//! presenting the results is left to callers.
pub mod errors;
pub mod hostlist;
pub mod node;
pub mod num;
pub mod partition;
pub mod terminal_size;
pub mod text;
pub mod tokenize;
