//! Core of a collaborative-text CRDT: identifiers, run-length spans with
//! their YATA anchors, the leaf level of the run-length tree, and the
//! bookkeeping (known operation ranges, version vector) around integration.
pub mod id;
pub mod leaf;
pub mod op_span_set;
pub mod rle_vec;
pub mod version_vector;
pub mod y_span;
pub mod yata;
