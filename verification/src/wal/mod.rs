//! The write-ahead log: a manifest of checksummed lines beside the segments they name.

pub mod coverage;
pub mod dir;
pub mod lineage;
pub mod lines;
pub mod manifest;
pub mod record;
pub mod recovery;
pub mod replay;
pub mod roundtrip;
pub mod scan;
pub mod segment;
pub mod sidecar;
pub mod torn;
pub mod writer;
