//! Decoder for the metadata log ("manifest") of a log-structured merge
//! storage engine: block framing, record reassembly, and the tagged
//! encoding of version edits.

pub mod checksum;
pub mod codec;
pub mod compaction;
pub mod edit;
pub mod encode;
pub mod files;
pub mod framer;
pub mod laws;
