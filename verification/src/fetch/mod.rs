//! The fetch path's own formats: record batches and their varints, segment
//! framing, batch scanning, record filtering and the in-memory batch buffer.
pub mod record;
pub mod varint;
pub mod raw_batch;
pub mod batches;
pub mod record_filter;
pub mod indexed_decoder;
pub mod buffer;
pub mod segment_reader;
pub mod kafka_decoder;
pub mod buffer_read;
pub mod partition_response;
pub mod merge;
pub mod object_segments;
pub mod raw_segments;
pub mod handler_config;
pub mod segment_fetch;
