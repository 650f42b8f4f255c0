pub mod branch;
pub mod checksum;
pub mod commit;
pub mod compress;
pub mod digest;
pub mod encoding;
pub mod entry;
pub mod envelope;
pub mod index;
pub mod index_format;
pub mod keyed;
pub mod lock;
pub mod object_id;
pub mod order;
pub mod refs;
pub mod resolve;
pub mod revision;
pub mod status;
pub mod store;
pub mod table;
pub mod tree;
pub mod tree_diff;
