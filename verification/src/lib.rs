//! The logic of a server that spreads the counting of text patterns over many workers.
//!
//! The files of large text dumps are handed out to workers in batches ([`tasks`]). Workers send
//! back counted patterns ([`intake`]), which are tallied in memory ([`accumulator`]) and added to
//! the counts in a database from time to time ([`store`]). The counts are compiled into one
//! binary image, sorted by frequency ([`image`]).
pub mod accumulator;
pub mod batch_id;
pub mod dumps;
pub mod flush_laws;
pub mod image;
pub mod image_laws;
pub mod intake;
pub mod le;
pub mod outside;
pub mod paths;
pub mod request_laws;
pub mod stats;
pub mod status;
pub mod store;
pub mod table;
pub mod task_laws;
pub mod tasks;
pub mod text;
pub mod workers;
