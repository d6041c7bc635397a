//! A small embedded persistent record queue: binary record and metadata
//! codecs, cursor arithmetic of the replay queue, and the registry of named
//! queues with its text format. All file access lives outside this library;
//! it hands the library plain bytes and text.

pub mod text;

pub mod record_header;
pub mod record;
pub mod meta;
pub mod log;
pub mod storage;

pub mod config;
pub mod config_store;

pub mod command;
