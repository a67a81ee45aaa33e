//! UltraCortex core: the deterministic state machines, codecs and rules of a
//! self-policing shared-memory substrate, with their contracts.

pub mod vocab;
pub mod ulid;
pub mod cbor;
pub mod bytes;
pub mod codec;
pub mod codec_laws;
pub mod glob;
pub mod minitoml;
pub mod deepseek;
pub mod rows;
pub mod lists;
pub mod sorting;
pub mod idmap;
pub mod cells;
pub mod hex;
pub mod fixed;
pub mod digest;
pub mod cipher;
pub mod persist;
pub mod curator;
pub mod obs;
pub mod net;
pub mod config;
pub mod node;
pub mod proto;
pub mod cli;
pub mod bootstrap;
pub mod snapshots;
pub mod substrate;
pub mod text;
pub mod textmap;
pub mod wiring;
