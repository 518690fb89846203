pub mod admin;
pub mod auth;
pub mod backend;
pub mod background;
pub mod bucket;
pub mod checksum;
pub mod codec;
pub mod codes;
pub mod config;
pub mod digest;
pub mod error;
pub mod format;
pub mod gc;
pub mod halt;
pub mod keylocks;
pub mod le;
pub mod markers;
pub mod meta;
pub mod names;
pub mod order;
pub mod pairs;
pub mod pressure;
pub mod registry;
pub mod replication;
pub mod serve;
pub mod text;
