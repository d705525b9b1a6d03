//! Pierre, a log indexer: the rules every ingest, storage and query path shares.

pub mod aggregate;
pub mod auth;
pub mod backup;
pub mod clock;
pub mod config;
pub mod decimal;
pub mod floattext;
pub mod hextext;
pub mod ingest;
pub mod json;
pub mod keycodec;
pub mod listener;
pub mod logql;
pub mod lokiproto;
pub mod mcp;
pub mod migrate;
pub mod order;
pub mod otlpproto;
pub mod proto;
pub mod query;
pub mod record;
pub mod retention;
pub mod rollup;
pub mod sorting;
pub mod stats;
pub mod storage;
pub mod strmap;
pub mod template;
pub mod text;
pub mod textindex;
