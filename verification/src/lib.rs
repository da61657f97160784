pub mod config;
pub mod cyclomatic;
pub mod detector;
pub mod error;
pub mod jsonl;
pub mod loc;
pub mod misses;
pub mod paths;
pub mod rolling_hash;
pub mod text;
pub mod tokenizer;
