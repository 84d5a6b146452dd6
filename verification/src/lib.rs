pub mod checksum;
pub mod text;
pub mod yaml;
pub mod dsl;
pub mod formats;
pub mod filter;
pub mod bytes;
pub mod bfmt;
pub mod bfmt_load;
pub mod bfmt_roundtrip;
pub mod numfmt;
pub mod expr;
pub mod parser;
pub mod display;
pub mod intparse;
pub mod patch;
pub mod validate;
pub mod template;
pub mod instance;
pub mod instantiate;
pub mod export;
pub mod diff;
pub mod stats;
pub mod viewer;
pub mod cli;
