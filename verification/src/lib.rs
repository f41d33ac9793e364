//! A store for markdown documents: content-addressed ingestion, chunking,
//! search post-processing and a knowledge graph extracted from the text.

pub mod chunk;
pub mod cli;
pub mod command;
pub mod db;
pub mod document;
pub mod error;
pub mod fetch;
pub mod graph;
pub mod ingest;
pub mod order;
pub mod pages;
pub mod path;
pub mod places;
pub mod printed;
pub mod reads;
pub mod report;
pub mod rows;
pub mod search;
pub mod store;
pub mod table;
pub mod text;
pub mod traverse;
pub mod watch;
pub mod writes;
