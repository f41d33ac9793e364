//! The commands of the program, as plain values.

use vstd::prelude::*;

verus! {

/// The arguments of the program.
#[derive(Debug)]
pub struct Cli {
    /// Path to the store database, where one is given
    pub store: Option<String>,
    pub command: Command,
}

/// What the program is asked to do.
#[derive(Debug)]
#[allow(inconsistent_fields)]
pub enum Command {
    /// Initialise a new store
    Init,
    /// Add markdown files to the store (file, directory, glob, or https:// URL)
    Add { input: String, collection: String, force: bool },
    /// Full-text search. Supports lex:/vec:/intent: prefixes and filters
    Search {
        query: String,
        limit: usize,
        offset: usize,
        collection: Option<String>,
        snippets: bool,
        where_clause: Option<String>,
        sort: String,
        format: String,
    },
    /// Retrieve a document by ID and print its full content
    Get { id: String },
    /// List stored documents, newest first
    List { collection: Option<String>, limit: usize, offset: usize, format: String },
    /// Reclaim space and improve query performance
    Optimize,
    /// Remove a document and all its graph nodes/edges from the store
    Remove { id: String },
    /// Show store statistics
    Stats,
    /// Watch a directory and auto-reingest .md files as they change
    Watch { dir: String, collection: String },
    /// Generate or update vector embeddings for all stored documents
    Embed { model: String, base_url: String, force: bool },
    /// Knowledge graph operations
    Graph(GraphCommand),
}

/// What is asked of the knowledge graph.
#[derive(Debug)]
pub enum GraphCommand {
    /// Extract (or re-extract) the knowledge graph from all stored documents
    Build { force: bool },
    /// BFS graph traversal from nodes matching a keyword
    Query { text: String, depth: usize, budget: usize },
    /// Find the shortest path between two nodes (by label)
    Path { from: String, to: String },
    /// List neighbors of a node (by label or ID)
    Neighbors { node: String, depth: usize },
    /// List top nodes by degree (most connected)
    GodNodes { limit: usize },
    /// Show which documents link TO a given node (reverse link lookup)
    Backlinks { node: String },
    /// Print a text summary of the graph
    Report,
}

} // verus!
