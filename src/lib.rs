//! Batch generation of personalised slide decks from tabular client data.
pub mod normalize;
pub mod record;
pub mod ingest;
pub mod text;
pub mod templates;
pub mod planner;
pub mod archive;
pub mod rewriter;
pub mod run;
