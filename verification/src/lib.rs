//! Back up an accessible Notion workspace to a git repository.
//!
//! A backup runs in two stages. The dump writes the raw JSON that the Notion API returns, one node
//! directory per page and database. The rendering turns that tree into Markdown pages and a CSV
//! index per database, with links between the pages made relative. Then the tree is committed.
//!
//! This crate decides; the program around it talks to the network, the disk and git. Every decision
//! is a function with a contract, and what holds of the whole is stated as a law and proved.
//!
//! - [`json`], [`text`], [`order`]: values, texts and sorted paths.
//! - [`client`]: requests to the API, retries, pagination.
//! - [`dump`], [`walk`], [`dumper`]: node files, and the walk over the workspace.
//! - [`blocks`], [`util`], [`markup`], [`render`]: Markdown, property values, escaping, and the
//!   rendered tree.
//! - [`config`], [`cli`], [`git_sync`]: configuration, the course of a run, git commands.
//! - [`text_laws`], [`util_laws`], [`block_laws`], [`markup_laws`], [`table_laws`], [`dump_laws`],
//!   [`walk_laws`], [`visit_laws`], [`render_laws`]: the laws that span functions.

pub mod block_laws;
pub mod blocks;
pub mod cli;
pub mod client;
pub mod config;
pub mod dump;
pub mod dump_laws;
pub mod dumper;
pub mod git_sync;
pub mod json;
pub mod markup;
pub mod markup_laws;
pub mod order;
pub mod render;
pub mod render_laws;
pub mod table_laws;
pub mod text;
pub mod text_laws;
pub mod util;
pub mod util_laws;
pub mod visit_laws;
pub mod walk;
pub mod walk_laws;
