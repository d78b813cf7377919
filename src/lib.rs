//! A small static-site toolkit: a constrained markdown dialect (a frontmatter
//! header and a body of blank-line separated blocks) parsed into a node tree
//! and rendered to HTML fragments.

pub mod config;
pub mod markdown;
pub mod text;
