//! The content side of a personal web site: blog posts written in Markdown
//! with a small front matter, photo albums read from directories, and the
//! portfolio.

pub mod models;
pub mod text;
pub mod paths;
pub mod markdown;
pub mod posts;
pub mod media;
pub mod routes;
pub mod projects;
