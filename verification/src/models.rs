//! The records the site is built from: blog posts, portfolio projects and
//! photo albums.

use vstd::prelude::*;

verus! {

/// A calendar date as `chrono` holds it; the library only carries it from an
/// album's metadata to the album.
#[verifier::external_type_specification]
#[verifier::external_body]
pub struct ExNaiveDate(chrono::NaiveDate);

/// A blog post: its slug (the file name without `.md`), the three front-matter
/// fields and the body rendered to HTML.
pub struct Post {
    pub slug: String,
    pub title: String,
    pub date: String,
    pub description: String,
    pub content: String,
}

/// A link shown under a project.
pub struct ProjectLink {
    pub label: &'static str,
    pub href: &'static str,
}

/// A portfolio entry.
pub struct Project {
    pub title: &'static str,
    pub description: &'static str,
    pub tags: Vec<&'static str>,
    pub year: &'static str,
    pub image: Option<&'static str>,
    pub links: Vec<ProjectLink>,
}

/// A photo or video file of an album.
pub struct Asset {
    pub file_name: String,
    pub asset_type: String,
}

/// A photo album: one directory of media files with a `metadata.json`.
pub struct Album {
    pub title: String,
    pub slug: String,
    pub description: String,
    pub date: chrono::NaiveDate,
    pub cover_url: String,
    pub assets: Vec<Asset>,
}

/// What an album's `metadata.json` holds.
pub struct AlbumMetadata {
    pub description: String,
    pub date: chrono::NaiveDate,
    pub cover_url: Option<String>,
}

} // verus!
