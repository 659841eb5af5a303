//! The paths of the site's pages that are named after a post or an album.

use vstd::prelude::*;

verus! {

/// The path of the page of the post `slug`.
pub fn article_path(slug: &str) -> (p: String)
    ensures
        p@ == "/articles/"@ + slug@,
{
    let mut p = String::from_str("/articles/");
    p.append(slug);
    p
}

/// The path of the page of the album `slug`.
pub fn album_path(slug: &str) -> (p: String)
    ensures
        p@ == "/gallery/"@ + slug@,
{
    let mut p = String::from_str("/gallery/");
    p.append(slug);
    p
}

} // verus!
