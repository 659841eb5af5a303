//! The portfolio shown on the projects page.

use vstd::prelude::*;
use crate::models::{Project, ProjectLink};

verus! {

/// Tags as their characters.
pub open spec fn tag_views(tags: Seq<&'static str>) -> Seq<Seq<char>> {
    tags.map_values(|t: &'static str| t@)
}

/// The projects of the portfolio, in the order the page lists them.
pub fn project_list() -> (ps: Vec<Project>)
    ensures
        ps@.len() == 2,
        ps@[0].title@ == "Gambit"@,
        ps@[0].description@ == "A peer-to-peer betting platform built on Polygon..."@,
        tag_views(ps@[0].tags@) == seq![
            "SvelteKit"@,
            "Solidity"@,
            "Postgres"@,
            "Ethers.js"@,
            "IPFS"@,
        ],
        ps@[0].year@ == "2025"@,
        ps@[0].image is None,
        ps@[0].links@.len() == 1,
        ps@[0].links@[0].label@ == "GitHub"@,
        ps@[0].links@[0].href@ == "https://github.com/MatthewdeHaas/gambit-svelte"@,
        ps@[1].title@ == "Personal Site"@,
        ps@[1].description@ == "This site. Built with Rust and Alpine"@,
        tag_views(ps@[1].tags@) == seq!["Rust"@, "Alpine.js"@],
        ps@[1].year@ == "2026"@,
        ps@[1].image is None,
        ps@[1].links@.len() == 1,
        ps@[1].links@[0].label@ == "GitHub"@,
        ps@[1].links@[0].href@ == "https://github.com/yourname/personal-site"@,
{
    let gambit = Project {
        title: "Gambit",
        description: "A peer-to-peer betting platform built on Polygon...",
        tags: vec!["SvelteKit", "Solidity", "Postgres", "Ethers.js", "IPFS"],
        year: "2025",
        image: None,
        links: vec![
            ProjectLink { label: "GitHub", href: "https://github.com/MatthewdeHaas/gambit-svelte" },
        ],
    };
    let site = Project {
        title: "Personal Site",
        description: "This site. Built with Rust and Alpine",
        tags: vec!["Rust", "Alpine.js"],
        year: "2026",
        image: None,
        links: vec![
            ProjectLink { label: "GitHub", href: "https://github.com/yourname/personal-site" },
        ],
    };
    assert(tag_views(gambit.tags@) =~= seq![
        "SvelteKit"@,
        "Solidity"@,
        "Postgres"@,
        "Ethers.js"@,
        "IPFS"@,
    ]);
    assert(tag_views(site.tags@) =~= seq!["Rust"@, "Alpine.js"@]);
    vec![gambit, site]
}

} // verus!
