use chrono::NaiveDate;
use personal_site::media::{
    build_album, classify_asset, find_album, join_capitalized, split_slug, title_from_slug,
};
use personal_site::models::{Album, AlbumMetadata};
use personal_site::paths::{file_extension, file_stem_of};
use personal_site::projects::project_list;

fn date() -> NaiveDate {
    NaiveDate::from_ymd_opt(2024, 7, 14).unwrap()
}

fn metadata(cover: Option<&str>) -> AlbumMetadata {
    AlbumMetadata {
        description: "Trip".to_string(),
        date: date(),
        cover_url: cover.map(|c| c.to_string()),
    }
}

fn album(slug: &str, description: &str) -> Album {
    let mut m = metadata(None);
    m.description = description.to_string();
    build_album(slug.to_string(), m, Vec::new())
}

#[test]
fn file_extension_and_stem_follow_path() {
    assert_eq!(file_extension("photo.jpg"), Some("jpg".to_string()));
    assert_eq!(file_extension("archive.tar.gz"), Some("gz".to_string()));
    assert_eq!(file_extension("trailing."), Some("".to_string()));
    assert_eq!(file_extension(".hidden"), None);
    assert_eq!(file_extension("noext"), None);
    assert_eq!(file_extension(".."), None);
    assert_eq!(file_stem_of("archive.tar.gz"), "archive.tar");
    assert_eq!(file_stem_of(".hidden"), ".hidden");
    assert_eq!(file_stem_of("noext"), "noext");
    assert_eq!(file_stem_of(".."), "..");
}

#[test]
fn classify_asset_photos_and_videos() {
    let a = classify_asset("beach.jpg").unwrap();
    assert_eq!(a.file_name, "beach.jpg");
    assert_eq!(a.asset_type, "photo");
    for name in ["a.jpeg", "b.png", "c.heic", "d.webp"] {
        assert_eq!(classify_asset(name).unwrap().asset_type, "photo");
    }
    for name in ["clip.mp4", "clip.mov", "clip.webm"] {
        let v = classify_asset(name).unwrap();
        assert_eq!(v.asset_type, "video");
        assert_eq!(v.file_name, name);
    }
}

#[test]
fn classify_asset_skips_other_files() {
    assert!(classify_asset("metadata.json").is_none());
    assert!(classify_asset("notes.txt").is_none());
    assert!(classify_asset("IMG.JPG").is_none());
    assert!(classify_asset(".jpg").is_none());
    assert!(classify_asset("jpg").is_none());
    assert!(classify_asset("").is_none());
}

#[test]
fn title_from_slug_capitalizes_words() {
    assert_eq!(title_from_slug("summer-in-paris"), "Summer In Paris");
    assert_eq!(title_from_slug("--a  b--c-"), "A B C");
    assert_eq!(title_from_slug("already-Upper"), "Already Upper");
    assert_eq!(title_from_slug("2024-trip"), "2024 Trip");
    assert_eq!(title_from_slug(""), "");
    assert_eq!(title_from_slug("---"), "");
    assert_eq!(title_from_slug("straße-élan"), "Straße Élan");
    assert_eq!(title_from_slug("ßx"), "SSx");
}

#[test]
fn build_album_fills_all_fields() {
    let names = vec![
        "metadata.json".to_string(),
        "b.mp4".to_string(),
        "a.jpg".to_string(),
        "notes.txt".to_string(),
        "c.webp".to_string(),
    ];
    let a = build_album("road-trip".to_string(), metadata(Some("/media/cover.jpg")), names);
    assert_eq!(a.title, "Road Trip");
    assert_eq!(a.slug, "road-trip");
    assert_eq!(a.description, "Trip");
    assert_eq!(a.date, date());
    assert_eq!(a.cover_url, "/media/cover.jpg");
    let assets: Vec<(&str, &str)> = a
        .assets
        .iter()
        .map(|x| (x.file_name.as_str(), x.asset_type.as_str()))
        .collect();
    assert_eq!(assets, vec![("b.mp4", "video"), ("a.jpg", "photo"), ("c.webp", "photo")]);
}

#[test]
fn build_album_without_cover() {
    let a = build_album("x".to_string(), metadata(None), vec!["metadata.json".to_string()]);
    assert_eq!(a.cover_url, "");
    assert!(a.assets.is_empty());
    assert_eq!(a.title, "X");
}

#[test]
fn find_album_returns_last_match() {
    let albums = vec![album("a", "first"), album("b", "other"), album("a", "second")];
    assert_eq!(find_album(&albums, "a").unwrap().description, "second");
    assert_eq!(find_album(&albums, "b").unwrap().description, "other");
    assert!(find_album(&albums, "c").is_none());
}

#[test]
fn project_list_holds_portfolio() {
    let ps = project_list();
    assert_eq!(ps.len(), 2);
    assert_eq!(ps[0].title, "Gambit");
    assert_eq!(ps[0].tags, vec!["SvelteKit", "Solidity", "Postgres", "Ethers.js", "IPFS"]);
    assert_eq!(ps[0].year, "2025");
    assert!(ps[0].image.is_none());
    assert_eq!(ps[0].links[0].href, "https://github.com/MatthewdeHaas/gambit-svelte");
    assert_eq!(ps[1].title, "Personal Site");
    assert_eq!(ps[1].tags, vec!["Rust", "Alpine.js"]);
    assert_eq!(ps[1].links[0].label, "GitHub");
}

#[test]
fn split_slug_into_words() {
    assert_eq!(split_slug("summer-in-paris"), vec!["summer", "in", "paris"]);
    assert_eq!(split_slug(" -a\tbc--d- "), vec!["a", "bc", "d"]);
    assert!(split_slug("").is_empty());
    assert!(split_slug("- -").is_empty());
}

#[test]
fn join_capitalized_replaces_initials() {
    let words = vec!["summer".to_string(), "in".to_string(), "x".to_string()];
    let initials = vec!["S".to_string(), "I".to_string(), "Y".to_string()];
    assert_eq!(join_capitalized(&words, &initials), "Summer In Y");
    assert_eq!(join_capitalized(&Vec::new(), &Vec::new()), "");
    let words = vec!["".to_string(), "ab".to_string()];
    let initials = vec!["Q".to_string(), "".to_string()];
    assert_eq!(join_capitalized(&words, &initials), "Q b");
}
