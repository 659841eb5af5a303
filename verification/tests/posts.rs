use personal_site::markdown::{
    front_matter_field, parse_post, post_slug, render_markdown, split_front_matter,
};
use personal_site::models::Post;
use personal_site::posts::{find_post, sort_newest_first};
use personal_site::routes::{album_path, article_path};

fn post(slug: &str, date: &str) -> Post {
    Post {
        slug: slug.to_string(),
        title: format!("title of {}", slug),
        date: date.to_string(),
        description: String::new(),
        content: String::new(),
    }
}

fn slugs(posts: &[Post]) -> Vec<&str> {
    posts.iter().map(|p| p.slug.as_str()).collect()
}

#[test]
fn render_markdown_heading_and_list() {
    assert_eq!(render_markdown("# hello"), "<h1>hello</h1>\n");
    assert_eq!(
        render_markdown("* alpha\n* beta"),
        "<ul>\n<li>alpha</li>\n<li>beta</li>\n</ul>\n"
    );
    assert_eq!(render_markdown(""), "");
}

#[test]
fn split_front_matter_between_fences() {
    let (fm, body) = split_front_matter("---\ntitle: Hi\n---\nBody text\n");
    assert_eq!(fm, "\ntitle: Hi\n");
    assert_eq!(body, "\nBody text\n");
}

#[test]
fn split_front_matter_without_fences() {
    let (fm, body) = split_front_matter("Just text");
    assert_eq!(fm, "");
    assert_eq!(body, "Just text");
}

#[test]
fn split_front_matter_without_closing_fence_keeps_whole_file() {
    let (fm, body) = split_front_matter("---\ntitle: Hi\nno end");
    assert_eq!(fm, "");
    assert_eq!(body, "---\ntitle: Hi\nno end");
}

#[test]
fn split_front_matter_without_opening_fence() {
    let (fm, body) = split_front_matter("title: X\n---\nrest");
    assert_eq!(fm, "title: X\n");
    assert_eq!(body, "\nrest");
}

#[test]
fn front_matter_field_takes_last_line_and_trims() {
    let fm = "\ntitle:  First \r\ndate: 2024-01-02\ntitle:\tSecond\t\n description: indented\n";
    assert_eq!(front_matter_field(fm, "title:"), "Second");
    assert_eq!(front_matter_field(fm, "date:"), "2024-01-02");
    assert_eq!(front_matter_field(fm, "description:"), "");
    assert_eq!(front_matter_field(fm, "author:"), "");
    assert_eq!(front_matter_field("title:\u{a0}Café\u{3000}", "title:"), "Café");
}

#[test]
fn parse_post_reads_fields_and_renders_body() {
    let raw = "---\ntitle: Hello World\ndate: 2025-03-01\ndescription: A first post\n---\n\n# Heading\n\nSome *text*.\n\n";
    let p = parse_post("hello-world".to_string(), raw);
    assert_eq!(p.slug, "hello-world");
    assert_eq!(p.title, "Hello World");
    assert_eq!(p.date, "2025-03-01");
    assert_eq!(p.description, "A first post");
    assert_eq!(p.content, "<h1>Heading</h1>\n<p>Some <em>text</em>.</p>\n");
}

#[test]
fn parse_post_without_front_matter() {
    let p = parse_post("plain".to_string(), "  just a paragraph  ");
    assert_eq!(p.title, "");
    assert_eq!(p.date, "");
    assert_eq!(p.description, "");
    assert_eq!(p.content, "<p>just a paragraph</p>\n");
}

#[test]
fn post_slug_only_for_markdown_files() {
    assert_eq!(post_slug("hello.md"), Some("hello".to_string()));
    assert_eq!(post_slug("a.b.md"), Some("a.b".to_string()));
    assert_eq!(post_slug("..md"), Some(".".to_string()));
    assert_eq!(post_slug(".md"), None);
    assert_eq!(post_slug("md"), None);
    assert_eq!(post_slug("notes.txt"), None);
    assert_eq!(post_slug("notes.MD"), None);
    assert_eq!(post_slug("notes.md.bak"), None);
}

#[test]
fn sort_newest_first_orders_by_date_descending() {
    let mut posts = vec![
        post("a", "2024-01-01"),
        post("b", "2025-06-30"),
        post("c", "2024-12-31"),
    ];
    sort_newest_first(&mut posts);
    assert_eq!(slugs(&posts), vec!["b", "c", "a"]);
}

#[test]
fn sort_newest_first_is_stable_for_equal_dates() {
    let mut posts = vec![
        post("x1", "2024-05-05"),
        post("y", "2023-01-01"),
        post("x2", "2024-05-05"),
        post("z", "2025-01-01"),
        post("x3", "2024-05-05"),
        post("e", ""),
    ];
    sort_newest_first(&mut posts);
    assert_eq!(slugs(&posts), vec!["z", "x1", "x2", "x3", "y", "e"]);
}

#[test]
fn sort_newest_first_keeps_sorted_list() {
    let mut posts = vec![post("a", "2025"), post("b", "2024-12"), post("c", "2024")];
    sort_newest_first(&mut posts);
    assert_eq!(slugs(&posts), vec!["a", "b", "c"]);
    let mut empty: Vec<Post> = Vec::new();
    sort_newest_first(&mut empty);
    assert!(empty.is_empty());
}

#[test]
fn sort_newest_first_compares_as_strings() {
    // A longer string that extends a shorter one comes after it.
    let mut posts = vec![post("short", "2024"), post("long", "2024-01"), post("b", "Z"), post("u", "é")];
    sort_newest_first(&mut posts);
    assert_eq!(slugs(&posts), vec!["u", "b", "long", "short"]);
}

#[test]
fn find_post_returns_first_match() {
    let posts = vec![post("a", "1"), post("b", "2"), post("b", "3")];
    let found = find_post(&posts, "b").unwrap();
    assert_eq!(found.date, "2");
    assert!(find_post(&posts, "c").is_none());
    assert!(find_post(&posts, "").is_none());
}

#[test]
fn page_paths() {
    assert_eq!(article_path("hello-world"), "/articles/hello-world");
    assert_eq!(album_path("summer-2024"), "/gallery/summer-2024");
}
