# personal_site

The content side of a personal web site, as a Verus-verified library:

- `src/markdown.rs` reads blog posts: the front matter between `---` fences
  (`title:`, `date:`, `description:`) and the Markdown body, rendered to HTML
  with pulldown-cmark.
- `src/posts.rs` orders posts newest first (a stable sort by date) and finds
  a post by slug.
- `src/media.rs` decides which files of an album directory are shown and as
  what, makes an album's title from its directory name, and finds albums.
- `src/paths.rs` and `src/text.rs` hold the file-name and text handling these
  rest on; `src/projects.rs` the portfolio; `src/routes.rs` page paths.

`app/` is the axum server around it: it reads the directories and files,
parses `metadata.json` with serde, and renders pages with askama.
