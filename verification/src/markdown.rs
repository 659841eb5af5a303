//! Blog posts: Markdown files that may open with a front matter between two
//! `---` fences, holding `title:`, `date:` and `description:` lines.

use vstd::prelude::*;
use crate::models::Post;
use crate::paths::{extension, file_stem, file_extension, file_stem_of};
use crate::text::{
    chars_of, copy_range, equals_str, find_first, first_occurrence, lemma_first_occurrence_law,
    occurs_at, occurs_at_exec, string_from_range, trim, trim_bounds,
};

verus! {

/// The HTML that pulldown-cmark renders for the Markdown text `md`, with no
/// extension of CommonMark enabled.
pub uninterp spec fn markdown_html(md: Seq<char>) -> Seq<char>;

/// `pulldown_cmark::Parser::new` on `input`, its events written by
/// `pulldown_cmark::html::push_html` into an empty string. Claimed: the result
/// is `markdown_html` of the input, so depends on the input alone. Nothing
/// more is said of the HTML.
#[verifier::external_body]
fn markdown_to_html(input: &str) -> (html: String)
    ensures
        html@ == markdown_html(input@),
{
    let parser = pulldown_cmark::Parser::new(input);
    let mut output = String::new();
    pulldown_cmark::html::push_html(&mut output, parser);
    output
}

/// Renders Markdown text to HTML.
pub fn render_markdown(input: &str) -> (html: String)
    ensures
        html@ == markdown_html(input@),
{
    markdown_to_html(input)
}

/// The fence that opens and closes a front matter.
pub open spec fn fence() -> Seq<char> {
    "---"@
}

/// A post file without its opening fence, where it has one.
pub open spec fn after_opening_fence(raw: Seq<char>) -> Seq<char> {
    if occurs_at(raw, 0, fence()) {
        raw.skip(fence().len() as int)
    } else {
        raw
    }
}

/// The front matter of a post file: what stands before the first fence that
/// follows the opening one; empty when there is no such fence.
pub open spec fn front_matter(raw: Seq<char>) -> Seq<char> {
    let rest = after_opening_fence(raw);
    match first_occurrence(rest, fence()) {
        Some(i) => rest.take(i),
        None => Seq::empty(),
    }
}

/// The Markdown body of a post file: what follows the closing fence; the
/// whole file, opening fence included, when there is no closing fence.
pub open spec fn post_body(raw: Seq<char>) -> Seq<char> {
    let rest = after_opening_fence(raw);
    match first_occurrence(rest, fence()) {
        Some(i) => rest.skip(i + fence().len()),
        None => raw,
    }
}

/// `s[a..b]` is a line of `s`: it starts at the start of `s` or after a
/// newline, and runs up to the next newline or the end of `s`.
pub open spec fn is_line(s: Seq<char>, a: int, b: int) -> bool {
    &&& 0 <= a <= b <= s.len()
    &&& (a == 0 || s[a - 1] == '\n')
    &&& (b == s.len() || s[b] == '\n')
    &&& forall|k: int| a <= k < b ==> s[k] != '\n'
}

/// `s[a..b]` is a line of `s` that starts with `key`.
pub open spec fn is_keyed_line(s: Seq<char>, key: Seq<char>, a: int, b: int) -> bool {
    &&& is_line(s, a, b)
    &&& a + key.len() <= b
    &&& s.subrange(a, a + key.len()) == key
}

/// `s[a..b]` is the last line of `s` that starts with `key`.
pub open spec fn is_last_keyed_line(s: Seq<char>, key: Seq<char>, a: int, b: int) -> bool {
    &&& is_keyed_line(s, key, a, b)
    &&& forall|a2: int, b2: int| is_keyed_line(s, key, a2, b2) ==> a2 <= a
}

/// The value of the field `key` in a front matter: the rest of the last line
/// that starts with `key`, trimmed; empty when no line starts with it.
pub open spec fn field_value(s: Seq<char>, key: Seq<char>) -> Seq<char> {
    if exists|a: int, b: int| is_last_keyed_line(s, key, a, b) {
        let (a, b) = choose|a: int, b: int| is_last_keyed_line(s, key, a, b);
        trim(s.subrange(a + key.len(), b))
    } else {
        Seq::empty()
    }
}

proof fn lemma_line_end_unique(s: Seq<char>, a: int, b1: int, b2: int)
    requires
        is_line(s, a, b1),
        is_line(s, a, b2),
    ensures
        b1 == b2,
{
    if b1 < b2 {
        assert(s[b1] == '\n');
    } else if b2 < b1 {
        assert(s[b2] == '\n');
    }
}

proof fn lemma_last_keyed_line_chosen(s: Seq<char>, key: Seq<char>, a: int, b: int)
    requires
        is_last_keyed_line(s, key, a, b),
    ensures
        field_value(s, key) == trim(s.subrange(a + key.len(), b)),
{
    let (a2, b2) = choose|a2: int, b2: int| is_last_keyed_line(s, key, a2, b2);
    assert(is_last_keyed_line(s, key, a2, b2));
    assert(a2 <= a && a <= a2);
    lemma_line_end_unique(s, a, b, b2);
}

/// A post file splits at its first closing fence: where a fence follows the
/// opening one, the text after the opening fence is the front matter, that
/// fence and the body, and the front matter holds no fence; where none
/// follows, the front matter is empty and the body is the whole file.
pub proof fn lemma_front_matter_split(raw: Seq<char>)
    ensures
        occurs_at(raw, 0, fence()) ==> raw == fence() + after_opening_fence(raw),
        !occurs_at(raw, 0, fence()) ==> after_opening_fence(raw) == raw,
        (exists|i: int| occurs_at(after_opening_fence(raw), i, fence())) ==> {
            &&& after_opening_fence(raw) == front_matter(raw) + fence() + post_body(raw)
            &&& forall|j: int| !occurs_at(front_matter(raw), j, fence())
        },
        !(exists|i: int| occurs_at(after_opening_fence(raw), i, fence())) ==> {
            &&& front_matter(raw) == Seq::<char>::empty()
            &&& post_body(raw) == raw
        },
{
    reveal_strlit("---");
    if occurs_at(raw, 0, fence()) {
        assert(raw =~= raw.subrange(0, 3) + raw.skip(3));
    }
    let rest = after_opening_fence(raw);
    let f = fence();
    lemma_first_occurrence_law(rest, f);
    match first_occurrence(rest, f) {
        Some(i) => {
            assert(rest =~= rest.take(i) + f + rest.skip(i + f.len()));
            assert forall|j: int| !occurs_at(rest.take(i), j, f) by {
                if occurs_at(rest.take(i), j, f) {
                    assert(rest.take(i).subrange(j, j + f.len()) =~= rest.subrange(j, j + f.len()));
                    assert(occurs_at(rest, j, f));
                }
            }
        },
        None => {},
    }
}

/// When no line of a front matter starts with `key`, the field is empty.
pub proof fn lemma_field_absent(s: Seq<char>, key: Seq<char>)
    requires
        forall|i: int| (i == 0 || s[i - 1] == '\n') ==> !#[trigger] occurs_at(s, i, key),
    ensures
        field_value(s, key) == Seq::<char>::empty(),
{
    assert forall|a: int, b: int| !is_last_keyed_line(s, key, a, b) by {
        if is_keyed_line(s, key, a, b) {
            assert(s.subrange(a, a + key.len()) == key);
            assert(occurs_at(s, a, key));
        }
    }
}

/// In a front matter of one line that starts with `key`, the field is the
/// rest of that line, trimmed.
pub proof fn lemma_field_of_single_line(s: Seq<char>, key: Seq<char>)
    requires
        forall|k: int| 0 <= k < s.len() ==> s[k] != '\n',
        occurs_at(s, 0, key),
    ensures
        field_value(s, key) == trim(s.skip(key.len() as int)),
{
    assert(is_keyed_line(s, key, 0, s.len() as int));
    assert forall|a2: int, b2: int| is_keyed_line(s, key, a2, b2) implies a2 <= 0 by {
        if a2 > 0 {
            assert(s[a2 - 1] == '\n');
        }
    }
    lemma_last_keyed_line_chosen(s, key, 0, s.len() as int);
    assert(s.subrange(key.len() as int, s.len() as int) =~= s.skip(key.len() as int));
}

/// When the last line of a front matter starts with `key`, the field is the
/// rest of that line, trimmed, whatever the lines before it hold.
pub proof fn lemma_field_from_last_line(s: Seq<char>, t: Seq<char>, key: Seq<char>)
    requires
        forall|k: int| 0 <= k < t.len() ==> t[k] != '\n',
        occurs_at(t, 0, key),
    ensures
        field_value(s + seq!['\n'] + t, key) == trim(t.skip(key.len() as int)),
{
    let whole = s + seq!['\n'] + t;
    let a: int = s.len() as int + 1;
    let b = whole.len() as int;
    assert(whole[a - 1] == '\n');
    assert forall|k: int| a <= k < b implies whole[k] != '\n' by {
        assert(whole[k] == t[k - a]);
    }
    assert(whole.subrange(a, a + key.len()) =~= t.subrange(0, key.len() as int));
    assert(is_keyed_line(whole, key, a, b));
    assert forall|a2: int, b2: int| is_keyed_line(whole, key, a2, b2) implies a2 <= a by {
        if a2 > a {
            assert(whole[a2 - 1] == t[a2 - 1 - a]);
        }
    }
    lemma_last_keyed_line_chosen(whole, key, a, b);
    assert(whole.subrange(a + key.len(), b) =~= t.skip(key.len() as int));
}

/// The value of the field `key` in the front matter `fm`.
fn field_in(fm: &Vec<char>, key: &Vec<char>) -> (r: String)
    ensures
        r@ == field_value(fm@, key@),
{
    let n = fm.len();
    let mut pos: usize = 0;
    let mut found: Option<(usize, usize)> = None;
    loop
        invariant
            n == fm.len(),
            pos <= n,
            pos == 0 || fm@[pos - 1] == '\n',
            match found {
                Some((a, b)) => is_keyed_line(fm@, key@, a as int, b as int) && a <= pos,
                None => true,
            },
            forall|a2: int, b2: int|
                #![trigger is_keyed_line(fm@, key@, a2, b2)]
                is_keyed_line(fm@, key@, a2, b2) && a2 < pos ==> match found {
                    Some((a, b)) => a2 <= a,
                    None => false,
                },
        ensures
            match found {
                Some((a, b)) => is_last_keyed_line(fm@, key@, a as int, b as int),
                None => forall|a2: int, b2: int| !is_keyed_line(fm@, key@, a2, b2),
            },
        decreases n + 1 - pos,
    {
        let mut b = pos;
        while b < n && fm[b] != '\n'
            invariant
                n == fm.len(),
                pos <= b <= n,
                forall|k: int| pos <= k < b ==> fm@[k] != '\n',
            decreases n - b,
        {
            b += 1;
        }
        assert(is_line(fm@, pos as int, b as int));
        let keyed = key.len() <= b - pos && occurs_at_exec(fm, pos, key);
        let ghost old_found = found;
        if keyed {
            found = Some((pos, b));
        }
        proof {
            assert forall|a2: int, b2: int|
                #![trigger is_keyed_line(fm@, key@, a2, b2)]
                is_keyed_line(fm@, key@, a2, b2) && a2 <= b implies match found {
                Some((a, b)) => a2 <= a,
                None => false,
            } by {
                if a2 < pos {
                    assert(old_found is Some);
                } else if a2 == pos {
                    lemma_line_end_unique(fm@, pos as int, b as int, b2);
                    assert(keyed);
                } else {
                    assert(fm@[a2 - 1] == '\n');
                }
            }
        }
        if b == n {
            break;
        }
        pos = b + 1;
    }
    match found {
        Some((a, b)) => {
            let (s, e) = trim_bounds(fm, a + key.len(), b);
            proof {
                lemma_last_keyed_line_chosen(fm@, key@, a as int, b as int);
            }
            string_from_range(fm, s, e)
        },
        None => String::new(),
    }
}

/// The value of the field `key` (such as `title:`) in the front matter
/// `front_matter`.
pub fn front_matter_field(front_matter: &str, key: &str) -> (r: String)
    ensures
        r@ == field_value(front_matter@, key@),
{
    let fm = chars_of(front_matter);
    let k = chars_of(key);
    field_in(&fm, &k)
}

/// Splits a post file into its front matter and its Markdown body.
pub fn split_front_matter(raw: &str) -> (r: (String, String))
    ensures
        r.0@ == front_matter(raw@),
        r.1@ == post_body(raw@),
{
    let v = chars_of(raw);
    let f = chars_of("---");
    let start = if occurs_at_exec(&v, 0, &f) {
        f.len()
    } else {
        0
    };
    let rest = copy_range(&v, start, v.len());
    assert(rest@ == after_opening_fence(raw@)) by {
        if occurs_at(v@, 0, f@) {
            assert(rest@ =~= v@.skip(f@.len() as int));
        } else {
            assert(rest@ =~= v@);
        }
    }
    match find_first(&rest, &f) {
        Some(i) => {
            let fm = string_from_range(&rest, 0, i);
            let body = string_from_range(&rest, i + f.len(), rest.len());
            assert(rest@.subrange(0, i as int) =~= rest@.take(i as int));
            assert(rest@.subrange(i + f@.len(), rest@.len() as int) =~= rest@.skip(
                i + f@.len(),
            ));
            (fm, body)
        },
        None => (String::new(), String::from_str(raw)),
    }
}

/// Reads a post from the contents of its file; `slug` names the post.
pub fn parse_post(slug: String, raw: &str) -> (p: Post)
    ensures
        p.slug == slug,
        p.title@ == field_value(front_matter(raw@), "title:"@),
        p.date@ == field_value(front_matter(raw@), "date:"@),
        p.description@ == field_value(front_matter(raw@), "description:"@),
        p.content@ == markdown_html(trim(post_body(raw@))),
{
    let (fm, body) = split_front_matter(raw);
    let fm_chars = chars_of(fm.as_str());
    let title = field_in(&fm_chars, &chars_of("title:"));
    let date = field_in(&fm_chars, &chars_of("date:"));
    let description = field_in(&fm_chars, &chars_of("description:"));
    let body_chars = chars_of(body.as_str());
    let (s, e) = trim_bounds(&body_chars, 0, body_chars.len());
    assert(body_chars@.subrange(0, body_chars@.len() as int) =~= body_chars@);
    let trimmed = string_from_range(&body_chars, s, e);
    let content = render_markdown(trimmed.as_str());
    Post { slug, title, date, description, content }
}

/// The slug of the post stored in the file `file_name`: its stem, when its
/// extension is `md`; no post when it has another extension or none.
pub fn post_slug(file_name: &str) -> (r: Option<String>)
    ensures
        r is Some <==> extension(file_name@) == Some("md"@),
        r matches Some(s) ==> s@ == file_stem(file_name@),
{
    match file_extension(file_name) {
        Some(e) => {
            let ev = chars_of(e.as_str());
            if equals_str(&ev, "md") {
                Some(file_stem_of(file_name))
            } else {
                None
            }
        },
        None => None,
    }
}

} // verus!
