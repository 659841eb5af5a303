//! Photo albums: which files of an album directory are shown and as what,
//! the album title made from the directory name, and album lookup.

use vstd::prelude::*;
use crate::models::{Album, AlbumMetadata, Asset};
use crate::paths::{extension, file_extension};
use crate::text::{chars_of, equals_str, is_space, is_space_char, string_from_range};

verus! {

/// The extensions of video files.
pub open spec fn is_video_type(e: Seq<char>) -> bool {
    e == "mp4"@ || e == "mov"@ || e == "webm"@
}

/// The extensions of the files an album shows: images and videos.
pub open spec fn is_allowed_type(e: Seq<char>) -> bool {
    e == "jpg"@ || e == "jpeg"@ || e == "png"@ || e == "heic"@ || e == "webp"@ || is_video_type(e)
}

/// The extension of `name`, or the empty string when it has none.
pub open spec fn extension_or_empty(name: Seq<char>) -> Seq<char> {
    match extension(name) {
        Some(e) => e,
        None => Seq::empty(),
    }
}

/// The asset, as its file name and type, that the file `name` of an album
/// directory makes: none for `metadata.json` and for a file of any other
/// type than an image or a video.
pub open spec fn asset_of(name: Seq<char>) -> Option<(Seq<char>, Seq<char>)> {
    let e = extension_or_empty(name);
    if name == "metadata.json"@ || !is_allowed_type(e) {
        None
    } else {
        Some(
            (
                name,
                if is_video_type(e) {
                    "video"@
                } else {
                    "photo"@
                },
            ),
        )
    }
}

/// An asset as its file name and type.
pub open spec fn asset_view(a: Asset) -> (Seq<char>, Seq<char>) {
    (a.file_name@, a.asset_type@)
}

/// Assets as their file names and types.
pub open spec fn asset_views(s: Seq<Asset>) -> Seq<(Seq<char>, Seq<char>)> {
    s.map_values(|x: Asset| asset_view(x))
}

/// Strings as their characters.
pub open spec fn string_views(s: Seq<String>) -> Seq<Seq<char>> {
    s.map_values(|x: String| x@)
}

/// The assets that the files `names` make, in the order of the files.
pub open spec fn assets_of(names: Seq<Seq<char>>) -> Seq<(Seq<char>, Seq<char>)>
    decreases names.len(),
{
    if names.len() == 0 {
        Seq::empty()
    } else {
        let rest = assets_of(names.drop_last());
        match asset_of(names.last()) {
            Some(a) => rest.push(a),
            None => rest,
        }
    }
}

/// Every asset of an album is an image or a video by its extension, typed
/// `video` exactly when its extension is a video's, and none is the
/// album's `metadata.json`.
pub proof fn lemma_assets_are_media(names: Seq<Seq<char>>)
    ensures
        forall|k: int|
            0 <= k < assets_of(names).len() ==> {
                let a = #[trigger] assets_of(names)[k];
                &&& a.0 != "metadata.json"@
                &&& is_allowed_type(extension_or_empty(a.0))
                &&& a.1 == (if is_video_type(extension_or_empty(a.0)) {
                    "video"@
                } else {
                    "photo"@
                })
            },
    decreases names.len(),
{
    if names.len() > 0 {
        let rest = assets_of(names.drop_last());
        lemma_assets_are_media(names.drop_last());
        match asset_of(names.last()) {
            Some(a) => {
                assert forall|k: int| 0 <= k < rest.len() implies #[trigger] assets_of(names)[k]
                    == rest[k] by {}
                assert(assets_of(names)[rest.len() as int] == a);
            },
            None => {},
        }
    }
}

/// A single file makes the asset it makes, or none.
pub proof fn lemma_assets_of_single(name: Seq<char>)
    ensures
        assets_of(seq![name]) == match asset_of(name) {
            Some(a) => seq![a],
            None => Seq::<(Seq<char>, Seq<char>)>::empty(),
        },
{
    assert(seq![name].drop_last() =~= Seq::<Seq<char>>::empty());
    assert(seq![name].last() == name);
    assert(assets_of(Seq::<Seq<char>>::empty()) == Seq::<(Seq<char>, Seq<char>)>::empty());
    match asset_of(name) {
        Some(a) => {
            assert(Seq::<(Seq<char>, Seq<char>)>::empty().push(a) =~= seq![a]);
        },
        None => {},
    }
}

/// The assets of two lists of files, one after the other, are the assets of
/// the first followed by those of the second: no file is dropped and none is
/// moved.
pub proof fn lemma_assets_of_concat(s: Seq<Seq<char>>, t: Seq<Seq<char>>)
    ensures
        assets_of(s + t) == assets_of(s) + assets_of(t),
    decreases t.len(),
{
    if t.len() == 0 {
        assert(s + t =~= s);
        assert(assets_of(s) + assets_of(t) =~= assets_of(s));
    } else {
        lemma_assets_of_concat(s, t.drop_last());
        assert((s + t).drop_last() =~= s + t.drop_last());
        assert((s + t).last() == t.last());
        match asset_of(t.last()) {
            Some(a) => {
                assert(assets_of(s) + assets_of(t.drop_last()).push(a) =~= (assets_of(s)
                    + assets_of(t.drop_last())).push(a));
            },
            None => {},
        }
    }
}

/// Whether `e` is the extension of a video file.
pub fn is_video_extension(e: &Vec<char>) -> (r: bool)
    ensures
        r == is_video_type(e@),
{
    equals_str(e, "mp4") || equals_str(e, "mov") || equals_str(e, "webm")
}

/// Whether `e` is the extension of a file that an album shows.
pub fn is_allowed_extension(e: &Vec<char>) -> (r: bool)
    ensures
        r == is_allowed_type(e@),
{
    equals_str(e, "jpg") || equals_str(e, "jpeg") || equals_str(e, "png") || equals_str(e, "heic")
        || equals_str(e, "webp") || is_video_extension(e)
}

/// The asset that the file `file_name` of an album directory makes, if any.
pub fn classify_asset(file_name: &str) -> (r: Option<Asset>)
    ensures
        match r {
            Some(a) => asset_of(file_name@) == Some(asset_view(a)),
            None => asset_of(file_name@) is None,
        },
{
    let name = chars_of(file_name);
    if equals_str(&name, "metadata.json") {
        return None;
    }
    let ext = match file_extension(file_name) {
        Some(e) => chars_of(e.as_str()),
        None => Vec::new(),
    };
    assert(ext@ == extension_or_empty(file_name@));
    if !is_allowed_extension(&ext) {
        return None;
    }
    let asset_type = if is_video_extension(&ext) {
        String::from_str("video")
    } else {
        String::from_str("photo")
    };
    Some(Asset { file_name: String::from_str(file_name), asset_type })
}

/// The characters at which a slug splits into words: `-` and white space.
pub open spec fn is_word_break(c: char) -> bool {
    c == '-' || is_space(c)
}

/// The words of `s`: its maximal runs of characters other than word breaks,
/// in order.
pub open spec fn slug_words(s: Seq<char>) -> Seq<Seq<char>>
    decreases s.len(),
{
    if s.len() == 0 {
        Seq::empty()
    } else {
        let w = slug_words(s.drop_last());
        let c = s.last();
        if is_word_break(c) {
            w
        } else if s.len() == 1 || is_word_break(s[s.len() - 2]) {
            w.push(seq![c])
        } else {
            w.drop_last().push(w.last().push(c))
        }
    }
}

/// The upper-case mapping that Unicode gives `c`, as `char::to_uppercase`
/// yields it.
pub uninterp spec fn upper_case(c: char) -> Seq<char>;

/// `char::to_uppercase` on `c`, its characters collected into a string.
/// Claimed: the result is `upper_case(c)`, so depends on `c` alone; nothing
/// more is said of the mapping.
#[verifier::external_body]
fn upper_case_of(c: char) -> (s: String)
    ensures
        s@ == upper_case(c),
{
    c.to_uppercase().collect()
}

/// `w` with its first character in upper case.
pub open spec fn capitalized(w: Seq<char>) -> Seq<char> {
    upper_case(w[0]) + w.drop_first()
}

/// The words `ws` joined by single spaces.
pub open spec fn join_words(ws: Seq<Seq<char>>) -> Seq<char>
    decreases ws.len(),
{
    if ws.len() == 0 {
        Seq::empty()
    } else if ws.len() == 1 {
        ws[0]
    } else {
        join_words(ws.drop_last()) + seq![' '] + ws.last()
    }
}

/// Each of the words `ws` with its first character in upper case.
pub open spec fn capitalize_all(ws: Seq<Seq<char>>) -> Seq<Seq<char>> {
    ws.map_values(|w: Seq<char>| capitalized(w))
}

/// The title of an album made from its slug: the words of the slug, each
/// with its first character in upper case, joined by single spaces.
pub open spec fn title_of(slug: Seq<char>) -> Seq<char> {
    join_words(capitalize_all(slug_words(slug)))
}

/// Every word of a slug is non-empty and holds no word break.
pub proof fn lemma_slug_words_are_words(s: Seq<char>)
    ensures
        forall|k: int|
            0 <= k < slug_words(s).len() ==> #[trigger] slug_words(s)[k].len() > 0 && forall|m: int|
                0 <= m < slug_words(s)[k].len() ==> !is_word_break(slug_words(s)[k][m]),
        s.len() > 0 && !is_word_break(s.last()) ==> slug_words(s).len() > 0,
    decreases s.len(),
{
    if s.len() > 0 {
        lemma_slug_words_are_words(s.drop_last());
        let w = slug_words(s.drop_last());
        let c = s.last();
        if !is_word_break(c) && !(s.len() == 1 || is_word_break(s[s.len() - 2])) {
            assert(s.drop_last().last() == s[s.len() - 2]);
            let r = slug_words(s);
            assert forall|k: int| 0 <= k < r.len() implies #[trigger] r[k].len() > 0 && forall|m: int|
                0 <= m < r[k].len() ==> !is_word_break(r[k][m]) by {
                if k < r.len() - 1 {
                    assert(r[k] == w[k]);
                } else {
                    assert(r[k] == w.last().push(c));
                    assert forall|m: int| 0 <= m < r[k].len() implies !is_word_break(r[k][m]) by {
                        if m < w.last().len() {
                            assert(r[k][m] == w[w.len() - 1][m]);
                        }
                    }
                }
            }
        }
    }
}

proof fn lemma_join_push(ws: Seq<Seq<char>>, w: Seq<char>)
    ensures
        join_words(ws.push(w)) == if ws.len() == 0 {
            w
        } else {
            join_words(ws) + seq![' '] + w
        },
{
    assert(ws.push(w).drop_last() =~= ws);
    if ws.len() == 0 {
        assert(ws.push(w)[0] == w);
    }
}

/// After a word break, the words of what follows are added as they are.
pub proof fn lemma_slug_words_concat(a: Seq<char>, b: Seq<char>)
    requires
        a.len() == 0 || is_word_break(a.last()),
    ensures
        slug_words(a + b) == slug_words(a) + slug_words(b),
    decreases b.len(),
{
    if b.len() == 0 {
        assert(a + b =~= a);
        assert(slug_words(a) + slug_words(b) =~= slug_words(a));
    } else {
        let b1 = b.drop_last();
        let c = b.last();
        lemma_slug_words_concat(a, b1);
        let ab = a + b;
        assert(ab.drop_last() =~= a + b1);
        assert(ab.last() == c);
        let wa = slug_words(a);
        let wb1 = slug_words(b1);
        if is_word_break(c) {
        } else if b1.len() == 0 {
            assert(ab.len() == 1 || ab[ab.len() - 2] == a.last());
            assert((wa + wb1).push(seq![c]) =~= wa + wb1.push(seq![c]));
        } else {
            assert(ab[ab.len() - 2] == b1.last());
            assert(b[b.len() - 2] == b1.last());
            if is_word_break(b1.last()) {
                assert((wa + wb1).push(seq![c]) =~= wa + wb1.push(seq![c]));
            } else {
                lemma_slug_words_are_words(b1);
                assert(wb1.len() > 0);
                assert((wa + wb1).drop_last() =~= wa + wb1.drop_last());
                assert((wa + wb1).last() == wb1.last());
                assert((wa + wb1).drop_last().push((wa + wb1).last().push(c)) =~= wa
                    + wb1.drop_last().push(wb1.last().push(c)));
            }
        }
    }
}

proof fn lemma_join_words_concat(xs: Seq<Seq<char>>, ys: Seq<Seq<char>>)
    requires
        xs.len() > 0,
        ys.len() > 0,
    ensures
        join_words(xs + ys) == join_words(xs) + seq![' '] + join_words(ys),
    decreases ys.len(),
{
    assert((xs + ys).drop_last() =~= xs + ys.drop_last());
    assert((xs + ys).last() == ys.last());
    if ys.len() == 1 {
        assert(xs + ys.drop_last() =~= xs);
        assert(ys[0] == ys.last());
    } else {
        lemma_join_words_concat(xs, ys.drop_last());
        assert(join_words(xs) + seq![' '] + join_words(ys.drop_last()) + seq![' '] + ys.last()
            =~= join_words(xs) + seq![' '] + (join_words(ys.drop_last()) + seq![' ']
            + ys.last()));
    }
}

proof fn lemma_slug_words_of_word(w: Seq<char>)
    requires
        w.len() > 0,
        forall|k: int| 0 <= k < w.len() ==> !is_word_break(#[trigger] w[k]),
    ensures
        slug_words(w) == seq![w],
    decreases w.len(),
{
    let c = w.last();
    assert(!is_word_break(w[w.len() - 1]));
    if w.len() == 1 {
        assert(w.drop_last() =~= Seq::<char>::empty());
        assert(slug_words(Seq::<char>::empty()) == Seq::<Seq<char>>::empty());
        assert(seq![c] =~= w);
        assert(Seq::<Seq<char>>::empty().push(seq![c]) =~= seq![w]);
    } else {
        let w1 = w.drop_last();
        assert forall|k: int| 0 <= k < w1.len() implies !is_word_break(#[trigger] w1[k]) by {
            assert(w1[k] == w[k]);
        }
        lemma_slug_words_of_word(w1);
        assert(!is_word_break(w[w.len() - 2]));
        assert(w1.push(c) =~= w);
        assert(seq![w1].last() == w1);
        assert(seq![w1].drop_last().push(w1.push(c)) =~= seq![w]);
    }
}

/// A slug with no word in it (only dashes and white space) makes an empty
/// title.
pub proof fn lemma_title_of_blank(s: Seq<char>)
    requires
        forall|k: int| 0 <= k < s.len() ==> is_word_break(#[trigger] s[k]),
    ensures
        title_of(s) == Seq::<char>::empty(),
{
    lemma_slug_words_blank(s);
    assert(capitalize_all(slug_words(s)) =~= Seq::<Seq<char>>::empty());
}

proof fn lemma_slug_words_blank(s: Seq<char>)
    requires
        forall|k: int| 0 <= k < s.len() ==> is_word_break(#[trigger] s[k]),
    ensures
        slug_words(s) == Seq::<Seq<char>>::empty(),
    decreases s.len(),
{
    if s.len() > 0 {
        let s1 = s.drop_last();
        assert forall|k: int| 0 <= k < s1.len() implies is_word_break(#[trigger] s1[k]) by {
            assert(s1[k] == s[k]);
        }
        assert(is_word_break(s[s.len() - 1]));
        lemma_slug_words_blank(s1);
    }
}

/// A slug of one word makes that word with its first character in upper
/// case.
pub proof fn lemma_title_of_word(w: Seq<char>)
    requires
        w.len() > 0,
        forall|k: int| 0 <= k < w.len() ==> !is_word_break(#[trigger] w[k]),
    ensures
        title_of(w) == upper_case(w[0]) + w.drop_first(),
{
    lemma_slug_words_of_word(w);
    assert(capitalize_all(seq![w]) =~= seq![capitalized(w)]);
}

/// Two slugs joined by a dash make the two titles joined by a space: every
/// word of either slug is in the title, in order.
pub proof fn lemma_title_of_joined(a: Seq<char>, b: Seq<char>)
    requires
        slug_words(a).len() > 0,
        slug_words(b).len() > 0,
    ensures
        title_of(a + seq!['-'] + b) == title_of(a) + seq![' '] + title_of(b),
{
    let a1 = a + seq!['-'];
    assert(a1.drop_last() =~= a);
    assert(a1.last() == '-');
    assert(slug_words(a1) == slug_words(a));
    lemma_slug_words_concat(a1, b);
    let wa = slug_words(a);
    let wb = slug_words(b);
    assert(capitalize_all(wa + wb) =~= capitalize_all(wa) + capitalize_all(wb));
    lemma_join_words_concat(capitalize_all(wa), capitalize_all(wb));
}

/// The words of `slug`, in order.
pub fn split_slug(slug: &str) -> (ws: Vec<String>)
    ensures
        string_views(ws@) == slug_words(slug@),
        forall|k: int| 0 <= k < ws@.len() ==> (#[trigger] ws@[k])@.len() > 0,
{
    let v = chars_of(slug);
    let mut ws: Vec<String> = Vec::new();
    let mut cur: Vec<char> = Vec::new();
    let mut in_word = false;
    assert(v@.take(0) =~= Seq::<char>::empty());
    assert(string_views(ws@) =~= Seq::<Seq<char>>::empty());
    for i in 0..v.len()
        invariant
            v@ == slug@,
            in_word == (i > 0 && !is_word_break(v@[i - 1])),
            in_word ==> cur@.len() > 0,
            !in_word ==> cur@.len() == 0,
            slug_words(v@.take(i as int)) == if in_word {
                string_views(ws@).push(cur@)
            } else {
                string_views(ws@)
            },
            forall|k: int| 0 <= k < ws@.len() ==> (#[trigger] ws@[k])@.len() > 0,
    {
        let c = v[i];
        let ghost p = v@.take(i as int);
        let ghost q = v@.take(i + 1);
        let ghost old_ws = ws@;
        proof {
            assert(q.drop_last() =~= p);
            assert(q.last() == c);
            if i > 0 {
                assert(q[q.len() - 2] == v@[i - 1]);
            }
        }
        if c == '-' || is_space_char(c) {
            if in_word {
                let w = string_from_range(&cur, 0, cur.len());
                assert(cur@.subrange(0, cur@.len() as int) =~= cur@);
                ws.push(w);
                assert(string_views(ws@) =~= string_views(old_ws).push(cur@));
                cur = Vec::new();
                in_word = false;
            }
        } else if !in_word {
            cur.push(c);
            assert(cur@ =~= seq![c]);
            in_word = true;
        } else {
            let ghost before = cur@;
            cur.push(c);
            assert(string_views(ws@).push(before).drop_last() =~= string_views(ws@));
            assert(string_views(ws@).push(before).last() == before);
            assert(string_views(ws@).push(before).drop_last().push(before.push(c))
                =~= string_views(ws@).push(cur@));
        }
    }
    assert(v@.take(v@.len() as int) =~= v@);
    if in_word {
        let ghost old_ws = ws@;
        let w = string_from_range(&cur, 0, cur.len());
        assert(cur@.subrange(0, cur@.len() as int) =~= cur@);
        ws.push(w);
        assert(string_views(ws@) =~= string_views(old_ws).push(cur@));
    }
    ws
}

/// `w` without its first character; empty when `w` is.
pub open spec fn rest_of(w: Seq<char>) -> Seq<char> {
    if w.len() == 0 {
        w
    } else {
        w.drop_first()
    }
}

/// Each word of `words` with its first character replaced by the matching
/// entry of `initials`.
pub open spec fn recapitalized(words: Seq<String>, initials: Seq<String>) -> Seq<Seq<char>> {
    Seq::new(words.len(), |k: int| initials[k]@ + rest_of(words[k]@))
}

/// The words `words`, each with its first character replaced by the
/// matching entry of `initials`, joined by single spaces.
pub fn join_capitalized(words: &Vec<String>, initials: &Vec<String>) -> (t: String)
    requires
        words.len() == initials.len(),
    ensures
        t@ == join_words(recapitalized(words@, initials@)),
{
    let ghost all = recapitalized(words@, initials@);
    let mut out = String::new();
    assert(all.take(0) =~= Seq::<Seq<char>>::empty());
    for k in 0..words.len()
        invariant
            words.len() == initials.len(),
            all == recapitalized(words@, initials@),
            out@ == join_words(all.take(k as int)),
    {
        let w = chars_of(words[k].as_str());
        let rest = if w.len() == 0 {
            String::new()
        } else {
            string_from_range(&w, 1, w.len())
        };
        proof {
            assert(all.take(k + 1) =~= all.take(k as int).push(all[k as int]));
            lemma_join_push(all.take(k as int), all[k as int]);
            if w.len() > 0 {
                assert(w@.subrange(1, w@.len() as int) =~= w@.drop_first());
            }
        }
        if k > 0 {
            out.push(' ');
        }
        out.append(initials[k].as_str());
        out.append(rest.as_str());
        assert(out@ =~= join_words(all.take(k + 1)));
    }
    assert(all.take(words@.len() as int) =~= all);
    out
}

/// The title of the album whose slug is `slug`.
pub fn title_from_slug(slug: &str) -> (t: String)
    ensures
        t@ == title_of(slug@),
{
    let words = split_slug(slug);
    let mut initials: Vec<String> = Vec::new();
    for k in 0..words.len()
        invariant
            initials@.len() == k,
            k <= words@.len(),
            forall|j: int| 0 <= j < words@.len() ==> (#[trigger] words@[j])@.len() > 0,
            forall|j: int|
                0 <= j < k ==> (#[trigger] initials@[j])@ == upper_case(words@[j]@[0]),
    {
        let w = chars_of(words[k].as_str());
        initials.push(upper_case_of(w[0]));
    }
    let t = join_capitalized(&words, &initials);
    proof {
        let ws = slug_words(slug@);
        assert(recapitalized(words@, initials@) =~= capitalize_all(ws)) by {
            assert forall|k: int| 0 <= k < ws.len() implies recapitalized(words@, initials@)[k]
                == #[trigger] capitalize_all(ws)[k] by {
                assert(ws[k] == string_views(words@)[k]);
                assert(string_views(words@)[k] == words@[k]@);
            }
        }
    }
    t
}

/// Builds an album from its directory name `slug`, its metadata, and the
/// names of the files in its directory, in the order they were listed.
pub fn build_album(slug: String, metadata: AlbumMetadata, file_names: Vec<String>) -> (a: Album)
    ensures
        a.title@ == title_of(slug@),
        a.slug == slug,
        a.description == metadata.description,
        a.date == metadata.date,
        a.cover_url@ == match metadata.cover_url {
            Some(u) => u@,
            None => Seq::<char>::empty(),
        },
        asset_views(a.assets@) == assets_of(string_views(file_names@)),
{
    let ghost names = string_views(file_names@);
    let mut assets: Vec<Asset> = Vec::new();
    assert(names.take(0) =~= Seq::<Seq<char>>::empty());
    assert(asset_views(assets@) =~= Seq::<(Seq<char>, Seq<char>)>::empty());
    for i in 0..file_names.len()
        invariant
            names == string_views(file_names@),
            asset_views(assets@) == assets_of(names.take(i as int)),
    {
        let ghost before = assets@;
        proof {
            assert(names.take(i + 1).drop_last() =~= names.take(i as int));
            assert(names.take(i + 1).last() == file_names@[i as int]@);
        }
        match classify_asset(file_names[i].as_str()) {
            Some(asset) => {
                assets.push(asset);
                assert(asset_views(assets@) =~= asset_views(before).push(asset_view(asset)));
            },
            None => {},
        }
    }
    assert(names.take(file_names@.len() as int) =~= names);
    let title = title_from_slug(slug.as_str());
    let cover_url = match metadata.cover_url {
        Some(u) => u,
        None => String::new(),
    };
    Album {
        title,
        slug,
        description: metadata.description,
        date: metadata.date,
        cover_url,
        assets,
    }
}

/// The album whose slug is `slug`; where several have it, the last of them,
/// as in a map from slug to album filled in list order.
pub fn find_album<'a>(albums: &'a Vec<Album>, slug: &str) -> (r: Option<&'a Album>)
    ensures
        match r {
            Some(a) => exists|i: int|
                0 <= i < albums@.len() && albums@[i] == *a && a.slug@ == slug@ && forall|j: int|
                    i < j < albums@.len() ==> #[trigger] albums@[j].slug@ != slug@,
            None => forall|i: int| 0 <= i < albums@.len() ==> #[trigger] albums@[i].slug@ != slug@,
        },
{
    let wanted = String::from_str(slug);
    let mut i = albums.len();
    while i > 0
        invariant
            i <= albums.len(),
            wanted@ == slug@,
            forall|j: int| i <= j < albums@.len() ==> #[trigger] albums@[j].slug@ != slug@,
        decreases i,
    {
        if albums[i - 1].slug == wanted {
            return Some(&albums[i - 1]);
        }
        i -= 1;
    }
    None
}

} // verus!
