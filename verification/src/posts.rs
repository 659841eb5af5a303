//! The list of posts: ordered newest first by their `date:` field, and
//! looked up by slug.

use vstd::prelude::*;
use crate::models::Post;
use crate::text::chars_of;

verus! {

/// `a` comes before `b` in the order of Rust strings: lexicographic by
/// character (for UTF-8 text the same as by byte), a proper prefix first.
pub open spec fn precedes(a: Seq<char>, b: Seq<char>) -> bool
    decreases a.len(),
{
    if b.len() == 0 {
        false
    } else if a.len() == 0 {
        true
    } else if a[0] != b[0] {
        a[0] < b[0]
    } else {
        precedes(a.drop_first(), b.drop_first())
    }
}

/// No string comes before itself.
pub proof fn lemma_precedes_irreflexive(a: Seq<char>)
    ensures
        !precedes(a, a),
    decreases a.len(),
{
    if a.len() > 0 {
        lemma_precedes_irreflexive(a.drop_first());
    }
}

/// If `a` comes before `b` and `b` before `c`, then `a` comes before `c`.
pub proof fn lemma_precedes_transitive(a: Seq<char>, b: Seq<char>, c: Seq<char>)
    requires
        precedes(a, b),
        precedes(b, c),
    ensures
        precedes(a, c),
    decreases a.len(),
{
    if a.len() > 0 && b.len() > 0 && c.len() > 0 && a[0] == b[0] && b[0] == c[0] {
        lemma_precedes_transitive(a.drop_first(), b.drop_first(), c.drop_first());
    }
}

/// Of two different strings, one comes before the other, and not both.
pub proof fn lemma_precedes_total(a: Seq<char>, b: Seq<char>)
    ensures
        a != b ==> (precedes(a, b) || precedes(b, a)),
        !(precedes(a, b) && precedes(b, a)),
    decreases a.len(),
{
    if a.len() > 0 && b.len() > 0 && a[0] == b[0] {
        lemma_precedes_total(a.drop_first(), b.drop_first());
        if a.drop_first() == b.drop_first() {
            assert(a =~= seq![a[0]] + a.drop_first());
            assert(b =~= seq![b[0]] + b.drop_first());
        }
    } else if a.len() == 0 && b.len() == 0 {
        assert(a =~= b);
    }
}

/// The order on strings is the lexicographic order on characters: `a` comes
/// before `b` exactly when, after a common prefix of some length `k`, either
/// `a` ends while `b` goes on, or the character of `a` at `k` is smaller than
/// that of `b`.
pub proof fn lemma_precedes_lexicographic(a: Seq<char>, b: Seq<char>)
    ensures
        precedes(a, b) <==> exists|k: int|
            0 <= k <= a.len() && k <= b.len() && a.take(k) == b.take(k) && ((k == a.len() && k
                < b.len()) || (k < a.len() && k < b.len() && a[k] < b[k])),
    decreases a.len(),
{
    if precedes(a, b) {
        if a.len() == 0 {
            assert(a.take(0) =~= b.take(0));
        } else if a[0] != b[0] {
            assert(a.take(0) =~= b.take(0));
        } else {
            lemma_precedes_lexicographic(a.drop_first(), b.drop_first());
            let k = choose|k: int|
                0 <= k <= a.drop_first().len() && k <= b.drop_first().len() && a.drop_first().take(
                    k,
                ) == b.drop_first().take(k) && ((k == a.drop_first().len() && k
                    < b.drop_first().len()) || (k < a.drop_first().len() && k
                    < b.drop_first().len() && a.drop_first()[k] < b.drop_first()[k]));
            assert(a.take(k + 1) =~= seq![a[0]] + a.drop_first().take(k));
            assert(b.take(k + 1) =~= seq![b[0]] + b.drop_first().take(k));
        }
    }
    if exists|k: int|
        0 <= k <= a.len() && k <= b.len() && a.take(k) == b.take(k) && ((k == a.len() && k
            < b.len()) || (k < a.len() && k < b.len() && a[k] < b[k])) {
        let k = choose|k: int|
            0 <= k <= a.len() && k <= b.len() && a.take(k) == b.take(k) && ((k == a.len() && k
                < b.len()) || (k < a.len() && k < b.len() && a[k] < b[k]));
        if k > 0 {
            assert(a.take(k)[0] == b.take(k)[0]);
            assert(a.drop_first().take(k - 1) =~= a.take(k).drop_first());
            assert(b.drop_first().take(k - 1) =~= b.take(k).drop_first());
            assert(a.drop_first().len() == a.len() - 1);
            if k < a.len() {
                assert(a.drop_first()[k - 1] == a[k]);
                assert(b.drop_first()[k - 1] == b[k]);
            }
            lemma_precedes_lexicographic(a.drop_first(), b.drop_first());
        }
    }
}

/// On one-character strings the order is the order of the characters.
pub proof fn lemma_precedes_single(x: char, y: char)
    ensures
        precedes(seq![x], seq![y]) == (x < y),
{
    lemma_precedes_lexicographic(seq![x], seq![y]);
    if x < y {
        assert(seq![x].take(0) =~= seq![y].take(0));
    }
    if precedes(seq![x], seq![y]) {
        let k = choose|k: int|
            0 <= k <= seq![x].len() && k <= seq![y].len() && seq![x].take(k) == seq![y].take(k)
                && ((k == seq![x].len() && k < seq![y].len()) || (k < seq![x].len() && k
                < seq![y].len() && seq![x][k] < seq![y][k]));
        assert(k == 0);
    }
}

/// Whether the string `a` comes before `b`.
pub fn chars_precede(a: &Vec<char>, b: &Vec<char>) -> (r: bool)
    ensures
        r == precedes(a@, b@),
{
    let mut i: usize = 0;
    assert(a@.skip(0) =~= a@);
    assert(b@.skip(0) =~= b@);
    loop
        invariant
            i <= a.len(),
            i <= b.len(),
            precedes(a@, b@) == precedes(a@.skip(i as int), b@.skip(i as int)),
        decreases a.len() - i,
    {
        proof {
            assert(a@.skip(i as int).len() == a.len() - i);
            assert(b@.skip(i as int).len() == b.len() - i);
        }
        if i == b.len() {
            return false;
        }
        if i == a.len() {
            return true;
        }
        proof {
            assert(a@.skip(i as int)[0] == a@[i as int]);
            assert(b@.skip(i as int)[0] == b@[i as int]);
        }
        if a[i] != b[i] {
            return a[i] < b[i];
        }
        proof {
            assert(a@.skip(i as int).drop_first() =~= a@.skip(i + 1));
            assert(b@.skip(i as int).drop_first() =~= b@.skip(i + 1));
        }
        i += 1;
    }
}

/// `s` lists posts newest first: no post is dated before a post that
/// follows it.
pub open spec fn is_newest_first(s: Seq<Post>) -> bool {
    forall|i: int, j: int| 0 <= i < j < s.len() ==> !precedes(s[i].date@, s[j].date@)
}

/// `x` placed into `r` before the first post dated before it.
pub open spec fn insert_by_date(r: Seq<Post>, x: Post) -> Seq<Post>
    decreases r.len(),
{
    if r.len() == 0 {
        seq![x]
    } else if precedes(r[0].date@, x.date@) {
        seq![x] + r
    } else {
        seq![r[0]] + insert_by_date(r.drop_first(), x)
    }
}

/// The posts of `s` newest first; posts of the same date keep the order they
/// have in `s`.
pub open spec fn newest_first(s: Seq<Post>) -> Seq<Post>
    decreases s.len(),
{
    if s.len() == 0 {
        Seq::empty()
    } else {
        insert_by_date(newest_first(s.drop_last()), s.last())
    }
}

/// Whether a post is dated `d`.
pub open spec fn dated(d: Seq<char>) -> spec_fn(Post) -> bool {
    |p: Post| p.date@ == d
}

/// `pos` is the first index of `r` whose post is dated before `x`.
pub open spec fn is_insert_position(r: Seq<Post>, x: Post, pos: int) -> bool {
    &&& 0 <= pos <= r.len()
    &&& forall|k: int| 0 <= k < pos ==> !precedes(#[trigger] r[k].date@, x.date@)
    &&& (pos == r.len() || precedes(r[pos].date@, x.date@))
}

proof fn lemma_insert_position(r: Seq<Post>, x: Post) -> (pos: int)
    ensures
        is_insert_position(r, x, pos),
        insert_by_date(r, x) == r.insert(pos, x),
    decreases r.len(),
{
    if r.len() == 0 {
        assert(r.insert(0, x) =~= seq![x]);
        0
    } else if precedes(r[0].date@, x.date@) {
        assert(r.insert(0, x) =~= seq![x] + r);
        0
    } else {
        let t = r.drop_first();
        let p = lemma_insert_position(t, x);
        assert(r.insert(p + 1, x) =~= seq![r[0]] + t.insert(p, x));
        assert forall|k: int| 0 <= k < p + 1 implies !precedes(#[trigger] r[k].date@, x.date@) by {
            if k > 0 {
                assert(r[k] == t[k - 1]);
            }
        }
        p + 1
    }
}

proof fn lemma_insert_position_unique(r: Seq<Post>, x: Post, p: int, q: int)
    requires
        is_insert_position(r, x, p),
        is_insert_position(r, x, q),
    ensures
        p == q,
{
    if p < q {
        assert(!precedes(r[p].date@, x.date@));
    } else if q < p {
        assert(!precedes(r[q].date@, x.date@));
    }
}

/// In a list ordered newest first, every post from the insert position of `x`
/// on is dated before `x`.
proof fn lemma_after_insert_position(r: Seq<Post>, x: Post, pos: int, k: int)
    requires
        is_newest_first(r),
        is_insert_position(r, x, pos),
        pos <= k < r.len(),
    ensures
        precedes(r[k].date@, x.date@),
{
    if k > pos {
        assert(!precedes(r[pos].date@, r[k].date@));
        lemma_precedes_total(r[pos].date@, r[k].date@);
        if r[pos].date@ != r[k].date@ {
            lemma_precedes_transitive(r[k].date@, r[pos].date@, x.date@);
        }
    }
}

proof fn lemma_insert_keeps_order(r: Seq<Post>, x: Post, pos: int)
    requires
        is_newest_first(r),
        is_insert_position(r, x, pos),
    ensures
        is_newest_first(r.insert(pos, x)),
{
    let s = r.insert(pos, x);
    assert forall|i: int, j: int| 0 <= i < j < s.len() implies !precedes(
        s[i].date@,
        s[j].date@,
    ) by {
        if j == pos {
            assert(s[i] == r[i]);
        } else if i == pos {
            assert(s[j] == r[j - 1]);
            lemma_after_insert_position(r, x, pos, j - 1);
            lemma_precedes_total(r[j - 1].date@, x.date@);
        } else {
            let ri = if i < pos { i } else { i - 1 };
            let rj = if j < pos { j } else { j - 1 };
            assert(s[i] == r[ri]);
            assert(s[j] == r[rj]);
        }
    }
}

proof fn lemma_filter_none<A>(s: Seq<A>, pred: spec_fn(A) -> bool)
    requires
        forall|k: int| 0 <= k < s.len() ==> !pred(#[trigger] s[k]),
    ensures
        s.filter(pred) == Seq::<A>::empty(),
    decreases s.len(),
{
    reveal(Seq::filter);
    if s.len() > 0 {
        lemma_filter_none(s.drop_last(), pred);
    }
}

proof fn lemma_insert_keeps_same_date_order(r: Seq<Post>, x: Post, pos: int, d: Seq<char>)
    requires
        is_newest_first(r),
        is_insert_position(r, x, pos),
    ensures
        r.insert(pos, x).filter(dated(d)) == r.push(x).filter(dated(d)),
{
    broadcast use Seq::filter_distributes_over_add, Seq::lemma_filter_push;

    let front = r.take(pos);
    let back = r.skip(pos);
    assert(r =~= front + back);
    assert(r.insert(pos, x) =~= front + (seq![x] + back));
    assert(seq![x] =~= Seq::<Post>::empty().push(x));
    assert(Seq::<Post>::empty().filter(dated(d)) =~= Seq::<Post>::empty()) by {
        reveal(Seq::filter);
    }
    if x.date@ == d {
        assert forall|k: int| 0 <= k < back.len() implies !(dated(d))(#[trigger] back[k]) by {
            lemma_after_insert_position(r, x, pos, pos + k);
            assert(back[k] == r[pos + k]);
            if back[k].date@ == d {
                lemma_precedes_irreflexive(d);
            }
        }
        lemma_filter_none(back, dated(d));
        assert((seq![x] + back).filter(dated(d)) =~= seq![x]);
        assert(r.filter(dated(d)) =~= front.filter(dated(d)));
    } else {
        assert((seq![x] + back).filter(dated(d)) =~= back.filter(dated(d)));
    }
}

/// Ordering posts newest first yields a list ordered newest first.
pub proof fn lemma_newest_first_ordered(s: Seq<Post>)
    ensures
        is_newest_first(newest_first(s)),
    decreases s.len(),
{
    if s.len() > 0 {
        let r = newest_first(s.drop_last());
        lemma_newest_first_ordered(s.drop_last());
        let pos = lemma_insert_position(r, s.last());
        lemma_insert_keeps_order(r, s.last(), pos);
    }
}

/// Ordering posts newest first loses no post and adds none.
pub proof fn lemma_newest_first_permutes(s: Seq<Post>)
    ensures
        newest_first(s).to_multiset() == s.to_multiset(),
    decreases s.len(),
{
    broadcast use vstd::seq_lib::to_multiset_insert, vstd::seq_lib::to_multiset_build;

    if s.len() == 0 {
        assert(newest_first(s) =~= s);
    } else {
        let r = newest_first(s.drop_last());
        lemma_newest_first_permutes(s.drop_last());
        let pos = lemma_insert_position(r, s.last());
        assert(s =~= s.drop_last().push(s.last()));
    }
}

/// Ordering posts newest first keeps the posts of any one date in the order
/// they came in.
pub proof fn lemma_newest_first_stable(s: Seq<Post>, d: Seq<char>)
    ensures
        newest_first(s).filter(dated(d)) == s.filter(dated(d)),
    decreases s.len(),
{
    broadcast use Seq::lemma_filter_push;

    if s.len() == 0 {
        assert(newest_first(s) =~= s);
    } else {
        let r = newest_first(s.drop_last());
        lemma_newest_first_stable(s.drop_last(), d);
        lemma_newest_first_ordered(s.drop_last());
        let pos = lemma_insert_position(r, s.last());
        lemma_insert_keeps_same_date_order(r, s.last(), pos, d);
        assert(s =~= s.drop_last().push(s.last()));
    }
}

/// Posts already ordered newest first stay as they are.
pub proof fn lemma_newest_first_of_ordered(s: Seq<Post>)
    requires
        is_newest_first(s),
    ensures
        newest_first(s) == s,
    decreases s.len(),
{
    if s.len() > 0 {
        let t = s.drop_last();
        assert(is_newest_first(t)) by {
            assert forall|i: int, j: int| 0 <= i < j < t.len() implies !precedes(
                t[i].date@,
                t[j].date@,
            ) by {
                assert(t[i] == s[i] && t[j] == s[j]);
            }
        }
        lemma_newest_first_of_ordered(t);
        let pos = lemma_insert_position(t, s.last());
        if pos < t.len() {
            assert(!precedes(s[pos].date@, s[s.len() - 1].date@));
            assert(t[pos] == s[pos]);
        }
        assert(t.insert(t.len() as int, s.last()) =~= s);
    }
}

/// The first index of `sorted` whose post is dated before `date`.
fn insert_position(sorted: &Vec<Post>, date: &Vec<char>) -> (pos: usize)
    ensures
        pos <= sorted.len(),
        forall|k: int| 0 <= k < pos ==> !precedes(#[trigger] sorted@[k].date@, date@),
        pos == sorted.len() || precedes(sorted@[pos as int].date@, date@),
{
    let mut pos: usize = 0;
    while pos < sorted.len()
        invariant
            pos <= sorted.len(),
            forall|k: int| 0 <= k < pos ==> !precedes(#[trigger] sorted@[k].date@, date@),
        decreases sorted.len() - pos,
    {
        let d = chars_of(sorted[pos].date.as_str());
        if chars_precede(&d, date) {
            return pos;
        }
        pos += 1;
    }
    pos
}

/// Orders posts newest first by their `date:` field, compared as strings;
/// posts of the same date keep their order (a stable sort).
pub fn sort_newest_first(posts: &mut Vec<Post>)
    ensures
        final(posts)@ == newest_first(old(posts)@),
        is_newest_first(final(posts)@),
        final(posts)@.to_multiset() == old(posts)@.to_multiset(),
        forall|d: Seq<char>|
            #![trigger final(posts)@.filter(dated(d))]
            final(posts)@.filter(dated(d)) == old(posts)@.filter(dated(d)),
{
    let mut input: Vec<Post> = Vec::new();
    std::mem::swap(posts, &mut input);
    let ghost orig = input@;
    let n = input.len();
    let mut sorted: Vec<Post> = Vec::new();
    let mut i: usize = 0;
    assert(orig.take(0) =~= Seq::<Post>::empty());
    assert(orig.skip(0) =~= orig);
    while i < n
        invariant
            n == orig.len(),
            i <= n,
            input@ == orig.skip(i as int),
            sorted@ == newest_first(orig.take(i as int)),
        decreases n - i,
    {
        assert(input@[0] == orig[i as int]);
        let x = input.remove(0);
        assert(input@ =~= orig.skip(i + 1));
        let xd = chars_of(x.date.as_str());
        let pos = insert_position(&sorted, &xd);
        proof {
            let p = lemma_insert_position(sorted@, x);
            lemma_insert_position_unique(sorted@, x, p, pos as int);
            assert(orig.take(i + 1).drop_last() =~= orig.take(i as int));
            assert(orig.take(i + 1).last() == x);
        }
        sorted.insert(pos, x);
        i += 1;
    }
    *posts = sorted;
    proof {
        assert(orig.take(n as int) =~= orig);
        lemma_newest_first_ordered(orig);
        lemma_newest_first_permutes(orig);
        assert forall|d: Seq<char>| #[trigger]
            newest_first(orig).filter(dated(d)) == orig.filter(dated(d)) by {
            lemma_newest_first_stable(orig, d);
        }
    }
}

/// The first post whose slug is `slug`, if there is one.
pub fn find_post<'a>(posts: &'a Vec<Post>, slug: &str) -> (r: Option<&'a Post>)
    ensures
        match r {
            Some(p) => exists|i: int|
                0 <= i < posts@.len() && posts@[i] == *p && p.slug@ == slug@ && forall|j: int|
                    0 <= j < i ==> #[trigger] posts@[j].slug@ != slug@,
            None => forall|i: int| 0 <= i < posts@.len() ==> #[trigger] posts@[i].slug@ != slug@,
        },
{
    let wanted = String::from_str(slug);
    let mut i: usize = 0;
    while i < posts.len()
        invariant
            i <= posts.len(),
            wanted@ == slug@,
            forall|j: int| 0 <= j < i ==> #[trigger] posts@[j].slug@ != slug@,
        decreases posts.len() - i,
    {
        if posts[i].slug == wanted {
            return Some(&posts[i]);
        }
        i += 1;
    }
    None
}

} // verus!
