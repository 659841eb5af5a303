//! Character-level text handling: white space and trimming, searching for a
//! pattern, and moving between `str`, `String` and `Vec<char>`.

use vstd::prelude::*;

verus! {

/// `String::push` appends one character at the end of the string: the string
/// afterwards is the string before with `ch` added at the end.
pub assume_specification[ String::push ](s: &mut String, ch: char)
    ensures
        final(s)@ == old(s)@.push(ch),
;

/// Whether `c` has Unicode's `White_Space` property: the characters that
/// `char::is_whitespace` accepts, and so those that `str::trim` removes and
/// that `str::split_whitespace` splits at.
pub open spec fn is_space(c: char) -> bool {
    ||| c == ' '
    ||| ('\t' <= c && c <= '\r')
    ||| c == '\u{85}'
    ||| c == '\u{a0}'
    ||| c == '\u{1680}'
    ||| ('\u{2000}' <= c && c <= '\u{200a}')
    ||| c == '\u{2028}'
    ||| c == '\u{2029}'
    ||| c == '\u{202f}'
    ||| c == '\u{205f}'
    ||| c == '\u{3000}'
}

pub fn is_space_char(c: char) -> (b: bool)
    ensures
        b == is_space(c),
{
    c == ' ' || ('\t' <= c && c <= '\r') || c == '\u{85}' || c == '\u{a0}' || c == '\u{1680}'
        || ('\u{2000}' <= c && c <= '\u{200a}') || c == '\u{2028}' || c == '\u{2029}' || c
        == '\u{202f}' || c == '\u{205f}' || c == '\u{3000}'
}

/// `s` without its leading white space.
pub open spec fn trim_start(s: Seq<char>) -> Seq<char>
    decreases s.len(),
{
    if s.len() > 0 && is_space(s[0]) {
        trim_start(s.drop_first())
    } else {
        s
    }
}

/// `s` without its trailing white space.
pub open spec fn trim_end(s: Seq<char>) -> Seq<char>
    decreases s.len(),
{
    if s.len() > 0 && is_space(s.last()) {
        trim_end(s.drop_last())
    } else {
        s
    }
}

/// `s` without white space at either end, as `str::trim` gives it.
pub open spec fn trim(s: Seq<char>) -> Seq<char> {
    trim_end(trim_start(s))
}

/// Trimmed text neither starts nor ends with white space.
pub proof fn lemma_trim_has_no_outer_space(s: Seq<char>)
    ensures
        trim(s).len() == 0 || (!is_space(trim(s)[0]) && !is_space(trim(s).last())),
{
    lemma_trim_start_clean(s);
    lemma_trim_end_keeps_clean_start(trim_start(s));
}

proof fn lemma_spaces_from(s: Seq<char>, i: int) -> (r: int)
    requires
        0 <= i <= s.len(),
        forall|k: int| 0 <= k < i ==> is_space(#[trigger] s[k]),
    ensures
        i <= r <= s.len(),
        forall|k: int| 0 <= k < r ==> is_space(#[trigger] s[k]),
        r == s.len() || !is_space(s[r]),
    decreases s.len() - i,
{
    if i < s.len() && is_space(s[i]) {
        lemma_spaces_from(s, i + 1)
    } else {
        i
    }
}

proof fn lemma_spaces_down(s: Seq<char>, lo: int, j: int) -> (r: int)
    requires
        0 <= lo <= j <= s.len(),
        forall|k: int| j <= k < s.len() ==> is_space(#[trigger] s[k]),
    ensures
        lo <= r <= j,
        forall|k: int| r <= k < s.len() ==> is_space(#[trigger] s[k]),
        r == lo || !is_space(s[r - 1]),
    decreases j,
{
    if j > lo && is_space(s[j - 1]) {
        lemma_spaces_down(s, lo, j - 1)
    } else {
        j
    }
}

/// Trimming removes white space at the ends and nothing else: the result is
/// the stretch `s[i..j]` with only white space before `i` and from `j` on,
/// and it neither starts nor ends with white space.
pub proof fn lemma_trim_law(s: Seq<char>) -> (r: (int, int))
    ensures
        0 <= r.0 <= r.1 <= s.len(),
        trim(s) == s.subrange(r.0, r.1),
        forall|k: int| 0 <= k < r.0 ==> is_space(#[trigger] s[k]),
        forall|k: int| r.1 <= k < s.len() ==> is_space(#[trigger] s[k]),
        r.0 < r.1 ==> !is_space(s[r.0]) && !is_space(s[r.1 - 1]),
{
    let i = lemma_spaces_from(s, 0);
    let j = lemma_spaces_down(s, i, s.len() as int);
    lemma_trim_start_at(s, i);
    let t = s.skip(i);
    assert forall|k: int| j - i <= k < t.len() implies is_space(#[trigger] t[k]) by {
        assert(t[k] == s[i + k]);
    }
    if j > i {
        assert(t[j - i - 1] == s[j - 1]);
    }
    lemma_trim_end_at(t, j - i);
    assert(t.take(j - i) =~= s.subrange(i, j));
    (i, j)
}

proof fn lemma_trim_start_clean(s: Seq<char>)
    ensures
        trim_start(s).len() == 0 || !is_space(trim_start(s)[0]),
    decreases s.len(),
{
    if s.len() > 0 && is_space(s[0]) {
        lemma_trim_start_clean(s.drop_first());
    }
}

proof fn lemma_trim_end_keeps_clean_start(s: Seq<char>)
    requires
        s.len() == 0 || !is_space(s[0]),
    ensures
        trim_end(s).len() == 0 || (!is_space(trim_end(s)[0]) && !is_space(trim_end(s).last())),
    decreases s.len(),
{
    if s.len() > 0 && is_space(s.last()) {
        lemma_trim_end_keeps_clean_start(s.drop_last());
    }
}

proof fn lemma_trim_start_at(s: Seq<char>, i: int)
    requires
        0 <= i <= s.len(),
        forall|k: int| 0 <= k < i ==> is_space(#[trigger] s[k]),
        i == s.len() || !is_space(s[i]),
    ensures
        trim_start(s) == s.skip(i),
    decreases i,
{
    if i == 0 {
        assert(s.skip(0) =~= s);
    } else {
        assert(is_space(s[0]));
        let t = s.drop_first();
        assert forall|k: int| 0 <= k < i - 1 implies is_space(#[trigger] t[k]) by {
            assert(t[k] == s[k + 1]);
        }
        lemma_trim_start_at(t, i - 1);
        assert(t.skip(i - 1) =~= s.skip(i));
    }
}

proof fn lemma_trim_end_at(s: Seq<char>, j: int)
    requires
        0 <= j <= s.len(),
        forall|k: int| j <= k < s.len() ==> is_space(#[trigger] s[k]),
        j == 0 || !is_space(s[j - 1]),
    ensures
        trim_end(s) == s.take(j),
    decreases s.len() - j,
{
    if j == s.len() {
        assert(s.take(j) =~= s);
    } else {
        assert(is_space(s[s.len() - 1]));
        let t = s.drop_last();
        assert forall|k: int| j <= k < t.len() implies is_space(#[trigger] t[k]) by {
            assert(t[k] == s[k]);
        }
        lemma_trim_end_at(t, j);
        assert(t.take(j) =~= s.take(j));
    }
}

/// The bounds of `v[from..to]` once white space is trimmed off both ends.
pub fn trim_bounds(v: &Vec<char>, from: usize, to: usize) -> (r: (usize, usize))
    requires
        from <= to <= v.len(),
    ensures
        from <= r.0 <= r.1 <= to,
        v@.subrange(r.0 as int, r.1 as int) == trim(v@.subrange(from as int, to as int)),
{
    let mut i = from;
    while i < to && is_space_char(v[i])
        invariant
            from <= i <= to,
            to <= v.len(),
            forall|k: int| from <= k < i ==> is_space(#[trigger] v@[k]),
        decreases to - i,
    {
        i += 1;
    }
    let mut j = to;
    while j > i && is_space_char(v[j - 1])
        invariant
            from <= i <= j <= to,
            to <= v.len(),
            forall|k: int| j <= k < to ==> is_space(#[trigger] v@[k]),
        decreases j,
    {
        j -= 1;
    }
    proof {
        let s = v@.subrange(from as int, to as int);
        assert forall|k: int| 0 <= k < i - from implies is_space(#[trigger] s[k]) by {
            assert(s[k] == v@[from + k]);
        }
        lemma_trim_start_at(s, i - from);
        let t = s.skip(i - from);
        assert(t =~= v@.subrange(i as int, to as int));
        assert forall|k: int| j - i <= k < t.len() implies is_space(#[trigger] t[k]) by {
            assert(t[k] == v@[i + k]);
        }
        lemma_trim_end_at(t, j - i);
        assert(t.take(j - i) =~= v@.subrange(i as int, j as int));
    }
    (i, j)
}

/// The characters of `s`.
pub fn chars_of(s: &str) -> (v: Vec<char>)
    ensures
        v@ == s@,
{
    let mut v: Vec<char> = Vec::new();
    for c in it: s.chars()
        invariant
            v@ == it.seq().take(it.index() as int),
    {
        v.push(c);
    }
    v
}

/// A `String` holding `v[from..to]`.
pub fn string_from_range(v: &Vec<char>, from: usize, to: usize) -> (s: String)
    requires
        from <= to <= v.len(),
    ensures
        s@ == v@.subrange(from as int, to as int),
{
    let mut s = String::new();
    let mut i = from;
    while i < to
        invariant
            from <= i <= to,
            to <= v.len(),
            s@ == v@.subrange(from as int, i as int),
        decreases to - i,
    {
        s.push(v[i]);
        i += 1;
        assert(s@ =~= v@.subrange(from as int, i as int));
    }
    s
}

/// A vector holding `v[from..to]`.
pub fn copy_range(v: &Vec<char>, from: usize, to: usize) -> (w: Vec<char>)
    requires
        from <= to <= v.len(),
    ensures
        w@ == v@.subrange(from as int, to as int),
{
    let mut w: Vec<char> = Vec::new();
    let mut i = from;
    while i < to
        invariant
            from <= i <= to,
            to <= v.len(),
            w@ == v@.subrange(from as int, i as int),
        decreases to - i,
    {
        w.push(v[i]);
        i += 1;
        assert(w@ =~= v@.subrange(from as int, i as int));
    }
    w
}

/// Whether `p` occurs in `s` starting at index `i`.
pub open spec fn occurs_at(s: Seq<char>, i: int, p: Seq<char>) -> bool {
    0 <= i && i + p.len() <= s.len() && s.subrange(i, i + p.len()) == p
}

pub fn occurs_at_exec(v: &Vec<char>, i: usize, p: &Vec<char>) -> (b: bool)
    ensures
        b == occurs_at(v@, i as int, p@),
{
    if i > v.len() || p.len() > v.len() - i {
        return false;
    }
    let mut k: usize = 0;
    while k < p.len()
        invariant
            k <= p.len(),
            i + p.len() <= v.len(),
            forall|m: int| 0 <= m < k ==> v@[i + m] == p@[m],
        decreases p.len() - k,
    {
        if v[i + k] != p[k] {
            assert(v@.subrange(i as int, i + p.len())[k as int] != p@[k as int]);
            return false;
        }
        k += 1;
    }
    assert(v@.subrange(i as int, i + p.len()) =~= p@);
    true
}

/// Whether `a` and `b` hold the same characters.
pub fn same_chars(a: &Vec<char>, b: &Vec<char>) -> (r: bool)
    ensures
        r == (a@ == b@),
{
    if a.len() != b.len() {
        return false;
    }
    let r = occurs_at_exec(a, 0, b);
    assert(a@.subrange(0, b@.len() as int) =~= a@);
    r
}

/// Whether `a` holds exactly the characters of `s`.
pub fn equals_str(a: &Vec<char>, s: &str) -> (r: bool)
    ensures
        r == (a@ == s@),
{
    let b = chars_of(s);
    same_chars(a, &b)
}

/// `i` is the first index at which `p` occurs in `s`.
pub open spec fn is_first_occurrence(s: Seq<char>, p: Seq<char>, i: int) -> bool {
    &&& occurs_at(s, i, p)
    &&& forall|j: int| 0 <= j < i ==> !occurs_at(s, j, p)
}

/// The first index at which `p` occurs in `s`, if it occurs at all.
pub open spec fn first_occurrence(s: Seq<char>, p: Seq<char>) -> Option<int> {
    if exists|i: int| is_first_occurrence(s, p, i) {
        Some(choose|i: int| is_first_occurrence(s, p, i))
    } else {
        None
    }
}

proof fn lemma_first_occurrence_is(s: Seq<char>, p: Seq<char>, i: int)
    requires
        is_first_occurrence(s, p, i),
    ensures
        first_occurrence(s, p) == Some(i),
{
    let c = choose|j: int| is_first_occurrence(s, p, j);
    assert(is_first_occurrence(s, p, c));
    if c < i {
        assert(!occurs_at(s, c, p));
    } else if i < c {
        assert(!occurs_at(s, i, p));
    }
}

proof fn lemma_first_occurrence_exists(s: Seq<char>, p: Seq<char>, i: int)
    requires
        occurs_at(s, i, p),
    ensures
        exists|j: int| is_first_occurrence(s, p, j),
    decreases i,
{
    if exists|j: int| 0 <= j < i && occurs_at(s, j, p) {
        let j = choose|j: int| 0 <= j < i && occurs_at(s, j, p);
        lemma_first_occurrence_exists(s, p, j);
    } else {
        assert(is_first_occurrence(s, p, i));
    }
}

/// Where `p` occurs in `s`, `first_occurrence` finds an index at which it
/// occurs and before which it does not; where it finds none, `p` occurs
/// nowhere in `s`.
pub proof fn lemma_first_occurrence_law(s: Seq<char>, p: Seq<char>)
    ensures
        match first_occurrence(s, p) {
            Some(i) => occurs_at(s, i, p) && forall|j: int| 0 <= j < i ==> !occurs_at(s, j, p),
            None => forall|j: int| !occurs_at(s, j, p),
        },
{
    if exists|i: int| is_first_occurrence(s, p, i) {
        let c = choose|i: int| is_first_occurrence(s, p, i);
        assert(is_first_occurrence(s, p, c));
    } else {
        assert forall|j: int| !occurs_at(s, j, p) by {
            if occurs_at(s, j, p) {
                lemma_first_occurrence_exists(s, p, j);
            }
        }
    }
}

/// The first index at which `p` occurs in `v`.
pub fn find_first(v: &Vec<char>, p: &Vec<char>) -> (r: Option<usize>)
    ensures
        match r {
            Some(i) => first_occurrence(v@, p@) == Some(i as int),
            None => first_occurrence(v@, p@) is None,
        },
{
    if p.len() > v.len() {
        assert forall|i: int| !is_first_occurrence(v@, p@, i) by {}
        return None;
    }
    let last = v.len() - p.len();
    let mut i: usize = 0;
    while i < last
        invariant
            last == v.len() - p.len(),
            p.len() <= v.len(),
            i <= last,
            forall|j: int| 0 <= j < i ==> !occurs_at(v@, j, p@),
        decreases last - i,
    {
        if occurs_at_exec(v, i, p) {
            proof {
                lemma_first_occurrence_is(v@, p@, i as int);
            }
            return Some(i);
        }
        i += 1;
    }
    if occurs_at_exec(v, last, p) {
        proof {
            lemma_first_occurrence_is(v@, p@, last as int);
        }
        return Some(last);
    }
    assert forall|j: int| !is_first_occurrence(v@, p@, j) by {
        if 0 <= j <= last {
        } else {
            assert(!occurs_at(v@, j, p@));
        }
    }
    None
}

} // verus!
