//! File names split into stem and extension, as `std::path::Path` splits
//! them: at the last `.`, unless nothing stands before that dot.

use vstd::prelude::*;
use crate::text::{chars_of, string_from_range};

verus! {

/// `i` is the index of the dot at which `name` splits into a stem and an
/// extension: the last `.` of the name, with a non-empty stem before it. The
/// name `..` has no extension.
pub open spec fn is_extension_dot(name: Seq<char>, i: int) -> bool {
    &&& 0 < i < name.len()
    &&& name[i] == '.'
    &&& forall|k: int| i < k < name.len() ==> name[k] != '.'
    &&& name != seq!['.', '.']
}

/// What follows the extension dot of `name`, if it has one.
pub open spec fn extension(name: Seq<char>) -> Option<Seq<char>> {
    if exists|i: int| is_extension_dot(name, i) {
        Some(name.skip((choose|i: int| is_extension_dot(name, i)) + 1))
    } else {
        None
    }
}

/// What precedes the extension dot of `name`, or the whole name if it has no
/// extension.
pub open spec fn file_stem(name: Seq<char>) -> Seq<char> {
    if exists|i: int| is_extension_dot(name, i) {
        name.take(choose|i: int| is_extension_dot(name, i))
    } else {
        name
    }
}

proof fn lemma_extension_dot_unique(name: Seq<char>, i: int, j: int)
    requires
        is_extension_dot(name, i),
        is_extension_dot(name, j),
    ensures
        i == j,
{
    if i < j {
        assert(name[j] != '.');
    } else if j < i {
        assert(name[i] != '.');
    }
}

proof fn lemma_extension_dot_chosen(name: Seq<char>, i: int)
    requires
        is_extension_dot(name, i),
    ensures
        extension(name) == Some(name.skip(i + 1)),
        file_stem(name) == name.take(i),
{
    let c = choose|j: int| is_extension_dot(name, j);
    assert(is_extension_dot(name, c));
    lemma_extension_dot_unique(name, i, c);
}

/// A name made of a non-empty stem, a dot and a dot-free extension splits
/// into just these, unless it is `..`.
pub proof fn lemma_extension_of_split(stem: Seq<char>, e: Seq<char>)
    requires
        stem.len() > 0,
        forall|k: int| 0 <= k < e.len() ==> #[trigger] e[k] != '.',
        stem + seq!['.'] + e != seq!['.', '.'],
    ensures
        extension(stem + seq!['.'] + e) == Some(e),
        file_stem(stem + seq!['.'] + e) == stem,
{
    let name = stem + seq!['.'] + e;
    let i = stem.len() as int;
    assert forall|k: int| i < k < name.len() implies name[k] != '.' by {
        assert(name[k] == e[k - i - 1]);
    }
    assert(is_extension_dot(name, i));
    lemma_extension_dot_chosen(name, i);
    assert(name.skip(i + 1) =~= e);
    assert(name.take(i) =~= stem);
}

/// A name with no dot after its first character has no extension, and is
/// its own stem.
pub proof fn lemma_extension_none(name: Seq<char>)
    requires
        forall|k: int| 0 < k < name.len() ==> #[trigger] name[k] != '.',
    ensures
        extension(name) is None,
        file_stem(name) == name,
{
}

/// The index of the extension dot of `v`, if it has one.
pub fn extension_dot(v: &Vec<char>) -> (r: Option<usize>)
    ensures
        match r {
            Some(i) => is_extension_dot(v@, i as int),
            None => forall|i: int| !is_extension_dot(v@, i),
        },
{
    let mut j = v.len();
    while j > 0 && v[j - 1] != '.'
        invariant
            j <= v.len(),
            forall|k: int| j <= k < v.len() ==> v@[k] != '.',
        decreases j,
    {
        j -= 1;
    }
    if j <= 1 {
        assert forall|i: int| !is_extension_dot(v@, i) by {
            if 0 < i < v.len() && v@[i] == '.' {
                assert(i < j);
            }
        }
        return None;
    }
    let i = j - 1;
    if v.len() == 2 && v[0] == '.' && v[1] == '.' {
        assert(v@ =~= seq!['.', '.']);
        return None;
    }
    proof {
        if v@ == seq!['.', '.'] {
            assert(v@[0] == '.' && v@[1] == '.');
        }
    }
    Some(i)
}

/// The extension of the file name `name`, as `Path::extension` gives it.
pub fn file_extension(name: &str) -> (r: Option<String>)
    ensures
        match r {
            Some(e) => extension(name@) == Some(e@),
            None => extension(name@) is None,
        },
{
    let v = chars_of(name);
    match extension_dot(&v) {
        Some(i) => {
            proof {
                lemma_extension_dot_chosen(v@, i as int);
                assert(v@.subrange(i + 1, v@.len() as int) =~= v@.skip(i + 1));
            }
            Some(string_from_range(&v, i + 1, v.len()))
        },
        None => None,
    }
}

/// The stem of the file name `name`, as `Path::file_stem` gives it.
pub fn file_stem_of(name: &str) -> (r: String)
    ensures
        r@ == file_stem(name@),
{
    let v = chars_of(name);
    match extension_dot(&v) {
        Some(i) => {
            proof {
                lemma_extension_dot_chosen(v@, i as int);
                assert(v@.subrange(0, i as int) =~= v@.take(i as int));
            }
            string_from_range(&v, 0, i)
        },
        None => {
            assert(v@.subrange(0, v@.len() as int) =~= v@);
            string_from_range(&v, 0, v.len())
        },
    }
}

} // verus!
