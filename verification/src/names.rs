use vstd::prelude::*;

verus! {

/// The index of the last occurrence of `ch` in `s`, or -1 when `s` has none.
pub open spec fn last_occurrence(s: Seq<char>, ch: char) -> int
    decreases s.len(),
{
    if s.len() == 0 {
        -1
    } else if s[s.len() - 1] == ch {
        s.len() - 1
    } else {
        last_occurrence(s.drop_last(), ch)
    }
}

pub proof fn lemma_last_occurrence(s: Seq<char>, ch: char)
    ensures
        -1 <= last_occurrence(s, ch) < s.len(),
        last_occurrence(s, ch) >= 0 ==> s[last_occurrence(s, ch)] == ch,
        forall|j: int| last_occurrence(s, ch) < j < s.len() ==> s[j] != ch,
    decreases s.len(),
{
    if s.len() > 0 && s[s.len() - 1] != ch {
        lemma_last_occurrence(s.drop_last(), ch);
        assert forall|j: int| last_occurrence(s, ch) < j < s.len() implies s[j] != ch by {
            if j < s.len() - 1 {
                assert(s.drop_last()[j] == s[j]);
            }
        }
    }
}

/// The file name part of a path: what follows the last separator.
pub open spec fn file_name_of(path: Seq<char>) -> Seq<char> {
    path.subrange(last_occurrence(path, '/') + 1, path.len() as int)
}

/// The stem of a path: its file name with the extension stripped. A dot in
/// first position starts a hidden file's name, not an extension.
pub open spec fn stem_of(path: Seq<char>) -> Seq<char> {
    let name = file_name_of(path);
    let d = last_occurrence(name, '.');
    if d > 0 {
        name.subrange(0, d)
    } else {
        name
    }
}

/// Finds the last occurrence of `ch` by scanning backwards.
fn rfind_char(v: &Vec<char>, ch: char) -> (r: Option<usize>)
    ensures
        match r {
            Some(k) => k == last_occurrence(v@, ch),
            None => last_occurrence(v@, ch) == -1,
        },
{
    proof {
        lemma_last_occurrence(v@, ch);
    }
    let mut i: usize = v.len();
    while i > 0
        invariant
            i <= v@.len(),
            forall|j: int| i <= j < v@.len() ==> v@[j] != ch,
            -1 <= last_occurrence(v@, ch) < v@.len(),
            last_occurrence(v@, ch) >= 0 ==> v@[last_occurrence(v@, ch)] == ch,
            forall|j: int| last_occurrence(v@, ch) < j < v@.len() ==> v@[j] != ch,
        decreases i,
    {
        i = i - 1;
        if v[i] == ch {
            proof {
                assert(last_occurrence(v@, ch) == i);
            }
            return Some(i);
        }
    }
    proof {
        assert(last_occurrence(v@, ch) == -1);
    }
    None
}

/// Copies a range of characters out of a vector.
pub(crate) fn copy_range(v: &Vec<char>, from: usize, to: usize) -> (r: Vec<char>)
    requires
        from <= to <= v@.len(),
    ensures
        r@ == v@.subrange(from as int, to as int),
{
    let mut out: Vec<char> = Vec::new();
    let mut i: usize = from;
    while i < to
        invariant
            from <= i <= to <= v@.len(),
            out@ == v@.subrange(from as int, i as int),
        decreases to - i,
    {
        out.push(v[i]);
        proof {
            assert(out@ =~= v@.subrange(from as int, i + 1));
        }
        i = i + 1;
    }
    out
}

/// The stem of a path: the file name after the last `/`, with everything
/// from its last dot on stripped, unless that dot opens a hidden file's name.
pub fn file_stem(path: &Vec<char>) -> (r: Vec<char>)
    ensures
        r@ == stem_of(path@),
{
    let n: usize = path.len();
    proof {
        lemma_last_occurrence(path@, '/');
    }
    let start: usize = match rfind_char(path, '/') {
        Some(k) => k + 1,
        None => 0,
    };
    let name = copy_range(path, start, n);
    proof {
        assert(name@ == file_name_of(path@));
        lemma_last_occurrence(name@, '.');
    }
    match rfind_char(&name, '.') {
        Some(d) if d > 0 => copy_range(&name, 0, d),
        _ => name,
    }
}

/// Character-for-character equality of two character vectors.
pub fn chars_eq(a: &Vec<char>, b: &Vec<char>) -> (r: bool)
    ensures
        r == (a@ == b@),
{
    if a.len() != b.len() {
        return false;
    }
    let mut i: usize = 0;
    while i < a.len()
        invariant
            i <= a@.len(),
            a@.len() == b@.len(),
            forall|j: int| 0 <= j < i ==> a@[j] == b@[j],
        decreases a@.len() - i,
    {
        if a[i] != b[i] {
            return false;
        }
        i = i + 1;
    }
    proof {
        assert(a@ =~= b@);
    }
    true
}

/// What the upper-camel-case conversion makes of a string: a pure function
/// of the characters alone, named here and never restated.
pub uninterp spec fn upper_camel_of(s: Seq<char>) -> Seq<char>;

/// What the shouty-snake-case conversion makes of a string: a pure function
/// of the characters alone, named here and never restated.
pub uninterp spec fn shouty_snake_of(s: Seq<char>) -> Seq<char>;

/// Relies on heck::ToUpperCamelCase::to_upper_camel_case for str: a pure,
/// locale-independent function of the characters alone.
#[verifier::external_body]
fn to_upper_camel(s: &Vec<char>) -> (r: Vec<char>)
    ensures
        r@ == upper_camel_of(s@),
{
    let owned: String = s.iter().collect();
    heck::ToUpperCamelCase::to_upper_camel_case(owned.as_str()).chars().collect()
}

/// Relies on heck::ToShoutySnakeCase::to_shouty_snake_case for str: a pure,
/// locale-independent function of the characters alone.
#[verifier::external_body]
fn to_shouty_snake(s: &Vec<char>) -> (r: Vec<char>)
    ensures
        r@ == shouty_snake_of(s@),
{
    let owned: String = s.iter().collect();
    heck::ToShoutySnakeCase::to_shouty_snake_case(owned.as_str()).chars().collect()
}

/// The identifier-style name an asset takes: the upper-camel-case form of
/// the path's stem.
pub open spec fn variant_name_of(path: Seq<char>) -> Seq<char> {
    upper_camel_of(stem_of(path))
}

/// The storage-style name an asset takes: the shouty-snake-case form of the
/// path's stem.
pub open spec fn storage_name_of(path: Seq<char>) -> Seq<char> {
    shouty_snake_of(stem_of(path))
}

/// Derives the identifier-style name of the asset at `path`.
pub fn variant_name(path: &Vec<char>) -> (r: Vec<char>)
    ensures
        r@ == variant_name_of(path@),
{
    let stem = file_stem(path);
    to_upper_camel(&stem)
}

/// Derives the storage-style name of the asset at `path`.
pub fn storage_name(path: &Vec<char>) -> (r: Vec<char>)
    ensures
        r@ == storage_name_of(path@),
{
    let stem = file_stem(path);
    to_shouty_snake(&stem)
}

} // verus!
