//! Small verified helpers on text: comparison and search over the characters
//! of a string.
use vstd::prelude::*;

verus! {

/// Index of the first occurrence of `c` in `s` at or after `from`, if any.
pub open spec fn index_of_from(s: Seq<char>, c: char, from: int) -> Option<int>
    decreases s.len() - from,
{
    if from < 0 || from >= s.len() {
        None
    } else if s[from] == c {
        Some(from)
    } else {
        index_of_from(s, c, from + 1)
    }
}

/// Copies the characters of `s` into a vector.
pub fn chars_of(s: &str) -> (v: Vec<char>)
    ensures
        v@ == s@,
{
    let mut v: Vec<char> = Vec::new();
    for c in it: s.chars()
        invariant
            v@ == it.seq().take(it.index() as int),
            it.seq() == s@,
    {
        v.push(c);
        assert(v@ == it.seq().take(it.index() as int + 1));
    }
    v
}

/// Whether two strings hold the same characters.
pub fn str_eq(a: &str, b: &str) -> (r: bool)
    ensures
        r == (a@ == b@),
{
    let va = chars_of(a);
    let vb = chars_of(b);
    if va.len() != vb.len() {
        return false;
    }
    let mut i: usize = 0;
    while i < va.len()
        invariant
            va@ == a@,
            vb@ == b@,
            va.len() == vb.len(),
            i <= va.len(),
            forall|j: int| 0 <= j < i ==> va@[j] == vb@[j],
        decreases va.len() - i,
    {
        if va[i] != vb[i] {
            return false;
        }
        i += 1;
    }
    assert(va@ =~= vb@);
    true
}


/// Index of the first occurrence of `pat` in `s` starting at or after
/// `from`, if any.
pub open spec fn find_from(s: Seq<char>, pat: Seq<char>, from: int) -> Option<int>
    decreases s.len() + 1 - from,
{
    if from < 0 || from + pat.len() > s.len() {
        None
    } else if s.subrange(from, from + pat.len()) == pat {
        Some(from)
    } else {
        find_from(s, pat, from + 1)
    }
}

/// Whether `pat` occurs in `s`.
pub open spec fn contains_text(s: Seq<char>, pat: Seq<char>) -> bool {
    find_from(s, pat, 0) is Some
}

/// The first `c` in `v` at or after `from`.
pub fn find_char(v: &Vec<char>, c: char, from: usize) -> (r: Option<usize>)
    ensures
        match r {
            Some(i) => index_of_from(v@, c, from as int) == Some(i as int) && i < v@.len(),
            None => index_of_from(v@, c, from as int) is None,
        },
{
    let mut i = from;
    while i < v.len()
        invariant
            from <= i,
            index_of_from(v@, c, from as int) == index_of_from(v@, c, i as int),
        decreases v.len() - i,
    {
        if v[i] == c {
            return Some(i);
        }
        i += 1;
    }
    None
}

/// The first occurrence of `pat` in `v` at or after `from`.
pub fn find_text(v: &Vec<char>, pat: &Vec<char>, from: usize) -> (r: Option<usize>)
    ensures
        match r {
            Some(i) => find_from(v@, pat@, from as int) == Some(i as int) && i + pat@.len() <= v@.len(),
            None => find_from(v@, pat@, from as int) is None,
        },
{
    let mut i = from;
    while i <= v.len() && pat.len() <= v.len() - i
        invariant
            from <= i,
            find_from(v@, pat@, from as int) == find_from(v@, pat@, i as int),
        decreases v.len() + 1 - i,
    {
        let mut j: usize = 0;
        let mut same = true;
        while j < pat.len()
            invariant
                j <= pat@.len(),
                i + pat@.len() <= v@.len(),
                same == (forall|k: int| 0 <= k < j ==> v@[i + k] == pat@[k]),
            decreases pat.len() - j,
        {
            assert(i + j < v.len());
            if v[i + j] != pat[j] {
                same = false;
            }
            j += 1;
        }
        if same {
            assert(v@.subrange(i as int, i + pat@.len()) =~= pat@);
            return Some(i);
        } else {
            assert(v@.subrange(i as int, i + pat@.len()) != pat@) by {
                let k = choose|k: int| 0 <= k < pat@.len() && v@[i + k] != pat@[k];
                assert(v@.subrange(i as int, i + pat@.len())[k] == v@[i + k]);
            }
        }
        i += 1;
    }
    None
}

/// Whether `s` contains `pat`.
pub fn text_contains(s: &Vec<char>, pat: &Vec<char>) -> (r: bool)
    ensures
        r == contains_text(s@, pat@),
{
    find_text(s, pat, 0).is_some()
}

/// A text has no UTF-8 bytes exactly when it has no characters.
pub proof fn lemma_no_bytes_iff_empty(s: Seq<char>)
    ensures
        (vstd::utf8::encode_utf8(s).len() == 0) == (s.len() == 0),
{
    if s.len() > 0 {
        vstd::utf8::encode_utf8_first_scalar(s);
    }
}

/// Whether `s` has no characters.
pub fn text_is_empty(s: &str) -> (b: bool)
    ensures
        b == (s@.len() == 0),
{
    proof {
        lemma_no_bytes_iff_empty(s@);
    }
    s.as_bytes().len() == 0
}

} // verus!

