//! Character-level helpers on strings, specified over `Seq<char>`.

use vstd::prelude::*;
use vstd::string::*;

verus! {

/// The characters of `s` at positions `left <= i < right`, clamped to the
/// text: an empty range, or one that starts past the end, yields nothing.
pub open spec fn char_slice(s: Seq<char>, left: int, right: int) -> Seq<char> {
    let hi = if right < s.len() { right } else { s.len() as int };
    if 0 <= left < hi {
        s.subrange(left, hi)
    } else {
        Seq::empty()
    }
}

/// A range that lies within the text is cut out exactly.
pub proof fn lemma_char_slice_within(s: Seq<char>, left: int, right: int)
    requires
        0 <= left <= right <= s.len(),
    ensures
        char_slice(s, left, right) == s.subrange(left, right),
{
    assert(char_slice(s, left, right) =~= s.subrange(left, right));
}

/// `parts` concatenated, with `sep` between neighbours.
pub open spec fn join(parts: Seq<Seq<char>>, sep: Seq<char>) -> Seq<char>
    decreases parts.len(),
{
    if parts.len() == 0 {
        Seq::empty()
    } else if parts.len() == 1 {
        parts[0]
    } else {
        join(parts.drop_last(), sep) + sep + parts.last()
    }
}

/// The views of a sequence of strings.
pub open spec fn views(parts: Seq<String>) -> Seq<Seq<char>> {
    parts.map_values(|s: String| s@)
}

/// Copies the characters `[left, right)` of `s`, counted in characters
/// rather than bytes.
pub fn slice_chars(s: &str, left: usize, right: usize) -> (out: String)
    ensures
        out@ == char_slice(s@, left as int, right as int),
{
    let len: usize = s.unicode_len();
    let hi: usize = if right < len { right } else { len };
    if left < hi {
        String::from_str(s.substring_char(left, hi))
    } else {
        String::new()
    }
}

/// Joins `parts` with `sep` between neighbours.
pub fn join_strings(parts: &Vec<String>, sep: &str) -> (out: String)
    ensures
        out@ == join(views(parts@), sep@),
{
    let mut out = String::new();
    let mut i: usize = 0;
    while i < parts.len()
        invariant
            i <= parts.len(),
            out@ == join(views(parts@).take(i as int), sep@),
        decreases parts.len() - i,
    {
        proof {
            let done = views(parts@).take(i as int);
            let next = views(parts@).take(i + 1);
            assert(next.drop_last() =~= done);
            assert(next.last() == parts@[i as int]@);
            if i == 0 {
                assert(out@ + parts@[i as int]@ =~= parts@[i as int]@);
            }
        }
        if i > 0 {
            out.append(sep);
        }
        out.append(parts[i].as_str());
        i += 1;
    }
    proof {
        assert(views(parts@).take(parts.len() as int) =~= views(parts@));
    }
    out
}

/// Whether some string of `items` has the characters of `wanted`.
pub fn contains_string(items: &Vec<String>, wanted: &String) -> (found: bool)
    ensures
        found == views(items@).contains(wanted@),
{
    let mut i: usize = 0;
    while i < items.len()
        invariant
            i <= items.len(),
            forall|k: int| 0 <= k < i ==> views(items@)[k] != wanted@,
        decreases items.len() - i,
    {
        if items[i] == *wanted {
            assert(views(items@)[i as int] == wanted@);
            return true;
        }
        i += 1;
    }
    false
}

} // verus!
