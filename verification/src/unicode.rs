//! Boundary to the Unicode collaborators: case folding and grapheme-cluster
//! segmentation, together with small conversions between strings and
//! character vectors.

use vstd::prelude::*;
use vstd::string::*;

verus! {

/// The lowercase form of a character sequence, as Unicode case mapping
/// defines it.
pub uninterp spec fn lower_of(s: Seq<char>) -> Seq<char>;

/// The extended grapheme-cluster segmentation of a character sequence.
pub uninterp spec fn graphemes_of(s: Seq<char>) -> Seq<Seq<char>>;

/// Concatenation of a sequence of character sequences.
pub open spec fn concat_all(parts: Seq<Seq<char>>) -> Seq<char>
    decreases parts.len(),
{
    if parts.len() == 0 {
        Seq::empty()
    } else {
        parts[0] + concat_all(parts.skip(1))
    }
}

/// Relies on str::to_lowercase: the result depends on the characters alone,
/// and an empty string stays empty.
#[verifier::external_body]
pub fn lowercase(s: &String) -> (r: String)
    ensures
        r@ == lower_of(s@),
        s@.len() == 0 ==> r@.len() == 0,
{
    s.to_lowercase()
}

/// Relies on UnicodeSegmentation::graphemes: the extended grapheme clusters
/// of the string, in order. They are consecutive non-empty substrings that
/// cover the whole string, so their concatenation yields it back.
#[verifier::external_body]
pub fn grapheme_segments(s: &String) -> (r: Vec<String>)
    ensures
        r.deep_view() == graphemes_of(s@),
        concat_all(r.deep_view()) == s@,
        forall|i: int| 0 <= i < r.deep_view().len() ==> r.deep_view()[i].len() > 0,
{
    unicode_segmentation::UnicodeSegmentation::graphemes(s.as_str(), true)
        .map(|g| g.to_string())
        .collect()
}

/// Relies on String's FromIterator over char: collects exactly the
/// characters of the vector, in order.
#[verifier::external_body]
pub fn chars_to_string(v: &Vec<char>) -> (r: String)
    ensures
        r@ == v@,
{
    v.iter().collect()
}

/// The characters of a string slice, as a vector.
pub fn str_to_chars(s: &str) -> (r: Vec<char>)
    ensures
        r@ == s@,
{
    let n = s.unicode_len();
    let mut r: Vec<char> = Vec::new();
    let mut i: usize = 0;
    while i < n
        invariant
            n == s@.len(),
            0 <= i <= n,
            r@ == s@.take(i as int),
        decreases n - i,
    {
        let c = s.get_char(i);
        r.push(c);
        proof {
            assert(s@.take(i as int + 1) =~= s@.take(i as int).push(s@[i as int]));
        }
        i = i + 1;
    }
    proof {
        assert(s@.take(n as int) =~= s@);
    }
    r
}

} // verus!
