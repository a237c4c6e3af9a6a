//! The canonical order on example strings: primarily by the byte length of
//! the UTF-8 encoding ascending, secondarily lexicographic by code points
//! (which orders code units the same way UTF-8 bytes do), together with the
//! verified sorting and deduplication pass of the canonicalizer.

use vstd::prelude::*;
use vstd::string::*;

verus! {

/// Code-point order on single characters.
pub open spec fn char_lt(a: char, b: char) -> bool {
    (a as u32) < (b as u32)
}

/// Strict lexicographic order on character sequences.
pub open spec fn lex_lt(a: Seq<char>, b: Seq<char>) -> bool
    decreases a.len(),
{
    if b.len() == 0 {
        false
    } else if a.len() == 0 {
        true
    } else if char_lt(a[0], b[0]) {
        true
    } else if a[0] == b[0] {
        lex_lt(a.skip(1), b.skip(1))
    } else {
        false
    }
}

/// The length of one character's UTF-8 encoding.
pub open spec fn utf8_char_len(c: char) -> int {
    if (c as u32) < 0x80 {
        1
    } else if (c as u32) < 0x800 {
        2
    } else if (c as u32) < 0x10000 {
        3
    } else {
        4
    }
}

/// The length of a string in its underlying code units: the byte length of
/// its UTF-8 encoding.
pub open spec fn byte_len(s: Seq<char>) -> int
    decreases s.len(),
{
    if s.len() == 0 {
        0
    } else {
        byte_len(s.drop_last()) + utf8_char_len(s.last())
    }
}

/// The canonical order: shorter encodings first, lexicographic among equals.
pub open spec fn canon_lt(a: Seq<char>, b: Seq<char>) -> bool {
    byte_len(a) < byte_len(b) || (byte_len(a) == byte_len(b) && lex_lt(a, b))
}

/// A sequence of strings is canonical when it is strictly increasing in the
/// canonical order; strictness makes it duplicate-free as well.
pub open spec fn is_canonical(s: Seq<Seq<char>>) -> bool {
    forall|i: int, j: int| 0 <= i < j < s.len() ==> canon_lt(s[i], s[j])
}

/// The views of a sequence of strings.
pub open spec fn views(s: Seq<String>) -> Seq<Seq<char>> {
    s.map_values(|x: String| x@)
}

proof fn lemma_lex_irrefl(a: Seq<char>)
    ensures
        !lex_lt(a, a),
    decreases a.len(),
{
    if a.len() > 0 {
        lemma_lex_irrefl(a.skip(1));
    }
}

/// Two characters with the same code point are the same character.
proof fn lemma_char_eq(a: char, b: char)
    requires
        a as u32 == b as u32,
    ensures
        a == b,
{
}

proof fn lemma_lex_total(a: Seq<char>, b: Seq<char>)
    ensures
        lex_lt(a, b) || lex_lt(b, a) || a == b,
    decreases a.len(),
{
    if a.len() == 0 && b.len() == 0 {
        assert(a =~= b);
    } else if a.len() > 0 && b.len() > 0 {
        if !char_lt(a[0], b[0]) && !char_lt(b[0], a[0]) {
            lemma_char_eq(a[0], b[0]);
        }
        if a[0] == b[0] {
            lemma_lex_total(a.skip(1), b.skip(1));
            if a.skip(1) == b.skip(1) && !lex_lt(a, b) && !lex_lt(b, a) {
                lemma_eq_tails(a, b);
            }
        }
    }
}

/// Sequences with equal heads and equal tails are equal.
proof fn lemma_eq_tails<A>(a: Seq<A>, b: Seq<A>)
    requires
        a.len() > 0,
        b.len() > 0,
        a[0] == b[0],
        a.skip(1) == b.skip(1),
    ensures
        a == b,
{
    assert(a.skip(1).len() == a.len() - 1);
    assert(b.skip(1).len() == b.len() - 1);
    assert forall|i: int| 0 <= i < a.len() implies a[i] == b[i] by {
        if i > 0 {
            assert(a.skip(1)[i - 1] == a[i]);
            assert(b.skip(1)[i - 1] == b[i]);
        }
    }
    assert(a =~= b);
}

proof fn lemma_lex_asym(a: Seq<char>, b: Seq<char>)
    ensures
        !(lex_lt(a, b) && lex_lt(b, a)),
    decreases a.len(),
{
    if a.len() > 0 && b.len() > 0 && a[0] == b[0] {
        lemma_lex_asym(a.skip(1), b.skip(1));
    }
}

proof fn lemma_lex_trans(a: Seq<char>, b: Seq<char>, c: Seq<char>)
    requires
        lex_lt(a, b),
        lex_lt(b, c),
    ensures
        lex_lt(a, c),
    decreases a.len(),
{
    if a.len() > 0 && b.len() > 0 && c.len() > 0 {
        if a[0] == b[0] && b[0] == c[0] {
            lemma_lex_trans(a.skip(1), b.skip(1), c.skip(1));
        }
    }
}

/// The canonical order is a strict total order: any two distinct views are
/// comparable, and comparison is asymmetric and transitive.
pub proof fn lemma_canon_total(a: Seq<char>, b: Seq<char>)
    ensures
        canon_lt(a, b) || canon_lt(b, a) || a == b,
        !(canon_lt(a, b) && canon_lt(b, a)),
        !canon_lt(a, a),
{
    lemma_lex_total(a, b);
    lemma_lex_asym(a, b);
    lemma_lex_irrefl(a);
}

pub proof fn lemma_canon_trans(a: Seq<char>, b: Seq<char>, c: Seq<char>)
    requires
        canon_lt(a, b),
        canon_lt(b, c),
    ensures
        canon_lt(a, c),
{
    if byte_len(a) == byte_len(b) && byte_len(b) == byte_len(c) {
        lemma_lex_trans(a, b, c);
    }
}

/// Canonicalization is idempotent: the canonical sequence of a given set of
/// views is unique, so re-canonicalizing a canonical sequence returns it
/// unchanged. Stated as: two canonical sequences holding the same views are
/// equal.
pub proof fn lemma_canonical_unique(a: Seq<Seq<char>>, b: Seq<Seq<char>>)
    requires
        is_canonical(a),
        is_canonical(b),
        forall|x: Seq<char>| a.contains(x) <==> b.contains(x),
    ensures
        a == b,
    decreases a.len(),
{
    if a.len() == 0 {
        if b.len() > 0 {
            assert(b.contains(b[0]));
        }
        assert(a =~= b);
    } else if b.len() == 0 {
        assert(a.contains(a[0]));
    } else {
        // The heads are both the unique canonical minimum of the common set.
        assert(a.contains(a[0]));
        assert(b.contains(b[0]));
        let ia = choose|i: int| 0 <= i < b.len() && b[i] == a[0];
        let ib = choose|i: int| 0 <= i < a.len() && a[i] == b[0];
        if a[0] != b[0] {
            lemma_canon_total(a[0], b[0]);
            if canon_lt(a[0], b[0]) {
                // a[0] sits somewhere in b after b[0]: contradiction with order.
                assert(0 < ia < b.len());
                assert(canon_lt(b[0], b[ia]));
                lemma_canon_total(a[0], b[0]);
                assert(false);
            } else {
                assert(0 < ib < a.len());
                assert(canon_lt(a[0], a[ib]));
                assert(false);
            }
        }
        // Tails hold the same views.
        assert(forall|x: Seq<char>| a.skip(1).contains(x) <==> b.skip(1).contains(x)) by {
            assert(forall|x: Seq<char>| #[trigger] a.skip(1).contains(x) ==> b.skip(1).contains(x)) by {
                lemma_tail_contains(a, b);
            }
            assert(forall|x: Seq<char>| #[trigger] b.skip(1).contains(x) ==> a.skip(1).contains(x)) by {
                lemma_tail_contains(b, a);
            }
        }
        assert(is_canonical(a.skip(1))) by {
            assert(forall|i: int, j: int|
                0 <= i < j < a.skip(1).len() ==> canon_lt(
                    #[trigger] a.skip(1)[i],
                    #[trigger] a.skip(1)[j],
                ));
        }
        assert(is_canonical(b.skip(1))) by {
            assert(forall|i: int, j: int|
                0 <= i < j < b.skip(1).len() ==> canon_lt(
                    #[trigger] b.skip(1)[i],
                    #[trigger] b.skip(1)[j],
                ));
        }
        lemma_canonical_unique(a.skip(1), b.skip(1));
        lemma_eq_tails(a, b);
    }
}

proof fn lemma_tail_contains(a: Seq<Seq<char>>, b: Seq<Seq<char>>)
    requires
        a.len() > 0,
        b.len() > 0,
        a[0] == b[0],
        is_canonical(a),
        is_canonical(b),
        forall|x: Seq<char>| a.contains(x) <==> b.contains(x),
    ensures
        forall|x: Seq<char>| #[trigger] a.skip(1).contains(x) ==> b.skip(1).contains(x),
{
    assert forall|x: Seq<char>| #[trigger] a.skip(1).contains(x) implies b.skip(1).contains(x) by {
        let i = choose|i: int| 0 <= i < a.skip(1).len() && a.skip(1)[i] == x;
        assert(a[i + 1] == x);
        assert(a.contains(x));
        assert(b.contains(x));
        let j = choose|j: int| 0 <= j < b.len() && b[j] == x;
        assert(canon_lt(a[0], a[i + 1]));
        if j == 0 {
            lemma_canon_total(a[0], x);
            assert(false);
        }
        assert(b.skip(1)[j - 1] == x);
    }
}

/// The byte length of a string's UTF-8 encoding, summed per character.
fn encoded_len(s: &str) -> (r: u128)
    ensures
        r as int == byte_len(s@),
{
    let n = s.unicode_len();
    let mut acc: u128 = 0;
    let mut i: usize = 0;
    while i < n
        invariant
            n == s@.len(),
            0 <= i <= n,
            acc as int == byte_len(s@.take(i as int)),
            acc as int <= 4 * (i as int),
        decreases n - i,
    {
        let c = s.get_char(i);
        let cu = c as u32;
        let l: u128 = if cu < 0x80 {
            1
        } else if cu < 0x800 {
            2
        } else if cu < 0x10000 {
            3
        } else {
            4
        };
        proof {
            assert(s@.take(i as int + 1).drop_last() =~= s@.take(i as int));
            assert(s@.take(i as int + 1).last() == s@[i as int]);
        }
        acc = acc + l;
        i = i + 1;
    }
    proof {
        assert(s@.take(n as int) =~= s@);
    }
    acc
}

/// Exec comparison in the canonical order.
fn str_canon_lt(a: &String, b: &String) -> (r: bool)
    ensures
        r == canon_lt(a@, b@),
{
    let la = encoded_len(a.as_str());
    let lb = encoded_len(b.as_str());
    if la < lb {
        true
    } else if la > lb {
        false
    } else {
        let na = a.as_str().unicode_len();
        let nb = b.as_str().unicode_len();
        let mut i: usize = 0;
        loop
            invariant
                na == a@.len(),
                nb == b@.len(),
                byte_len(a@) == byte_len(b@),
                0 <= i <= na,
                i <= nb,
                forall|k: int| 0 <= k < i ==> a@[k] == b@[k],
            decreases na - i,
        {
            if i == na || i == nb {
                proof {
                    lemma_lex_prefix(a@, b@, i as int);
                }
                return i == na && i < nb;
            }
            let ca = a.as_str().get_char(i);
            let cb = b.as_str().get_char(i);
            if ca as u32 != cb as u32 {
                proof {
                    assert(ca == a@[i as int] && cb == b@[i as int]);
                    assert(ca != cb) by {
                        if ca == cb {
                            assert(ca as u32 == cb as u32);
                        }
                    }
                    lemma_lex_first_diff(a@, b@, i as int);
                }
                return (ca as u32) < (cb as u32);
            }
            i = i + 1;
        }
    }
}

/// When one string is a prefix of the other, the shorter comes first
/// lexicographically.
proof fn lemma_lex_prefix(a: Seq<char>, b: Seq<char>, i: int)
    requires
        0 <= i <= a.len(),
        i <= b.len(),
        i == a.len() || i == b.len(),
        forall|k: int| 0 <= k < i ==> a[k] == b[k],
    ensures
        lex_lt(a, b) == (a.len() < b.len()),
    decreases i,
{
    if i == 0 {
        if a.len() == 0 && b.len() == 0 {
            assert(!lex_lt(a, b));
        }
    } else {
        assert(a[0] == b[0]);
        assert(forall|k: int|
            0 <= k < i - 1 ==> #[trigger] a.skip(1)[k] == b.skip(1)[k]);
        lemma_lex_prefix(a.skip(1), b.skip(1), i - 1);
    }
}

proof fn lemma_lex_first_diff(a: Seq<char>, b: Seq<char>, i: int)
    requires
        0 <= i < a.len(),
        i < b.len(),
        forall|k: int| 0 <= k < i ==> a[k] == b[k],
        a[i] != b[i],
    ensures
        lex_lt(a, b) == char_lt(a[i], b[i]),
    decreases i,
{
    if i == 0 {
        assert(!(char_lt(a[0], b[0]) && char_lt(b[0], a[0])));
        if !char_lt(a[0], b[0]) && !char_lt(b[0], a[0]) {
            lemma_char_eq(a[0], b[0]);
        }
    } else {
        assert(a[0] == b[0]);
        lemma_lex_first_diff(a.skip(1), b.skip(1), i - 1);
        assert(a.skip(1)[i - 1] == a[i]);
        assert(b.skip(1)[i - 1] == b[i]);
    }
}

proof fn lemma_insert_contains(s: Seq<String>, p: int, x: String)
    requires
        0 <= p <= s.len(),
    ensures
        forall|y: Seq<char>|
            #[trigger] views(s.insert(p, x)).contains(y) <==> (views(s).contains(y) || y == x@),
{
    let t = s.insert(p, x);
    s.insert_ensures(p, x);
    assert forall|y: Seq<char>| views(t).contains(y) implies (views(s).contains(y) || y == x@) by {
        let i = choose|i: int| 0 <= i < t.len() && views(t)[i] == y;
        if i < p {
            assert(views(s)[i] == y);
        } else if i == p {
            assert(t[p] == x);
        } else {
            assert(t[i] == s[i - 1]);
            assert(views(s)[i - 1] == y);
        }
    }
    assert forall|y: Seq<char>| (views(s).contains(y) || y == x@) implies views(t).contains(y) by {
        if y == x@ {
            assert(t[p] == x);
            assert(views(t)[p] == y);
        } else {
            let i = choose|i: int| 0 <= i < s.len() && views(s)[i] == y;
            if i < p {
                assert(views(t)[i] == y);
            } else {
                assert(t[i + 1] == s[i]);
                assert(views(t)[i + 1] == y);
            }
        }
    }
}

proof fn lemma_push_contains<A>(s: Seq<A>, x: A)
    ensures
        forall|y: A| #[trigger] s.push(x).contains(y) <==> (s.contains(y) || y == x),
{
    assert(s.push(x)[s.len() as int] == x);
    assert forall|y: A| #[trigger] s.push(x).contains(y) implies (s.contains(y) || y == x) by {
        let i = choose|i: int| 0 <= i < s.push(x).len() && s.push(x)[i] == y;
        if i < s.len() {
            assert(s[i] == y);
        }
    }
    assert forall|y: A| s.contains(y) implies s.push(x).contains(y) by {
        let i = choose|i: int| 0 <= i < s.len() && s[i] == y;
        assert(s.push(x)[i] == y);
    }
}

proof fn lemma_insert_canonical(prev: Seq<String>, p: int, x: String)
    requires
        0 <= p <= prev.len(),
        is_canonical(views(prev)),
        forall|k: int| 0 <= k < p ==> canon_lt(views(prev)[k], x@),
        forall|k: int| p <= k < prev.len() ==> canon_lt(x@, views(prev)[k]),
    ensures
        is_canonical(views(prev.insert(p, x))),
{
    let s = prev.insert(p, x);
    prev.insert_ensures(p, x);
    assert forall|i: int, j: int| 0 <= i < j < s.len() implies canon_lt(
        views(s)[i],
        views(s)[j],
    ) by {
        if i < p && j < p {
            assert(views(s)[i] == views(prev)[i] && views(s)[j] == views(prev)[j]);
        } else if i < p && j == p {
            assert(views(s)[i] == views(prev)[i]);
        } else if i < p && j > p {
            assert(views(s)[i] == views(prev)[i] && views(s)[j] == views(prev)[j - 1]);
        } else if i == p && j > p {
            assert(views(s)[j] == views(prev)[j - 1]);
        } else {
            assert(views(s)[i] == views(prev)[i - 1] && views(s)[j] == views(prev)[j - 1]);
        }
    }
}

/// Sort the collection into canonical order, removing exact duplicates.
/// The strict canonical order pins the result completely: it is the unique
/// canonical sequence holding the same set of views as the input.
pub fn canonical_sort(test_cases: &mut Vec<String>)
    ensures
        is_canonical(views(final(test_cases)@)),
        forall|y: Seq<char>|
            views(final(test_cases)@).contains(y) <==> views(old(test_cases)@).contains(y),
        forall|i: int, j: int|
            0 <= i < j < final(test_cases)@.len()
                ==> final(test_cases)@[i]@ != final(test_cases)@[j]@,
{
    let n = test_cases.len();
    let mut out: Vec<String> = Vec::new();
    let mut idx: usize = 0;
    while idx < n
        invariant
            n == test_cases@.len(),
            0 <= idx <= n,
            is_canonical(views(out@)),
            forall|y: Seq<char>|
                views(out@).contains(y) <==> views(test_cases@.take(idx as int)).contains(y),
        decreases n - idx,
    {
        let x = test_cases[idx].clone();
        let mut p: usize = 0;
        loop
            invariant
                0 <= p <= out@.len(),
                is_canonical(views(out@)),
                forall|k: int| 0 <= k < p ==> canon_lt(views(out@)[k], x@),
            ensures
                0 <= p <= out@.len(),
                forall|k: int| 0 <= k < p ==> canon_lt(views(out@)[k], x@),
                p < out@.len() ==> !canon_lt(views(out@)[p as int], x@),
            decreases out@.len() - p,
        {
            if p == out.len() {
                break;
            }
            if str_canon_lt(&out[p], &x) {
                p = p + 1;
            } else {
                break;
            }
        }
        let ghost before = out@;
        let dup = p < out.len() && out[p].eq(&x);
        if !dup {
            proof {
                assert forall|k: int| p <= k < out@.len() implies canon_lt(
                    x@,
                    views(out@)[k],
                ) by {
                    lemma_canon_total(x@, views(out@)[p as int]);
                    if k > p {
                        lemma_canon_trans(x@, views(out@)[p as int], views(out@)[k]);
                    }
                }
            }
            let ghost prev = out@;
            out.insert(p, x);
            proof {
                lemma_insert_canonical(prev, p as int, x);
                lemma_insert_contains(prev, p as int, x);
            }
        }
        proof {
            let tk = views(test_cases@.take(idx as int));
            let tk1 = views(test_cases@.take(idx as int + 1));
            assert forall|i: int| 0 <= i < tk1.len() implies tk1[i] == tk.push(x@)[i] by {
                assert(tk1[i] == test_cases@.take(idx as int + 1)[i]@);
                if i < idx {
                    assert(tk[i] == test_cases@.take(idx as int)[i]@);
                }
            }
            assert(tk1 =~= tk.push(x@));
            lemma_push_contains(tk, x@);
            if dup {
                assert(views(out@)[p as int] == x@);
                assert(views(out@).contains(x@));
            }
            assert forall|y: Seq<char>|
                views(out@).contains(y) <==> tk1.contains(y) by {
                assert(tk1.contains(y) <==> tk.push(x@).contains(y));
                assert(tk.push(x@).contains(y) <==> (tk.contains(y) || y == x@));
                if !dup {
                    lemma_insert_contains(before, p as int, x);
                    assert(out@ == before.insert(p as int, x));
                    assert(views(before.insert(p as int, x)).contains(y) <==> (views(
                        before,
                    ).contains(y) || y == x@));
                }
            }
        }
        idx = idx + 1;
    }
    proof {
        assert(test_cases@.take(n as int) =~= test_cases@);
        assert forall|i: int, j: int|
            0 <= i < j < out@.len() implies out@[i]@ != out@[j]@ by {
            assert(canon_lt(views(out@)[i], views(out@)[j]));
            lemma_canon_total(views(out@)[i], views(out@)[j]);
        }
    }
    *test_cases = out;
}

} // verus!
