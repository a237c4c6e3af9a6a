//! The verbose reformatter: re-tokenizes a rendered single-line pattern
//! (color escapes and all) into an indented, one-token-per-line listing
//! prefixed by the verbose-flag header line.

use vstd::prelude::*;
use crate::ast::is_meta_char;
use crate::regexp::{
    anchor_color, color_reset, flag_color, paren_color,
};

verus! {

/// pat occurs in s starting at p.
pub open spec fn matches_at(s: Seq<char>, p: int, pat: Seq<char>) -> bool {
    0 <= p && p + pat.len() <= s.len() && s.subrange(p, p + pat.len()) == pat
}

/// Red bold, purple bold, the two remaining bold palette colors not used by
/// the decorations, and the three block palette colors.
pub open spec fn red_color() -> Seq<char> {
    seq!['\u{1b}', '[', '1', ';', '3', '1', 'm']
}

pub open spec fn purple_color() -> Seq<char> {
    seq!['\u{1b}', '[', '1', ';', '3', '5', 'm']
}

pub open spec fn cyan_color() -> Seq<char> {
    seq!['\u{1b}', '[', '1', ';', '3', '6', 'm']
}

pub open spec fn yellow_on_black_color() -> Seq<char> {
    seq!['\u{1b}', '[', '4', '0', ';', '9', '3', 'm']
}

pub open spec fn black_on_yellow_color() -> Seq<char> {
    seq!['\u{1b}', '[', '1', '0', '3', ';', '3', '0', 'm']
}

/// The length of the color-introducer escape at p, zero if none of the
/// fixed palette's introducers starts there.
pub open spec fn intro_len_at(s: Seq<char>, p: int) -> int {
    if matches_at(s, p, red_color()) {
        7
    } else if matches_at(s, p, purple_color()) {
        7
    } else if matches_at(s, p, anchor_color()) {
        7
    } else if matches_at(s, p, paren_color()) {
        7
    } else if matches_at(s, p, cyan_color()) {
        7
    } else if matches_at(s, p, flag_color()) {
        9
    } else if matches_at(s, p, yellow_on_black_color()) {
        8
    } else if matches_at(s, p, black_on_yellow_color()) {
        9
    } else {
        0
    }
}

/// The characters accepted after a backslash as one escaped-metacharacter
/// token.
pub open spec fn esc_set(c: char) -> bool {
    is_meta_char(c) || c == 'n' || c == 'r' || c == 't' || c == 'v'
}

/// The first index at or after j holding a closing bracket, or the length
/// of s if there is none.
pub open spec fn find_close(s: Seq<char>, j: int) -> int
    decreases s.len() - j,
{
    if j < 0 || j >= s.len() {
        s.len() as int
    } else if s[j] == ']' {
        j
    } else {
        find_close(s, j + 1)
    }
}

/// The length of the maximal run of non-metacharacters starting at p.
pub open spec fn run_ext_len(s: Seq<char>, p: int) -> int
    decreases s.len() - p,
{
    if p < 0 || p >= s.len() || is_meta_char(s[p]) {
        0
    } else {
        1 + run_ext_len(s, p + 1)
    }
}

/// The length of the core token at p: a non-capturing group opener, a
/// bracketed character class running to the next closing bracket, an
/// escaped metacharacter, a single metacharacter, or a maximal run of
/// non-metacharacters.
pub open spec fn core_len_at(s: Seq<char>, p: int) -> int {
    if s[p] == '(' && p + 2 < s.len() && s[p + 1] == '?' && s[p + 2] == ':' {
        3
    } else if s[p] == '[' && find_close(s, p + 2) < s.len() {
        find_close(s, p + 2) - p + 1
    } else if s[p] == '\\' && p + 1 < s.len() && esc_set(s[p + 1]) {
        2
    } else if is_meta_char(s[p]) {
        1
    } else {
        run_ext_len(s, p)
    }
}

/// The length of the whole token at p: an optional palette introducer (only
/// when a core follows it), the core, and an optional color reset.
pub open spec fn token_len_at(s: Seq<char>, p: int) -> int {
    let il0 = intro_len_at(s, p);
    let il: int = if il0 > 0 && p + il0 < s.len() {
        il0
    } else {
        0
    };
    let cl = core_len_at(s, p + il);
    let rl: int = if matches_at(s, p + il + cl, color_reset()) {
        4
    } else {
        0
    };
    il + cl + rl
}

proof fn lemma_find_close_bounds(s: Seq<char>, j: int)
    requires
        0 <= j,
    ensures
        find_close(s, j) <= s.len(),
        find_close(s, j) < s.len() ==> j <= find_close(s, j) && s[find_close(s, j)] == ']',
        j <= s.len() ==> j <= find_close(s, j),
    decreases s.len() - j,
{
    if j < s.len() && s[j] != ']' {
        lemma_find_close_bounds(s, j + 1);
    }
}

proof fn lemma_run_ext_bounds(s: Seq<char>, p: int)
    requires
        0 <= p <= s.len(),
    ensures
        0 <= run_ext_len(s, p),
        p + run_ext_len(s, p) <= s.len(),
    decreases s.len() - p,
{
    if p < s.len() && !is_meta_char(s[p]) {
        lemma_run_ext_bounds(s, p + 1);
    }
}

/// Every position starts a token of at least one character, lying inside s.
pub proof fn lemma_token_len(s: Seq<char>, p: int)
    requires
        0 <= p < s.len(),
    ensures
        1 <= token_len_at(s, p),
        p + token_len_at(s, p) <= s.len(),
{
    let il0 = intro_len_at(s, p);
    let il: int = if il0 > 0 && p + il0 < s.len() {
        il0
    } else {
        0
    };
    let q = p + il;
    assert(0 <= q < s.len());
    lemma_find_close_bounds(s, q + 2);
    lemma_run_ext_bounds(s, q);
    let cl = core_len_at(s, q);
    assert(1 <= cl && q + cl <= s.len()) by {
        if !(s[q] == '(' && q + 2 < s.len() && s[q + 1] == '?' && s[q + 2] == ':') && !(s[q] == '['
            && find_close(s, q + 2) < s.len()) && !(s[q] == '\\' && q + 1 < s.len() && esc_set(
            s[q + 1],
        )) && !is_meta_char(s[q]) {
            lemma_run_ext_bounds(s, q + 1);
            assert(run_ext_len(s, q) == 1 + run_ext_len(s, q + 1));
        }
    }
    if matches_at(s, q + cl, color_reset()) {
        assert(q + cl + 4 <= s.len());
    }
}

/// The token decomposition of s from p on.
pub open spec fn tokens_from(s: Seq<char>, p: int) -> Seq<Seq<char>>
    decreases s.len() - p,
    when 0 <= p
    via tokens_from_dec
{
    if p >= s.len() {
        Seq::empty()
    } else {
        seq![s.subrange(p, p + token_len_at(s, p))] + tokens_from(s, p + token_len_at(s, p))
    }
}

#[via_fn]
proof fn tokens_from_dec(s: Seq<char>, p: int) {
    if 0 <= p < s.len() {
        lemma_token_len(s, p);
    }
}

/// The tokens of s partition it: their concatenation is s itself.
pub proof fn lemma_tokens_cover(s: Seq<char>, p: int)
    requires
        0 <= p <= s.len(),
    ensures
        crate::unicode::concat_all(tokens_from(s, p)) == s.skip(p),
    decreases s.len() - p,
{
    if p >= s.len() {
        assert(s.skip(p) =~= Seq::<char>::empty());
    } else {
        lemma_token_len(s, p);
        let tl = token_len_at(s, p);
        lemma_tokens_cover(s, p + tl);
        let toks = tokens_from(s, p);
        assert(toks[0] == s.subrange(p, p + tl));
        assert(toks.skip(1) =~= tokens_from(s, p + tl));
        assert(s.skip(p) =~= s.subrange(p, p + tl) + s.skip(p + tl));
    }
}

/// The per-token character replacements: escape the comment delimiter,
/// replace the fixed set of Unicode space separators and the next-line
/// control with the shorthand class, and escape the remaining ordinary
/// space.
pub open spec fn fix_char(c: char) -> Seq<char> {
    if c == '#' {
        seq!['\\', '#']
    } else if c == '\u{a0}' || c == '\u{2000}' || c == '\u{2001}' || c == '\u{2002}' || c
        == '\u{2003}' || c == '\u{2004}' || c == '\u{205f}' || c == '\u{85}' {
        seq!['\\', 's']
    } else if c == ' ' {
        seq!['\\', ' ']
    } else {
        seq![c]
    }
}

pub open spec fn transform_token(t: Seq<char>) -> Seq<char>
    decreases t.len(),
{
    if t.len() == 0 {
        Seq::empty()
    } else {
        fix_char(t[0]) + transform_token(t.skip(1))
    }
}

pub open spec fn contains_char(t: Seq<char>, c: char) -> bool {
    exists|i: int| 0 <= i < t.len() && t[i] == c
}

pub open spec fn contains_pair(t: Seq<char>, a: char, b: char) -> bool {
    exists|i: int| 0 <= i && i + 1 < t.len() && #[trigger] t[i] == a && t[i + 1] == b
}

/// A transformed token printed as a character class: never opens or closes
/// a nesting level.
pub open spec fn is_class_token(t: Seq<char>) -> bool {
    t.len() > 0 && t[0] == '[' && t[t.len() - 1] == ']'
}

pub open spec fn indent(level: nat) -> Seq<char>
    decreases level,
{
    if level == 0 {
        Seq::empty()
    } else {
        seq![' ', ' '] + indent((level - 1) as nat)
    }
}

/// One output line per token: a newline, two spaces of indentation per open
/// nesting level, then the transformed token. A non-class token holding an
/// unescaped closer outdents its own line; one holding an unescaped opener
/// indents what follows it.
pub open spec fn verbose_tail(toks: Seq<Seq<char>>, opens: nat, closes: nat) -> Seq<char>
    decreases toks.len(),
{
    if toks.len() == 0 {
        Seq::empty()
    } else {
        let t = transform_token(toks[0]);
        let closes2: nat = if !is_class_token(t) && contains_char(t, ')') && !contains_pair(
            t,
            '\\',
            ')',
        ) {
            closes + 1
        } else {
            closes
        };
        let level: nat = if opens >= closes2 {
            (opens - closes2) as nat
        } else {
            0
        };
        let opens2: nat = if contains_char(t, '(') && !contains_pair(t, '\\', '(') {
            opens + 1
        } else {
            opens
        };
        seq!['\n'] + indent(level) + t + verbose_tail(toks.skip(1), opens2, closes2)
    }
}

/// The whole verbose listing: the flag header line, then one line per token.
pub open spec fn verbose_format(s: Seq<char>, flag: Seq<char>) -> Seq<char> {
    flag + verbose_tail(tokens_from(s, 0), 0, 0)
}

fn starts_with_at(s: &Vec<char>, p: usize, pat: &Vec<char>) -> (r: bool)
    requires
        p <= s@.len(),
    ensures
        r == matches_at(s@, p as int, pat@),
{
    let n = s.len();
    let m = pat.len();
    if m > n - p {
        proof {
            if matches_at(s@, p as int, pat@) {
                assert(p + pat@.len() <= s@.len());
            }
        }
        return false;
    }
    let mut i: usize = 0;
    while i < m
        invariant
            n == s@.len(),
            m == pat@.len(),
            p + m <= n,
            0 <= i <= m,
            forall|k: int| 0 <= k < i ==> s@[p + k] == pat@[k],
        decreases m - i,
    {
        if s[p + i] != pat[i] {
            proof {
                if matches_at(s@, p as int, pat@) {
                    assert(s@.subrange(p as int, p + pat@.len())[i as int] == pat@[i as int]);
                }
            }
            return false;
        }
        i = i + 1;
    }
    proof {
        assert(s@.subrange(p as int, p + pat@.len()) =~= pat@);
    }
    true
}

fn intro_len(s: &Vec<char>, p: usize) -> (n: usize)
    requires
        p < s@.len(),
    ensures
        n as int == intro_len_at(s@, p as int),
{
    let red: Vec<char> = vec!['\u{1b}', '[', '1', ';', '3', '1', 'm'];
    let purple: Vec<char> = vec!['\u{1b}', '[', '1', ';', '3', '5', 'm'];
    let yellow: Vec<char> = vec!['\u{1b}', '[', '1', ';', '3', '3', 'm'];
    let green: Vec<char> = vec!['\u{1b}', '[', '1', ';', '3', '2', 'm'];
    let cyan: Vec<char> = vec!['\u{1b}', '[', '1', ';', '3', '6', 'm'];
    let blue: Vec<char> = vec!['\u{1b}', '[', '1', '0', '4', ';', '3', '7', 'm'];
    let yob: Vec<char> = vec!['\u{1b}', '[', '4', '0', ';', '9', '3', 'm'];
    let boy: Vec<char> = vec!['\u{1b}', '[', '1', '0', '3', ';', '3', '0', 'm'];
    proof {
        assert(red@ =~= red_color());
        assert(purple@ =~= purple_color());
        assert(yellow@ =~= anchor_color());
        assert(green@ =~= paren_color());
        assert(cyan@ =~= cyan_color());
        assert(blue@ =~= flag_color());
        assert(yob@ =~= yellow_on_black_color());
        assert(boy@ =~= black_on_yellow_color());
    }
    if starts_with_at(s, p, &red) {
        7
    } else if starts_with_at(s, p, &purple) {
        7
    } else if starts_with_at(s, p, &yellow) {
        7
    } else if starts_with_at(s, p, &green) {
        7
    } else if starts_with_at(s, p, &cyan) {
        7
    } else if starts_with_at(s, p, &blue) {
        9
    } else if starts_with_at(s, p, &yob) {
        8
    } else if starts_with_at(s, p, &boy) {
        9
    } else {
        0
    }
}

fn is_meta_exec(c: char) -> (r: bool)
    ensures
        r == is_meta_char(c),
{
    c == '^' || c == '(' || c == ')' || c == '{' || c == '}' || c == '[' || c == ']' || c == '|'
        || c == '$' || c == '*' || c == '+' || c == '?' || c == '\\' || c == '.' || c == '-'
}

fn core_len(s: &Vec<char>, q: usize) -> (n: usize)
    requires
        q < s@.len(),
    ensures
        n as int == core_len_at(s@, q as int),
        1 <= n,
        q + n <= s@.len(),
{
    proof {
        lemma_token_len_core(s@, q as int);
    }
    let n = s.len();
    let c0 = s[q];
    if c0 == '(' && n - q > 2 && s[q + 1] == '?' && s[q + 2] == ':' {
        3
    } else if c0 == '[' {
        let mut j: usize = if n - q > 1 {
            q + 2
        } else {
            n
        };
        proof {
            if q + 1 >= s@.len() {
                lemma_find_close_bounds(s@, q as int + 2);
                assert(find_close(s@, q as int + 2) == s@.len());
            }
        }
        while j < n && s[j] != ']'
            invariant
                n == s@.len(),
                q + 2 <= n ==> q + 2 <= j,
                j <= n,
                find_close(s@, q as int + 2) == find_close(s@, j as int),
            decreases n - j,
        {
            j = j + 1;
        }
        if j < n {
            proof {
                assert(find_close(s@, q as int + 2) == j as int);
            }
            j - q + 1
        } else {
            proof {
                assert(find_close(s@, q as int + 2) == s@.len());
            }
            1
        }
    } else if c0 == '\\' {
        if n - q > 1 {
            let c1 = s[q + 1];
            if is_meta_exec(c1) || c1 == 'n' || c1 == 'r' || c1 == 't' || c1 == 'v' {
                2
            } else {
                1
            }
        } else {
            1
        }
    } else if is_meta_exec(c0) {
        1
    } else {
        let mut j: usize = q + 1;
        proof {
            assert(run_ext_len(s@, q as int) == 1 + run_ext_len(s@, q as int + 1));
        }
        while j < n && !is_meta_exec(s[j])
            invariant
                n == s@.len(),
                q < j <= n,
                run_ext_len(s@, q as int) == j - q + run_ext_len(s@, j as int),
            decreases n - j,
        {
            proof {
                assert(run_ext_len(s@, j as int) == 1 + run_ext_len(s@, j as int + 1));
            }
            j = j + 1;
        }
        proof {
            assert(run_ext_len(s@, j as int) == 0);
        }
        j - q
    }
}

/// Core-length bounds, shared by the exec scanner.
proof fn lemma_token_len_core(s: Seq<char>, q: int)
    requires
        0 <= q < s.len(),
    ensures
        1 <= core_len_at(s, q),
        q + core_len_at(s, q) <= s.len(),
{
    lemma_find_close_bounds(s, q + 2);
    lemma_run_ext_bounds(s, q);
    if !(s[q] == '(' && q + 2 < s.len() && s[q + 1] == '?' && s[q + 2] == ':') && !(s[q] == '['
        && find_close(s, q + 2) < s.len()) && !(s[q] == '\\' && q + 1 < s.len() && esc_set(s[q + 1]))
        && !is_meta_char(s[q]) {
        lemma_run_ext_bounds(s, q + 1);
        assert(run_ext_len(s, q) == 1 + run_ext_len(s, q + 1));
    }
}

fn token_len(s: &Vec<char>, p: usize) -> (n: usize)
    requires
        p < s@.len(),
    ensures
        n as int == token_len_at(s@, p as int),
        1 <= n,
        p + n <= s@.len(),
{
    proof {
        lemma_token_len(s@, p as int);
    }
    let n = s.len();
    let il0 = intro_len(s, p);
    let il: usize = if il0 > 0 && n - p > il0 {
        il0
    } else {
        0
    };
    let q = p + il;
    let cl = core_len(s, q);
    let reset: Vec<char> = vec!['\u{1b}', '[', '0', 'm'];
    proof {
        assert(reset@ =~= color_reset());
    }
    let rl: usize = if starts_with_at(s, q + cl, &reset) {
        4
    } else {
        0
    };
    il + cl + rl
}

fn push_transformed(s: &Vec<char>, from: usize, to: usize, out: &mut Vec<char>)
    requires
        from <= to <= s@.len(),
    ensures
        final(out)@ == old(out)@ + transform_token(s@.subrange(from as int, to as int)),
    decreases to - from,
{
    if from < to {
        let c = s[from];
        if c == '#' {
            out.push('\\');
            out.push('#');
        } else if c == '\u{a0}' || c == '\u{2000}' || c == '\u{2001}' || c == '\u{2002}' || c
            == '\u{2003}' || c == '\u{2004}' || c == '\u{205f}' || c == '\u{85}' {
            out.push('\\');
            out.push('s');
        } else if c == ' ' {
            out.push('\\');
            out.push(' ');
        } else {
            out.push(c);
        }
        push_transformed(s, from + 1, to, out);
        proof {
            let t = s@.subrange(from as int, to as int);
            assert(t[0] == s@[from as int]);
            assert(t.skip(1) =~= s@.subrange(from as int + 1, to as int));
            assert(final(out)@ =~= old(out)@ + transform_token(t));
        }
    } else {
        proof {
            assert(s@.subrange(from as int, to as int).len() == 0);
            assert(final(out)@ =~= old(out)@ + transform_token(
                s@.subrange(from as int, to as int),
            ));
        }
    }
}

fn contains_char_exec(t: &Vec<char>, c: char) -> (r: bool)
    ensures
        r == contains_char(t@, c),
{
    let n = t.len();
    let mut i: usize = 0;
    while i < n
        invariant
            n == t@.len(),
            0 <= i <= n,
            forall|k: int| 0 <= k < i ==> t@[k] != c,
        decreases n - i,
    {
        if t[i] == c {
            return true;
        }
        i = i + 1;
    }
    false
}

fn contains_pair_exec(t: &Vec<char>, a: char, b: char) -> (r: bool)
    ensures
        r == contains_pair(t@, a, b),
{
    let n = t.len();
    if n < 2 {
        return false;
    }
    let mut i: usize = 0;
    while i < n - 1
        invariant
            2 <= n == t@.len(),
            0 <= i <= n,
            forall|k: int|
                0 <= k && k + 1 < t@.len() && k < i ==> !(#[trigger] t@[k] == a && t@[k + 1] == b),
        decreases n - i,
    {
        if t[i] == a && t[i + 1] == b {
            return true;
        }
        i = i + 1;
    }
    false
}

pub fn push_all(out: &mut Vec<char>, src: &Vec<char>)
    ensures
        final(out)@ == old(out)@ + src@,
{
    let n = src.len();
    let mut i: usize = 0;
    while i < n
        invariant
            n == src@.len(),
            0 <= i <= n,
            out@ == old(out)@ + src@.take(i as int),
        decreases n - i,
    {
        out.push(src[i]);
        proof {
            assert(old(out)@ + src@.take(i as int + 1) =~= (old(out)@ + src@.take(i as int)).push(
                src@[i as int],
            ));
        }
        i = i + 1;
    }
    proof {
        assert(src@.take(n as int) =~= src@);
    }
}

fn push_indent(level: usize, out: &mut Vec<char>)
    ensures
        final(out)@ == old(out)@ + indent(level as nat),
    decreases level,
{
    if level > 0 {
        out.push(' ');
        out.push(' ');
        push_indent(level - 1, out);
        proof {
            assert(final(out)@ =~= old(out)@ + indent(level as nat));
        }
    } else {
        proof {
            assert(final(out)@ =~= old(out)@ + indent(level as nat));
        }
    }
}

/// Reformat the single-line pattern into the verbose listing: the flag
/// header, then one indented line per token.
pub fn apply_verbose_mode(s: &Vec<char>, flag: &Vec<char>) -> (r: Vec<char>)
    ensures
        r@ == verbose_format(s@, flag@),
{
    let mut out: Vec<char> = Vec::new();
    push_all(&mut out, flag);
    let n = s.len();
    let mut p: usize = 0;
    let mut opens: usize = 0;
    let mut closes: usize = 0;
    while p < n
        invariant
            n == s@.len(),
            0 <= p <= n,
            opens <= p,
            closes <= p,
            out@ + verbose_tail(tokens_from(s@, p as int), opens as nat, closes as nat)
                == verbose_format(s@, flag@),
        decreases n - p,
    {
        let ghost toks = tokens_from(s@, p as int);
        let tl = token_len(s, p);
        let mut t: Vec<char> = Vec::new();
        push_transformed(s, p, p + tl, &mut t);
        proof {
            assert(toks[0] == s@.subrange(p as int, p as int + tl as int));
            assert(t@ == transform_token(toks[0]));
        }
        let cc = t.len() > 0 && t[0] == '[' && t[t.len() - 1] == ']';
        proof {
            assert(cc == is_class_token(t@));
        }
        if !cc && contains_char_exec(&t, ')') && !contains_pair_exec(&t, '\\', ')') {
            closes = closes + 1;
        }
        let level: usize = if opens >= closes {
            opens - closes
        } else {
            0
        };
        out.push('\n');
        push_indent(level, &mut out);
        push_all(&mut out, &t);
        if contains_char_exec(&t, '(') && !contains_pair_exec(&t, '\\', '(') {
            opens = opens + 1;
        }
        proof {
            assert(toks.skip(1) =~= tokens_from(s@, p as int + tl as int));
        }
        p = p + tl;
    }
    proof {
        assert(tokens_from(s@, p as int) =~= Seq::<Seq<char>>::empty());
        assert(out@ =~= verbose_format(s@, flag@));
    }
    out
}

/// The characters whose per-token replacements are not invertible from the
/// listing: the comment delimiter collides with its own escaped form, the
/// fixed space separators and the next-line control all collapse onto the
/// one shorthand class, and a literal line break collides with the
/// listing's own line structure. Ordinary spaces are not here: their escape
/// is invertible.
pub open spec fn collapsed_char(c: char) -> bool {
    c == '#' || c == '\n' || c == '\u{a0}' || c == '\u{2000}' || c == '\u{2001}' || c == '\u{2002}'
        || c == '\u{2003}' || c == '\u{2004}' || c == '\u{205f}' || c == '\u{85}'
}

/// Undo the listing's layout: drop the line breaks and the bare indentation
/// spaces, and turn each escaped space back into a space.
pub open spec fn strip_verbose(x: Seq<char>) -> Seq<char>
    decreases x.len(),
{
    if x.len() == 0 {
        Seq::empty()
    } else if x[0] == '\\' && x.len() > 1 && x[1] == ' ' {
        seq![' '] + strip_verbose(x.skip(2))
    } else if x[0] == ' ' || x[0] == '\n' {
        strip_verbose(x.skip(1))
    } else {
        seq![x[0]] + strip_verbose(x.skip(1))
    }
}

proof fn lemma_strip_v_newline(y: Seq<char>)
    ensures
        strip_verbose(seq!['\n'] + y) == strip_verbose(y),
{
    let x = seq!['\n'] + y;
    assert(x[0] == '\n');
    assert(x.skip(1) =~= y);
}

proof fn lemma_strip_v_indent(level: nat, y: Seq<char>)
    ensures
        strip_verbose(indent(level) + y) == strip_verbose(y),
    decreases level,
{
    if level == 0 {
        assert(indent(level) + y =~= y);
    } else {
        lemma_strip_v_indent((level - 1) as nat, y);
        let x = indent(level) + y;
        let x1 = seq![' '] + (indent((level - 1) as nat) + y);
        assert(x[0] == ' ');
        assert(x.skip(1) =~= x1);
        assert(strip_verbose(x) == strip_verbose(x1));
        assert(x1[0] == ' ');
        assert(x1.skip(1) =~= indent((level - 1) as nat) + y);
        assert(strip_verbose(x1) == strip_verbose(indent((level - 1) as nat) + y));
    }
}

/// A transformed token followed by the next line (or by nothing) strips
/// back to the token's original text: literal spaces come back from their
/// escaped form, and a token's own backslashes are never followed by a bare
/// space in the listing, because every literal space was escaped.
proof fn lemma_strip_v_token(tok: Seq<char>, rest: Seq<char>)
    requires
        forall|i: int| 0 <= i < tok.len() ==> !collapsed_char(#[trigger] tok[i]),
        rest.len() == 0 || rest[0] == '\n',
    ensures
        strip_verbose(transform_token(tok) + rest) == tok + strip_verbose(rest),
    decreases tok.len(),
{
    if tok.len() == 0 {
        assert(transform_token(tok) + rest =~= rest);
        assert(tok + strip_verbose(rest) =~= strip_verbose(rest));
    } else {
        assert(forall|i: int|
            0 <= i < tok.skip(1).len() ==> #[trigger] tok.skip(1)[i] == tok[i + 1]);
        lemma_strip_v_token(tok.skip(1), rest);
        let c = tok[0];
        let x = transform_token(tok) + rest;
        let y = transform_token(tok.skip(1)) + rest;
        assert(transform_token(tok) == fix_char(c) + transform_token(tok.skip(1)));
        if c == ' ' {
            assert(x[0] == '\\' && x[1] == ' ');
            assert(x.skip(2) =~= y);
            assert(strip_verbose(x) == seq![' '] + (tok.skip(1) + strip_verbose(rest)));
            assert(seq![' '] + (tok.skip(1) + strip_verbose(rest)) =~= tok + strip_verbose(rest));
        } else {
            assert(x[0] == c);
            assert(x.skip(1) =~= y);
            // After a token backslash, the next listing character is never a
            // bare space: a following literal space was itself escaped.
            if c == '\\' && x.len() > 1 {
                assert(x[1] != ' ') by {
                    if tok.len() > 1 {
                        assert(transform_token(tok.skip(1)) == fix_char(tok[1])
                            + transform_token(tok.skip(1).skip(1)));
                        assert(x[1] == fix_char(tok[1])[0]);
                    } else {
                        assert(x[1] == rest[0]);
                    }
                }
            }
            assert(strip_verbose(x) == seq![c] + (tok.skip(1) + strip_verbose(rest)));
            assert(seq![c] + (tok.skip(1) + strip_verbose(rest)) =~= tok + strip_verbose(rest));
        }
    }
}

proof fn lemma_verbose_tail_strip(s: Seq<char>, p: int, opens: nat, closes: nat)
    requires
        0 <= p <= s.len(),
        forall|i: int| 0 <= i < s.len() ==> !collapsed_char(#[trigger] s[i]),
    ensures
        strip_verbose(verbose_tail(tokens_from(s, p), opens, closes)) == s.skip(p),
    decreases s.len() - p,
{
    if p >= s.len() {
        assert(s.skip(p) =~= Seq::<char>::empty());
        assert(strip_verbose(verbose_tail(tokens_from(s, p), opens, closes))
            =~= Seq::<char>::empty());
    } else {
        lemma_token_len(s, p);
        let tl = token_len_at(s, p);
        let toks = tokens_from(s, p);
        let tok = s.subrange(p, p + tl);
        assert(toks[0] == tok);
        assert(forall|i: int| 0 <= i < tok.len() ==> #[trigger] tok[i] == s[p + i]);
        let t = transform_token(toks[0]);
        let closes2: nat = if !is_class_token(t) && contains_char(t, ')') && !contains_pair(
            t,
            '\\',
            ')',
        ) {
            closes + 1
        } else {
            closes
        };
        let level: nat = if opens >= closes2 {
            (opens - closes2) as nat
        } else {
            0
        };
        let opens2: nat = if contains_char(t, '(') && !contains_pair(t, '\\', '(') {
            opens + 1
        } else {
            opens
        };
        let rest = verbose_tail(toks.skip(1), opens2, closes2);
        assert(toks.skip(1) =~= tokens_from(s, p + tl));
        assert(verbose_tail(toks, opens, closes) == seq!['\n'] + indent(level) + t + rest);
        assert(seq!['\n'] + indent(level) + t + rest =~= seq!['\n'] + (indent(level) + (t
            + rest)));
        lemma_strip_v_newline(indent(level) + (t + rest));
        lemma_strip_v_indent(level, t + rest);
        assert(rest.len() == 0 || rest[0] == '\n') by {
            if toks.skip(1).len() > 0 {
                assert(rest[0] == '\n');
            }
        }
        lemma_strip_v_token(tok, rest);
        lemma_verbose_tail_strip(s, p + tl, opens2, closes2);
        assert(s.skip(p) =~= tok + s.skip(p + tl));
        assert(strip_verbose(verbose_tail(toks, opens, closes)) =~= s.skip(p));
    }
}

/// Verbose/non-verbose equivalence: removing the flag header line, the line
/// breaks and the indentation from the verbose listing, and turning each
/// escaped space back into a space, reconstructs the single-line pattern.
/// Stated for patterns free of the collapsed characters: the shorthand
/// substitutions are genuinely many-to-one (the fixed space separators and
/// the next-line control all become the same two-character class), and an
/// escaped comment delimiter collides with a literal backslash-delimiter
/// pair, so on those inputs no stripping can reconstruct the line and the
/// property cannot hold in full.
pub proof fn lemma_verbose_reconstruction(s: Seq<char>, flag: Seq<char>)
    requires
        forall|i: int| 0 <= i < s.len() ==> !collapsed_char(#[trigger] s[i]),
    ensures
        strip_verbose(verbose_format(s, flag).skip(flag.len() as int)) == s,
{
    assert(verbose_format(s, flag).skip(flag.len() as int) =~= verbose_tail(
        tokens_from(s, 0),
        0,
        0,
    ));
    lemma_verbose_tail_strip(s, 0, 0, 0);
    assert(s.skip(0) =~= s);
}

} // verus!
