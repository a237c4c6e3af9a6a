//! The expression tree of a synthesized pattern, its language semantics and
//! its rendering to regex text.

use vstd::prelude::*;
use crate::cluster::{
    cluster_accepts, grapheme_accepts, is_digit_char, is_literal_cluster, is_space_char,
    is_word_char, lemma_reps_one, unit_accepts, unit_reps, Grapheme, GraphemeCluster, Unit,
};
use crate::unicode::concat_all;

verus! {

/// A character-class unit: one of the shorthand classes, or an explicit set
/// of alternative characters rendered as a bracket expression.
pub enum CharClassKind {
    Digit,
    Space,
    Word,
    OneOf(Vec<char>),
}

/// A pattern-expression node. The tree is immutable once synthesized; its
/// accepted language is given by [`accepts`].
pub enum Expression {
    Literal(Vec<char>),
    CharClass(CharClassKind),
    Repetition(Box<Expression>, usize, usize),
    Concatenation(Box<Expression>, Box<Expression>),
    Alternation(Box<Expression>, Box<Expression>),
}

pub open spec fn class_accepts(k: CharClassKind, s: Seq<char>) -> bool {
    match k {
        CharClassKind::Digit => s.len() == 1 && is_digit_char(s[0]),
        CharClassKind::Space => s.len() == 1 && is_space_char(s[0]),
        CharClassKind::Word => s.len() == 1 && is_word_char(s[0]),
        CharClassKind::OneOf(cs) => s.len() == 1 && cs@.contains(s[0]),
    }
}

/// The language of an expression tree. A repetition node accepts the
/// concatenations of between mn and mx parts, each in the language of its
/// operand.
pub open spec fn accepts(e: Expression, s: Seq<char>) -> bool
    decreases e,
{
    match e {
        Expression::Literal(t) => s == t@,
        Expression::CharClass(k) => class_accepts(k, s),
        Expression::Repetition(b, mn, mx) => exists|parts: Seq<Seq<char>>|
            mn <= parts.len() <= mx && s == concat_all(parts) && (forall|i: int|
                0 <= i < parts.len() ==> accepts(*b, #[trigger] parts[i])),
        Expression::Concatenation(a, b) => exists|i: int|
            0 <= i <= s.len() && accepts(*a, s.take(i)) && accepts(*b, s.skip(i)),
        Expression::Alternation(a, b) => accepts(*a, s) || accepts(*b, s),
    }
}

/// A parts sequence of unit-accepted pieces concatenates to a string that
/// the unit accepts in exactly that many repetitions, and conversely.
proof fn lemma_parts_to_reps(u: Unit, parts: Seq<Seq<char>>)
    requires
        forall|i: int| 0 <= i < parts.len() ==> unit_accepts(u, #[trigger] parts[i]),
    ensures
        unit_reps(u, parts.len(), concat_all(parts)),
    decreases parts.len(),
{
    if parts.len() > 0 {
        assert(forall|i: int|
            0 <= i < parts.skip(1).len() ==> #[trigger] parts.skip(1)[i] == parts[i + 1]);
        lemma_parts_to_reps(u, parts.skip(1));
        let s = concat_all(parts);
        let i = parts[0].len() as int;
        assert(s == parts[0] + concat_all(parts.skip(1)));
        assert(s.take(i) =~= parts[0]);
        assert(s.skip(i) =~= concat_all(parts.skip(1)));
        assert(0 <= i <= s.len() && unit_accepts(u, s.take(i)) && unit_reps(
            u,
            (parts.len() - 1) as nat,
            s.skip(i),
        ));
    }
}

proof fn lemma_reps_to_parts(u: Unit, k: nat, s: Seq<char>)
    requires
        unit_reps(u, k, s),
    ensures
        exists|parts: Seq<Seq<char>>|
            parts.len() == k && s == concat_all(parts) && (forall|i: int|
                0 <= i < parts.len() ==> unit_accepts(u, #[trigger] parts[i])),
    decreases k,
{
    if k == 0 {
        let parts = Seq::<Seq<char>>::empty();
        assert(s =~= concat_all(parts));
        assert(parts.len() == k && s == concat_all(parts) && (forall|i: int|
            0 <= i < parts.len() ==> unit_accepts(u, #[trigger] parts[i])));
    } else {
        let i = choose|i: int|
            0 <= i <= s.len() && unit_accepts(u, s.take(i)) && unit_reps(
                u,
                (k - 1) as nat,
                s.skip(i),
            );
        lemma_reps_to_parts(u, (k - 1) as nat, s.skip(i));
        let rest = choose|parts: Seq<Seq<char>>|
            parts.len() == (k - 1) as nat && s.skip(i) == concat_all(parts) && (forall|j: int|
                0 <= j < parts.len() ==> unit_accepts(u, #[trigger] parts[j]));
        let parts = seq![s.take(i)] + rest;
        assert(parts[0] == s.take(i));
        assert(parts.skip(1) =~= rest);
        assert(concat_all(parts) == parts[0] + concat_all(parts.skip(1)));
        assert(s =~= s.take(i) + s.skip(i));
        assert(s == concat_all(parts));
        assert(forall|j: int| 0 <= j < rest.len() ==> #[trigger] parts[j + 1] == rest[j]);
        assert(parts.len() == k && s == concat_all(parts) && (forall|j: int|
            0 <= j < parts.len() ==> unit_accepts(u, #[trigger] parts[j])));
    }
}

/// The rendered text of one unit's atom.
pub open spec fn unit_render(u: Unit) -> Seq<char> {
    match u {
        Unit::Text(t) => escape_text(t@),
        Unit::Digit => seq!['\\', 'd'],
        Unit::Space => seq!['\\', 's'],
        Unit::Word => seq!['\\', 'w'],
    }
}

/// Atoms that stand on their own under a quantifier.
pub open spec fn unit_atomic(u: Unit) -> bool {
    match u {
        Unit::Text(t) => t@.len() == 1,
        _ => true,
    }
}

/// The rendered text of one quantified unit.
pub open spec fn grapheme_render(g: Grapheme) -> Seq<char> {
    if g.min == 1 && g.max == 1 {
        unit_render(g.unit)
    } else {
        (if unit_atomic(g.unit) {
            unit_render(g.unit)
        } else {
            group(unit_render(g.unit))
        }) + quant(g.min as nat, g.max as nat)
    }
}

/// The rendered text of one branch: its units' renderings in order.
pub open spec fn branch_render(gs: Seq<Grapheme>) -> Seq<char>
    decreases gs.len(),
{
    if gs.len() == 0 {
        Seq::empty()
    } else if gs.len() == 1 {
        grapheme_render(gs[0])
    } else {
        grapheme_render(gs[0]) + branch_render(gs.skip(1))
    }
}

/// The rendered branch texts joined with the alternation separator; with no
/// branch at all, the empty-language class.
pub open spec fn joined_renders(rs: Seq<Seq<char>>) -> Seq<char>
    decreases rs.len(),
{
    if rs.len() == 0 {
        seq!['[', ']']
    } else if rs.len() == 1 {
        rs[0]
    } else {
        rs[0] + seq!['|'] + joined_renders(rs.skip(1))
    }
}

/// Escaping distributes over concatenation.
pub proof fn lemma_escape_concat(a: Seq<char>, b: Seq<char>)
    ensures
        escape_text(a + b) == escape_text(a) + escape_text(b),
    decreases a.len(),
{
    if a.len() == 0 {
        assert(a + b =~= b);
        assert(escape_text(a) + escape_text(b) =~= escape_text(b));
    } else {
        assert((a + b).skip(1) =~= a.skip(1) + b);
        lemma_escape_concat(a.skip(1), b);
        assert((a + b)[0] == a[0]);
        assert(escape_text(a + b) =~= escape_text(a) + escape_text(b));
    }
}

/// A literal symbol sequence renders as the escaped concatenation of its
/// parts.
pub proof fn lemma_literal_branch_render(gs: Seq<Grapheme>, parts: Seq<Seq<char>>)
    requires
        is_literal_cluster(gs, parts),
    ensures
        branch_render(gs) == escape_text(concat_all(parts)),
    decreases gs.len(),
{
    if gs.len() == 0 {
        assert(branch_render(gs) =~= escape_text(concat_all(parts)));
    } else {
        let t0 = gs[0].unit->Text_0;
        assert(t0@ == parts[0]);
        assert(grapheme_render(gs[0]) == escape_text(parts[0]));
        assert(is_literal_cluster(gs.skip(1), parts.skip(1))) by {
            assert(forall|i: int|
                0 <= i < gs.skip(1).len() ==> gs.skip(1)[i] == #[trigger] gs[i + 1]);
            assert(forall|i: int|
                0 <= i < parts.skip(1).len() ==> parts.skip(1)[i] == #[trigger] parts[i + 1]);
        }
        lemma_literal_branch_render(gs.skip(1), parts.skip(1));
        lemma_escape_concat(parts[0], concat_all(parts.skip(1)));
        if gs.len() == 1 {
            assert(concat_all(parts.skip(1)) =~= Seq::<char>::empty());
            assert(concat_all(parts) =~= parts[0]);
        } else {
            assert(branch_render(gs) == grapheme_render(gs[0]) + branch_render(gs.skip(1)));
            assert(concat_all(parts) == parts[0] + concat_all(parts.skip(1)));
        }
    }
}

/// The expression of one quantified unit: its class or literal atom, under a
/// repetition node when the bounds are not one/one.
pub fn grapheme_expr(g: &Grapheme) -> (e: Expression)
    ensures
        forall|s: Seq<char>| #[trigger] accepts(e, s) == grapheme_accepts(*g, s),
        !(e is Alternation),
        render_expr(e) == grapheme_render(*g),
{
    let base: Expression = match &g.unit {
        Unit::Text(t) => Expression::Literal(t.clone()),
        Unit::Digit => Expression::CharClass(CharClassKind::Digit),
        Unit::Space => Expression::CharClass(CharClassKind::Space),
        Unit::Word => Expression::CharClass(CharClassKind::Word),
    };
    proof {
        assert(forall|s: Seq<char>| #[trigger] accepts(base, s) == unit_accepts(g.unit, s));
        assert(render_expr(base) == unit_render(g.unit));
        assert(atomic(base) == unit_atomic(g.unit));
    }
    if g.min == 1 && g.max == 1 {
        proof {
            assert forall|s: Seq<char>| #[trigger] accepts(base, s) == grapheme_accepts(*g, s) by {
                lemma_reps_one(g.unit, s);
                if unit_accepts(g.unit, s) {
                    assert(g.min <= 1nat <= g.max && unit_reps(g.unit, 1nat, s));
                }
                if grapheme_accepts(*g, s) {
                    let k = choose|k: nat| g.min <= k <= g.max && unit_reps(g.unit, k, s);
                    assert(k == 1);
                }
            }
        }
        base
    } else {
        let e = Expression::Repetition(Box::new(base), g.min, g.max);
        proof {
            assert forall|s: Seq<char>| #[trigger] accepts(e, s) == grapheme_accepts(*g, s) by {
                if accepts(e, s) {
                    let parts = choose|parts: Seq<Seq<char>>|
                        g.min <= parts.len() <= g.max && s == concat_all(parts) && (forall|i: int|
                            0 <= i < parts.len() ==> accepts(base, #[trigger] parts[i]));
                    assert(forall|i: int|
                        0 <= i < parts.len() ==> unit_accepts(g.unit, #[trigger] parts[i]));
                    lemma_parts_to_reps(g.unit, parts);
                    assert(g.min <= parts.len() <= g.max && unit_reps(g.unit, parts.len(), s));
                }
                if grapheme_accepts(*g, s) {
                    let k = choose|k: nat| g.min <= k <= g.max && unit_reps(g.unit, k, s);
                    lemma_reps_to_parts(g.unit, k, s);
                    let parts = choose|parts: Seq<Seq<char>>|
                        parts.len() == k && s == concat_all(parts) && (forall|i: int|
                            0 <= i < parts.len() ==> unit_accepts(g.unit, #[trigger] parts[i]));
                    assert(forall|i: int|
                        0 <= i < parts.len() ==> accepts(base, #[trigger] parts[i]));
                    assert(g.min <= parts.len() <= g.max && s == concat_all(parts) && (forall|
                        i: int,
                    |
                        0 <= i < parts.len() ==> accepts(base, #[trigger] parts[i])));
                    assert(accepts(e, s));
                }
            }
        }
        e
    }
}

/// The expression of one whole symbol sequence: the concatenation of its
/// units' expressions, accepting exactly what the sequence accepts.
pub fn cluster_expr(c: &GraphemeCluster) -> (e: Expression)
    ensures
        forall|s: Seq<char>| #[trigger] accepts(e, s) == cluster_accepts(c.graphemes@, s),
        !(e is Alternation),
        render_expr(e) == branch_render(c.graphemes@),
{
    let n = c.graphemes.len();
    if n == 0 {
        let e = Expression::Literal(Vec::new());
        proof {
            assert forall|s: Seq<char>| #[trigger] accepts(e, s) == cluster_accepts(
                c.graphemes@,
                s,
            ) by {
                if s.len() == 0 {
                    assert(s =~= Seq::<char>::empty());
                }
            }
            assert(render_expr(e) =~= branch_render(c.graphemes@));
        }
        return e;
    }
    let mut acc = grapheme_expr(&c.graphemes[n - 1]);
    proof {
        let gs = c.graphemes@;
        assert(gs.skip(n - 1).len() == 1 && gs.skip(n - 1)[0] == gs[n - 1]);
        assert(render_expr(acc) == branch_render(gs.skip(n - 1)));
        assert forall|s: Seq<char>| #[trigger] accepts(acc, s) == cluster_accepts(
            gs.skip(n - 1),
            s,
        ) by {
            let tail = gs.skip(n - 1);
            assert(tail.len() == 1);
            assert(tail[0] == gs[n - 1]);
            if accepts(acc, s) {
                assert(s.take(s.len() as int) =~= s);
                assert(s.skip(s.len() as int).len() == 0);
                assert(cluster_accepts(tail.skip(1), s.skip(s.len() as int)));
            }
            if cluster_accepts(tail, s) {
                let i = choose|i: int|
                    0 <= i <= s.len() && grapheme_accepts(tail[0], s.take(i)) && cluster_accepts(
                        tail.skip(1),
                        s.skip(i),
                    );
                assert(s.skip(i).len() == 0);
                assert(s.take(i) =~= s);
            }
        }
    }
    let mut i: usize = n - 1;
    while i > 0
        invariant
            n == c.graphemes@.len(),
            0 <= i <= n - 1,
            forall|s: Seq<char>|
                #[trigger] accepts(acc, s) == cluster_accepts(c.graphemes@.skip(i as int), s),
            !(acc is Alternation),
            render_expr(acc) == branch_render(c.graphemes@.skip(i as int)),
        decreases i,
    {
        let head = grapheme_expr(&c.graphemes[i - 1]);
        let next = Expression::Concatenation(Box::new(head), Box::new(acc));
        proof {
            let gs = c.graphemes@;
            let ii = i as int;
            let sub = gs.skip(ii - 1);
            assert(sub.len() == n - ii + 1);
            assert(sub[0] == gs[ii - 1]);
            assert(sub.skip(1) =~= gs.skip(ii));
            assert(render_expr(next) == render_expr(head) + render_expr(acc));
            assert(branch_render(sub) == grapheme_render(sub[0]) + branch_render(sub.skip(1)));
            assert(render_expr(next) == branch_render(sub));
            assert forall|s: Seq<char>| #[trigger] accepts(next, s) == cluster_accepts(sub, s) by {
                if accepts(next, s) {
                    let j = choose|j: int|
                        0 <= j <= s.len() && accepts(head, s.take(j)) && accepts(acc, s.skip(j));
                    assert(grapheme_accepts(sub[0], s.take(j)));
                    assert(cluster_accepts(sub.skip(1), s.skip(j)));
                }
                if cluster_accepts(sub, s) {
                    let j = choose|j: int|
                        0 <= j <= s.len() && grapheme_accepts(sub[0], s.take(j)) && cluster_accepts(
                            sub.skip(1),
                            s.skip(j),
                        );
                    assert(accepts(head, s.take(j)));
                    assert(accepts(acc, s.skip(j)));
                }
            }
        }
        acc = next;
        i = i - 1;
    }
    proof {
        assert(c.graphemes@.skip(0) =~= c.graphemes@);
    }
    acc
}

/// The alternation over a set of branch expressions, accepting the union of
/// their languages. An empty set yields an expression accepting nothing.
pub fn alternation_expr(branches: Vec<Expression>) -> (e: Expression)
    ensures
        forall|s: Seq<char>|
            #[trigger] accepts(e, s) == exists|j: int|
                0 <= j < branches@.len() && accepts(branches@[j], s),
        render_expr(e) == joined_renders(
            branches@.map_values(|b: Expression| render_expr(b)),
        ),
        e is Alternation <==> (branches@.len() >= 2 || (branches@.len() == 1 && branches@[0]
            is Alternation)),
{
    let ghost orig = branches@;
    let ghost rs = orig.map_values(|b: Expression| render_expr(b));
    let mut branches = branches;
    let mut acc: Expression = match branches.pop() {
        Some(b) => b,
        None => {
            let e = Expression::CharClass(CharClassKind::OneOf(Vec::new()));
            proof {
                assert forall|s: Seq<char>| #[trigger] accepts(e, s) == exists|j: int|
                    0 <= j < orig.len() && accepts(orig[j], s) by {
                    assert(!accepts(e, s));
                }
                assert(render_expr(e) =~= joined_renders(rs));
            }
            return e;
        },
    };
    proof {
        assert(branches@ =~= orig.take(orig.len() - 1));
        assert(orig[orig.len() - 1] == acc);
        assert(rs.skip(orig.len() - 1).len() == 1);
        assert(rs.skip(orig.len() - 1)[0] == rs[orig.len() - 1]);
        assert(rs[orig.len() - 1] == render_expr(acc));
        assert(render_expr(acc) == joined_renders(rs.skip(branches@.len() as int)));
        assert forall|s: Seq<char>| #[trigger] accepts(acc, s) == exists|j: int|
            branches@.len() <= j < orig.len() && accepts(orig[j], s) by {
            if accepts(acc, s) {
                assert(branches@.len() <= orig.len() - 1 < orig.len() && accepts(
                    orig[orig.len() - 1],
                    s,
                ));
            }
        }
    }
    while branches.len() > 0
        invariant
            branches@.len() < orig.len(),
            branches@ =~= orig.take(branches@.len() as int),
            rs == orig.map_values(|b: Expression| render_expr(b)),
            forall|s: Seq<char>|
                #[trigger] accepts(acc, s) == exists|j: int|
                    branches@.len() <= j < orig.len() && accepts(orig[j], s),
            render_expr(acc) == joined_renders(rs.skip(branches@.len() as int)),
            orig.len() - branches@.len() >= 2 ==> acc is Alternation,
            orig.len() - branches@.len() == 1 ==> (acc is Alternation <==> orig[orig.len() - 1]
                is Alternation),
        decreases branches@.len(),
    {
        let ghost before = branches@;
        let b = branches.pop().unwrap();
        let next = Expression::Alternation(Box::new(b), Box::new(acc));
        proof {
            let m = branches@.len() as int;
            assert(b == orig[m]);
            assert(branches@ =~= orig.take(m));
            assert(render_expr(next) == render_expr(b) + seq!['|'] + render_expr(acc));
            assert(rs.skip(m).len() >= 2);
            assert(rs.skip(m)[0] == rs[m]);
            assert(rs[m] == render_expr(b));
            assert(rs.skip(m).skip(1) =~= rs.skip(m + 1));
            assert(joined_renders(rs.skip(m)) == rs.skip(m)[0] + seq!['|'] + joined_renders(
                rs.skip(m).skip(1),
            ));
            assert(render_expr(next) == joined_renders(rs.skip(m)));
            assert forall|s: Seq<char>| #[trigger] accepts(next, s) == exists|j: int|
                m <= j < orig.len() && accepts(orig[j], s) by {
                assert(accepts(next, s) == (accepts(b, s) || accepts(acc, s)));
                assert(accepts(acc, s) == exists|j: int|
                    before.len() <= j < orig.len() && accepts(orig[j], s));
                if accepts(next, s) {
                    if accepts(b, s) {
                        assert(m <= m < orig.len() && accepts(orig[m], s));
                    } else {
                        let j = choose|j: int|
                            before.len() <= j < orig.len() && accepts(orig[j], s);
                        assert(m <= j < orig.len() && accepts(orig[j], s));
                    }
                }
                if exists|j: int| m <= j < orig.len() && accepts(orig[j], s) {
                    let j = choose|j: int| m <= j < orig.len() && accepts(orig[j], s);
                    if j == m {
                        assert(accepts(b, s));
                    } else {
                        assert(before.len() <= j < orig.len() && accepts(orig[j], s));
                        assert(accepts(acc, s));
                    }
                }
            }
        }
        acc = next;
    }
    proof {
        assert forall|s: Seq<char>| #[trigger] accepts(acc, s) == exists|j: int|
            0 <= j < orig.len() && accepts(orig[j], s) by {
            assert(accepts(acc, s) == exists|j: int|
                branches@.len() <= j < orig.len() && accepts(orig[j], s));
            if accepts(acc, s) {
                let j = choose|j: int| branches@.len() <= j < orig.len() && accepts(orig[j], s);
                assert(0 <= j < orig.len() && accepts(orig[j], s));
            }
            if exists|j: int| 0 <= j < orig.len() && accepts(orig[j], s) {
                let j = choose|j: int| 0 <= j < orig.len() && accepts(orig[j], s);
                assert(branches@.len() <= j < orig.len() && accepts(orig[j], s));
            }
        }
        assert(rs.skip(0) =~= rs);
    }
    acc
}

/// The metacharacters of the regex surface syntax; a literal occurrence is
/// escaped with a backslash.
pub open spec fn is_meta_char(c: char) -> bool {
    c == '^' || c == '(' || c == ')' || c == '{' || c == '}' || c == '[' || c == ']' || c == '|'
        || c == '$' || c == '*' || c == '+' || c == '?' || c == '\\' || c == '.' || c == '-'
}

/// The rendering of one literal character: the named escapes for the common
/// control characters, a backslash escape for metacharacters, the character
/// itself otherwise.
pub open spec fn escape_char(c: char) -> Seq<char> {
    if c == '\n' {
        seq!['\\', 'n']
    } else if c == '\r' {
        seq!['\\', 'r']
    } else if c == '\t' {
        seq!['\\', 't']
    } else if is_meta_char(c) {
        seq!['\\', c]
    } else {
        seq![c]
    }
}

pub open spec fn escape_text(t: Seq<char>) -> Seq<char>
    decreases t.len(),
{
    if t.len() == 0 {
        Seq::empty()
    } else {
        escape_char(t[0]) + escape_text(t.skip(1))
    }
}

/// The rendering of one character inside a bracket expression.
pub open spec fn class_escape_char(c: char) -> Seq<char> {
    if c == ']' || c == '\\' || c == '^' || c == '-' {
        seq!['\\', c]
    } else {
        seq![c]
    }
}

pub open spec fn class_body(t: Seq<char>) -> Seq<char>
    decreases t.len(),
{
    if t.len() == 0 {
        Seq::empty()
    } else {
        class_escape_char(t[0]) + class_body(t.skip(1))
    }
}

pub open spec fn digit_char(d: nat) -> char {
    if d == 0 {
        '0'
    } else if d == 1 {
        '1'
    } else if d == 2 {
        '2'
    } else if d == 3 {
        '3'
    } else if d == 4 {
        '4'
    } else if d == 5 {
        '5'
    } else if d == 6 {
        '6'
    } else if d == 7 {
        '7'
    } else if d == 8 {
        '8'
    } else {
        '9'
    }
}

/// The decimal digits of n, most significant first.
pub open spec fn dec_digits(n: nat) -> Seq<char>
    decreases n,
{
    if n < 10 {
        seq![digit_char(n)]
    } else {
        dec_digits(n / 10).push(digit_char(n % 10))
    }
}

/// The quantifier suffix of a repetition.
pub open spec fn quant(mn: nat, mx: nat) -> Seq<char> {
    if mn == mx {
        seq!['{'] + dec_digits(mn) + seq!['}']
    } else {
        seq!['{'] + dec_digits(mn) + seq![','] + dec_digits(mx) + seq!['}']
    }
}

/// Operands that stand on their own under a quantifier.
pub open spec fn atomic(e: Expression) -> bool {
    match e {
        Expression::Literal(t) => t@.len() == 1,
        Expression::CharClass(_) => true,
        _ => false,
    }
}

pub open spec fn group(s: Seq<char>) -> Seq<char> {
    seq!['(', '?', ':'] + s + seq![')']
}

/// The regex text of an expression tree. Alternations under a concatenation
/// and non-atomic repetition operands are wrapped in non-capturing groups.
pub open spec fn render_expr(e: Expression) -> Seq<char>
    decreases e,
{
    match e {
        Expression::Literal(t) => escape_text(t@),
        Expression::CharClass(k) => match k {
            CharClassKind::Digit => seq!['\\', 'd'],
            CharClassKind::Space => seq!['\\', 's'],
            CharClassKind::Word => seq!['\\', 'w'],
            CharClassKind::OneOf(cs) => seq!['['] + class_body(cs@) + seq![']'],
        },
        Expression::Repetition(b, mn, mx) => (if atomic(*b) {
            render_expr(*b)
        } else {
            group(render_expr(*b))
        }) + quant(mn as nat, mx as nat),
        Expression::Concatenation(a, b) => (if *a is Alternation {
            group(render_expr(*a))
        } else {
            render_expr(*a)
        }) + (if *b is Alternation {
            group(render_expr(*b))
        } else {
            render_expr(*b)
        }),
        Expression::Alternation(a, b) => render_expr(*a) + seq!['|'] + render_expr(*b),
    }
}

fn push_escaped_char(c: char, out: &mut Vec<char>)
    ensures
        final(out)@ == old(out)@ + escape_char(c),
{
    if c == '\n' {
        out.push('\\');
        out.push('n');
    } else if c == '\r' {
        out.push('\\');
        out.push('r');
    } else if c == '\t' {
        out.push('\\');
        out.push('t');
    } else if c == '^' || c == '(' || c == ')' || c == '{' || c == '}' || c == '[' || c == ']'
        || c == '|' || c == '$' || c == '*' || c == '+' || c == '?' || c == '\\' || c == '.' || c
        == '-' {
        out.push('\\');
        out.push(c);
    } else {
        out.push(c);
    }
    proof {
        assert(out@ =~= old(out)@ + escape_char(c));
    }
}

fn push_escaped_from(t: &Vec<char>, i: usize, out: &mut Vec<char>)
    requires
        i <= t@.len(),
    ensures
        final(out)@ == old(out)@ + escape_text(t@.skip(i as int)),
    decreases t@.len() - i,
{
    if i < t.len() {
        push_escaped_char(t[i], out);
        push_escaped_from(t, i + 1, out);
        proof {
            let s = t@.skip(i as int);
            assert(s[0] == t@[i as int]);
            assert(s.skip(1) =~= t@.skip(i as int + 1));
            assert(out@ =~= old(out)@ + escape_text(t@.skip(i as int)));
        }
    } else {
        proof {
            assert(t@.skip(i as int).len() == 0);
            assert(out@ =~= old(out)@ + escape_text(t@.skip(i as int)));
        }
    }
}

fn push_class_from(t: &Vec<char>, i: usize, out: &mut Vec<char>)
    requires
        i <= t@.len(),
    ensures
        final(out)@ == old(out)@ + class_body(t@.skip(i as int)),
    decreases t@.len() - i,
{
    if i < t.len() {
        let c = t[i];
        if c == ']' || c == '\\' || c == '^' || c == '-' {
            out.push('\\');
            out.push(c);
        } else {
            out.push(c);
        }
        push_class_from(t, i + 1, out);
        proof {
            let s = t@.skip(i as int);
            assert(s[0] == t@[i as int]);
            assert(s.skip(1) =~= t@.skip(i as int + 1));
            assert(out@ =~= old(out)@ + class_body(t@.skip(i as int)));
        }
    } else {
        proof {
            assert(t@.skip(i as int).len() == 0);
            assert(out@ =~= old(out)@ + class_body(t@.skip(i as int)));
        }
    }
}

fn push_dec(n: usize, out: &mut Vec<char>)
    ensures
        final(out)@ == old(out)@ + dec_digits(n as nat),
    decreases n,
{
    if n < 10 {
        let d = n as u8;
        let c: char = if d == 0 {
            '0'
        } else if d == 1 {
            '1'
        } else if d == 2 {
            '2'
        } else if d == 3 {
            '3'
        } else if d == 4 {
            '4'
        } else if d == 5 {
            '5'
        } else if d == 6 {
            '6'
        } else if d == 7 {
            '7'
        } else if d == 8 {
            '8'
        } else {
            '9'
        };
        out.push(c);
        proof {
            assert(out@ =~= old(out)@ + dec_digits(n as nat));
        }
    } else {
        push_dec(n / 10, out);
        let d = n % 10;
        let c: char = if d == 0 {
            '0'
        } else if d == 1 {
            '1'
        } else if d == 2 {
            '2'
        } else if d == 3 {
            '3'
        } else if d == 4 {
            '4'
        } else if d == 5 {
            '5'
        } else if d == 6 {
            '6'
        } else if d == 7 {
            '7'
        } else if d == 8 {
            '8'
        } else {
            '9'
        };
        out.push(c);
        proof {
            assert(out@ =~= old(out)@ + dec_digits(n as nat));
        }
    }
}

pub fn is_alternation(e: &Expression) -> (r: bool)
    ensures
        r == (*e is Alternation),
{
    match e {
        Expression::Alternation(_, _) => true,
        _ => false,
    }
}

fn is_atomic(e: &Expression) -> (r: bool)
    ensures
        r == atomic(*e),
{
    match e {
        Expression::Literal(t) => t.len() == 1,
        Expression::CharClass(_) => true,
        _ => false,
    }
}

/// Append the regex text of e to out.
pub fn render_into(e: &Expression, out: &mut Vec<char>)
    ensures
        final(out)@ == old(out)@ + render_expr(*e),
    decreases *e,
{
    match e {
        Expression::Literal(t) => {
            push_escaped_from(t, 0, out);
            proof {
                assert(t@.skip(0) =~= t@);
            }
        },
        Expression::CharClass(k) => {
            match k {
                CharClassKind::Digit => {
                    out.push('\\');
                    out.push('d');
                },
                CharClassKind::Space => {
                    out.push('\\');
                    out.push('s');
                },
                CharClassKind::Word => {
                    out.push('\\');
                    out.push('w');
                },
                CharClassKind::OneOf(cs) => {
                    out.push('[');
                    push_class_from(cs, 0, out);
                    out.push(']');
                    proof {
                        assert(cs@.skip(0) =~= cs@);
                    }
                },
            }
            proof {
                assert(out@ =~= old(out)@ + render_expr(*e));
            }
        },
        Expression::Repetition(b, mn, mx) => {
            if is_atomic(b) {
                render_into(b, out);
            } else {
                out.push('(');
                out.push('?');
                out.push(':');
                render_into(b, out);
                out.push(')');
            }
            if *mn == *mx {
                out.push('{');
                push_dec(*mn, out);
                out.push('}');
            } else {
                out.push('{');
                push_dec(*mn, out);
                out.push(',');
                push_dec(*mx, out);
                out.push('}');
            }
            proof {
                assert(out@ =~= old(out)@ + render_expr(*e));
            }
        },
        Expression::Concatenation(a, b) => {
            if is_alternation(a) {
                out.push('(');
                out.push('?');
                out.push(':');
                render_into(a, out);
                out.push(')');
            } else {
                render_into(a, out);
            }
            if is_alternation(b) {
                out.push('(');
                out.push('?');
                out.push(':');
                render_into(b, out);
                out.push(')');
            } else {
                render_into(b, out);
            }
            proof {
                assert(out@ =~= old(out)@ + render_expr(*e));
            }
        },
        Expression::Alternation(a, b) => {
            render_into(a, out);
            out.push('|');
            render_into(b, out);
            proof {
                assert(out@ =~= old(out)@ + render_expr(*e));
            }
        },
    }
}

} // verus!
