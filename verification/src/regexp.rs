//! The top-level pattern object: canonicalization of the examples,
//! orchestration of the feature passes, synthesis of the expression tree,
//! and rendering of the final regex text.

use vstd::prelude::*;
use crate::ast::{
    accepts, alternation_expr, branch_render, cluster_expr, escape_text, is_alternation,
    joined_renders, lemma_literal_branch_render, render_expr, Expression,
};
use crate::canon::{canonical_sort, is_canonical, views};
use crate::cluster::{
    chained, class_folded, cluster_accepts, foldable, is_digit_char, is_literal_cluster, is_rle,
    is_space_char, is_word_char, rle_step, unit_eq, Grapheme, GraphemeCluster, Unit,
};
use crate::config::RegExpConfig;
use crate::ast::render_into;
use crate::unicode::{chars_to_string, concat_all, graphemes_of, lower_of, lowercase};
use crate::verbose::{apply_verbose_mode, push_all, verbose_format};

verus! {

/// Pointwise sameness of two symbol sequences: equal units and bounds.
pub open spec fn same_graphemes(a: Seq<Grapheme>, b: Seq<Grapheme>) -> bool {
    a.len() == b.len() && forall|i: int|
        0 <= i < a.len() ==> unit_eq((#[trigger] a[i]).unit, b[i].unit) && a[i].min == b[i].min
            && a[i].max == b[i].max
}

pub proof fn lemma_same_graphemes_refl(a: Seq<Grapheme>)
    ensures
        same_graphemes(a, a),
{
    assert forall|i: int| 0 <= i < a.len() implies unit_eq((#[trigger] a[i]).unit, a[i].unit)
        && a[i].min == a[i].min && a[i].max == a[i].max by {
        match a[i].unit {
            Unit::Text(t) => {},
            _ => {},
        }
    }
}

/// new is old with every unit class-folded and the bounds kept.
pub open spec fn class_folded_seq(new: Seq<Grapheme>, old: Seq<Grapheme>) -> bool {
    new.len() == old.len() && forall|i: int|
        0 <= i < old.len() ==> (#[trigger] new[i]).min == old[i].min && new[i].max == old[i].max
            && class_folded(old[i].unit, new[i].unit)
}

/// mid is the literal segmentation of parts, class-folded exactly when that
/// feature is enabled.
pub open spec fn folded_once(mid: Seq<Grapheme>, parts: Seq<Seq<char>>, c: RegExpConfig) -> bool {
    exists|lit: Seq<Grapheme>|
        #[trigger] is_literal_cluster(lit, parts) && (if c.is_char_class_feature_enabled {
            class_folded_seq(mid, lit)
        } else {
            same_graphemes(mid, lit)
        })
}

/// out is the segmentation of parts taken through the configured feature
/// passes: one literal unit per part, class-folded exactly when that flag is
/// on, then run-folded exactly when that flag is on, strictly in this order.
pub open spec fn orchestrated(out: Seq<Grapheme>, parts: Seq<Seq<char>>, c: RegExpConfig) -> bool {
    exists|mid: Seq<Grapheme>|
        #[trigger] folded_once(mid, parts, c) && (if c.is_repetition_converted {
            is_rle(out, mid)
        } else {
            same_graphemes(out, mid)
        })
}

/// s lies in the language of the folded symbol sequence of parts.
pub open spec fn folded_accepts(parts: Seq<Seq<char>>, c: RegExpConfig, s: Seq<char>) -> bool {
    exists|gs: Seq<Grapheme>| #[trigger] orchestrated(gs, parts, c) && cluster_accepts(gs, s)
}

/// r is the rendered text of the folded symbol sequence of parts. The
/// orchestration relation pins the folded sequence up to unit sameness, and
/// same sequences render equally, so r is determined by parts and the
/// configuration.
pub open spec fn branch_render_of(r: Seq<char>, parts: Seq<Seq<char>>, c: RegExpConfig) -> bool {
    exists|gs: Seq<Grapheme>| #[trigger] orchestrated(gs, parts, c) && r == branch_render(gs)
}

/// brs holds, per example view, the rendered text of its folded symbol
/// sequence.
pub open spec fn branch_renders_of(brs: Seq<Seq<char>>, vs: Seq<Seq<char>>, c: RegExpConfig) -> bool {
    brs.len() == vs.len() && forall|j: int|
        0 <= j < vs.len() ==> branch_render_of(#[trigger] brs[j], graphemes_of(vs[j]), c)
}

/// Same symbol sequences render to the same text.
pub proof fn lemma_same_graphemes_render(a: Seq<Grapheme>, b: Seq<Grapheme>)
    requires
        same_graphemes(a, b),
    ensures
        branch_render(a) == branch_render(b),
    decreases a.len(),
{
    if a.len() > 0 {
        assert(crate::ast::grapheme_render(a[0]) == crate::ast::grapheme_render(b[0])) by {
            assert(unit_eq(a[0].unit, b[0].unit));
            match a[0].unit {
                Unit::Text(t) => {
                    assert(crate::ast::unit_render(a[0].unit) == crate::ast::unit_render(
                        b[0].unit,
                    ));
                    assert(crate::ast::unit_atomic(a[0].unit) == crate::ast::unit_atomic(
                        b[0].unit,
                    ));
                },
                _ => {},
            }
        }
        if a.len() > 1 {
            assert(same_graphemes(a.skip(1), b.skip(1))) by {
                assert(forall|i: int|
                    0 <= i < a.skip(1).len() ==> #[trigger] a.skip(1)[i] == a[i + 1]);
                assert(forall|i: int|
                    0 <= i < b.skip(1).len() ==> #[trigger] b.skip(1)[i] == b[i + 1]);
            }
            lemma_same_graphemes_render(a.skip(1), b.skip(1));
        }
    }
}

proof fn lemma_unit_eq_sym(a: Unit, b: Unit)
    requires
        unit_eq(a, b),
    ensures
        unit_eq(b, a),
{
}

proof fn lemma_unit_eq_chain(a: Unit, b: Unit, c: Unit)
    requires
        unit_eq(a, b),
        unit_eq(b, c),
    ensures
        unit_eq(a, c),
{
}

proof fn lemma_same_graphemes_trans(a: Seq<Grapheme>, b: Seq<Grapheme>, c: Seq<Grapheme>)
    requires
        same_graphemes(a, b),
        same_graphemes(b, c),
    ensures
        same_graphemes(a, c),
{
    assert forall|i: int| 0 <= i < a.len() implies unit_eq((#[trigger] a[i]).unit, c[i].unit)
        && a[i].min == c[i].min && a[i].max == c[i].max by {
        lemma_unit_eq_chain(a[i].unit, b[i].unit, c[i].unit);
    }
}

/// Class folding maps same units to same units.
proof fn lemma_class_folded_unique(a1: Unit, b1: Unit, a2: Unit, b2: Unit)
    requires
        unit_eq(a1, a2),
        class_folded(a1, b1),
        class_folded(a2, b2),
    ensures
        unit_eq(b1, b2),
{
    match (a1, a2) {
        (Unit::Text(t1), Unit::Text(t2)) => {
            assert(t1@ == t2@);
            if !(t1@.len() == 1 && (is_digit_char(t1@[0]) || is_space_char(t1@[0])
                || is_word_char(t1@[0]))) {
                lemma_unit_eq_sym(a1, a2);
                lemma_unit_eq_chain(b1, a1, a2);
                lemma_unit_eq_sym(b2, a2);
                lemma_unit_eq_sym(a2, b2);
                lemma_unit_eq_chain(b1, a2, b2);
            }
        },
        _ => {
            lemma_unit_eq_chain(b1, a1, a2);
            lemma_unit_eq_sym(b2, a2);
            lemma_unit_eq_chain(b1, a2, b2);
        },
    }
}

/// Run folding maps same sequences to same sequences: the maximal-run
/// witnesses coincide, so the folded outputs do too.
proof fn lemma_rle_unique(n1: Seq<Grapheme>, o1: Seq<Grapheme>, n2: Seq<Grapheme>, o2: Seq<Grapheme>)
    requires
        is_rle(n1, o1),
        is_rle(n2, o2),
        same_graphemes(o1, o2),
    ensures
        same_graphemes(n1, n2),
    decreases o1.len(),
{
    if o1.len() == 0 {
        assert(n1.len() == 0 && n2.len() == 0);
    } else {
        let r1 = choose|r: int| #[trigger] rle_step(n1, o1, r) && is_rle(n1.skip(1), o1.skip(r));
        let r2 = choose|r: int| #[trigger] rle_step(n2, o2, r) && is_rle(n2.skip(1), o2.skip(r));
        assert forall|m: int| 0 < m < o1.len() implies (chained(o1[m - 1], #[trigger] o1[m])
            <==> chained(o2[m - 1], o2[m])) by {
            assert(unit_eq(o1[m - 1].unit, o2[m - 1].unit) && unit_eq(o1[m].unit, o2[m].unit));
            if chained(o1[m - 1], o1[m]) {
                lemma_unit_eq_sym(o1[m - 1].unit, o2[m - 1].unit);
                lemma_unit_eq_chain(o2[m - 1].unit, o1[m - 1].unit, o1[m].unit);
                lemma_unit_eq_chain(o2[m - 1].unit, o1[m].unit, o2[m].unit);
            }
            if chained(o2[m - 1], o2[m]) {
                lemma_unit_eq_sym(o2[m].unit, o1[m].unit);
                lemma_unit_eq_chain(o1[m - 1].unit, o2[m - 1].unit, o2[m].unit);
                lemma_unit_eq_chain(o1[m - 1].unit, o2[m].unit, o1[m].unit);
            }
        }
        assert(r1 == r2) by {
            if r1 < r2 {
                assert(chained(o2[r1 - 1], o2[r1]));
                assert(!chained(o1[r1 - 1], o1[r1]));
            }
            if r2 < r1 {
                assert(chained(o1[r2 - 1], o1[r2]));
                assert(!chained(o2[r2 - 1], o2[r2]));
            }
        }
        assert(unit_eq(n1[0].unit, n2[0].unit)) by {
            lemma_unit_eq_chain(n1[0].unit, o1[0].unit, o2[0].unit);
            lemma_unit_eq_sym(n2[0].unit, o2[0].unit);
            lemma_unit_eq_chain(n1[0].unit, o2[0].unit, n2[0].unit);
        }
        assert(foldable(o1[0]) <==> foldable(o2[0]));
        assert(n1[0].min == n2[0].min && n1[0].max == n2[0].max);
        assert(same_graphemes(o1.skip(r1), o2.skip(r1))) by {
            assert(forall|i: int|
                0 <= i < o1.skip(r1).len() ==> #[trigger] o1.skip(r1)[i] == o1[i + r1]);
            assert(forall|i: int|
                0 <= i < o2.skip(r1).len() ==> #[trigger] o2.skip(r1)[i] == o2[i + r1]);
        }
        lemma_rle_unique(n1.skip(1), o1.skip(r1), n2.skip(1), o2.skip(r1));
        assert(n1.skip(1).len() == n2.skip(1).len());
        assert(n1.len() == n2.len());
        assert forall|i: int| 0 <= i < n1.len() implies unit_eq(
            (#[trigger] n1[i]).unit,
            n2[i].unit,
        ) && n1[i].min == n2[i].min && n1[i].max == n2[i].max by {
            if i > 0 {
                assert(n1.skip(1)[i - 1] == n1[i]);
                assert(n2.skip(1)[i - 1] == n2[i]);
                assert(unit_eq((n1.skip(1)[i - 1]).unit, n2.skip(1)[i - 1].unit));
            }
        }
    }
}

/// The orchestration relation is deterministic: any two folded symbol
/// sequences of the same parts under the same configuration are the same.
pub proof fn lemma_orchestrated_deterministic(
    g1: Seq<Grapheme>,
    g2: Seq<Grapheme>,
    parts: Seq<Seq<char>>,
    c: RegExpConfig,
)
    requires
        orchestrated(g1, parts, c),
        orchestrated(g2, parts, c),
    ensures
        same_graphemes(g1, g2),
{
    let mid1 = choose|mid: Seq<Grapheme>|
        #[trigger] folded_once(mid, parts, c) && (if c.is_repetition_converted {
            is_rle(g1, mid)
        } else {
            same_graphemes(g1, mid)
        });
    let mid2 = choose|mid: Seq<Grapheme>|
        #[trigger] folded_once(mid, parts, c) && (if c.is_repetition_converted {
            is_rle(g2, mid)
        } else {
            same_graphemes(g2, mid)
        });
    let lit1 = choose|lit: Seq<Grapheme>|
        #[trigger] is_literal_cluster(lit, parts) && (if c.is_char_class_feature_enabled {
            class_folded_seq(mid1, lit)
        } else {
            same_graphemes(mid1, lit)
        });
    let lit2 = choose|lit: Seq<Grapheme>|
        #[trigger] is_literal_cluster(lit, parts) && (if c.is_char_class_feature_enabled {
            class_folded_seq(mid2, lit)
        } else {
            same_graphemes(mid2, lit)
        });
    assert(same_graphemes(lit1, lit2)) by {
        assert forall|i: int| 0 <= i < lit1.len() implies unit_eq(
            (#[trigger] lit1[i]).unit,
            lit2[i].unit,
        ) && lit1[i].min == lit2[i].min && lit1[i].max == lit2[i].max by {
            let t1 = lit1[i].unit->Text_0;
            let t2 = lit2[i].unit->Text_0;
            assert(t1@ == parts[i] && t2@ == parts[i]);
        }
    }
    assert(same_graphemes(mid1, mid2)) by {
        if c.is_char_class_feature_enabled {
            assert forall|i: int| 0 <= i < mid1.len() implies unit_eq(
                (#[trigger] mid1[i]).unit,
                mid2[i].unit,
            ) && mid1[i].min == mid2[i].min && mid1[i].max == mid2[i].max by {
                lemma_class_folded_unique(lit1[i].unit, mid1[i].unit, lit2[i].unit, mid2[i].unit);
            }
        } else {
            let ghost l2m: Seq<Grapheme> = lit2;
            assert forall|i: int| 0 <= i < mid1.len() implies unit_eq(
                (#[trigger] mid1[i]).unit,
                mid2[i].unit,
            ) && mid1[i].min == mid2[i].min && mid1[i].max == mid2[i].max by {
                lemma_unit_eq_chain(mid1[i].unit, lit1[i].unit, lit2[i].unit);
                lemma_unit_eq_sym(mid2[i].unit, lit2[i].unit);
                lemma_unit_eq_chain(mid1[i].unit, lit2[i].unit, mid2[i].unit);
            }
        }
    }
    if c.is_repetition_converted {
        lemma_rle_unique(g1, mid1, g2, mid2);
    } else {
        assert forall|i: int| 0 <= i < g1.len() implies unit_eq(
            (#[trigger] g1[i]).unit,
            g2[i].unit,
        ) && g1[i].min == g2[i].min && g1[i].max == g2[i].max by {
            lemma_unit_eq_chain(g1[i].unit, mid1[i].unit, mid2[i].unit);
            lemma_unit_eq_sym(g2[i].unit, mid2[i].unit);
            lemma_unit_eq_chain(g1[i].unit, mid2[i].unit, g2[i].unit);
        }
    }
}

/// The rendered branch text is a function of the parts and the
/// configuration: the orchestration relation is deterministic and same
/// sequences render equally.
pub proof fn lemma_branch_render_determined(
    r1: Seq<char>,
    r2: Seq<char>,
    parts: Seq<Seq<char>>,
    c: RegExpConfig,
)
    requires
        branch_render_of(r1, parts, c),
        branch_render_of(r2, parts, c),
    ensures
        r1 == r2,
{
    let gs1 = choose|gs: Seq<Grapheme>| #[trigger] orchestrated(gs, parts, c) && r1 == branch_render(gs);
    let gs2 = choose|gs: Seq<Grapheme>| #[trigger] orchestrated(gs, parts, c) && r2 == branch_render(gs);
    lemma_orchestrated_deterministic(gs1, gs2, parts, c);
    lemma_same_graphemes_render(gs1, gs2);
}

/// With both feature passes off, the folded symbol sequence of parts
/// renders as the escaped concatenation of the parts themselves.
pub proof fn lemma_unfolded_branch_render(gs: Seq<Grapheme>, parts: Seq<Seq<char>>, c: RegExpConfig)
    requires
        orchestrated(gs, parts, c),
        !c.is_char_class_feature_enabled,
        !c.is_repetition_converted,
    ensures
        branch_render(gs) == escape_text(concat_all(parts)),
{
    let mid = choose|mid: Seq<Grapheme>|
        #[trigger] folded_once(mid, parts, c) && same_graphemes(gs, mid);
    let lit = choose|lit: Seq<Grapheme>|
        #[trigger] is_literal_cluster(lit, parts) && same_graphemes(mid, lit);
    lemma_same_graphemes_render(gs, mid);
    lemma_same_graphemes_render(mid, lit);
    lemma_literal_branch_render(lit, parts);
}

/// A synthesized pattern: the expression tree and the configuration it was
/// built with. Both are immutable once constructed; rendering is recomputed
/// on demand and never mutates them.
pub struct RegExp {
    pub ast: Expression,
    pub config: RegExpConfig,
}

/// The views of the examples after case folding.
pub open spec fn lowered_views(s: Seq<String>) -> Seq<Seq<char>> {
    s.map_values(|x: String| lower_of(x@))
}

pub open spec fn color_reset() -> Seq<char> {
    seq!['\u{1b}', '[', '0', 'm']
}

/// White on bright blue: the inline flags.
pub open spec fn flag_color() -> Seq<char> {
    seq!['\u{1b}', '[', '1', '0', '4', ';', '3', '7', 'm']
}

/// Yellow bold: the anchors.
pub open spec fn anchor_color() -> Seq<char> {
    seq!['\u{1b}', '[', '1', ';', '3', '3', 'm']
}

/// Green bold: the grouping parentheses.
pub open spec fn paren_color() -> Seq<char> {
    seq!['\u{1b}', '[', '1', ';', '3', '2', 'm']
}

pub open spec fn color_wrap(intro: Seq<char>, s: Seq<char>, on: bool) -> Seq<char> {
    if on {
        intro + s + color_reset()
    } else {
        s
    }
}

/// The inline case-insensitivity flag: present only when case-insensitive
/// matching is on, empty otherwise.
pub open spec fn ignore_case_flag(c: RegExpConfig) -> Seq<char> {
    if c.is_case_insensitive_matching {
        color_wrap(flag_color(), seq!['(', '?', 'i', ')'], c.is_output_colorized)
    } else {
        Seq::empty()
    }
}

pub open spec fn verbose_mode_flag(c: RegExpConfig) -> Seq<char> {
    color_wrap(flag_color(), seq!['(', '?', 'x', ')'], c.is_output_colorized)
}

pub open spec fn left_anchor(c: RegExpConfig) -> Seq<char> {
    color_wrap(anchor_color(), seq!['^'], c.is_output_colorized)
}

pub open spec fn right_anchor(c: RegExpConfig) -> Seq<char> {
    color_wrap(anchor_color(), seq!['$'], c.is_output_colorized)
}

pub open spec fn left_paren(c: RegExpConfig) -> Seq<char> {
    color_wrap(
        paren_color(),
        if c.is_capturing_group_enabled {
            seq!['(']
        } else {
            seq!['(', '?', ':']
        },
        c.is_output_colorized,
    )
}

pub open spec fn right_paren(c: RegExpConfig) -> Seq<char> {
    color_wrap(paren_color(), seq![')'], c.is_output_colorized)
}

/// Replace each literal vertical-tab character with its two-character
/// escape form.
pub open spec fn vtab_fix(s: Seq<char>) -> Seq<char>
    decreases s.len(),
{
    if s.len() == 0 {
        Seq::empty()
    } else {
        (if s[0] == '\u{b}' {
            seq!['\\', 'v']
        } else {
            seq![s[0]]
        }) + vtab_fix(s.skip(1))
    }
}

/// The assembled single-line pattern, before the vertical-tab fix: inline
/// flag, left anchor, the body (grouped exactly when the root is an
/// alternation), right anchor.
pub open spec fn assembled(re: RegExp) -> Seq<char> {
    ignore_case_flag(re.config) + left_anchor(re.config) + (if re.ast is Alternation {
        left_paren(re.config) + render_expr(re.ast) + right_paren(re.config)
    } else {
        render_expr(re.ast)
    }) + right_anchor(re.config)
}

/// The rendered single-line pattern.
pub open spec fn plain_rendered(re: RegExp) -> Seq<char> {
    vtab_fix(assembled(re))
}

pub proof fn lemma_vtab_concat(a: Seq<char>, b: Seq<char>)
    ensures
        vtab_fix(a + b) == vtab_fix(a) + vtab_fix(b),
    decreases a.len(),
{
    if a.len() == 0 {
        assert(a + b =~= b);
        assert(vtab_fix(a) + vtab_fix(b) =~= vtab_fix(b));
    } else {
        assert((a + b).skip(1) =~= a.skip(1) + b);
        lemma_vtab_concat(a.skip(1), b);
        assert((a + b)[0] == a[0]);
        assert(vtab_fix(a + b) =~= vtab_fix(a) + vtab_fix(b));
    }
}

pub proof fn lemma_vtab_clean(s: Seq<char>)
    requires
        forall|i: int| 0 <= i < s.len() ==> s[i] != '\u{b}',
    ensures
        vtab_fix(s) == s,
    decreases s.len(),
{
    if s.len() > 0 {
        assert(forall|i: int| 0 <= i < s.skip(1).len() ==> #[trigger] s.skip(1)[i] == s[i + 1]);
        lemma_vtab_clean(s.skip(1));
        assert(vtab_fix(s) =~= s);
    }
}

/// No decoration contains a vertical tab.
pub proof fn lemma_decorations_clean(c: RegExpConfig)
    ensures
        forall|i: int|
            0 <= i < ignore_case_flag(c).len() ==> #[trigger] ignore_case_flag(c)[i] != '\u{b}',
        forall|i: int| 0 <= i < left_anchor(c).len() ==> #[trigger] left_anchor(c)[i] != '\u{b}',
        forall|i: int| 0 <= i < right_anchor(c).len() ==> #[trigger] right_anchor(c)[i] != '\u{b}',
        forall|i: int| 0 <= i < left_paren(c).len() ==> #[trigger] left_paren(c)[i] != '\u{b}',
        forall|i: int| 0 <= i < right_paren(c).len() ==> #[trigger] right_paren(c)[i] != '\u{b}',
{
}

impl RegExp {
    /// Canonicalize the examples in place (case folding if configured, then
    /// deduplication and canonical ordering), synthesize the expression
    /// tree, and keep it with the configuration.
    ///
    /// The tree accepts every canonicalized example; every string it
    /// accepts lies in some example's folded language (so an empty example
    /// set yields the empty language); and with both feature passes off it
    /// accepts exactly the canonicalized example set.
    ///
    /// The rendering of the tree is pinned: it is the branch renderings of
    /// the folded symbol sequences joined with the separator, the root is
    /// an alternation exactly when there are two or more examples, and
    /// [`lemma_branch_render_determined`] makes each branch rendering a
    /// function of the example and the configuration, so equal inputs give
    /// equal rendered patterns. With both feature passes off the rendering
    /// is stated directly: the escaped examples joined with the separator.
    #[verifier::rlimit(100)]
    pub fn from(test_cases: &mut Vec<String>, config: &RegExpConfig) -> (re: RegExp)
        ensures
            re.config == *config,
            is_canonical(views(final(test_cases)@)),
            !config.is_case_insensitive_matching ==> (forall|y: Seq<char>|
                views(final(test_cases)@).contains(y) <==> views(old(test_cases)@).contains(y)),
            config.is_case_insensitive_matching ==> (forall|y: Seq<char>|
                views(final(test_cases)@).contains(y) <==> lowered_views(old(test_cases)@).contains(
                    y,
                )),
            forall|j: int|
                0 <= j < final(test_cases)@.len() ==> accepts(
                    re.ast,
                    #[trigger] final(test_cases)@[j]@,
                ),
            !config.is_case_insensitive_matching ==> (forall|i: int|
                0 <= i < old(test_cases)@.len() ==> accepts(
                    re.ast,
                    #[trigger] old(test_cases)@[i]@,
                )),
            config.is_case_insensitive_matching ==> (forall|i: int|
                0 <= i < old(test_cases)@.len() ==> accepts(
                    re.ast,
                    lower_of(#[trigger] old(test_cases)@[i]@),
                )),
            forall|s: Seq<char>|
                #[trigger] accepts(re.ast, s) ==> exists|j: int|
                    0 <= j < final(test_cases)@.len() && folded_accepts(
                        graphemes_of(final(test_cases)@[j]@),
                        *config,
                        s,
                    ),
            re.ast is Alternation <==> final(test_cases)@.len() >= 2,
            exists|brs: Seq<Seq<char>>|
                #[trigger] branch_renders_of(brs, views(final(test_cases)@), *config)
                    && render_expr(re.ast) == joined_renders(brs),
            (!config.is_char_class_feature_enabled && !config.is_repetition_converted)
                ==> render_expr(re.ast) == joined_renders(
                views(final(test_cases)@).map_values(|v: Seq<char>| escape_text(v)),
            ),
            (!config.is_char_class_feature_enabled && !config.is_repetition_converted) ==> (
            forall|s: Seq<char>|
                #[trigger] accepts(re.ast, s) <==> views(final(test_cases)@).contains(s)),
    {
        if config.is_case_insensitive_matching() {
            Self::convert_to_lowercase(test_cases);
            proof {
                assert(views(test_cases@) =~= lowered_views(old(test_cases)@));
            }
        }
        Self::sort(test_cases);
        let clusters = Self::grapheme_clusters(test_cases.as_slice(), config);
        let n = clusters.len();
        let mut branches: Vec<Expression> = Vec::new();
        let mut i: usize = 0;
        while i < n
            invariant
                n == clusters@.len(),
                0 <= i <= n,
                branches@.len() == i,
                forall|j: int, s: Seq<char>|
                    0 <= j < i ==> (#[trigger] accepts(branches@[j], s) == cluster_accepts(
                        clusters@[j].graphemes@,
                        s,
                    )),
                forall|j: int|
                    0 <= j < i ==> render_expr(#[trigger] branches@[j]) == branch_render(
                        clusters@[j].graphemes@,
                    ) && !(branches@[j] is Alternation),
            decreases n - i,
        {
            let b = cluster_expr(&clusters[i]);
            branches.push(b);
            i = i + 1;
        }
        let ghost bseq = branches@;
        let ast = alternation_expr(branches);
        proof {
            let tcs = test_cases@;
            let brs = Seq::new(n as nat, |j: int| branch_render(clusters@[j].graphemes@));
            let rmap = bseq.map_values(|b: Expression| render_expr(b));
            assert forall|j: int| 0 <= j < n implies rmap[j] == #[trigger] brs[j] by {
                assert(rmap[j] == render_expr(bseq[j]));
            }
            assert(rmap =~= brs);
            assert(render_expr(ast) == joined_renders(brs));
            assert(branch_renders_of(brs, views(tcs), *config)) by {
                assert forall|j: int| 0 <= j < views(tcs).len() implies branch_render_of(
                    #[trigger] brs[j],
                    graphemes_of(views(tcs)[j]),
                    *config,
                ) by {
                    assert(views(tcs)[j] == tcs[j]@);
                    assert(orchestrated(clusters@[j].graphemes@, graphemes_of(tcs[j]@), *config));
                    assert(brs[j] == branch_render(clusters@[j].graphemes@));
                }
            }
            assert(ast is Alternation <==> tcs.len() >= 2) by {
                if bseq.len() == 1 {
                    assert(!(bseq[0] is Alternation));
                }
            }
            if !config.is_char_class_feature_enabled && !config.is_repetition_converted {
                let esc = views(tcs).map_values(|v: Seq<char>| escape_text(v));
                assert forall|j: int| 0 <= j < n implies #[trigger] brs[j] == esc[j] by {
                    lemma_unfolded_branch_render(
                        clusters@[j].graphemes@,
                        graphemes_of(tcs[j]@),
                        *config,
                    );
                    assert(concat_all(graphemes_of(tcs[j]@)) == tcs[j]@);
                    assert(esc[j] == escape_text(views(tcs)[j]));
                }
                assert(brs =~= esc);
            }
            assert forall|j: int| 0 <= j < tcs.len() implies accepts(
                ast,
                #[trigger] tcs[j]@,
            ) by {
                assert(cluster_accepts(clusters@[j].graphemes@, tcs[j]@));
                assert(accepts(bseq[j], tcs[j]@));
                assert(exists|k: int| 0 <= k < bseq.len() && accepts(bseq[k], tcs[j]@));
            }
            assert forall|s: Seq<char>| #[trigger] accepts(ast, s) implies exists|j: int|
                0 <= j < tcs.len() && folded_accepts(
                    graphemes_of(tcs[j]@),
                    *config,
                    s,
                ) by {
                let k = choose|k: int| 0 <= k < bseq.len() && accepts(bseq[k], s);
                assert(cluster_accepts(clusters@[k].graphemes@, s));
                assert(orchestrated(clusters@[k].graphemes@, graphemes_of(tcs[k]@), *config));
                assert(folded_accepts(graphemes_of(tcs[k]@), *config, s));
                assert(0 <= k < tcs.len() && folded_accepts(graphemes_of(tcs[k]@), *config, s));
            }
            if !config.is_char_class_feature_enabled && !config.is_repetition_converted {
                assert forall|s: Seq<char>| #[trigger] accepts(ast, s) <==> views(tcs).contains(
                    s,
                ) by {
                    if accepts(ast, s) {
                        let k = choose|k: int| 0 <= k < bseq.len() && accepts(bseq[k], s);
                        assert(cluster_accepts(clusters@[k].graphemes@, s));
                        assert(s == tcs[k]@);
                        assert(views(tcs)[k] == s);
                    }
                    if views(tcs).contains(s) {
                        let k = choose|k: int| 0 <= k < views(tcs).len() && views(tcs)[k] == s;
                        assert(s == tcs[k]@);
                        assert(cluster_accepts(clusters@[k].graphemes@, s));
                        assert(accepts(bseq[k], s));
                        assert(exists|j: int| 0 <= j < bseq.len() && accepts(bseq[j], s));
                    }
                }
            }
        }
        proof {
            let tcs = test_cases@;
            assert forall|i: int| 0 <= i < old(test_cases)@.len() implies accepts(
                ast,
                if config.is_case_insensitive_matching {
                    lower_of(#[trigger] old(test_cases)@[i]@)
                } else {
                    old(test_cases)@[i]@
                },
            ) by {
                let y: Seq<char> = if config.is_case_insensitive_matching {
                    lower_of(old(test_cases)@[i]@)
                } else {
                    old(test_cases)@[i]@
                };
                if config.is_case_insensitive_matching {
                    assert(lowered_views(old(test_cases)@)[i] == y);
                    assert(lowered_views(old(test_cases)@).contains(y));
                } else {
                    assert(views(old(test_cases)@)[i] == y);
                    assert(views(old(test_cases)@).contains(y));
                }
                assert(views(tcs).contains(y));
                let j = choose|j: int| 0 <= j < views(tcs).len() && views(tcs)[j] == y;
                assert(tcs[j]@ == y);
                assert(accepts(ast, tcs[j]@));
            }
        }
        RegExp { ast, config: *config }
    }

    /// Replace every example with its lowercase form.
    pub fn convert_to_lowercase(test_cases: &mut Vec<String>)
        ensures
            final(test_cases)@.len() == old(test_cases)@.len(),
            forall|i: int|
                0 <= i < old(test_cases)@.len() ==> #[trigger] final(test_cases)@[i]@ == lower_of(
                    old(test_cases)@[i]@,
                ),
    {
        let n = test_cases.len();
        let mut out: Vec<String> = Vec::new();
        let mut i: usize = 0;
        while i < n
            invariant
                n == test_cases@.len(),
                0 <= i <= n,
                out@.len() == i,
                forall|k: int|
                    0 <= k < i ==> #[trigger] out@[k]@ == lower_of(test_cases@[k]@),
            decreases n - i,
        {
            let lowered = lowercase(&test_cases[i]);
            out.push(lowered);
            i = i + 1;
        }
        *test_cases = out;
    }

    /// Remove exact duplicates and sort by ascending byte length of the
    /// UTF-8 encoding, breaking ties lexicographically by code points (the
    /// same order as by code units).
    pub fn sort(test_cases: &mut Vec<String>)
        ensures
            is_canonical(views(final(test_cases)@)),
            forall|y: Seq<char>|
                views(final(test_cases)@).contains(y) <==> views(old(test_cases)@).contains(y),
            forall|i: int, j: int|
                0 <= i < j < final(test_cases)@.len()
                    ==> final(test_cases)@[i]@ != final(test_cases)@[j]@,
    {
        canonical_sort(test_cases);
    }

    /// Segment each canonicalized example and apply the configured feature
    /// passes, character-class merging strictly before repetition folding.
    pub fn grapheme_clusters(test_cases: &[String], config: &RegExpConfig) -> (r: Vec<
        GraphemeCluster,
    >)
        ensures
            r@.len() == test_cases@.len(),
            forall|j: int|
                0 <= j < r@.len() ==> cluster_accepts(
                    (#[trigger] r@[j]).graphemes@,
                    test_cases@[j]@,
                ),
            forall|j: int|
                0 <= j < r@.len() ==> orchestrated(
                    (#[trigger] r@[j]).graphemes@,
                    graphemes_of(test_cases@[j]@),
                    *config,
                ),
            forall|j: int|
                0 <= j < r@.len() ==> #[trigger] concat_all(graphemes_of(test_cases@[j]@))
                    == test_cases@[j]@,
            (!config.is_char_class_feature_enabled && !config.is_repetition_converted) ==> (
            forall|j: int, s: Seq<char>|
                0 <= j < r@.len() ==> (#[trigger] cluster_accepts(r@[j].graphemes@, s) <==> s
                    == test_cases@[j]@)),
    {
        let n = test_cases.len();
        let mut clusters: Vec<GraphemeCluster> = Vec::new();
        let mut i: usize = 0;
        while i < n
            invariant
                n == test_cases@.len(),
                0 <= i <= n,
                clusters@.len() == i,
                forall|j: int|
                    0 <= j < i ==> cluster_accepts(
                        (#[trigger] clusters@[j]).graphemes@,
                        test_cases@[j]@,
                    ),
                forall|j: int|
                    0 <= j < i ==> orchestrated(
                        (#[trigger] clusters@[j]).graphemes@,
                        graphemes_of(test_cases@[j]@),
                        *config,
                    ),
                forall|j: int|
                    0 <= j < i ==> #[trigger] concat_all(graphemes_of(test_cases@[j]@))
                        == test_cases@[j]@,
                (!config.is_char_class_feature_enabled && !config.is_repetition_converted) ==> (
                forall|j: int, s: Seq<char>|
                    0 <= j < i ==> (#[trigger] cluster_accepts(clusters@[j].graphemes@, s) <==> s
                        == test_cases@[j]@)),
            decreases n - i,
        {
            let mut cl = GraphemeCluster::from(&test_cases[i]);
            let ghost fresh = cl;
            let ghost parts = graphemes_of(test_cases@[i as int]@);
            proof {
                assert(cluster_accepts(cl.graphemes@, test_cases@[i as int]@));
            }
            if config.is_char_class_feature_enabled() {
                cl.convert_to_char_classes();
                proof {
                    assert(cluster_accepts(cl.graphemes@, test_cases@[i as int]@));
                    assert(class_folded_seq(cl.graphemes@, fresh.graphemes@));
                }
            }
            let ghost mid = cl.graphemes@;
            proof {
                if !config.is_char_class_feature_enabled {
                    lemma_same_graphemes_refl(mid);
                }
                assert(folded_once(mid, parts, *config));
            }
            if config.is_repetition_converted() {
                cl.convert_repetitions();
                proof {
                    assert(cluster_accepts(cl.graphemes@, test_cases@[i as int]@));
                    assert(is_rle(cl.graphemes@, mid));
                }
            }
            proof {
                if !config.is_repetition_converted {
                    lemma_same_graphemes_refl(cl.graphemes@);
                }
                assert(orchestrated(cl.graphemes@, parts, *config));
            }
            clusters.push(cl);
            proof {
                assert(clusters@[i as int] == cl);
                if !config.is_char_class_feature_enabled && !config.is_repetition_converted {
                    assert(cl == fresh);
                    assert forall|s: Seq<char>|
                        #[trigger] cluster_accepts(clusters@[i as int].graphemes@, s) <==> s
                        == test_cases@[i as int]@ by {
                        assert(cluster_accepts(fresh.graphemes@, s) <==> s == test_cases@[i as int]@);
                    }
                }
            }
            i = i + 1;
        }
        clusters
    }

    /// Render the pattern: the assembled single line, or its verbose
    /// listing when verbose mode is enabled. Rendering is pure and
    /// deterministic; it recomputes the text from the immutable tree and
    /// configuration on every call.
    pub fn to_regexp_string(&self) -> (r: String)
        ensures
            r@ == rendered(*self),
    {
        let (icf, vmf, la, lp, rp, ra) = to_colorized_string(&self.config);
        let mut body: Vec<char> = Vec::new();
        push_all(&mut body, &icf);
        push_all(&mut body, &la);
        if is_alternation(&self.ast) {
            push_all(&mut body, &lp);
            render_into(&self.ast, &mut body);
            push_all(&mut body, &rp);
        } else {
            render_into(&self.ast, &mut body);
        }
        push_all(&mut body, &ra);
        proof {
            assert(body@ == assembled(*self));
        }
        let mut fixed: Vec<char> = Vec::new();
        push_vtab_fixed(&body, 0, &mut fixed);
        proof {
            assert(body@.skip(0) =~= body@);
            assert(fixed@ == plain_rendered(*self));
        }
        if self.config.is_verbose_mode_enabled {
            let v = apply_verbose_mode(&fixed, &vmf);
            chars_to_string(&v)
        } else {
            chars_to_string(&fixed)
        }
    }
}

/// The six decorations as character vectors, in the order: inline
/// case-insensitivity flag, verbose-mode flag, left anchor, left grouping
/// token, right grouping token, right anchor.
fn to_colorized_string(config: &RegExpConfig) -> (r: (
    Vec<char>,
    Vec<char>,
    Vec<char>,
    Vec<char>,
    Vec<char>,
    Vec<char>,
))
    ensures
        r.0@ == ignore_case_flag(*config),
        r.1@ == verbose_mode_flag(*config),
        r.2@ == left_anchor(*config),
        r.3@ == left_paren(*config),
        r.4@ == right_paren(*config),
        r.5@ == right_anchor(*config),
{
    let on = config.is_output_colorized;
    let icf: Vec<char> = if config.is_case_insensitive_matching() {
        let inner: Vec<char> = vec!['(', '?', 'i', ')'];
        wrap_colored(inner, 1, on)
    } else {
        Vec::new()
    };
    let vmf: Vec<char> = {
        let inner: Vec<char> = vec!['(', '?', 'x', ')'];
        wrap_colored(inner, 1, on)
    };
    let la: Vec<char> = {
        let inner: Vec<char> = vec!['^'];
        wrap_colored(inner, 2, on)
    };
    let ra: Vec<char> = {
        let inner: Vec<char> = vec!['$'];
        wrap_colored(inner, 2, on)
    };
    let lp: Vec<char> = {
        let inner: Vec<char> = if config.is_capturing_group_enabled() {
            vec!['(']
        } else {
            vec!['(', '?', ':']
        };
        wrap_colored(inner, 3, on)
    };
    let rp: Vec<char> = {
        let inner: Vec<char> = vec![')'];
        wrap_colored(inner, 3, on)
    };
    proof {
        assert(icf@ =~= ignore_case_flag(*config));
        assert(vmf@ =~= verbose_mode_flag(*config));
        assert(la@ =~= left_anchor(*config));
        assert(ra@ =~= right_anchor(*config));
        assert(lp@ =~= left_paren(*config));
        assert(rp@ =~= right_paren(*config));
    }
    (icf, vmf, la, lp, rp, ra)
}

/// The color introducer of each decoration family.
pub open spec fn intro_of(kind: int) -> Seq<char> {
    if kind == 1 {
        flag_color()
    } else if kind == 2 {
        anchor_color()
    } else {
        paren_color()
    }
}

fn wrap_colored(body: Vec<char>, kind: u8, on: bool) -> (r: Vec<char>)
    requires
        1 <= kind <= 3,
    ensures
        r@ == color_wrap(intro_of(kind as int), body@, on),
{
    if !on {
        return body;
    }
    let mut r: Vec<char> = Vec::new();
    r.push('\u{1b}');
    r.push('[');
    if kind == 1 {
        r.push('1');
        r.push('0');
        r.push('4');
        r.push(';');
        r.push('3');
        r.push('7');
    } else if kind == 2 {
        r.push('1');
        r.push(';');
        r.push('3');
        r.push('3');
    } else {
        r.push('1');
        r.push(';');
        r.push('3');
        r.push('2');
    }
    r.push('m');
    proof {
        assert(r@ =~= intro_of(kind as int));
    }
    push_all(&mut r, &body);
    r.push('\u{1b}');
    r.push('[');
    r.push('0');
    r.push('m');
    proof {
        assert(r@ =~= intro_of(kind as int) + body@ + color_reset());
    }
    r
}

/// Append s with every vertical tab replaced by its escape form.
fn push_vtab_fixed(s: &Vec<char>, from: usize, out: &mut Vec<char>)
    requires
        from <= s@.len(),
    ensures
        final(out)@ == old(out)@ + vtab_fix(s@.skip(from as int)),
    decreases s@.len() - from,
{
    if from < s.len() {
        let c = s[from];
        if c == '\u{b}' {
            out.push('\\');
            out.push('v');
        } else {
            out.push(c);
        }
        push_vtab_fixed(s, from + 1, out);
        proof {
            let t = s@.skip(from as int);
            assert(t[0] == s@[from as int]);
            assert(t.skip(1) =~= s@.skip(from as int + 1));
            assert(final(out)@ =~= old(out)@ + vtab_fix(t));
        }
    } else {
        proof {
            assert(s@.skip(from as int).len() == 0);
            assert(final(out)@ =~= old(out)@ + vtab_fix(s@.skip(from as int)));
        }
    }
}

/// The final rendered text of a pattern: the verbose listing when verbose
/// mode is on, the single line otherwise.
pub open spec fn rendered(re: RegExp) -> Seq<char> {
    if re.config.is_verbose_mode_enabled {
        verbose_format(plain_rendered(re), verbose_mode_flag(re.config))
    } else {
        plain_rendered(re)
    }
}

/// Anchor invariant: whatever the root expression variant, the rendered
/// single-line pattern always ends with the right anchor decoration and
/// begins with the inline case flag (empty unless case-insensitive matching
/// is on) followed by the left anchor decoration.
pub proof fn lemma_anchor_invariant(re: RegExp)
    requires
        !re.config.is_verbose_mode_enabled,
    ensures
        rendered(re).len() >= ignore_case_flag(re.config).len() + left_anchor(re.config).len()
            + right_anchor(re.config).len(),
        rendered(re).take(
            ignore_case_flag(re.config).len() + left_anchor(re.config).len() as int,
        ) == ignore_case_flag(re.config) + left_anchor(re.config),
        !re.config.is_case_insensitive_matching ==> rendered(re).take(
            left_anchor(re.config).len() as int,
        ) == left_anchor(re.config),
        rendered(re).skip(rendered(re).len() - right_anchor(re.config).len()) == right_anchor(
            re.config,
        ),
{
    let c = re.config;
    let icf = ignore_case_flag(c);
    let la = left_anchor(c);
    let ra = right_anchor(c);
    lemma_grouping_invariant(re);
    let r = rendered(re);
    if re.ast is Alternation {
        assert(r == icf + la + left_paren(c) + vtab_fix(render_expr(re.ast)) + right_paren(c)
            + ra);
    } else {
        assert(r == icf + la + vtab_fix(render_expr(re.ast)) + ra);
    }
    assert(r.take(icf.len() + la.len() as int) =~= icf + la);
    assert(r.skip(r.len() - ra.len()) =~= ra);
    if !c.is_case_insensitive_matching {
        assert(icf =~= Seq::<char>::empty());
        assert(r.take(la.len() as int) =~= la);
    }
}

/// Grouping invariant: the rendered single-line pattern wraps the body in
/// the grouping tokens exactly when the root expression is an alternation.
#[verifier::rlimit(60)]
pub proof fn lemma_grouping_invariant(re: RegExp)
    requires
        !re.config.is_verbose_mode_enabled,
    ensures
        re.ast is Alternation ==> rendered(re) == ignore_case_flag(re.config) + left_anchor(
            re.config,
        ) + left_paren(re.config) + vtab_fix(render_expr(re.ast)) + right_paren(re.config)
            + right_anchor(re.config),
        !(re.ast is Alternation) ==> rendered(re) == ignore_case_flag(re.config) + left_anchor(
            re.config,
        ) + vtab_fix(render_expr(re.ast)) + right_anchor(re.config),
{
    let c = re.config;
    let icf = ignore_case_flag(c);
    let la = left_anchor(c);
    let ra = right_anchor(c);
    let lp = left_paren(c);
    let rp = right_paren(c);
    let body = render_expr(re.ast);
    lemma_decorations_clean(c);
    lemma_vtab_clean(icf);
    lemma_vtab_clean(la);
    lemma_vtab_clean(ra);
    lemma_vtab_clean(lp);
    lemma_vtab_clean(rp);
    if re.ast is Alternation {
        assert(assembled(re) =~= icf + (la + (lp + (body + (rp + ra)))));
        lemma_vtab_concat(icf, la + (lp + (body + (rp + ra))));
        lemma_vtab_concat(la, lp + (body + (rp + ra)));
        lemma_vtab_concat(lp, body + (rp + ra));
        lemma_vtab_concat(body, rp + ra);
        lemma_vtab_concat(rp, ra);
        assert(rendered(re) == icf + (la + (lp + (vtab_fix(body) + (rp + ra)))));
        assert(icf + (la + (lp + (vtab_fix(body) + (rp + ra)))) =~= icf + la + lp + vtab_fix(body)
            + rp + ra);
    } else {
        assert(assembled(re) =~= icf + (la + (body + ra)));
        lemma_vtab_concat(icf, la + (body + ra));
        lemma_vtab_concat(la, body + ra);
        lemma_vtab_concat(body, ra);
        assert(rendered(re) == icf + (la + (vtab_fix(body) + ra)));
        assert(icf + (la + (vtab_fix(body) + ra)) =~= icf + la + vtab_fix(body) + ra);
    }
}

} // verus!
