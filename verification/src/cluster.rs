//! Symbol sequences: each example string becomes an ordered sequence of
//! atomic units (one per grapheme cluster), later transformed by the optional
//! feature passes (character-class merging, repetition folding).

use vstd::prelude::*;
use crate::unicode::{concat_all, grapheme_segments, graphemes_of, str_to_chars};

verus! {

/// One atomic unit of a symbol sequence: a literal text, or a merged
/// character-class unit.
pub enum Unit {
    Text(Vec<char>),
    Digit,
    Space,
    Word,
}

/// A unit together with its repetition bounds. Fresh units carry the bounds
/// one/one; repetition folding raises them.
pub struct Grapheme {
    pub unit: Unit,
    pub min: usize,
    pub max: usize,
}

/// The symbol sequence of one example string.
pub struct GraphemeCluster {
    pub graphemes: Vec<Grapheme>,
}

pub open spec fn is_digit_char(c: char) -> bool {
    '0' as u32 <= c as u32 && c as u32 <= '9' as u32
}

pub open spec fn is_space_char(c: char) -> bool {
    c == ' ' || c == '\t' || c == '\n' || c == '\r' || c == '\u{b}' || c == '\u{c}'
}

pub open spec fn is_word_char(c: char) -> bool {
    ('a' as u32 <= c as u32 && c as u32 <= 'z' as u32)
        || ('A' as u32 <= c as u32 && c as u32 <= 'Z' as u32)
        || is_digit_char(c)
        || c == '_'
}

/// Which single strings one unit stands for.
pub open spec fn unit_accepts(u: Unit, s: Seq<char>) -> bool {
    match u {
        Unit::Text(t) => s == t@,
        Unit::Digit => s.len() == 1 && is_digit_char(s[0]),
        Unit::Space => s.len() == 1 && is_space_char(s[0]),
        Unit::Word => s.len() == 1 && is_word_char(s[0]),
    }
}

/// s splits into exactly k parts, each accepted by the unit.
pub open spec fn unit_reps(u: Unit, k: nat, s: Seq<char>) -> bool
    decreases k,
{
    if k == 0 {
        s.len() == 0
    } else {
        exists|i: int|
            0 <= i <= s.len() && unit_accepts(u, s.take(i)) && unit_reps(
                u,
                (k - 1) as nat,
                s.skip(i),
            )
    }
}

/// A quantified unit accepts between min and max repetitions.
pub open spec fn grapheme_accepts(g: Grapheme, s: Seq<char>) -> bool {
    exists|k: nat| g.min <= k <= g.max && unit_reps(g.unit, k, s)
}

/// The language of a whole symbol sequence: the concatenations of one
/// acceptable part per unit, in order.
pub open spec fn cluster_accepts(gs: Seq<Grapheme>, s: Seq<char>) -> bool
    decreases gs.len(),
{
    if gs.len() == 0 {
        s.len() == 0
    } else {
        exists|i: int|
            0 <= i <= s.len() && grapheme_accepts(gs[0], s.take(i)) && cluster_accepts(
                gs.skip(1),
                s.skip(i),
            )
    }
}

/// Units with the same meaning.
pub open spec fn unit_eq(a: Unit, b: Unit) -> bool {
    match (a, b) {
        (Unit::Text(x), Unit::Text(y)) => x@ == y@,
        (Unit::Digit, Unit::Digit) => true,
        (Unit::Space, Unit::Space) => true,
        (Unit::Word, Unit::Word) => true,
        _ => false,
    }
}

fn vec_chars_eq(a: &Vec<char>, b: &Vec<char>) -> (r: bool)
    ensures
        r == (a@ == b@),
{
    if a.len() != b.len() {
        proof {
            if a@ == b@ {
                assert(a@.len() == b@.len());
            }
        }
        return false;
    }
    let n = a.len();
    let mut i: usize = 0;
    while i < n
        invariant
            n == a@.len() && n == b@.len(),
            0 <= i <= n,
            forall|k: int| 0 <= k < i ==> a@[k] == b@[k],
        decreases n - i,
    {
        if a[i] != b[i] {
            return false;
        }
        i = i + 1;
    }
    proof {
        assert(a@ =~= b@);
    }
    true
}

fn unit_eq_exec(a: &Unit, b: &Unit) -> (r: bool)
    ensures
        r == unit_eq(*a, *b),
{
    match (a, b) {
        (Unit::Text(x), Unit::Text(y)) => vec_chars_eq(x, y),
        (Unit::Digit, Unit::Digit) => true,
        (Unit::Space, Unit::Space) => true,
        (Unit::Word, Unit::Word) => true,
        _ => false,
    }
}

fn copy_unit(u: &Unit) -> (r: Unit)
    ensures
        unit_eq(r, *u),
{
    match u {
        Unit::Text(t) => Unit::Text(t.clone()),
        Unit::Digit => Unit::Digit,
        Unit::Space => Unit::Space,
        Unit::Word => Unit::Word,
    }
}

/// A sequence of literal one/one units whose texts are the given parts.
pub open spec fn is_literal_cluster(gs: Seq<Grapheme>, parts: Seq<Seq<char>>) -> bool {
    gs.len() == parts.len() && forall|i: int|
        0 <= i < gs.len() ==> (#[trigger] gs[i]).min == 1 && gs[i].max == 1 && unit_accepts(
            gs[i].unit,
            parts[i],
        ) && gs[i].unit is Text
}

pub proof fn lemma_reps_one(u: Unit, s: Seq<char>)
    ensures
        unit_reps(u, 1, s) == unit_accepts(u, s),
{
    if unit_accepts(u, s) {
        let i = s.len() as int;
        assert(s.take(i) =~= s);
        assert(s.skip(i).len() == 0);
        assert(unit_reps(u, 0, s.skip(i)));
    }
    if unit_reps(u, 1, s) {
        let i = choose|i: int|
            0 <= i <= s.len() && unit_accepts(u, s.take(i)) && unit_reps(u, 0nat, s.skip(i));
        assert(s.skip(i).len() == 0);
        assert(s.take(i) =~= s);
    }
}

/// A literal symbol sequence accepts exactly the concatenation of its parts.
pub proof fn lemma_literal_cluster_language(gs: Seq<Grapheme>, parts: Seq<Seq<char>>)
    requires
        is_literal_cluster(gs, parts),
    ensures
        forall|t: Seq<char>| cluster_accepts(gs, t) <==> t == concat_all(parts),
    decreases gs.len(),
{
    if gs.len() == 0 {
        assert forall|t: Seq<char>| cluster_accepts(gs, t) <==> t == concat_all(parts) by {
            if t.len() == 0 {
                assert(t =~= concat_all(parts));
            }
        }
    } else {
        let p0 = parts[0];
        assert(is_literal_cluster(gs.skip(1), parts.skip(1))) by {
            assert(forall|i: int|
                0 <= i < gs.skip(1).len() ==> gs.skip(1)[i] == #[trigger] gs[i + 1]);
            assert(forall|i: int|
                0 <= i < parts.skip(1).len() ==> parts.skip(1)[i] == #[trigger] parts[i + 1]);
        }
        lemma_literal_cluster_language(gs.skip(1), parts.skip(1));
        assert forall|t: Seq<char>| cluster_accepts(gs, t) <==> t == concat_all(parts) by {
            if cluster_accepts(gs, t) {
                let i = choose|i: int|
                    0 <= i <= t.len() && grapheme_accepts(gs[0], t.take(i)) && cluster_accepts(
                        gs.skip(1),
                        t.skip(i),
                    );
                let k = choose|k: nat| 1 <= k <= 1 && unit_reps(gs[0].unit, k, t.take(i));
                lemma_reps_one(gs[0].unit, t.take(i));
                assert(unit_accepts(gs[0].unit, t.take(i)));
                assert(t.take(i) == p0);
                assert(t.skip(i) == concat_all(parts.skip(1)));
                assert(t =~= t.take(i) + t.skip(i));
                assert(t == p0 + concat_all(parts.skip(1)));
            }
            if t == concat_all(parts) {
                let i = p0.len() as int;
                assert(t == p0 + concat_all(parts.skip(1)));
                assert(t.take(i) =~= p0);
                assert(t.skip(i) =~= concat_all(parts.skip(1)));
                lemma_reps_one(gs[0].unit, t.take(i));
                assert(unit_reps(gs[0].unit, 1, t.take(i)));
                assert(grapheme_accepts(gs[0], t.take(i))) by {
                    assert(gs[0].min <= 1nat <= gs[0].max && unit_reps(gs[0].unit, 1nat, t.take(i)));
                }
                assert(cluster_accepts(gs.skip(1), t.skip(i)));
            }
        }
    }
}

/// The character-class form of one unit: a single-character literal becomes
/// the narrowest class containing it; everything else is kept.
pub open spec fn class_folded(old_u: Unit, new_u: Unit) -> bool {
    match old_u {
        Unit::Text(t) => {
            if t@.len() == 1 && is_digit_char(t@[0]) {
                new_u is Digit
            } else if t@.len() == 1 && is_space_char(t@[0]) {
                new_u is Space
            } else if t@.len() == 1 && is_word_char(t@[0]) {
                new_u is Word
            } else {
                unit_eq(new_u, old_u)
            }
        },
        _ => unit_eq(new_u, old_u),
    }
}

/// Every string accepted by a is accepted by b.
pub open spec fn unit_refines(a: Unit, b: Unit) -> bool {
    forall|s: Seq<char>| #[trigger] unit_accepts(a, s) ==> unit_accepts(b, s)
}

proof fn lemma_class_folded_refines(a: Unit, b: Unit)
    requires
        class_folded(a, b),
    ensures
        unit_refines(a, b),
{
    assert forall|s: Seq<char>| #[trigger] unit_accepts(a, s) implies unit_accepts(b, s) by {
        match a {
            Unit::Text(t) => {
                assert(s == t@);
            },
            _ => {},
        }
    }
}

proof fn lemma_unit_eq_refines(a: Unit, b: Unit)
    requires
        unit_eq(a, b),
    ensures
        unit_refines(a, b),
        unit_refines(b, a),
{
}

proof fn lemma_reps_refines(a: Unit, b: Unit, k: nat, s: Seq<char>)
    requires
        unit_refines(a, b),
        unit_reps(a, k, s),
    ensures
        unit_reps(b, k, s),
    decreases k,
{
    if k > 0 {
        let i = choose|i: int|
            0 <= i <= s.len() && unit_accepts(a, s.take(i)) && unit_reps(a, (k - 1) as nat, s.skip(i));
        lemma_reps_refines(a, b, (k - 1) as nat, s.skip(i));
        assert(unit_accepts(b, s.take(i)));
    }
}

/// Pointwise refinement of units, with unchanged bounds, only widens the
/// language of a symbol sequence.
proof fn lemma_cluster_refines(old_gs: Seq<Grapheme>, new_gs: Seq<Grapheme>)
    requires
        old_gs.len() == new_gs.len(),
        forall|i: int|
            0 <= i < old_gs.len() ==> (#[trigger] new_gs[i]).min == old_gs[i].min && new_gs[i].max
                == old_gs[i].max && unit_refines(old_gs[i].unit, new_gs[i].unit),
    ensures
        forall|s: Seq<char>|
            #[trigger] cluster_accepts(old_gs, s) ==> cluster_accepts(new_gs, s),
    decreases old_gs.len(),
{
    if old_gs.len() > 0 {
        assert(forall|i: int|
            0 <= i < old_gs.skip(1).len() ==> #[trigger] old_gs.skip(1)[i] == old_gs[i + 1]);
        assert(forall|i: int|
            0 <= i < new_gs.skip(1).len() ==> #[trigger] new_gs.skip(1)[i] == new_gs[i + 1]);
        lemma_cluster_refines(old_gs.skip(1), new_gs.skip(1));
        assert forall|s: Seq<char>|
            #[trigger] cluster_accepts(old_gs, s) implies cluster_accepts(new_gs, s) by {
            let i = choose|i: int|
                0 <= i <= s.len() && grapheme_accepts(old_gs[0], s.take(i)) && cluster_accepts(
                    old_gs.skip(1),
                    s.skip(i),
                );
            let k = choose|k: nat|
                old_gs[0].min <= k <= old_gs[0].max && unit_reps(old_gs[0].unit, k, s.take(i));
            lemma_reps_refines(old_gs[0].unit, new_gs[0].unit, k, s.take(i));
            assert(grapheme_accepts(new_gs[0], s.take(i)));
            assert(cluster_accepts(new_gs.skip(1), s.skip(i)));
        }
    }
}

/// Both bounds one: such a unit stands for exactly one part and may be
/// merged into a quantified run.
pub open spec fn foldable(g: Grapheme) -> bool {
    g.min == 1 && g.max == 1
}

/// Adjacent units that belong to one run.
pub open spec fn chained(a: Grapheme, b: Grapheme) -> bool {
    foldable(a) && foldable(b) && unit_eq(a.unit, b.unit)
}

/// new is old with every maximal run of chained units folded into a single
/// unit quantified by the run length; unfoldable units are kept with their
/// bounds. The maximality conditions make the witness r unique, so the
/// relation pins the output.
/// One folding step: the first r units of old form a maximal chained run,
/// and the head of new stands for exactly that run.
pub open spec fn rle_step(new: Seq<Grapheme>, old: Seq<Grapheme>, r: int) -> bool {
    1 <= r <= old.len() && (forall|m: int| 0 < m < r ==> chained(old[m - 1], #[trigger] old[m]))
        && (r < old.len() ==> !chained(old[r - 1], old[r])) && (!foldable(old[0]) ==> r == 1)
        && new.len() >= 1 && unit_eq(new[0].unit, old[0].unit) && (if foldable(old[0]) {
        new[0].min == r && new[0].max == r
    } else {
        new[0].min == old[0].min && new[0].max == old[0].max
    })
}

pub open spec fn is_rle(new: Seq<Grapheme>, old: Seq<Grapheme>) -> bool
    decreases old.len(),
{
    if old.len() == 0 {
        new.len() == 0
    } else {
        exists|r: int| #[trigger] rle_step(new, old, r) && is_rle(new.skip(1), old.skip(r))
    }
}

/// Folding a run never narrows the language: every string the unfolded
/// sequence accepts, the folded sequence accepts.
proof fn lemma_run_reps(old_gs: Seq<Grapheme>, r: int, s: Seq<char>)
    requires
        1 <= r <= old_gs.len(),
        forall|m: int| 0 < m < r ==> chained(old_gs[m - 1], #[trigger] old_gs[m]),
        foldable(old_gs[0]),
        cluster_accepts(old_gs, s),
    ensures
        exists|i: int|
            0 <= i <= s.len() && unit_reps(old_gs[0].unit, r as nat, s.take(i)) && cluster_accepts(
                old_gs.skip(r),
                s.skip(i),
            ),
    decreases r,
{
    let u = old_gs[0].unit;
    let i1 = choose|i: int|
        0 <= i <= s.len() && grapheme_accepts(old_gs[0], s.take(i)) && cluster_accepts(
            old_gs.skip(1),
            s.skip(i),
        );
    let k1 = choose|k: nat| 1 <= k <= 1 && unit_reps(u, k, s.take(i1));
    lemma_reps_one(u, s.take(i1));
    assert(unit_accepts(u, s.take(i1)));
    if r == 1 {
        assert(unit_reps(u, 1, s.take(i1)));
    } else {
        assert(forall|i: int|
            0 <= i < old_gs.skip(1).len() ==> #[trigger] old_gs.skip(1)[i] == old_gs[i + 1]);
        assert(chained(old_gs[0], old_gs[1]));
        lemma_unit_eq_refines(old_gs[0].unit, old_gs[1].unit);
        lemma_run_reps(old_gs.skip(1), r - 1, s.skip(i1));
        let rest = s.skip(i1);
        let i2 = choose|i: int|
            0 <= i <= rest.len() && unit_reps(old_gs[1].unit, (r - 1) as nat, rest.take(i))
                && cluster_accepts(old_gs.skip(1).skip(r - 1), rest.skip(i));
        lemma_reps_refines(old_gs[1].unit, u, (r - 1) as nat, rest.take(i2));
        let i = i1 + i2;
        assert(s.take(i).take(i1) =~= s.take(i1));
        assert(s.take(i).skip(i1) =~= rest.take(i2));
        assert(unit_reps(u, r as nat, s.take(i))) by {
            assert(unit_accepts(u, s.take(i).take(i1)));
            assert(unit_reps(u, (r - 1) as nat, s.take(i).skip(i1)));
        }
        assert(old_gs.skip(1).skip(r - 1) =~= old_gs.skip(r));
        assert(rest.skip(i2) =~= s.skip(i));
    }
}

proof fn lemma_rle_accepts(new_gs: Seq<Grapheme>, old_gs: Seq<Grapheme>)
    requires
        is_rle(new_gs, old_gs),
    ensures
        forall|s: Seq<char>|
            #[trigger] cluster_accepts(old_gs, s) ==> cluster_accepts(new_gs, s),
    decreases old_gs.len(),
{
    if old_gs.len() > 0 {
        let r = choose|r: int|
            #[trigger] rle_step(new_gs, old_gs, r) && is_rle(new_gs.skip(1), old_gs.skip(r));
        lemma_rle_accepts(new_gs.skip(1), old_gs.skip(r));
        lemma_unit_eq_refines(old_gs[0].unit, new_gs[0].unit);
        assert forall|s: Seq<char>|
            #[trigger] cluster_accepts(old_gs, s) implies cluster_accepts(new_gs, s) by {
            if foldable(old_gs[0]) {
                lemma_run_reps(old_gs, r, s);
                let i = choose|i: int|
                    0 <= i <= s.len() && unit_reps(old_gs[0].unit, r as nat, s.take(i))
                        && cluster_accepts(old_gs.skip(r), s.skip(i));
                lemma_reps_refines(old_gs[0].unit, new_gs[0].unit, r as nat, s.take(i));
                assert(grapheme_accepts(new_gs[0], s.take(i))) by {
                    assert(new_gs[0].min <= r as nat <= new_gs[0].max && unit_reps(
                        new_gs[0].unit,
                        r as nat,
                        s.take(i),
                    ));
                }
                assert(cluster_accepts(new_gs.skip(1), s.skip(i)));
            } else {
                let i = choose|i: int|
                    0 <= i <= s.len() && grapheme_accepts(old_gs[0], s.take(i)) && cluster_accepts(
                        old_gs.skip(1),
                        s.skip(i),
                    );
                let k = choose|k: nat|
                    old_gs[0].min <= k <= old_gs[0].max && unit_reps(old_gs[0].unit, k, s.take(i));
                lemma_reps_refines(old_gs[0].unit, new_gs[0].unit, k, s.take(i));
                assert(grapheme_accepts(new_gs[0], s.take(i))) by {
                    assert(new_gs[0].min <= k <= new_gs[0].max && unit_reps(
                        new_gs[0].unit,
                        k,
                        s.take(i),
                    ));
                }
                assert(old_gs.skip(1) =~= old_gs.skip(r));
                assert(cluster_accepts(new_gs.skip(1), s.skip(i)));
            }
        }
    }
}

impl GraphemeCluster {
    /// Segment one example into its literal symbol sequence: one unit per
    /// grapheme cluster, each with the bounds one/one.
    pub fn from(s: &String) -> (c: GraphemeCluster)
        ensures
            is_literal_cluster(c.graphemes@, graphemes_of(s@)),
            concat_all(graphemes_of(s@)) == s@,
            forall|t: Seq<char>| cluster_accepts(c.graphemes@, t) <==> t == s@,
    {
        let parts = grapheme_segments(s);
        let n = parts.len();
        let mut graphemes: Vec<Grapheme> = Vec::new();
        let mut i: usize = 0;
        while i < n
            invariant
                n == parts@.len(),
                parts.deep_view() == graphemes_of(s@),
                0 <= i <= n,
                graphemes@.len() == i,
                forall|k: int|
                    0 <= k < i ==> (#[trigger] graphemes@[k]).min == 1 && graphemes@[k].max == 1
                        && unit_accepts(graphemes@[k].unit, graphemes_of(s@)[k])
                        && graphemes@[k].unit is Text,
            decreases n - i,
        {
            let text = str_to_chars(parts[i].as_str());
            proof {
                assert(parts.deep_view()[i as int] == parts@[i as int]@);
            }
            graphemes.push(Grapheme { unit: Unit::Text(text), min: 1, max: 1 });
            i = i + 1;
        }
        proof {
            assert(graphemes_of(s@).len() == parts.deep_view().len());
        }
        let c = GraphemeCluster { graphemes };
        proof {
            lemma_literal_cluster_language(c.graphemes@, graphemes_of(s@));
        }
        c
    }

    /// Merge each single-character literal unit into the narrowest
    /// character-class unit containing it. Bounds are kept; the language
    /// only widens, so every previously accepted string stays accepted.
    pub fn convert_to_char_classes(&mut self)
        ensures
            final(self).graphemes@.len() == old(self).graphemes@.len(),
            forall|i: int|
                0 <= i < old(self).graphemes@.len() ==> (#[trigger] final(self).graphemes@[i]).min
                    == old(self).graphemes@[i].min && final(self).graphemes@[i].max == old(
                    self,
                ).graphemes@[i].max && class_folded(
                    old(self).graphemes@[i].unit,
                    final(self).graphemes@[i].unit,
                ),
            forall|s: Seq<char>|
                #[trigger] cluster_accepts(old(self).graphemes@, s) ==> cluster_accepts(
                    final(self).graphemes@,
                    s,
                ),
    {
        let ghost orig = self.graphemes@;
        let n = self.graphemes.len();
        let mut out: Vec<Grapheme> = Vec::new();
        let mut i: usize = 0;
        while i < n
            invariant
                n == orig.len(),
                self.graphemes@ == orig,
                0 <= i <= n,
                out@.len() == i,
                forall|k: int|
                    0 <= k < i ==> (#[trigger] out@[k]).min == orig[k].min && out@[k].max
                        == orig[k].max && class_folded(orig[k].unit, out@[k].unit),
            decreases n - i,
        {
            let g = &self.graphemes[i];
            let nu: Unit = match &g.unit {
                Unit::Text(t) => {
                    if t.len() == 1 {
                        let c = t[0];
                        let cu = c as u32;
                        if '0' as u32 <= cu && cu <= '9' as u32 {
                            Unit::Digit
                        } else if c == ' ' || c == '\t' || c == '\n' || c == '\r' || c == '\u{b}'
                            || c == '\u{c}' {
                            Unit::Space
                        } else if ('a' as u32 <= cu && cu <= 'z' as u32) || ('A' as u32 <= cu && cu
                            <= 'Z' as u32) || c == '_' {
                            Unit::Word
                        } else {
                            Unit::Text(t.clone())
                        }
                    } else {
                        Unit::Text(t.clone())
                    }
                },
                Unit::Digit => Unit::Digit,
                Unit::Space => Unit::Space,
                Unit::Word => Unit::Word,
            };
            out.push(Grapheme { unit: nu, min: g.min, max: g.max });
            i = i + 1;
        }
        proof {
            assert forall|k: int|
                0 <= k < orig.len() implies (#[trigger] out@[k]).min == orig[k].min && out@[k].max
                == orig[k].max && unit_refines(orig[k].unit, out@[k].unit) by {
                lemma_class_folded_refines(orig[k].unit, out@[k].unit);
            }
            lemma_cluster_refines(orig, out@);
        }
        self.graphemes = out;
    }

    /// Fold each maximal run of equal one/one units into a single unit
    /// quantified by the run length. The language only widens, so every
    /// previously accepted string stays accepted.
    #[verifier::rlimit(50)]
    pub fn convert_repetitions(&mut self)
        ensures
            is_rle(final(self).graphemes@, old(self).graphemes@),
            forall|s: Seq<char>|
                #[trigger] cluster_accepts(old(self).graphemes@, s) ==> cluster_accepts(
                    final(self).graphemes@,
                    s,
                ),
    {
        let ghost orig = self.graphemes@;
        let n = self.graphemes.len();
        let mut out: Vec<Grapheme> = Vec::new();
        let mut i: usize = n;
        while i > 0
            invariant
                n == orig.len(),
                self.graphemes@ == orig,
                0 <= i <= n,
                is_rle(out@, orig.skip(i as int)),
                0 < i < n ==> !chained(orig[i as int - 1], orig[i as int]),
            decreases i,
        {
            let g_min = self.graphemes[i - 1].min;
            let g_max = self.graphemes[i - 1].max;
            let g_fold = g_min == 1 && g_max == 1;
            let mut k: usize = i - 1;
            if g_fold {
                while k > 0
                    invariant
                        0 < i,
                        0 <= k <= i - 1,
                        i <= n == orig.len(),
                        self.graphemes@ == orig,
                        foldable(orig[i as int - 1]),
                        forall|m: int| k < m < i ==> chained(orig[m - 1], #[trigger] orig[m]),
                    ensures
                        0 <= k <= i - 1,
                        forall|m: int| k < m < i ==> chained(orig[m - 1], #[trigger] orig[m]),
                        k > 0 ==> !chained(orig[k as int - 1], orig[k as int]),
                    decreases k,
                {
                    let prev = &self.graphemes[k - 1];
                    if prev.min == 1 && prev.max == 1 && unit_eq_exec(
                        &prev.unit,
                        &self.graphemes[k].unit,
                    ) {
                        proof {
                            assert(foldable(orig[k as int])) by {
                                if k == i - 1 {
                                } else {
                                    assert(chained(orig[k as int], orig[k as int + 1]));
                                }
                            }
                        }
                        k = k - 1;
                    } else {
                        break;
                    }
                }
            }
            let run = i - k;
            let unit = copy_unit(&self.graphemes[k].unit);
            let (nmin, nmax) = if g_fold {
                (run, run)
            } else {
                (g_min, g_max)
            };
            let ghost prev_out = out@;
            out.insert(0, Grapheme { unit, min: nmin, max: nmax });
            proof {
                let ki = k as int;
                let ii = i as int;
                let r = ii - ki;
                let suffix = orig.skip(ki);
                assert(out@.skip(1) =~= prev_out);
                assert(forall|m: int| 0 <= m < suffix.len() ==> #[trigger] suffix[m] == orig[ki + m]);
                assert(suffix.skip(r) =~= orig.skip(ii));
                // The unit at k heads the run; its bounds are one/one exactly
                // when the run was foldable.
                assert(unit_eq(orig[ki].unit, orig[ii - 1].unit) && (foldable(orig[ki])
                    <==> foldable(orig[ii - 1]))) by {
                    assert forall|m: int| ki <= m < ii implies unit_eq(
                        (#[trigger] orig[m]).unit,
                        orig[ii - 1].unit,
                    ) && (foldable(orig[m]) <==> foldable(orig[ii - 1])) by {
                        lemma_run_head(orig, ki, ii, m);
                    }
                }
                assert(is_rle(out@, suffix)) by {
                    assert(rle_step(out@, suffix, r)) by {
                        assert(1 <= r <= suffix.len());
                        assert(forall|m: int|
                            0 < m < r ==> chained(suffix[m - 1], #[trigger] suffix[m]));
                        assert(r < suffix.len() ==> !chained(suffix[r - 1], suffix[r]));
                        assert(!foldable(suffix[0]) ==> r == 1);
                        assert(unit_eq(out@[0].unit, suffix[0].unit));
                    }
                    assert(is_rle(out@.skip(1), suffix.skip(r)));
                }
            }
            i = k;
        }
        proof {
            assert(orig.skip(0) =~= orig);
            lemma_rle_accepts(out@, orig);
        }
        self.graphemes = out;
    }
}

/// Inside a chained run every unit equals the last one, and foldability is
/// shared along the chain.
proof fn lemma_run_head(orig: Seq<Grapheme>, k: int, i: int, m: int)
    requires
        0 <= k <= m < i <= orig.len(),
        forall|q: int| k < q < i ==> chained(orig[q - 1], #[trigger] orig[q]),
    ensures
        unit_eq(orig[m].unit, orig[i - 1].unit),
        foldable(orig[m]) <==> foldable(orig[i - 1]),
    decreases i - m,
{
    if m < i - 1 {
        assert(chained(orig[m], orig[m + 1]));
        lemma_run_head(orig, k, i, m + 1);
        lemma_unit_eq_trans(orig[m].unit, orig[m + 1].unit, orig[i - 1].unit);
    }
}

proof fn lemma_unit_eq_trans(a: Unit, b: Unit, c: Unit)
    requires
        unit_eq(a, b),
        unit_eq(b, c),
    ensures
        unit_eq(a, c),
{
}

} // verus!
