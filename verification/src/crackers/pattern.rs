//! Pattern-based password cracking.
//!
//! A template marks variable positions with a sentinel symbol; candidates
//! substitute charset symbols at those positions. A small variable count
//! materializes the whole combination list; a large one converts linear
//! chunk indices into combinations directly, bounding memory by the chunk
//! size.

use crate::container::Container;
use crate::crackers::CHUNK_SIZE;
use crate::crackers::build_indexed_chunk;
use crate::crackers::candidate_hits;
use crate::crackers::first_hit;
use crate::crackers::gen;
use crate::crackers::generate_combinations;
use crate::crackers::lemma_first_hit_from_props;
use crate::crackers::lemma_first_hit_props;
use crate::crackers::lemma_gen_len;
use crate::crackers::nth_combo;
use crate::crackers::pow_saturating;
use crate::crackers::process_chunk;
use crate::crackers::sat_add;
use crate::crackers::sat_pow;
use crate::types::CrackError;
use crate::types::CrackResult;
use vstd::arithmetic::power::pow;
use vstd::pervasive::VecAdditionalExecFns;
use vstd::prelude::*;

verus! {

/// The template scaffold: the pattern with each sentinel replaced by a
/// placeholder, every other character kept in place.
pub open spec fn template_spec(p: Seq<char>, sym: char) -> Seq<char> {
    Seq::new(p.len(), |i: int| if p[i] == sym {
        '?'
    } else {
        p[i]
    })
}

/// The variable positions at or after `i`: the indices where the pattern
/// holds the sentinel, in increasing order.
pub open spec fn positions_from(p: Seq<char>, sym: char, i: int) -> Seq<usize>
    decreases p.len() - i,
{
    if !(0 <= i < p.len()) {
        Seq::empty()
    } else if p[i] == sym {
        seq![i as usize] + positions_from(p, sym, i + 1)
    } else {
        positions_from(p, sym, i + 1)
    }
}

/// Variable positions lie in the pattern and are strictly increasing.
pub proof fn lemma_positions_from_props(p: Seq<char>, sym: char, i: int)
    requires
        p.len() <= usize::MAX as nat,
    ensures
        forall|j: int|
            0 <= j < positions_from(p, sym, i).len() ==> i <= #[trigger] positions_from(
                p,
                sym,
                i,
            )[j] < p.len(),
        forall|j1: int, j2: int|
            0 <= j1 < j2 < positions_from(p, sym, i).len() ==> positions_from(p, sym, i)[j1]
                < positions_from(p, sym, i)[j2],
    decreases p.len() - i,
{
    if 0 <= i < p.len() {
        lemma_positions_from_props(p, sym, i + 1);
        let s = positions_from(p, sym, i);
        let tail = positions_from(p, sym, i + 1);
        if p[i] == sym {
            assert(s == seq![i as usize] + tail);
            assert forall|j: int| 0 <= j < s.len() implies i <= #[trigger] s[j] < p.len() by {
                if j == 0 {
                    assert(s[0] == i as usize);
                } else {
                    assert(s[j] == tail[j - 1]);
                }
            }
            assert forall|j1: int, j2: int| 0 <= j1 < j2 < s.len() implies s[j1] < s[j2] by {
                assert(s[j2] == tail[j2 - 1]);
                if j1 == 0 {
                    assert(s[0] == i as usize);
                } else {
                    assert(s[j1] == tail[j1 - 1]);
                }
            }
        }
    }
}

/// The candidate that substitutes `combo[j]` at position `positions[j]` of
/// the template, for every `j` in order.
pub open spec fn apply_combo(template: Seq<char>, positions: Seq<usize>, combo: Seq<char>) -> Seq<
    char,
>
    decreases positions.len(),
{
    if positions.len() == 0 || positions.len() != combo.len() {
        template
    } else {
        apply_combo(
            template.update(positions[0] as int, combo[0]),
            positions.drop_first(),
            combo.drop_first(),
        )
    }
}

/// What substitution does position by position: fixed positions keep the
/// template's character, and each variable position receives its combo
/// symbol (positions must be distinct for the latter).
pub proof fn lemma_apply_combo_points(template: Seq<char>, positions: Seq<usize>, combo: Seq<char>)
    requires
        template.len() <= usize::MAX as nat,
        positions.len() == combo.len(),
        forall|j: int| 0 <= j < positions.len() ==> (#[trigger] positions[j]) < template.len(),
    ensures
        apply_combo(template, positions, combo).len() == template.len(),
        forall|k: int|
            0 <= k < template.len() && !positions.contains(k as usize) ==> apply_combo(
                template,
                positions,
                combo,
            )[k] == template[k],
        (forall|j1: int, j2: int|
            0 <= j1 < j2 < positions.len() ==> positions[j1] != positions[j2]) ==> forall|j: int|
            0 <= j < positions.len() ==> apply_combo(template, positions, combo)[positions[j] as int]
                == combo[j],
    decreases positions.len(),
{
    if positions.len() > 0 {
        let t2 = template.update(positions[0] as int, combo[0]);
        let p2 = positions.drop_first();
        let c2 = combo.drop_first();
        lemma_apply_combo_points(t2, p2, c2);
        assert(apply_combo(template, positions, combo) == apply_combo(t2, p2, c2));
        assert forall|k: int|
            0 <= k < template.len() && !positions.contains(k as usize) implies apply_combo(
            template,
            positions,
            combo,
        )[k] == template[k] by {
            assert(positions[0] != k as usize) by {
                if positions[0] == k as usize {
                    assert(positions.contains(k as usize));
                }
            }
            assert(!p2.contains(k as usize)) by {
                if p2.contains(k as usize) {
                    let j = choose|j: int| 0 <= j < p2.len() && p2[j] == k as usize;
                    assert(positions[j + 1] == k as usize);
                    assert(positions.contains(k as usize));
                }
            }
            assert(apply_combo(t2, p2, c2)[k] == t2[k]);
            assert(t2[k] == template[k]);
        }
        if forall|j1: int, j2: int|
            0 <= j1 < j2 < positions.len() ==> positions[j1] != positions[j2] {
            assert forall|a: int, b: int| 0 <= a < b < p2.len() implies p2[a] != p2[b] by {
                assert(p2[a] == positions[a + 1]);
                assert(p2[b] == positions[b + 1]);
            }
            assert forall|j: int| 0 <= j < positions.len() implies apply_combo(
                template,
                positions,
                combo,
            )[positions[j] as int] == combo[j] by {
                if j == 0 {
                    assert(!p2.contains(positions[0])) by {
                        if p2.contains(positions[0]) {
                            let jj = choose|jj: int|
                                0 <= jj < p2.len() && p2[jj] == positions[0];
                            assert(positions[jj + 1] == positions[0]);
                        }
                    }
                    assert(t2[positions[0] as int] == combo[0]);
                    assert(apply_combo(t2, p2, c2)[positions[0] as int] == t2[
                        positions[0] as int
                    ]);
                } else {
                    assert(p2[j - 1] == positions[j]);
                    assert(c2[j - 1] == combo[j]);
                    assert(apply_combo(t2, p2, c2)[p2[j - 1] as int] == c2[j - 1]);
                }
            }
        }
    }
}

/// Substitutes `combo` into `template` at the variable positions.
pub fn apply_combination(template: &Vec<char>, positions: &Vec<usize>, combo: &Vec<char>) -> (r:
    Vec<char>)
    requires
        positions@.len() == combo@.len(),
        forall|j: int| 0 <= j < positions@.len() ==> (#[trigger] positions@[j]) < template@.len(),
    ensures
        r@ == apply_combo(template@, positions@, combo@),
{
    let mut r = template.clone();
    proof {
        assert(r@ =~= template@);
        assert(positions@.skip(0) =~= positions@);
        assert(combo@.skip(0) =~= combo@);
    }
    let mut j: usize = 0;
    while j < positions.len()
        invariant
            0 <= j <= positions@.len(),
            positions@.len() == combo@.len(),
            forall|jj: int|
                0 <= jj < positions@.len() ==> (#[trigger] positions@[jj]) < template@.len(),
            r@.len() == template@.len(),
            apply_combo(r@, positions@.skip(j as int), combo@.skip(j as int)) == apply_combo(
                template@,
                positions@,
                combo@,
            ),
        decreases positions@.len() - j,
    {
        let ghost pre = r@;
        r.set(positions[j], combo[j]);
        proof {
            assert(positions@.skip(j as int).drop_first() =~= positions@.skip(j as int + 1));
            assert(combo@.skip(j as int).drop_first() =~= combo@.skip(j as int + 1));
            assert(positions@.skip(j as int)[0] == positions@[j as int]);
            assert(combo@.skip(j as int)[0] == combo@[j as int]);
            assert(r@ == pre.update(positions@[j as int] as int, combo@[j as int]));
        }
        j = j + 1;
    }
    proof {
        assert(positions@.skip(j as int) =~= Seq::<usize>::empty());
        assert(combo@.skip(j as int) =~= Seq::<char>::empty());
    }
    r
}

/// Substitutes every combination of `combos` into the template.
pub fn apply_all(template: &Vec<char>, positions: &Vec<usize>, combos: &Vec<Vec<char>>) -> (r: Vec<
    Vec<char>,
>)
    requires
        forall|j: int| 0 <= j < positions@.len() ==> (#[trigger] positions@[j]) < template@.len(),
        forall|t: int| 0 <= t < combos@.len() ==> (#[trigger] combos@[t])@.len() == positions@.len(),
    ensures
        r.deep_view() == combos.deep_view().map_values(
            |c: Seq<char>| apply_combo(template@, positions@, c),
        ),
{
    let mut r: Vec<Vec<char>> = Vec::new();
    let mut i: usize = 0;
    while i < combos.len()
        invariant
            0 <= i <= combos@.len(),
            forall|j: int|
                0 <= j < positions@.len() ==> (#[trigger] positions@[j]) < template@.len(),
            forall|t: int|
                0 <= t < combos@.len() ==> (#[trigger] combos@[t])@.len() == positions@.len(),
            r.deep_view() == Seq::new(
                i as nat,
                |k: int| apply_combo(template@, positions@, combos@[k]@),
            ),
        decreases combos@.len() - i,
    {
        let a = apply_combination(template, positions, &combos[i]);
        let ghost pre = r.deep_view();
        r.push(a);
        proof {
            assert(r.deep_view() =~~= pre.push(a@));
            assert(r.deep_view() =~~= Seq::new(
                (i + 1) as nat,
                |k: int| apply_combo(template@, positions@, combos@[k]@),
            ));
        }
        i = i + 1;
    }
    proof {
        assert forall|k: int| 0 <= k < combos@.len() implies combos.deep_view()[k] == combos@[k]@
            by {
            assert(combos@[k].deep_view() =~= combos@[k]@);
        }
        assert(combos.deep_view().map_values(|c: Seq<char>| apply_combo(template@, positions@, c))
            =~~= Seq::new(i as nat, |k: int| apply_combo(template@, positions@, combos@[k]@)));
    }
    r
}

/// Every mixed-radix combination over a nonempty charset has `count`
/// symbols.
pub proof fn lemma_nth_combo_len(cs: Seq<char>, count: nat, idx: int)
    requires
        cs.len() > 0,
    ensures
        nth_combo(cs, count, idx).len() == count,
    decreases count,
{
    if count > 0 {
        lemma_nth_combo_len(cs, (count - 1) as nat, idx / (cs.len() as int));
    }
}

/// Implements pattern-based password cracking.
pub struct PatternCracker {
    pattern: String,
    charset: String,
    pattern_symbol: char,
}

impl PatternCracker {
    /// The template pattern.
    pub closed spec fn spec_pattern(&self) -> Seq<char> {
        self.pattern@
    }

    /// The characters tried at the variable positions.
    pub closed spec fn spec_charset(&self) -> Seq<char> {
        self.charset@
    }

    /// The symbol marking variable positions.
    pub closed spec fn spec_symbol(&self) -> char {
        self.pattern_symbol
    }

    /// The template scaffold with placeholders at variable positions.
    pub open spec fn spec_template(&self) -> Seq<char> {
        template_spec(self.spec_pattern(), self.spec_symbol())
    }

    /// The variable positions of the pattern, in increasing order.
    pub open spec fn spec_positions(&self) -> Seq<usize> {
        positions_from(self.spec_pattern(), self.spec_symbol(), 0)
    }

    /// The number of variable positions.
    pub open spec fn var_count(&self) -> nat {
        self.spec_positions().len()
    }

    /// The candidates of the materialized path, in generation order.
    pub open spec fn space_materialized(&self) -> Seq<Seq<char>> {
        gen(self.spec_charset(), self.var_count(), Seq::empty()).map_values(
            |t: Seq<char>| apply_combo(self.spec_template(), self.spec_positions(), t),
        )
    }

    /// How many combinations the indexed path enumerates: the full space,
    /// clamped to the machine-word range.
    pub open spec fn covered(&self) -> nat {
        sat_pow(self.spec_charset().len(), self.var_count())
    }

    /// The candidates of the indexed path, in mixed-radix index order.
    pub open spec fn space_indexed(&self) -> Seq<Seq<char>> {
        Seq::new(
            self.covered(),
            |i: int|
                apply_combo(
                    self.spec_template(),
                    self.spec_positions(),
                    nth_combo(self.spec_charset(), self.var_count(), i),
                ),
        )
    }

    /// The candidate list this cracker scans: the indexed enumeration for
    /// four or more variable positions, the materialized one below that.
    pub open spec fn space(&self) -> Seq<Seq<char>> {
        if self.var_count() >= 4 {
            self.space_indexed()
        } else {
            self.space_materialized()
        }
    }

    /// Creates a new cracker for the given template, charset and sentinel.
    pub fn new(pattern: String, charset: String, pattern_symbol: char) -> (r: Self)
        ensures
            r.spec_pattern() == pattern@,
            r.spec_charset() == charset@,
            r.spec_symbol() == pattern_symbol,
    {
        Self { pattern, charset, pattern_symbol }
    }

    /// Splits the pattern into the template scaffold and the list of
    /// variable positions.
    pub fn analyze(&self) -> (r: (Vec<char>, Vec<usize>))
        ensures
            r.0@ == self.spec_template(),
            r.1@ == self.spec_positions(),
    {
        let pat = crate::text::str_chars(self.pattern.as_str());
        let ghost p = self.spec_pattern();
        let ghost sym = self.spec_symbol();
        let mut template: Vec<char> = Vec::new();
        let mut positions: Vec<usize> = Vec::new();
        proof {
            assert(positions@ + positions_from(p, sym, 0) =~= positions_from(p, sym, 0));
        }
        let mut i: usize = 0;
        while i < pat.len()
            invariant
                0 <= i <= pat@.len(),
                pat@ == p,
                p == self.spec_pattern(),
                sym == self.spec_symbol(),
                template@ == template_spec(p, sym).subrange(0, i as int),
                positions@ + positions_from(p, sym, i as int) == positions_from(p, sym, 0),
            decreases pat@.len() - i,
        {
            let c = pat[i];
            if c == self.pattern_symbol {
                positions.push(i);
                template.push('?');
            } else {
                template.push(c);
            }
            proof {
                assert(template@ =~= template_spec(p, sym).subrange(0, i as int + 1));
                assert(positions@ + positions_from(p, sym, i as int + 1) =~= positions_from(
                    p,
                    sym,
                    0,
                ));
            }
            i = i + 1;
        }
        proof {
            assert(template@ =~= self.spec_template());
            assert(positions@ =~= self.spec_positions());
        }
        (template, positions)
    }

    /// Materializes the whole candidate list of the materialized path,
    /// which the search takes only below the variable-count threshold.
    pub fn candidates(&self) -> (r: Vec<Vec<char>>)
        requires
            self.var_count() < 4,
        ensures
            r.deep_view() == self.space_materialized(),
    {
        let (template, positions) = self.analyze();
        let charset: Vec<char> = crate::text::str_chars(self.charset.as_str());
        let v = positions.len();
        let tl = template.len();
        proof {
            assert(self.spec_template().len() == self.spec_pattern().len());
            assert(self.spec_pattern().len() == tl as nat);
            lemma_positions_from_props(self.spec_pattern(), self.spec_symbol(), 0);
        }
        let mut combos: Vec<Vec<char>> = Vec::new();
        let empty_cur: Vec<char> = Vec::new();
        generate_combinations(&charset, v as u8, &empty_cur, &mut combos);
        proof {
            assert(combos.deep_view() =~~= gen(
                self.spec_charset(),
                self.var_count(),
                Seq::<char>::empty(),
            ));
            lemma_gen_len(self.spec_charset(), self.var_count(), Seq::<char>::empty());
            assert forall|t: int| 0 <= t < combos@.len() implies (#[trigger] combos@[t])@.len()
                == positions@.len() by {
                assert(combos@[t].deep_view() =~= combos@[t]@);
                assert(combos.deep_view()[t] == combos@[t].deep_view());
            }
        }
        let applied = apply_all(&template, &positions, &combos);
        proof {
            assert(applied.deep_view() =~~= self.space_materialized());
        }
        applied
    }

    /// Both spaces have the cartesian-product cardinality over the
    /// variable positions; the indexed one is clamped to the machine-word
    /// range.
    pub proof fn lemma_space_count(&self)
        ensures
            self.space_materialized().len() == pow(
                self.spec_charset().len() as int,
                self.var_count(),
            ),
            self.space_indexed().len() == sat_pow(self.spec_charset().len(), self.var_count()),
    {
        lemma_gen_len(self.spec_charset(), self.var_count(), Seq::empty());
    }

    /// Every produced candidate has the pattern's length and keeps the
    /// template's characters at every fixed position.
    pub proof fn lemma_fixed_positions(&self, s: Seq<char>)
        requires
            self.spec_pattern().len() <= usize::MAX as nat,
            self.space().contains(s),
        ensures
            s.len() == self.spec_template().len(),
            forall|k: int|
                0 <= k < s.len() && !self.spec_positions().contains(k as usize) ==> s[k]
                    == self.spec_template()[k],
    {
        let tpl = self.spec_template();
        let ps = self.spec_positions();
        let cs = self.spec_charset();
        let v = self.var_count();
        lemma_positions_from_props(self.spec_pattern(), self.spec_symbol(), 0);
        if v >= 4 {
            let ind = self.space_indexed();
            let i = choose|i: int| 0 <= i < ind.len() && ind[i] == s;
            assert(s == apply_combo(tpl, ps, nth_combo(cs, v, i)));
            if cs.len() == 0 {
                vstd::arithmetic::power::lemma0_pow(v);
                assert(ind.len() == 0);
            }
            lemma_nth_combo_len(cs, v, i);
            lemma_apply_combo_points(tpl, ps, nth_combo(cs, v, i));
        } else {
            let g = gen(cs, v, Seq::empty());
            let m = self.space_materialized();
            let t = choose|t: int| 0 <= t < m.len() && m[t] == s;
            assert(s == apply_combo(tpl, ps, g[t]));
            lemma_gen_len(cs, v, Seq::empty());
            lemma_apply_combo_points(tpl, ps, g[t]);
        }
    }

    /// When the whole space fits the machine-word range, the materialized
    /// and the indexed path produce identical candidate sets.
    pub proof fn lemma_paths_same_set(&self, s: Seq<char>)
        requires
            self.spec_charset().len() >= 1,
            pow(self.spec_charset().len() as int, self.var_count()) <= usize::MAX as int,
        ensures
            self.space_materialized().contains(s) <==> self.space_indexed().contains(s),
    {
        let tpl = self.spec_template();
        let ps = self.spec_positions();
        let cs = self.spec_charset();
        let v = self.var_count();
        let g = gen(cs, v, Seq::empty());
        let m = self.space_materialized();
        let ind = self.space_indexed();
        let p = pow(cs.len() as int, v);
        vstd::arithmetic::power::lemma_pow_positive(cs.len() as int, v);
        assert(ind.len() == p);
        if m.contains(s) {
            let t = choose|t: int| 0 <= t < m.len() && m[t] == s;
            assert(m[t] == apply_combo(tpl, ps, g[t]));
            assert(g.contains(g[t]));
            crate::crackers::lemma_generation_paths_same_set(cs, v, g[t]);
            let i = choose|i: int| 0 <= i < p && #[trigger] nth_combo(cs, v, i) == g[t];
            assert(ind[i] == apply_combo(tpl, ps, nth_combo(cs, v, i)));
            assert(ind[i] == s);
            assert(ind.contains(s));
        }
        if ind.contains(s) {
            let i = choose|i: int| 0 <= i < ind.len() && ind[i] == s;
            assert(ind[i] == apply_combo(tpl, ps, nth_combo(cs, v, i)));
            crate::crackers::lemma_generation_paths_same_set(cs, v, nth_combo(cs, v, i));
            assert(g.contains(nth_combo(cs, v, i)));
            let t = choose|t: int| 0 <= t < g.len() && g[t] == nth_combo(cs, v, i);
            assert(m[t] == apply_combo(tpl, ps, g[t]));
            assert(m[t] == s);
            assert(m.contains(s));
        }
    }

    /// Scans the pattern space in order, in chunks, stopping at the first
    /// hit. A result already holding a password is left untouched; else
    /// the first hit of the space is recorded (or nothing, after an
    /// exhausted scan), and every tested candidate counts one attempt.
    pub fn crack(&self, container: &Container, result: &mut CrackResult) -> (r: Result<
        (),
        CrackError,
    >)
        ensures
            r is Ok,
            old(result).found() ==> *final(result) == *old(result),
            !old(result).found() ==> ({
                let space = self.space();
                let h = first_hit(container.spec_der(), space, 0, space.len() as int);
                &&& final(result).found() == (h < space.len())
                &&& final(result).spec_password() == (if h < space.len() {
                    Some(space[h])
                } else {
                    None::<Seq<char>>
                })
                &&& final(result).spec_attempts() == sat_add(
                    old(result).spec_attempts(),
                    (if h < space.len() {
                        h + 1
                    } else {
                        space.len() as int
                    }) as nat,
                )
            }),
    {
        let ghost der = container.spec_der();
        let ghost full = self.space();
        proof {
            result.lemma_attempts_bounded();
        }
        let (template, positions) = self.analyze();
        let v = positions.len();
        if v < 4 {
            let cands = self.candidates();
            proof {
                assert(full == cands.deep_view());
            }
            let total = cands.len();
            let mut pos: usize = 0;
            while pos < total
                invariant
                    0 <= pos <= total,
                    total == cands@.len(),
                    full == cands.deep_view(),
                    full.len() == total,
                    full == self.space(),
                    der == container.spec_der(),
                    old(result).spec_attempts() <= usize::MAX as nat,
                    old(result).found() ==> result == old(result),
                    !old(result).found() ==> forall|t: int|
                        0 <= t < pos ==> !candidate_hits(der, full[t]),
                    !old(result).found() ==> !result.found() && result.spec_password() == old(
                        result,
                    ).spec_password(),
                    !old(result).found() ==> result.spec_attempts() == sat_add(
                        old(result).spec_attempts(),
                        pos as nat,
                    ),
                decreases total - pos,
            {
                let end_: usize = if total - pos > CHUNK_SIZE {
                    pos + CHUNK_SIZE
                } else {
                    total
                };
                let f = process_chunk(&cands, pos, end_, container, result);
                proof {
                    lemma_first_hit_props(der, full, pos as int, end_ as int);
                }
                if f {
                    proof {
                        if !old(result).found() {
                            let h = first_hit(der, full, pos as int, end_ as int);
                            lemma_first_hit_from_props(der, full, 0, full.len() as int, h);
                        }
                    }
                    return Ok(());
                }
                pos = end_;
            }
            proof {
                if !old(result).found() {
                    lemma_first_hit_from_props(der, full, 0, full.len() as int, full.len() as int);
                }
            }
            Ok(())
        } else {
            let charset: Vec<char> = crate::text::str_chars(self.charset.as_str());
            let n = charset.len();
            let tl = template.len();
            proof {
                assert(self.spec_template().len() == self.spec_pattern().len());
                assert(self.spec_pattern().len() == tl as nat);
                lemma_positions_from_props(self.spec_pattern(), self.spec_symbol(), 0);
            }
            let total = pow_saturating(n, v);
            let c3 = pow_saturating(n, 3);
            let chunk_size: usize = if v > 4 && c3 > 0 {
                c3
            } else {
                CHUNK_SIZE
            };
            proof {
                assert(total as nat == self.covered());
                if n == 0 {
                    vstd::arithmetic::power::lemma0_pow(v as nat);
                }
                assert(full.len() == self.covered());
            }
            let mut pos: usize = 0;
            while pos < total
                invariant
                    0 <= pos <= total,
                    chunk_size >= 1,
                    total > 0 ==> n >= 1,
                    v >= 4,
                    v == positions@.len(),
                    n == charset@.len(),
                    charset@ == self.spec_charset(),
                    template@ == self.spec_template(),
                    positions@ == self.spec_positions(),
                    forall|j: int|
                        0 <= j < positions@.len() ==> (#[trigger] positions@[j])
                            < template@.len(),
                    total as nat == self.covered(),
                    full == self.space(),
                    full.len() == total,
                    der == container.spec_der(),
                    old(result).spec_attempts() <= usize::MAX as nat,
                    old(result).found() ==> result == old(result),
                    !old(result).found() ==> forall|t: int|
                        0 <= t < pos ==> !candidate_hits(der, full[t]),
                    !old(result).found() ==> !result.found() && result.spec_password() == old(
                        result,
                    ).spec_password(),
                    !old(result).found() ==> result.spec_attempts() == sat_add(
                        old(result).spec_attempts(),
                        pos as nat,
                    ),
                decreases total - pos,
            {
                let end_: usize = if total - pos > chunk_size {
                    pos + chunk_size
                } else {
                    total
                };
                let raw = build_indexed_chunk(&charset, v, pos, end_);
                proof {
                    assert(raw.deep_view().len() == raw@.len());
                    assert(raw.deep_view().len() == end_ - pos);
                    assert forall|t: int| 0 <= t < raw@.len() implies (#[trigger] raw@[t])@.len()
                        == positions@.len() by {
                        lemma_nth_combo_len(charset@, v as nat, pos + t);
                        assert(raw.deep_view()[t] == nth_combo(charset@, v as nat, pos + t));
                        assert(raw@[t].deep_view() =~= raw@[t]@);
                    }
                }
                let applied = apply_all(&template, &positions, &raw);
                let ghost local = applied.deep_view();
                proof {
                    assert forall|t: int| 0 <= t < local.len() implies local[t] == full[pos + t]
                        by {
                        assert(raw.deep_view()[t] == nth_combo(charset@, v as nat, pos + t));
                        assert(local[t] == apply_combo(
                            template@,
                            positions@,
                            raw.deep_view()[t],
                        ));
                    }
                    assert(local.len() == end_ - pos);
                }
                let alen = applied.len();
                let f = process_chunk(&applied, 0, alen, container, result);
                proof {
                    lemma_first_hit_props(der, local, 0, alen as int);
                }
                if f {
                    proof {
                        if !old(result).found() {
                            let h_local = first_hit(der, local, 0, alen as int);
                            let h = pos + h_local;
                            assert forall|i: int| 0 <= i < h implies !candidate_hits(
                                der,
                                full[i],
                            ) by {
                                if i >= pos {
                                    assert(full[i] == local[i - pos]);
                                }
                            }
                            assert(full[h] == local[h_local]);
                            lemma_first_hit_from_props(der, full, 0, full.len() as int, h);
                        }
                    }
                    return Ok(());
                }
                proof {
                    if !old(result).found() {
                        assert forall|t: int| 0 <= t < end_ implies !candidate_hits(
                            der,
                            full[t],
                        ) by {
                            if t >= pos {
                                assert(full[t] == local[t - pos]);
                            }
                        }
                    }
                }
                pos = end_;
            }
            proof {
                if !old(result).found() {
                    lemma_first_hit_from_props(der, full, 0, full.len() as int, full.len() as int);
                }
            }
            Ok(())
        }
    }
}

impl crate::types::PasswordCracker for PatternCracker {
    /// Every configuration of this strategy can be run.
    open spec fn valid(&self) -> bool {
        true
    }

    /// Scans this strategy's space; the exact contract is on the inherent
    /// method of the same name.
    fn crack(&self, container: &Container, result: &mut CrackResult) -> (r: Result<
        (),
        CrackError,
    >) {
        proof {
            result.lemma_attempts_bounded();
        }
        PatternCracker::crack(self, container, result)
    }
}

} // verus!
