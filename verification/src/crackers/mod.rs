//! Password cracking strategies and the shared chunk-processing engine.
//!
//! Candidates are vectors of characters. A chunk is a contiguous index
//! range of a candidate list; workers test the candidates of a chunk in
//! order, consulting the shared result before each test and recording the
//! first hit.

pub mod bruteforce;
pub mod dictionary;
pub mod pattern;

use crate::container::Container;
use crate::container::oracle_accepts;
use crate::text::contains_nul;
use crate::text::has_nul;
use crate::types::CrackResult;
use vstd::arithmetic::power::pow;
use vstd::prelude::*;

verus! {

/// Number of candidates grouped into one unit of work, tuned for cache
/// locality against parallel granularity.
pub const CHUNK_SIZE: usize = 16384;

/// Whether the candidate `c` opens the archive encoded by `der`. A
/// candidate with a NUL character can never be a PKCS#12 password and is
/// rejected without consulting the oracle.
pub open spec fn candidate_hits(der: Seq<u8>, c: Seq<char>) -> bool {
    !has_nul(c) && oracle_accepts(der, c)
}

/// Saturating addition on the attempt counter's range.
pub open spec fn sat_add(a: nat, b: nat) -> nat {
    if a + b <= usize::MAX as nat {
        (a + b) as nat
    } else {
        usize::MAX as nat
    }
}

/// The index of the first hit among `cands[i..end]`, or `end` when no
/// candidate in that range hits.
pub open spec fn first_hit(der: Seq<u8>, cands: Seq<Seq<char>>, i: int, end: int) -> int
    decreases end - i,
{
    if i >= end {
        end
    } else if 0 <= i < cands.len() && candidate_hits(der, cands[i]) {
        i
    } else {
        first_hit(der, cands, i + 1, end)
    }
}

pub proof fn lemma_first_hit_bounds(der: Seq<u8>, cands: Seq<Seq<char>>, i: int, end: int)
    requires
        i <= end,
    ensures
        i <= first_hit(der, cands, i, end) <= end,
    decreases end - i,
{
    if i < end && !(0 <= i < cands.len() && candidate_hits(der, cands[i])) {
        lemma_first_hit_bounds(der, cands, i + 1, end);
    }
}

/// Scanning an empty-hit range first and then continuing finds the same
/// first hit as one scan of the whole range.
pub proof fn lemma_first_hit_extend(der: Seq<u8>, cands: Seq<Seq<char>>, a: int, b: int, e: int)
    requires
        a <= b <= e,
        first_hit(der, cands, a, b) == b,
    ensures
        first_hit(der, cands, a, e) == first_hit(der, cands, b, e),
    decreases b - a,
{
    if a < b {
        lemma_first_hit_extend(der, cands, a + 1, b, e);
    }
}

/// A hit at index `h` with no hit before it pins the first hit of every
/// enclosing range.
pub proof fn lemma_first_hit_at(der: Seq<u8>, cands: Seq<Seq<char>>, a: int, h: int, e: int)
    requires
        a <= h < e,
        0 <= h < cands.len(),
        first_hit(der, cands, a, h) == h,
        candidate_hits(der, cands[h]),
    ensures
        first_hit(der, cands, a, e) == h,
    decreases h - a,
{
    if a < h {
        lemma_first_hit_at(der, cands, a + 1, h, e);
    }
}

/// What one scan establishes: the first hit carries a hit and nothing
/// before it does.
pub proof fn lemma_first_hit_props(der: Seq<u8>, cands: Seq<Seq<char>>, a: int, b: int)
    requires
        0 <= a <= b <= cands.len(),
    ensures
        a <= first_hit(der, cands, a, b) <= b,
        first_hit(der, cands, a, b) < b ==> candidate_hits(
            der,
            cands[first_hit(der, cands, a, b)],
        ),
        forall|i: int|
            a <= i < first_hit(der, cands, a, b) ==> !candidate_hits(der, cands[i]),
    decreases b - a,
{
    if a < b && !candidate_hits(der, cands[a]) {
        lemma_first_hit_props(der, cands, a + 1, b);
    }
}

/// The converse: a hit at `h` with nothing before it pins the first hit,
/// and no hit at all pins it at the end.
pub proof fn lemma_first_hit_from_props(
    der: Seq<u8>,
    cands: Seq<Seq<char>>,
    a: int,
    b: int,
    h: int,
)
    requires
        0 <= a <= h <= b <= cands.len(),
        forall|i: int| a <= i < h ==> !candidate_hits(der, cands[i]),
        h < b ==> candidate_hits(der, cands[h]),
    ensures
        first_hit(der, cands, a, b) == h,
    decreases h - a,
{
    if a < h {
        assert(!candidate_hits(der, cands[a]));
        lemma_first_hit_from_props(der, cands, a + 1, b, h);
    }
}

/// Tests one candidate against the archive; on a hit, records it in
/// `result` (the first recorded password wins). The attempt counter is the
/// caller's business.
pub fn check_password(container: &Container, password: &Vec<char>, result: &mut CrackResult) -> (r:
    bool)
    ensures
        r == candidate_hits(container.spec_der(), password@),
        final(result).spec_attempts() == old(result).spec_attempts(),
        final(result).spec_password() == (if r {
            crate::types::report_transition(old(result).spec_password(), password@)
        } else {
            old(result).spec_password()
        }),
{
    if contains_nul(password) {
        return false;
    }
    let s = crate::text::chars_to_string(password);
    if container.oracle_try(s.as_str()) {
        result.try_report_found(s.as_str());
        true
    } else {
        false
    }
}

/// Tests the candidates `cands[start..end]` in order. Before each test the
/// shared result is consulted: a password already recorded ends the chunk
/// at once. Each tested candidate counts one attempt; the first hit is
/// recorded and ends the chunk.
pub fn process_chunk(
    cands: &Vec<Vec<char>>,
    start: usize,
    end: usize,
    container: &Container,
    result: &mut CrackResult,
) -> (found: bool)
    requires
        start <= end <= cands@.len(),
    ensures
        old(result).found() ==> *final(result) == *old(result) && found == (start < end),
        !old(result).found() ==> ({
            let h = first_hit(container.spec_der(), cands.deep_view(), start as int, end as int);
            &&& found == (h < end)
            &&& final(result).spec_attempts() == sat_add(
                old(result).spec_attempts(),
                (if h < end {
                    h + 1 - start
                } else {
                    end - start
                }) as nat,
            )
            &&& final(result).spec_password() == (if h < end {
                Some(cands.deep_view()[h])
            } else {
                None::<Seq<char>>
            })
        }),
{
    let ghost der = container.spec_der();
    let ghost all = cands.deep_view();
    proof {
        result.lemma_attempts_bounded();
    }
    let mut i: usize = start;
    while i < end
        invariant
            start <= i <= end <= cands@.len(),
            all == cands.deep_view(),
            all.len() == cands@.len(),
            der == container.spec_der(),
            result.found() == old(result).found(),
            old(result).found() ==> result == old(result) && i == start,
            !old(result).found() ==> first_hit(der, all, start as int, i as int) == i,
            !old(result).found() ==> result.spec_password() == old(result).spec_password(),
            !old(result).found() ==> result.spec_attempts() == sat_add(
                old(result).spec_attempts(),
                (i - start) as nat,
            ),
            old(result).spec_attempts() <= usize::MAX as nat,
        decreases end - i,
    {
        if result.is_found() {
            return true;
        }
        result.increment_attempts();
        proof {
            assert(all[i as int] == cands@[i as int].deep_view());
            assert(cands@[i as int].deep_view() =~= cands@[i as int]@);
        }
        if check_password(container, &cands[i], result) {
            proof {
                lemma_first_hit_at(der, all, start as int, i as int, end as int);
            }
            return true;
        }
        proof {
            lemma_first_hit_extend(der, all, start as int, i as int, i as int + 1);
            assert(!candidate_hits(der, all[i as int]));
            assert(first_hit(der, all, i as int + 1, i as int + 1) == i as int + 1);
            assert(first_hit(der, all, i as int, i as int + 1) == i as int + 1);
        }
        i = i + 1;
    }
    proof {
        if !old(result).found() {
            lemma_first_hit_bounds(der, all, start as int, end as int);
        }
    }
    false
}

/// All strings `prefix ++ t` where `t` ranges over the cartesian product
/// of `cs` with itself `len` times, the leftmost generated position
/// varying slowest.
pub open spec fn gen(cs: Seq<char>, len: nat, prefix: Seq<char>) -> Seq<Seq<char>>
    decreases len, cs.len() + 1,
{
    if len == 0 {
        seq![prefix]
    } else {
        gen_from(cs, len, prefix, 0)
    }
}

/// The part of `gen` whose next generated symbol is `cs[j]` or a later one.
pub open spec fn gen_from(cs: Seq<char>, len: nat, prefix: Seq<char>, j: int) -> Seq<Seq<char>>
    decreases len, cs.len() - j,
        when len > 0 && 0 <= j <= cs.len()
{
    if j == cs.len() {
        Seq::empty()
    } else {
        gen(cs, (len - 1) as nat, prefix.push(cs[j])) + gen_from(cs, len, prefix, j + 1)
    }
}

/// Appends to `result` every string `current ++ t` with `t` from the
/// cartesian product of `charset` of length `length`, by recursive
/// expansion in generation order.
pub fn generate_combinations(
    charset: &Vec<char>,
    length: u8,
    current: &Vec<char>,
    result: &mut Vec<Vec<char>>,
)
    ensures
        final(result).deep_view() == old(result).deep_view() + gen(
            charset@,
            length as nat,
            current@,
        ),
    decreases length,
{
    if length == 0 {
        result.push(current.clone());
        proof {
            assert(result.deep_view() =~~= old(result).deep_view() + gen(
                charset@,
                0,
                current@,
            ));
        }
        return ;
    }
    let mut new_str = current.clone();
    let ghost init = result.deep_view();
    let mut j: usize = 0;
    while j < charset.len()
        invariant
            0 <= j <= charset@.len(),
            length >= 1,
            new_str@ == current@,
            init + gen(charset@, length as nat, current@) == result.deep_view() + gen_from(
                charset@,
                length as nat,
                current@,
                j as int,
            ),
        decreases charset@.len() - j,
    {
        new_str.push(charset[j]);
        let ghost before = result.deep_view();
        generate_combinations(charset, length - 1, &new_str, result);
        new_str.pop();
        proof {
            assert(new_str@ =~= current@);
            assert(result.deep_view() + gen_from(charset@, length as nat, current@, j as int + 1)
                =~~= before + gen_from(charset@, length as nat, current@, j as int));
        }
        j = j + 1;
    }
    proof {
        assert(result.deep_view() + gen_from(charset@, length as nat, current@, j as int) =~~= result.deep_view());
    }
}

/// Every combination list of `gen` has the cartesian-product cardinality,
/// and each entry extends the prefix by `len` symbols.
pub proof fn lemma_gen_len(cs: Seq<char>, len: nat, prefix: Seq<char>)
    ensures
        gen(cs, len, prefix).len() == pow(cs.len() as int, len),
        forall|t: int|
            0 <= t < gen(cs, len, prefix).len() ==> (#[trigger] gen(cs, len, prefix)[t]).len()
                == prefix.len() + len,
    decreases len, cs.len() + 1,
{
    if len == 0 {
        vstd::arithmetic::power::lemma_pow0(cs.len() as int);
    } else {
        lemma_gen_from_len(cs, len, prefix, 0);
        assert(pow(cs.len() as int, len) == cs.len() * pow(cs.len() as int, (len - 1) as nat)) by {
            vstd::arithmetic::power::lemma_pow1(cs.len() as int);
            vstd::arithmetic::power::lemma_pow_adds(cs.len() as int, 1, (len - 1) as nat);
        }
    }
}

/// The tail version of `lemma_gen_len`, for the part from symbol `j` on.
pub proof fn lemma_gen_from_len(cs: Seq<char>, len: nat, prefix: Seq<char>, j: int)
    requires
        1 <= len,
        0 <= j <= cs.len(),
    ensures
        gen_from(cs, len, prefix, j).len() == (cs.len() - j) * pow(
            cs.len() as int,
            (len - 1) as nat,
        ),
        forall|t: int|
            0 <= t < gen_from(cs, len, prefix, j).len() ==> (#[trigger] gen_from(
                cs,
                len,
                prefix,
                j,
            )[t]).len() == prefix.len() + len,
    decreases len, cs.len() - j,
{
    let p = pow(cs.len() as int, (len - 1) as nat);
    if j == cs.len() {
        assert((cs.len() - j) * p == 0) by (nonlinear_arith)
            requires
                cs.len() - j == 0,
        ;
    } else {
        let head = gen(cs, (len - 1) as nat, prefix.push(cs[j]));
        let tail = gen_from(cs, len, prefix, j + 1);
        lemma_gen_len(cs, (len - 1) as nat, prefix.push(cs[j]));
        lemma_gen_from_len(cs, len, prefix, j + 1);
        assert(p + (cs.len() - j - 1) * p == (cs.len() - j) * p) by (nonlinear_arith);
        assert forall|t: int|
            0 <= t < gen_from(cs, len, prefix, j).len() implies (#[trigger] gen_from(
            cs,
            len,
            prefix,
            j,
        )[t]).len() == prefix.len() + len by {
            if t < head.len() {
                assert(gen_from(cs, len, prefix, j)[t] == head[t]);
            } else {
                assert(gen_from(cs, len, prefix, j)[t] == tail[t - head.len()]);
            }
        }
    }
}

/// Whether every symbol of `t` comes from the charset `cs`.
pub open spec fn all_from(cs: Seq<char>, t: Seq<char>) -> bool {
    forall|k: int| 0 <= k < t.len() ==> cs.contains(#[trigger] t[k])
}

/// What the recursive generator holds: exactly the strings that extend the
/// prefix by `len` charset symbols.
pub proof fn lemma_gen_membership(cs: Seq<char>, len: nat, prefix: Seq<char>, s: Seq<char>)
    ensures
        gen(cs, len, prefix).contains(s) <==> (s.len() == prefix.len() + len && s.subrange(
            0,
            prefix.len() as int,
        ) == prefix && all_from(cs, s.skip(prefix.len() as int))),
    decreases len, cs.len() + 1,
{
    let pl = prefix.len() as int;
    if len == 0 {
        if gen(cs, len, prefix).contains(s) {
            assert(s == prefix);
            assert(s.subrange(0, pl) =~= prefix);
            assert(s.skip(pl) =~= Seq::<char>::empty());
        }
        if s.len() == prefix.len() && s.subrange(0, pl) == prefix {
            assert(s =~= prefix);
            assert(gen(cs, len, prefix)[0] == prefix);
        }
    } else {
        lemma_gen_from_membership(cs, len, prefix, 0, s);
        if gen(cs, len, prefix).contains(s) {
            assert(cs.contains(s[pl]));
            assert forall|k: int| 0 <= k < s.skip(pl).len() implies cs.contains(
                #[trigger] s.skip(pl)[k],
            ) by {
                if k == 0 {
                    assert(s.skip(pl)[0] == s[pl]);
                } else {
                    assert(s.skip(pl)[k] == s.skip(pl + 1)[k - 1]);
                }
            }
        }
        if s.len() == prefix.len() + len && s.subrange(0, pl) == prefix && all_from(
            cs,
            s.skip(pl),
        ) {
            assert(cs.contains(s.skip(pl)[0]));
            assert(s.skip(pl)[0] == s[pl]);
            let j2 = choose|j2: int| 0 <= j2 < cs.len() && cs[j2] == s[pl];
            assert(s[pl] == cs[j2]);
            assert forall|k: int| 0 <= k < s.skip(pl + 1).len() implies cs.contains(
                #[trigger] s.skip(pl + 1)[k],
            ) by {
                assert(s.skip(pl + 1)[k] == s.skip(pl)[k + 1]);
            }
        }
    }
}

/// The tail version of `lemma_gen_membership`: membership in the part of
/// the generator whose next symbol is `cs[j]` or a later one.
pub proof fn lemma_gen_from_membership(
    cs: Seq<char>,
    len: nat,
    prefix: Seq<char>,
    j: int,
    s: Seq<char>,
)
    requires
        1 <= len,
        0 <= j <= cs.len(),
    ensures
        gen_from(cs, len, prefix, j).contains(s) <==> (s.len() == prefix.len() + len
            && s.subrange(0, prefix.len() as int) == prefix && (exists|j2: int|
            j <= j2 < cs.len() && s[prefix.len() as int] == cs[j2]) && all_from(
            cs,
            s.skip(prefix.len() as int + 1),
        )),
    decreases len, cs.len() - j,
{
    let pl = prefix.len() as int;
    if j < cs.len() {
        let head = gen(cs, (len - 1) as nat, prefix.push(cs[j]));
        let tail = gen_from(cs, len, prefix, j + 1);
        assert(gen_from(cs, len, prefix, j) == head + tail);
        lemma_gen_membership(cs, (len - 1) as nat, prefix.push(cs[j]), s);
        lemma_gen_from_membership(cs, len, prefix, j + 1, s);
        if gen_from(cs, len, prefix, j).contains(s) {
            let idx = choose|idx: int|
                0 <= idx < (head + tail).len() && (head + tail)[idx] == s;
            if idx < head.len() {
                assert(head[idx] == s);
                assert(head.contains(s));
                assert(s.subrange(0, pl + 1) == prefix.push(cs[j]));
                assert(s.subrange(0, pl) =~= prefix) by {
                    assert forall|k: int| 0 <= k < pl implies s.subrange(0, pl)[k] == prefix[k]
                        by {
                        assert(s.subrange(0, pl + 1)[k] == prefix.push(cs[j])[k]);
                    }
                }
                assert(s[pl] == s.subrange(0, pl + 1)[pl]);
                assert(s[pl] == cs[j]);
                assert(s.skip(pl + 1) =~= s.skip((prefix.push(cs[j]).len()) as int));
            } else {
                assert(tail[idx - head.len()] == s);
                assert(tail.contains(s));
            }
        }
        if s.len() == prefix.len() + len && s.subrange(0, pl) == prefix && (exists|j2: int|
            j <= j2 < cs.len() && s[pl] == cs[j2]) && all_from(cs, s.skip(pl + 1)) {
            if s[pl] == cs[j] {
                assert(s.subrange(0, pl + 1) =~= prefix.push(cs[j])) by {
                    assert forall|k: int| 0 <= k < pl + 1 implies s.subrange(0, pl + 1)[k]
                        == prefix.push(cs[j])[k] by {
                        if k < pl {
                            assert(s.subrange(0, pl)[k] == prefix[k]);
                        }
                    }
                }
                assert(s.skip((prefix.push(cs[j]).len()) as int) =~= s.skip(pl + 1));
                assert(head.contains(s));
                let idx = choose|idx: int| 0 <= idx < head.len() && head[idx] == s;
                assert((head + tail)[idx] == s);
                assert(gen_from(cs, len, prefix, j).contains(s));
            } else {
                let j2 = choose|j2: int| j <= j2 < cs.len() && s[pl] == cs[j2];
                assert(j + 1 <= j2 < cs.len() && s[pl] == cs[j2]);
                assert(tail.contains(s));
                let idx = choose|idx: int| 0 <= idx < tail.len() && tail[idx] == s;
                assert((head + tail)[head.len() + idx] == s);
                assert(gen_from(cs, len, prefix, j).contains(s));
            }
        }
    }
}

/// What mixed-radix indexing reaches: exactly the strings of `count`
/// charset symbols.
pub proof fn lemma_nth_combo_membership(cs: Seq<char>, count: nat, s: Seq<char>)
    requires
        cs.len() >= 1,
    ensures
        (exists|i: int|
            0 <= i < pow(cs.len() as int, count) && nth_combo(cs, count, i) == s) <==> (s.len()
            == count && all_from(cs, s)),
    decreases count,
{
    let n = cs.len() as int;
    if count == 0 {
        vstd::arithmetic::power::lemma_pow0(n);
        if s.len() == 0 {
            assert(nth_combo(cs, 0, 0) =~= s);
            assert(0 <= 0 < pow(n, 0) && nth_combo(cs, count, 0) == s);
        }
    } else {
        let p = pow(n, (count - 1) as nat);
        assert(pow(n, count) == n * p) by {
            vstd::arithmetic::power::lemma_pow1(n);
            vstd::arithmetic::power::lemma_pow_adds(n, 1, (count - 1) as nat);
        }
        if exists|i: int| 0 <= i < pow(n, count) && nth_combo(cs, count, i) == s {
            let i = choose|i: int| 0 <= i < pow(n, count) && nth_combo(cs, count, i) == s;
            vstd::arithmetic::div_mod::lemma_mod_division_less_than_divisor(i, n);
            vstd::arithmetic::div_mod::lemma_div_pos_is_pos(i, n);
            vstd::arithmetic::div_mod::lemma_multiply_divide_lt(i, n, p);
            let tail = s.drop_first();
            assert(nth_combo(cs, (count - 1) as nat, i / n) =~= tail);
            lemma_nth_combo_membership(cs, (count - 1) as nat, tail);
            assert(s[0] == cs[i % n]);
            assert(cs.contains(s[0]));
            assert forall|k: int| 0 <= k < s.len() implies cs.contains(#[trigger] s[k]) by {
                if k > 0 {
                    assert(s[k] == tail[k - 1]);
                }
            }
        }
        if s.len() == count && all_from(cs, s) {
            assert(cs.contains(s[0]));
            let d = choose|d: int| 0 <= d < cs.len() && cs[d] == s[0];
            let tail = s.drop_first();
            assert forall|k: int| 0 <= k < tail.len() implies cs.contains(#[trigger] tail[k])
                by {
                assert(tail[k] == s[k + 1]);
            }
            lemma_nth_combo_membership(cs, (count - 1) as nat, tail);
            let i2 = choose|i2: int|
                0 <= i2 < p && #[trigger] nth_combo(cs, (count - 1) as nat, i2) == tail;
            let i = d + n * i2;
            assert(0 <= d + n * i2 < n * p) by (nonlinear_arith)
                requires
                    0 <= d < n,
                    0 <= i2 < p,
            ;
            vstd::arithmetic::div_mod::lemma_fundamental_div_mod_converse(i, n, i2, d);
            assert(nth_combo(cs, count, i) =~= s);
            assert(0 <= i < pow(n, count) && nth_combo(cs, count, i) == s);
        }
    }
}

/// The two generation paths reach the same candidate set: a combination
/// list entry is some mixed-radix combination, and the other way round.
pub proof fn lemma_generation_paths_same_set(cs: Seq<char>, count: nat, s: Seq<char>)
    requires
        cs.len() >= 1,
    ensures
        gen(cs, count, Seq::empty()).contains(s) <==> (exists|i: int|
            0 <= i < pow(cs.len() as int, count) && nth_combo(cs, count, i) == s),
{
    lemma_gen_membership(cs, count, Seq::empty(), s);
    lemma_nth_combo_membership(cs, count, s);
    if gen(cs, count, Seq::empty()).contains(s) {
        assert(s.skip(0) =~= s);
    }
    if s.len() == count && all_from(cs, s) {
        assert(s.subrange(0, 0) =~= Seq::<char>::empty());
        assert(s.skip(0) =~= s);
    }
}

/// Over a duplicate-free charset the generator never repeats a candidate.
pub proof fn lemma_gen_distinct(cs: Seq<char>, len: nat, prefix: Seq<char>)
    requires
        forall|a: int, b: int| 0 <= a < b < cs.len() ==> cs[a] != cs[b],
    ensures
        forall|t1: int, t2: int|
            0 <= t1 < t2 < gen(cs, len, prefix).len() ==> gen(cs, len, prefix)[t1] != gen(
                cs,
                len,
                prefix,
            )[t2],
    decreases len, cs.len() + 1,
{
    if len > 0 {
        lemma_gen_from_distinct(cs, len, prefix, 0);
        assert(gen(cs, len, prefix) == gen_from(cs, len, prefix, 0));
    } else {
        assert(gen(cs, len, prefix).len() == 1);
    }
}

/// The tail version of `lemma_gen_distinct`.
pub proof fn lemma_gen_from_distinct(cs: Seq<char>, len: nat, prefix: Seq<char>, j: int)
    requires
        1 <= len,
        0 <= j <= cs.len(),
        forall|a: int, b: int| 0 <= a < b < cs.len() ==> cs[a] != cs[b],
    ensures
        forall|t1: int, t2: int|
            0 <= t1 < t2 < gen_from(cs, len, prefix, j).len() ==> gen_from(cs, len, prefix, j)[t1]
                != gen_from(cs, len, prefix, j)[t2],
    decreases len, cs.len() - j,
{
    let pl = prefix.len() as int;
    if j < cs.len() {
        let head = gen(cs, (len - 1) as nat, prefix.push(cs[j]));
        let tail = gen_from(cs, len, prefix, j + 1);
        let whole = gen_from(cs, len, prefix, j);
        assert(whole == head + tail);
        lemma_gen_distinct(cs, (len - 1) as nat, prefix.push(cs[j]));
        lemma_gen_from_distinct(cs, len, prefix, j + 1);
        assert forall|t1: int, t2: int| 0 <= t1 < t2 < whole.len() implies whole[t1]
            != whole[t2] by {
            if t1 < head.len() && t2 < head.len() {
                assert(whole[t1] == head[t1]);
                assert(whole[t2] == head[t2]);
            } else if t1 >= head.len() && t2 >= head.len() {
                assert(whole[t1] == tail[t1 - head.len()]);
                assert(whole[t2] == tail[t2 - head.len()]);
            } else {
                let e1 = head[t1];
                let e2 = tail[t2 - head.len()];
                assert(whole[t1] == e1);
                assert(whole[t2] == e2);
                assert(head.contains(e1));
                assert(tail.contains(e2));
                lemma_gen_membership(cs, (len - 1) as nat, prefix.push(cs[j]), e1);
                lemma_gen_from_membership(cs, len, prefix, j + 1, e2);
                assert(e1[pl] == e1.subrange(0, pl + 1)[pl]);
                assert(e1[pl] == cs[j]);
                let j2 = choose|j2: int| j + 1 <= j2 < cs.len() && e2[pl] == cs[j2];
                assert(cs[j] != cs[j2]);
                assert(e1[pl] != e2[pl]);
            }
        }
    }
}

/// For a duplicate-free charset of size n and one fixed length L, the
/// brute-force generator yields exactly n^L candidates, pairwise distinct,
/// each of length L and drawn from the charset.
pub proof fn lemma_bruteforce_fixed_length(cs: Seq<char>, len: nat)
    requires
        forall|a: int, b: int| 0 <= a < b < cs.len() ==> cs[a] != cs[b],
    ensures
        gen(cs, len, Seq::empty()).len() == pow(cs.len() as int, len),
        forall|t: int|
            0 <= t < gen(cs, len, Seq::empty()).len() ==> (#[trigger] gen(
                cs,
                len,
                Seq::empty(),
            )[t]).len() == len,
        forall|t: int|
            0 <= t < gen(cs, len, Seq::empty()).len() ==> all_from(
                cs,
                #[trigger] gen(cs, len, Seq::empty())[t],
            ),
        forall|t1: int, t2: int|
            0 <= t1 < t2 < gen(cs, len, Seq::empty()).len() ==> gen(cs, len, Seq::empty())[t1]
                != gen(cs, len, Seq::empty())[t2],
{
    let g = gen(cs, len, Seq::empty());
    lemma_gen_len(cs, len, Seq::empty());
    lemma_gen_distinct(cs, len, Seq::empty());
    assert forall|t: int| 0 <= t < g.len() implies all_from(cs, #[trigger] g[t]) by {
        assert(g.contains(g[t]));
        lemma_gen_membership(cs, len, Seq::empty(), g[t]);
        assert(g[t].skip(0) =~= g[t]);
    }
}

/// The combination with index `idx` of `count` symbols from `cs`, under
/// mixed-radix indexing with base `cs.len()`, least-significant position
/// first.
pub open spec fn nth_combo(cs: Seq<char>, count: nat, idx: int) -> Seq<char>
    decreases count,
{
    if count == 0 || cs.len() == 0 {
        Seq::empty()
    } else {
        seq![cs[idx % (cs.len() as int)]] + nth_combo(
            cs,
            (count - 1) as nat,
            idx / (cs.len() as int),
        )
    }
}

/// Converts the linear index `index` into its combination, digit by digit.
pub fn nth_combination(charset: &Vec<char>, count: usize, index: usize) -> (r: Vec<char>)
    requires
        charset@.len() > 0,
    ensures
        r@ == nth_combo(charset@, count as nat, index as int),
{
    let n = charset.len();
    let mut r: Vec<char> = Vec::new();
    let mut remaining = index;
    let mut k: usize = 0;
    while k < count
        invariant
            0 <= k <= count,
            n == charset@.len(),
            n > 0,
            r@ + nth_combo(charset@, (count - k) as nat, remaining as int) == nth_combo(
                charset@,
                count as nat,
                index as int,
            ),
        decreases count - k,
    {
        r.push(charset[remaining % n]);
        remaining = remaining / n;
        k = k + 1;
    }
    proof {
        assert(r@ + nth_combo(charset@, 0, remaining as int) =~= r@);
    }
    r
}

/// `base^exp` clamped to the machine-word range: cardinality arithmetic
/// saturates rather than overflowing.
pub open spec fn sat_pow(base: nat, exp: nat) -> nat {
    if pow(base as int, exp) <= usize::MAX as int {
        pow(base as int, exp) as nat
    } else {
        usize::MAX as nat
    }
}

/// Computes `sat_pow` by repeated checked multiplication.
pub fn pow_saturating(base: usize, exp: usize) -> (r: usize)
    ensures
        r == sat_pow(base as nat, exp as nat),
{
    let mut r: usize = 1;
    let mut k: usize = 0;
    proof {
        vstd::arithmetic::power::lemma_pow0(base as int);
    }
    while k < exp
        invariant
            0 <= k <= exp,
            r == pow(base as int, k as nat),
            pow(base as int, k as nat) <= usize::MAX as int,
        decreases exp - k,
    {
        match r.checked_mul(base) {
            Some(next) => {
                proof {
                    assert(pow(base as int, (k + 1) as nat) == pow(base as int, k as nat) * (
                    base as int)) by {
                        vstd::arithmetic::power::lemma_pow1(base as int);
                        vstd::arithmetic::power::lemma_pow_adds(base as int, k as nat, 1);
                    }
                }
                r = next;
            },
            None => {
                proof {
                    assert(pow(base as int, (k + 1) as nat) == pow(base as int, k as nat) * (
                    base as int)) by {
                        vstd::arithmetic::power::lemma_pow1(base as int);
                        vstd::arithmetic::power::lemma_pow_adds(base as int, k as nat, 1);
                    }
                    assert(base > 0) by {
                        if base == 0 {
                            assert(r as int * base as int == 0) by (nonlinear_arith)
                                requires
                                    base == 0,
                            ;
                        }
                    }
                    vstd::arithmetic::power::lemma_pow_increases(
                        base as nat,
                        (k + 1) as nat,
                        exp as nat,
                    );
                }
                return usize::MAX;
            },
        }
        k = k + 1;
    }
    r
}

/// Materializes the combinations with indices `start..end` into one chunk.
pub fn build_indexed_chunk(charset: &Vec<char>, count: usize, start: usize, end: usize) -> (r: Vec<
    Vec<char>,
>)
    requires
        charset@.len() > 0,
        start <= end,
    ensures
        r.deep_view() == Seq::new(
            (end - start) as nat,
            |k: int| nth_combo(charset@, count as nat, start + k),
        ),
{
    let mut r: Vec<Vec<char>> = Vec::new();
    let mut i: usize = start;
    while i < end
        invariant
            start <= i <= end,
            charset@.len() > 0,
            r.deep_view() == Seq::new(
                (i - start) as nat,
                |k: int| nth_combo(charset@, count as nat, start + k),
            ),
        decreases end - i,
    {
        let c = nth_combination(charset, count, i);
        proof {
            assert(c.deep_view() =~= c@);
        }
        let ghost pre = r.deep_view();
        r.push(c);
        proof {
            assert(r.deep_view() =~~= pre.push(c@));
            assert(r.deep_view() =~~= Seq::new(
                (i + 1 - start) as nat,
                |k: int| nth_combo(charset@, count as nat, start + k),
            ));
        }
        i = i + 1;
    }
    r
}

} // verus!
