//! Brute-force password cracking: for each length in a range, every string
//! over the charset is generated and tested in chunks.

use crate::container::Container;
use crate::crackers::CHUNK_SIZE;
use crate::crackers::candidate_hits;
use crate::crackers::first_hit;
use crate::crackers::gen;
use crate::crackers::generate_combinations;
use crate::crackers::lemma_first_hit_from_props;
use crate::crackers::lemma_first_hit_props;
use crate::crackers::process_chunk;
use crate::crackers::sat_add;
use crate::types::CrackError;
use crate::types::CrackResult;
use vstd::prelude::*;

verus! {

/// The whole brute-force search space: for each length in `[lo, hi]` in
/// order, every string of that length over `cs`, in generation order.
pub open spec fn bf_space(cs: Seq<char>, lo: nat, hi: nat) -> Seq<Seq<char>>
    decreases hi + 1 - lo,
{
    if lo > hi {
        Seq::empty()
    } else {
        gen(cs, lo, Seq::empty()) + bf_space(cs, (lo + 1) as nat, hi)
    }
}

/// Implements brute-force password cracking.
pub struct BruteforceCracker {
    min_len: u8,
    max_len: u8,
    charset: String,
}

impl BruteforceCracker {
    /// Minimum password length to try.
    pub closed spec fn spec_min(&self) -> u8 {
        self.min_len
    }

    /// Maximum password length to try.
    pub closed spec fn spec_max(&self) -> u8 {
        self.max_len
    }

    /// The characters used in combinations.
    pub closed spec fn spec_charset(&self) -> Seq<char> {
        self.charset@
    }

    /// The candidate list this cracker scans, in order.
    pub open spec fn space(&self) -> Seq<Seq<char>> {
        bf_space(self.spec_charset(), self.spec_min() as nat, self.spec_max() as nat)
    }

    /// Creates a new cracker for the given length range and charset.
    pub fn new(min_len: u8, max_len: u8, charset: String) -> (r: Self)
        ensures
            r.spec_min() == min_len,
            r.spec_max() == max_len,
            r.spec_charset() == charset@,
    {
        Self { min_len, max_len, charset }
    }

    /// Scans the whole space in order, in chunks, stopping at the first
    /// hit. A result already holding a password is left untouched; else
    /// the first hit of the space is recorded (or nothing, after an
    /// exhausted scan), and every candidate up to the hit counts one
    /// attempt.
    pub fn crack(&self, container: &Container, result: &mut CrackResult) -> (r: Result<
        (),
        CrackError,
    >)
        ensures
            r is Ok,
            old(result).found() ==> *final(result) == *old(result),
            !old(result).found() ==> ({
                let space = self.space();
                let h = first_hit(container.spec_der(), space, 0, space.len() as int);
                &&& final(result).found() == (h < space.len())
                &&& final(result).spec_password() == (if h < space.len() {
                    Some(space[h])
                } else {
                    None::<Seq<char>>
                })
                &&& final(result).spec_attempts() == sat_add(
                    old(result).spec_attempts(),
                    (if h < space.len() {
                        h + 1
                    } else {
                        space.len() as int
                    }) as nat,
                )
            }),
    {
        let charset: Vec<char> = crate::text::str_chars(self.charset.as_str());
        let empty_cur: Vec<char> = Vec::new();
        let ghost cs = self.spec_charset();
        let ghost der = container.spec_der();
        let ghost full = self.space();
        proof {
            result.lemma_attempts_bounded();
            assert(full.subrange(0, full.len() as int) =~~= full);
        }
        let max: usize = self.max_len as usize;
        let mut len: usize = self.min_len as usize;
        let ghost mut scanned: int = 0;
        while len <= max
            invariant
                self.min_len as int <= len,
                len <= max + 1 || len == self.min_len as int,
                max == self.max_len as int,
                charset@ == cs,
                cs == self.spec_charset(),
                empty_cur@ == Seq::<char>::empty(),
                der == container.spec_der(),
                full == self.space(),
                old(result).spec_attempts() <= usize::MAX as nat,
                0 <= scanned <= full.len(),
                full.subrange(scanned, full.len() as int) == bf_space(
                    cs,
                    len as nat,
                    self.max_len as nat,
                ),
                old(result).found() ==> result == old(result),
                !old(result).found() ==> forall|i: int|
                    0 <= i < scanned ==> !candidate_hits(der, full[i]),
                !old(result).found() ==> !result.found() && result.spec_password() == old(
                    result,
                ).spec_password(),
                !old(result).found() ==> result.spec_attempts() == sat_add(
                    old(result).spec_attempts(),
                    scanned as nat,
                ),
            decreases max + 1 - len,
        {
            let mut combos: Vec<Vec<char>> = Vec::new();
            generate_combinations(&charset, len as u8, &empty_cur, &mut combos);
            proof {
                assert(combos.deep_view() =~~= gen(cs, len as nat, Seq::<char>::empty()));
            }
            let ghost local = combos.deep_view();
            let ghost rest = bf_space(cs, (len + 1) as nat, self.max_len as nat);
            proof {
                assert(bf_space(cs, len as nat, self.max_len as nat) == local + rest);
                assert(scanned + local.len() + rest.len() == full.len());
                assert forall|t: int| 0 <= t < local.len() implies full[scanned + t] == local[t] by {
                    assert(full.subrange(scanned, full.len() as int)[t] == full[scanned + t]);
                    assert((local + rest)[t] == local[t]);
                }
            }
            let total = combos.len();
            let mut pos: usize = 0;
            while pos < total
                invariant
                    0 <= pos <= total,
                    total == combos@.len(),
                    local == combos.deep_view(),
                    local.len() == total,
                    der == container.spec_der(),
                    full == self.space(),
                    old(result).spec_attempts() <= usize::MAX as nat,
                    0 <= scanned,
                    scanned + local.len() <= full.len(),
                    forall|t: int| 0 <= t < local.len() ==> full[scanned + t] == local[t],
                    old(result).found() ==> result == old(result),
                    !old(result).found() ==> forall|i: int|
                        0 <= i < scanned ==> !candidate_hits(der, full[i]),
                    !old(result).found() ==> forall|t: int|
                        0 <= t < pos ==> !candidate_hits(der, local[t]),
                    !old(result).found() ==> !result.found() && result.spec_password() == old(
                        result,
                    ).spec_password(),
                    !old(result).found() ==> result.spec_attempts() == sat_add(
                        old(result).spec_attempts(),
                        (scanned + pos) as nat,
                    ),
                decreases total - pos,
            {
                let end_: usize = if total - pos > CHUNK_SIZE {
                    pos + CHUNK_SIZE
                } else {
                    total
                };
                let f = process_chunk(&combos, pos, end_, container, result);
                proof {
                    lemma_first_hit_props(der, local, pos as int, end_ as int);
                }
                if f {
                    proof {
                        if !old(result).found() {
                            let h_local = first_hit(der, local, pos as int, end_ as int);
                            let h = scanned + h_local;
                            assert forall|i: int| 0 <= i < h implies !candidate_hits(
                                der,
                                full[i],
                            ) by {
                                if i >= scanned {
                                    assert(full[i] == local[i - scanned]);
                                }
                            }
                            assert(full[h] == local[h_local]);
                            lemma_first_hit_from_props(der, full, 0, full.len() as int, h);
                            assert(first_hit(der, full, 0, full.len() as int) == h);
                            assert(0 <= h < full.len());
                            assert(result.spec_password() == Some(full[h]));
                            assert(result.spec_attempts() == sat_add(
                                old(result).spec_attempts(),
                                (h + 1) as nat,
                            ));
                        }
                    }
                    return Ok(());
                }
                pos = end_;
            }
            proof {
                if !old(result).found() {
                    assert forall|i: int| 0 <= i < scanned + local.len() implies !candidate_hits(
                        der,
                        full[i],
                    ) by {
                        if i >= scanned {
                            assert(full[i] == local[i - scanned]);
                        }
                    }
                }
                assert forall|k: int| 0 <= k < rest.len() implies full[scanned + local.len() + k]
                    == rest[k] by {
                    assert(full.subrange(scanned, full.len() as int)[local.len() + k] == full[
                        scanned + local.len() + k
                    ]);
                    assert((local + rest)[local.len() + k] == rest[k]);
                }
                scanned = scanned + local.len();
                assert(full.subrange(scanned, full.len() as int) =~~= rest);
            }
            len = len + 1;
        }
        proof {
            assert(bf_space(cs, len as nat, self.max_len as nat) == Seq::<Seq<char>>::empty());
            assert(scanned == full.len());
            if !old(result).found() {
                lemma_first_hit_from_props(der, full, 0, full.len() as int, full.len() as int);
            }
        }
        Ok(())
    }
}

impl crate::types::PasswordCracker for BruteforceCracker {
    /// Every configuration of this strategy can be run.
    open spec fn valid(&self) -> bool {
        true
    }

    /// Scans this strategy's space; the exact contract is on the inherent
    /// method of the same name.
    fn crack(&self, container: &Container, result: &mut CrackResult) -> (r: Result<
        (),
        CrackError,
    >) {
        proof {
            result.lemma_attempts_bounded();
        }
        BruteforceCracker::crack(self, container, result)
    }
}

} // verus!
