//! Dictionary-based password cracking.
//!
//! The wordlist content is split on a configured delimiter and each entry
//! is trimmed; entries are then tested in record-aligned chunks, so no
//! entry is ever lost or cut by chunk placement.

use crate::container::Container;
use crate::crackers::CHUNK_SIZE;
use crate::crackers::candidate_hits;
use crate::crackers::first_hit;
use crate::crackers::lemma_first_hit_from_props;
use crate::crackers::lemma_first_hit_props;
use crate::crackers::process_chunk;
use crate::crackers::sat_add;
use crate::text::split_spec;
use crate::text::trimmed;
use crate::types::CrackError;
use crate::types::CrackResult;
use vstd::prelude::*;
use vstd::string::StrSliceExecFns;

verus! {

/// The entries a wordlist yields: the content split on the delimiter, each
/// piece trimmed of surrounding whitespace.
pub open spec fn dict_candidates(content: Seq<char>, d: char) -> Seq<Seq<char>> {
    split_spec(content, d).map_values(|p: Seq<char>| trimmed(p))
}

/// Implements dictionary-based password cracking over wordlist content.
pub struct DictionaryCracker {
    content: String,
    delimiter: String,
}

impl DictionaryCracker {
    /// The wordlist content.
    pub closed spec fn spec_content(&self) -> Seq<char> {
        self.content@
    }

    /// The entry separator; its first character splits the content.
    pub closed spec fn spec_delimiter(&self) -> Seq<char> {
        self.delimiter@
    }

    /// The candidate list this cracker scans, in file order.
    pub open spec fn space(&self) -> Seq<Seq<char>> {
        dict_candidates(self.spec_content(), self.spec_delimiter()[0])
    }

    /// Creates a new cracker over wordlist content and a delimiter.
    pub fn new(content: String, delimiter: String) -> (r: Self)
        ensures
            r.spec_content() == content@,
            r.spec_delimiter() == delimiter@,
    {
        Self { content, delimiter }
    }

    /// Materializes the entries: the whole content split on the delimiter,
    /// each entry trimmed.
    pub fn candidates(&self) -> (r: Vec<Vec<char>>)
        requires
            self.spec_delimiter().len() >= 1,
        ensures
            r.deep_view() == self.space(),
    {
        let chars = crate::text::str_chars(self.content.as_str());
        let d = self.delimiter.as_str().get_char(0);
        let pieces = crate::text::split_chars(&chars, d);
        let ghost split = pieces.deep_view();
        let mut r: Vec<Vec<char>> = Vec::new();
        let mut i: usize = 0;
        while i < pieces.len()
            invariant
                0 <= i <= pieces@.len(),
                split == pieces.deep_view(),
                split.len() == pieces@.len(),
                split == split_spec(self.spec_content(), self.spec_delimiter()[0]),
                r.deep_view() == Seq::new(i as nat, |k: int| trimmed(split[k])),
            decreases pieces@.len() - i,
        {
            proof {
                assert(split[i as int] == pieces@[i as int].deep_view());
                assert(pieces@[i as int].deep_view() =~= pieces@[i as int]@);
            }
            let t = crate::text::trim_chars(&pieces[i]);
            let ghost pre = r.deep_view();
            r.push(t);
            proof {
                assert(r.deep_view() =~~= pre.push(t@));
                assert(r.deep_view() =~~= Seq::new((i + 1) as nat, |k: int| trimmed(split[k])));
            }
            i = i + 1;
        }
        proof {
            assert(r.deep_view() =~~= self.space());
        }
        r
    }

    /// Scans the entries in record-aligned chunks, stopping at the first
    /// hit. A result already holding a password is left untouched; else
    /// the first hitting entry is recorded (or nothing, after an exhausted
    /// scan), and every tested entry counts one attempt.
    pub fn crack(&self, container: &Container, result: &mut CrackResult) -> (r: Result<
        (),
        CrackError,
    >)
        requires
            self.spec_delimiter().len() >= 1,
        ensures
            r is Ok,
            old(result).found() ==> *final(result) == *old(result),
            !old(result).found() ==> ({
                let space = self.space();
                let h = first_hit(container.spec_der(), space, 0, space.len() as int);
                &&& final(result).found() == (h < space.len())
                &&& final(result).spec_password() == (if h < space.len() {
                    Some(space[h])
                } else {
                    None::<Seq<char>>
                })
                &&& final(result).spec_attempts() == sat_add(
                    old(result).spec_attempts(),
                    (if h < space.len() {
                        h + 1
                    } else {
                        space.len() as int
                    }) as nat,
                )
            }),
    {
        let cands = self.candidates();
        let ghost full = cands.deep_view();
        let ghost der = container.spec_der();
        proof {
            result.lemma_attempts_bounded();
        }
        let total = cands.len();
        let mut pos: usize = 0;
        while pos < total
            invariant
                0 <= pos <= total,
                total == cands@.len(),
                full == cands.deep_view(),
                full.len() == total,
                full == self.space(),
                der == container.spec_der(),
                old(result).spec_attempts() <= usize::MAX as nat,
                old(result).found() ==> result == old(result),
                !old(result).found() ==> forall|t: int|
                    0 <= t < pos ==> !candidate_hits(der, full[t]),
                !old(result).found() ==> !result.found() && result.spec_password() == old(
                    result,
                ).spec_password(),
                !old(result).found() ==> result.spec_attempts() == sat_add(
                    old(result).spec_attempts(),
                    pos as nat,
                ),
            decreases total - pos,
        {
            let end_: usize = if total - pos > CHUNK_SIZE {
                pos + CHUNK_SIZE
            } else {
                total
            };
            let f = process_chunk(&cands, pos, end_, container, result);
            proof {
                lemma_first_hit_props(der, full, pos as int, end_ as int);
            }
            if f {
                proof {
                    if !old(result).found() {
                        let h = first_hit(der, full, pos as int, end_ as int);
                        lemma_first_hit_from_props(der, full, 0, full.len() as int, h);
                    }
                }
                return Ok(());
            }
            pos = end_;
        }
        proof {
            if !old(result).found() {
                lemma_first_hit_from_props(der, full, 0, full.len() as int, full.len() as int);
            }
        }
        Ok(())
    }
}

impl crate::types::PasswordCracker for DictionaryCracker {
    /// A delimiter must be present to split the wordlist.
    open spec fn valid(&self) -> bool {
        self.spec_delimiter().len() >= 1
    }

    /// Scans this strategy's space; the exact contract is on the inherent
    /// method of the same name.
    fn crack(&self, container: &Container, result: &mut CrackResult) -> (r: Result<
        (),
        CrackError,
    >) {
        proof {
            result.lemma_attempts_bounded();
        }
        DictionaryCracker::crack(self, container, result)
    }
}

} // verus!
