//! Character-set assembly.
//!
//! A search charset is built from one-letter set flags (`a`, `A`, `n`, `s`,
//! `x`) plus an optional string of extra characters.

use crate::args::Args;
use crate::types::CrackError;
use vstd::prelude::*;
use vstd::string::StringExecFns;

verus! {

/// Lowercase letters from a to z.
pub const LOWER_ALPHABET: &'static str = "abcdefghijklmnopqrstuvwxyz";

/// Uppercase letters from A to Z.
pub const UPPER_ALPHABET: &'static str = "ABCDEFGHIJKLMNOPQRSTUVWXYZ";

/// Digits from 0 to 9.
pub const DIGITS: &'static str = "0123456789";

/// Common special characters used in passwords.
pub const SPECIAL_CHARS: &'static str = "!\"#$%&'()*+,-./:;<=>?@[\\]^_`{|}~ ";

/// The characters contributed by one set flag; an unknown flag contributes
/// nothing.
pub open spec fn segment_for_flag(c: char) -> Seq<char> {
    if c == 'a' {
        "abcdefghijklmnopqrstuvwxyz"@
    } else if c == 'A' {
        "ABCDEFGHIJKLMNOPQRSTUVWXYZ"@
    } else if c == 'n' {
        "0123456789"@
    } else if c == 's' {
        "!\"#$%&'()*+,-./:;<=>?@[\\]^_`{|}~ "@
    } else if c == 'x' {
        "abcdefghijklmnopqrstuvwxyz"@ + "ABCDEFGHIJKLMNOPQRSTUVWXYZ"@ + "0123456789"@
            + "!\"#$%&'()*+,-./:;<=>?@[\\]^_`{|}~ "@
    } else {
        Seq::empty()
    }
}

/// The concatenation of the segments selected by `flags`, in order.
pub open spec fn charset_from_flags(flags: Seq<char>) -> Seq<char>
    decreases flags.len(),
{
    if flags.len() == 0 {
        Seq::empty()
    } else {
        segment_for_flag(flags[0]) + charset_from_flags(flags.drop_first())
    }
}

/// The full charset an `Args` value describes: the flag segments (or the
/// lowercase alphabet when no flags are given) followed by any extra
/// characters.
pub open spec fn spec_build_charset(char_sets: Option<Seq<char>>, specific: Option<Seq<char>>) -> Seq<
    char,
> {
    let base = match char_sets {
        Some(f) => charset_from_flags(f),
        None => "abcdefghijklmnopqrstuvwxyz"@,
    };
    match specific {
        Some(s) => base + s,
        None => base,
    }
}

/// Appends the segment selected by the flag `c` to `acc`.
fn append_segment(acc: &mut String, c: char)
    ensures
        final(acc)@ == old(acc)@ + segment_for_flag(c),
{
    match c {
        'a' => acc.append(LOWER_ALPHABET),
        'A' => acc.append(UPPER_ALPHABET),
        'n' => acc.append(DIGITS),
        's' => acc.append(SPECIAL_CHARS),
        'x' => {
            acc.append(LOWER_ALPHABET);
            acc.append(UPPER_ALPHABET);
            acc.append(DIGITS);
            acc.append(SPECIAL_CHARS);
            proof {
                assert(acc@ =~= old(acc)@ + segment_for_flag('x'));
            }
        },
        _ => {
            proof {
                assert(acc@ =~= old(acc)@ + segment_for_flag(c));
            }
        },
    }
}

/// Builds the character set that `args` describes. Assembly never fails;
/// the `Result` mirrors the plumbing-only error convention of the callers.
pub fn build_charset(args: &Args) -> (r: Result<String, CrackError>)
    ensures
        r is Ok,
        r->Ok_0@ == spec_build_charset(args.spec_char_sets(), args.spec_specific_chars()),
{
    let mut charset = match &args.char_sets {
        Some(flags) => {
            let fl = crate::text::str_chars(flags.as_str());
            let mut acc = String::new();
            proof {
                assert(fl@.skip(0) =~= fl@);
                assert(acc@ + charset_from_flags(fl@) =~= charset_from_flags(fl@));
            }
            let mut i: usize = 0;
            while i < fl.len()
                invariant
                    0 <= i <= fl@.len(),
                    acc@ + charset_from_flags(fl@.skip(i as int)) == charset_from_flags(fl@),
                decreases fl@.len() - i,
            {
                let c = fl[i];
                append_segment(&mut acc, c);
                proof {
                    assert(fl@.skip(i as int).drop_first() =~= fl@.skip(i as int + 1));
                }
                i = i + 1;
            }
            proof {
                assert(fl@.skip(i as int) =~= Seq::<char>::empty());
                assert(acc@ + Seq::<char>::empty() =~= acc@);
            }
            acc
        },
        None => LOWER_ALPHABET.to_owned(),
    };
    if let Some(specific_chars) = &args.specific_chars {
        charset.append(specific_chars.as_str());
    }
    Ok(charset)
}

} // verus!
