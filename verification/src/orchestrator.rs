//! Mode selection: exactly one search strategy per run.

use crate::args::Args;
use crate::types::CrackError;
use vstd::prelude::*;

verus! {

/// The one strategy a run executes, with the values it needs.
pub enum Mode {
    /// Stream a wordlist file, split on a delimiter.
    Dictionary { path: String, delimiter: String },
    /// Substitute charset symbols at the variable positions of a template.
    Pattern { pattern: String, symbol: char },
    /// Try every string over the charset of each length in a range.
    Bruteforce { min_len: u8, max_len: u8 },
}

/// Whether `args` selects exactly one of the three modes.
pub open spec fn exactly_one_mode(args: &Args) -> bool {
    let p = args.pattern is Some;
    let b = args.bruteforce_flag;
    let d = args.dictionary_path is Some;
    (p && !b && !d) || (!p && b && !d) || (!p && !b && d)
}

/// Picks the mode that `args` selects; zero or more than one selected mode
/// is a configuration error.
pub fn select_mode(args: &Args) -> (r: Result<Mode, CrackError>)
    ensures
        r is Ok <==> exactly_one_mode(args),
        r is Err ==> r->Err_0 == CrackError::ConfigurationError,
        r is Ok ==> (match r->Ok_0 {
            Mode::Pattern { pattern, symbol } => args.pattern == Some(pattern) && symbol
                == args.pattern_symbol,
            Mode::Bruteforce { min_len, max_len } => args.bruteforce_flag && min_len
                == args.minumum_length && max_len == args.maximum_length,
            Mode::Dictionary { path, delimiter } => args.dictionary_path == Some(path) && delimiter
                == args.delimiter,
        }),
{
    let selected: u8 = (if args.pattern.is_some() {
        1u8
    } else {
        0u8
    }) + (if args.bruteforce_flag {
        1u8
    } else {
        0u8
    }) + (if args.dictionary_path.is_some() {
        1u8
    } else {
        0u8
    });
    if selected != 1 {
        return Err(CrackError::ConfigurationError);
    }
    if let Some(pattern) = &args.pattern {
        Ok(Mode::Pattern { pattern: pattern.clone(), symbol: args.pattern_symbol })
    } else if args.bruteforce_flag {
        Ok(Mode::Bruteforce { min_len: args.minumum_length, max_len: args.maximum_length })
    } else if let Some(path) = &args.dictionary_path {
        Ok(Mode::Dictionary { path: path.clone(), delimiter: args.delimiter.clone() })
    } else {
        Err(CrackError::ConfigurationError)
    }
}

} // verus!
