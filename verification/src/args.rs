//! Search configuration and its validation.
//!
//! `Args` carries the values the search engine needs: which mode to run,
//! the charset description, and the worker count. Parsing the command line
//! into these plain values is the caller's business.

use crate::types::CrackError;
use vstd::prelude::*;

verus! {

/// Configuration of one search run.
pub struct Args {
    /// Path to the PKCS#12 certificate file to crack.
    pub certificate_path: String,
    /// Path to a wordlist file; selects the dictionary mode.
    pub dictionary_path: Option<String>,
    /// Template for the pattern mode.
    pub pattern: Option<String>,
    /// Symbol marking variable positions in the pattern.
    pub pattern_symbol: char,
    /// Minimum password length for the brute-force mode.
    pub minumum_length: u8,
    /// Maximum password length for the brute-force mode.
    pub maximum_length: u8,
    /// Selects the brute-force mode.
    pub bruteforce_flag: bool,
    /// One-letter charset flags.
    pub char_sets: Option<String>,
    /// Extra characters appended to the charset.
    pub specific_chars: Option<String>,
    /// Separator between dictionary entries.
    pub delimiter: String,
    /// Number of worker threads.
    pub threads: u8,
}

impl Args {
    /// The charset flags as a character sequence, if any were given.
    pub open spec fn spec_char_sets(&self) -> Option<Seq<char>> {
        match self.char_sets {
            Some(s) => Some(s@),
            None => None,
        }
    }

    /// The extra characters as a character sequence, if any were given.
    pub open spec fn spec_specific_chars(&self) -> Option<Seq<char>> {
        match self.specific_chars {
            Some(s) => Some(s@),
            None => None,
        }
    }
}

impl Default for Args {
    /// The configuration with nothing selected: no mode, the default
    /// pattern symbol, lengths 1 to 8, one thread.
    fn default() -> (r: Self)
        ensures
            r.certificate_path@ == Seq::<char>::empty(),
            r.dictionary_path is None,
            r.pattern is None,
            r.pattern_symbol == '@',
            r.minumum_length == 1,
            r.maximum_length == 8,
            !r.bruteforce_flag,
            r.char_sets is None,
            r.specific_chars is None,
            r.delimiter@ == Seq::<char>::empty(),
            r.threads == 1,
    {
        Self {
            char_sets: None,
            specific_chars: None,
            certificate_path: String::new(),
            dictionary_path: None,
            pattern: None,
            pattern_symbol: '@',
            minumum_length: 1,
            maximum_length: 8,
            bruteforce_flag: false,
            delimiter: String::new(),
            threads: 1,
        }
    }
}

/// Index of the first character of the final path segment of `p`, scanning
/// down from `j` for a separator.
pub open spec fn file_name_start(p: Seq<char>, j: int) -> int
    decreases j,
{
    if j <= 0 {
        0
    } else if p[j - 1] == '/' {
        j
    } else {
        file_name_start(p, j - 1)
    }
}

/// The final path segment of `p`.
pub open spec fn spec_file_name(p: Seq<char>) -> Seq<char> {
    p.subrange(file_name_start(p, p.len() as int), p.len() as int)
}

/// Whether the current-directory segment `.` is the final path segment.
pub open spec fn is_cur_dir_name(name: Seq<char>) -> bool {
    name.len() == 1 && name[0] == '.'
}

/// Whether the parent-directory segment `..` is the final path segment.
pub open spec fn is_parent_dir_name(name: Seq<char>) -> bool {
    name.len() == 2 && name[0] == '.' && name[1] == '.'
}

/// Whether the final path segment carries an extension: it is a real file
/// name, not a directory marker, and holds a dot after its first character.
pub open spec fn path_has_extension(p: Seq<char>) -> bool {
    let name = spec_file_name(p);
    !is_cur_dir_name(name) && !is_parent_dir_name(name) && exists|i: int|
        0 < i < name.len() && name[i] == '.'
}

proof fn lemma_file_name_start_bounds(p: Seq<char>, j: int)
    requires
        0 <= j <= p.len(),
    ensures
        0 <= file_name_start(p, j) <= j,
    decreases j,
{
    if j > 0 && p[j - 1] != '/' {
        lemma_file_name_start_bounds(p, j - 1);
    }
}

/// Accepts a certificate path only when its file name carries an
/// extension.
pub fn validate_certificate_path(path: &str) -> (r: Result<String, CrackError>)
    ensures
        r is Ok <==> path_has_extension(path@),
        r is Ok ==> r->Ok_0@ == path@,
        r is Err ==> r->Err_0 == CrackError::ResourceError,
{
    let v = crate::text::str_chars(path);
    let n = v.len();
    let mut j: usize = n;
    while j > 0 && v[j - 1] != '/'
        invariant
            0 <= j <= n == v@.len(),
            file_name_start(v@, n as int) == file_name_start(v@, j as int),
        decreases j,
    {
        j = j - 1;
    }
    proof {
        lemma_file_name_start_bounds(v@, j as int);
        assert(file_name_start(v@, n as int) == j as int);
    }
    let name = crate::text::copy_range(&v, j, n);
    proof {
        assert(name@ =~= spec_file_name(path@));
    }
    let is_cur = name.len() == 1 && name[0] == '.';
    let is_parent = name.len() == 2 && name[0] == '.' && name[1] == '.';
    let mut has_dot = false;
    let mut k: usize = 1;
    while k < name.len()
        invariant
            1 <= k,
            k <= name@.len() || k == 1,
            has_dot <==> exists|i: int| 0 < i < k && i < name@.len() && name@[i] == '.',
        decreases name@.len() - k,
    {
        if name[k] == '.' {
            has_dot = true;
        }
        k = k + 1;
    }
    if !is_cur && !is_parent && has_dot {
        Ok(path.to_owned())
    } else {
        Err(CrackError::ResourceError)
    }
}

/// Relies on num_cpus::get for the number of available CPUs; the crate
/// documents that it always returns at least one.
#[verifier::external_body]
fn cpu_count() -> (n: usize)
    ensures
        n >= 1,
{
    num_cpus::get()
}

/// A requested count above one is taken as is; otherwise the number of
/// available CPUs decides, clamped to the field's range.
pub fn validate_threads_count(threads: u8) -> (r: u8)
    ensures
        threads > 1 ==> r == threads,
        r >= 1,
{
    if threads > 1 {
        threads
    } else {
        let c = cpu_count();
        if c > 255 {
            255
        } else {
            c as u8
        }
    }
}

} // verus!
