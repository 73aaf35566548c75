//! Core types of the search engine: the shared result record and the
//! error taxonomy.

use vstd::prelude::*;

verus! {

/// Errors that abort a search before or during dispatch.
///
/// Finding no password is not an error: an exhausted search ends normally
/// with an empty result.
#[derive(Clone, Copy, Debug, PartialEq, Eq, Structural)]
pub enum CrackError {
    /// Zero or more than one search mode was selected.
    ConfigurationError,
    /// The dictionary file or the certificate bytes could not be read.
    ResourceError,
    /// The certificate bytes do not form a valid PKCS#12 archive.
    FormatError,
    /// The worker pool could not be constructed.
    PoolInitError,
}

impl CrackError {
    /// A short human-readable description of the error.
    pub fn message(&self) -> &'static str {
        match self {
            CrackError::ConfigurationError => {
                "No cracking mode specified. Use --pattern, --brute-force, or --dictionary"
            },
            CrackError::ResourceError => "Failed to read an input file",
            CrackError::FormatError => "Failed to parse PKCS12 data",
            CrackError::PoolInitError => "Failed to build thread pool",
        }
    }
}

/// Saturating increment: the attempt counter never decreases and never
/// overflows.
pub open spec fn sat_inc(a: nat) -> nat {
    if a < usize::MAX as nat {
        a + 1
    } else {
        a
    }
}

/// What `try_report_found` does to the recorded password: the first write
/// wins and every later report is a no-op.
pub open spec fn report_transition(pre: Option<Seq<char>>, candidate: Seq<char>) -> Option<
    Seq<char>,
> {
    if pre is Some {
        pre
    } else {
        Some(candidate)
    }
}

/// The recorded password after a whole sequence of reports has been applied
/// to the state `pre`, in order.
pub open spec fn report_all(pre: Option<Seq<char>>, reports: Seq<Seq<char>>) -> Option<Seq<char>>
    decreases reports.len(),
{
    if reports.len() == 0 {
        pre
    } else {
        report_all(report_transition(pre, reports[0]), reports.drop_first())
    }
}

/// Once a password is recorded, no sequence of later reports changes it.
pub proof fn lemma_report_found_write_once(pre: Option<Seq<char>>, reports: Seq<Seq<char>>)
    requires
        pre is Some,
    ensures
        report_all(pre, reports) == pre,
    decreases reports.len(),
{
    if reports.len() > 0 {
        lemma_report_found_write_once(pre, reports.drop_first());
    }
}

/// However many reports arrive at an empty record, exactly one password is
/// recorded: the first in arrival order.
pub proof fn lemma_first_report_wins(reports: Seq<Seq<char>>)
    requires
        reports.len() > 0,
    ensures
        report_all(None, reports) == Some(reports[0]),
{
    lemma_report_found_write_once(Some(reports[0]), reports.drop_first());
}

/// The outcome of one search: the first password found (write-once) and an
/// attempt counter that never decreases.
pub struct CrackResult {
    /// The password recorded by the first successful report, if any.
    pub password: Option<String>,
    attempts: usize,
}

impl CrackResult {
    /// The attempt count as a mathematical number.
    pub closed spec fn spec_attempts(&self) -> nat {
        self.attempts as nat
    }

    /// Whether a password has been recorded.
    pub open spec fn found(&self) -> bool {
        self.spec_password() is Some
    }

    /// The recorded password as a sequence of characters.
    pub closed spec fn spec_password(&self) -> Option<Seq<char>> {
        match self.password {
            Some(p) => Some(p@),
            None => None,
        }
    }

    /// The attempt counter lives in a machine word.
    pub proof fn lemma_attempts_bounded(&self)
        ensures
            self.spec_attempts() <= usize::MAX as nat,
    {
    }

    /// Creates an empty result: no password, zero attempts.
    pub fn new() -> (r: Self)
        ensures
            !r.found(),
            r.spec_attempts() == 0,
    {
        Self { password: None, attempts: 0 }
    }

    /// Counts one more tested candidate; the count saturates instead of
    /// overflowing, so it never decreases.
    pub fn increment_attempts(&mut self)
        ensures
            final(self).spec_attempts() == sat_inc(old(self).spec_attempts()),
            final(self).spec_password() == old(self).spec_password(),
    {
        if self.attempts < usize::MAX {
            self.attempts = self.attempts + 1;
        }
    }

    /// Returns the current number of password attempts.
    pub fn get_attempts(&self) -> (r: usize)
        ensures
            r == self.spec_attempts(),
    {
        self.attempts
    }

    /// Records `password` if none is recorded yet; the first write wins and
    /// every later call leaves the record unchanged. Returns whether this
    /// call was the winning write.
    pub fn try_report_found(&mut self, password: &str) -> (won: bool)
        ensures
            final(self).spec_password() == report_transition(
                old(self).spec_password(),
                password@,
            ),
            final(self).spec_attempts() == old(self).spec_attempts(),
            won == !old(self).found(),
            final(self).found(),
    {
        match self.password {
            Some(_) => false,
            None => {
                self.password = Some(password.to_owned());
                true
            },
        }
    }

    /// Whether a password has already been found; the cheap early-exit check
    /// consulted before each candidate is tested.
    pub fn is_found(&self) -> (r: bool)
        ensures
            r == self.found(),
    {
        match self.password {
            Some(_) => true,
            None => false,
        }
    }

    /// The final state read after dispatch completes: the recorded password,
    /// if any, and the attempt count.
    pub fn snapshot(&self) -> (r: (Option<String>, usize))
        ensures
            (match r.0 {
                Some(p) => self.spec_password() == Some(p@),
                None => self.spec_password() is None,
            }),
            r.1 == self.spec_attempts(),
    {
        let password = match &self.password {
            Some(p) => Some(p.clone()),
            None => None,
        };
        (password, self.attempts)
    }
}

/// The interface for password cracking strategies: one full scan of a
/// candidate space against the archive. Whatever the strategy, a recorded
/// password is never overwritten and the attempt counter never decreases;
/// finding no password is not an error.
pub trait PasswordCracker {
    /// Whether this cracker's configuration can be run.
    spec fn valid(&self) -> bool;

    /// Attempts to crack the archive, recording the first hit in `result`.
    fn crack(
        &self,
        container: &crate::container::Container,
        result: &mut CrackResult,
    ) -> (r: Result<(), CrackError>)
        requires
            self.valid(),
        ensures
            r is Ok,
            old(result).found() ==> *final(result) == *old(result),
            final(result).spec_attempts() >= old(result).spec_attempts(),
    ;
}

} // verus!
