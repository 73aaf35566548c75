//! The encrypted credential container and its oracle.
//!
//! A `Container` is a loaded PKCS#12 archive kept together with the DER
//! bytes it was parsed from. The oracle — one decryption attempt with a
//! candidate password — is deterministic in those bytes and the candidate,
//! which the names `der_parses` and `oracle_accepts` capture.

use crate::types::CrackError;
use vstd::prelude::*;

verus! {

#[verifier::external_type_specification]
#[verifier::external_body]
pub struct ExPkcs12(openssl::pkcs12::Pkcs12);

/// Whether `der` is the DER encoding of a well-formed PKCS#12 archive;
/// decided by the parser on the bytes alone.
pub uninterp spec fn der_parses(der: Seq<u8>) -> bool;

/// Whether the archive encoded by `der` decrypts under `password`; decided
/// by the decryption routine on the bytes and the password alone.
pub uninterp spec fn oracle_accepts(der: Seq<u8>, password: Seq<char>) -> bool;

/// A loaded PKCS#12 archive together with the DER bytes it was parsed
/// from. Read-only during a search, so workers may share it freely.
pub struct Container {
    handle: openssl::pkcs12::Pkcs12,
    der: Vec<u8>,
}

impl Container {
    /// The DER bytes this archive was parsed from.
    pub closed spec fn spec_der(&self) -> Seq<u8> {
        self.der@
    }

    /// Relies on openssl's Pkcs12::from_der: parsing succeeds or fails as a
    /// function of the DER bytes alone.
    #[verifier::external_body]
    fn parse_der(der: &Vec<u8>) -> (r: Option<Container>)
        ensures
            r is Some <==> der_parses(der@),
            r is Some ==> r->0.spec_der() == der@,
    {
        match openssl::pkcs12::Pkcs12::from_der(der.as_slice()) {
            Ok(handle) => Some(Container { handle, der: der.clone() }),
            Err(_) => None,
        }
    }

    /// Parses DER bytes into an archive, or reports a format error.
    pub fn from_der(der: &Vec<u8>) -> (r: Result<Container, CrackError>)
        ensures
            r is Ok <==> der_parses(der@),
            r is Ok ==> r->Ok_0.spec_der() == der@,
            r is Err ==> r->Err_0 == CrackError::FormatError,
    {
        match Self::parse_der(der) {
            Some(c) => Ok(c),
            None => Err(CrackError::FormatError),
        }
    }

    /// Relies on openssl's Pkcs12::parse2: one decryption attempt, whose
    /// outcome depends only on the archive bytes and the password. The
    /// routine rejects interior NUL characters by panicking, so such
    /// passwords are excluded here and filtered by the caller.
    #[verifier::external_body]
    pub(crate) fn oracle_try(&self, password: &str) -> (r: bool)
        requires
            !crate::text::has_nul(password@),
        ensures
            r == oracle_accepts(self.spec_der(), password@),
    {
        self.handle.parse2(password).is_ok()
    }
}

} // verus!
