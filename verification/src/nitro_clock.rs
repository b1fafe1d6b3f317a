//! The attested clock: a vector clock bound to an opaque hardware
//! attestation document, and the per-request logic of the worker that
//! advances such clocks inside a measured execution environment.
//!
//! Equality and ordering consider only the wrapped clock; the document is
//! carried alongside and checked by `verify`. Parsing and signature
//! checking of the raw document bytes happen outside this module (they
//! need the platform's trust anchor and the current time); the verified
//! logic here takes the parse outcome as an input and decides everything
//! that follows from it.

use vstd::prelude::*;

use crate::ordinary_clock::{
    encoded_entries, lemma_merge_all_views, merge_all, seq_get0, seq_set, sha256_of, Clock,
    LamportClock, OrdinaryClock,
};

verus! {

/// An update request: the previous attested clock, the dependency clocks
/// to merge in, and the dimension id to advance.
#[derive(Debug, Clone)]
pub struct Update<C>(pub C, pub Vec<C>, pub u64);

/// An update response: the request's correlation id, the resulting
/// attested clock, and per-stage latency samples (advisory telemetry).
pub type UpdateOk<C> = (u64, C, Vec<u64>);

/// Why wrapping a plain clock as a fresh attested clock was refused.
#[derive(Debug, Clone, Copy, PartialEq, Eq, Structural)]
pub enum ConstructionError {
    /// Only a genesis clock may be wrapped without a document.
    NotGenesis,
}

/// Why an attested clock failed verification.
#[derive(Debug, Clone, Copy, PartialEq, Eq, Structural)]
pub enum VerifyError {
    /// The document's signature, certificate chain or validity window was
    /// rejected, or the bytes did not parse.
    StaleOrInvalidDocument,
    /// The platform register at `index` did not match the expected value.
    PcrMismatch { index: usize },
    /// The document's user data is not the wrapped clock's fingerprint.
    FingerprintMismatch,
}

/// Why the worker dropped an update request.
#[derive(Debug, Clone, Copy, PartialEq, Eq, Structural)]
pub enum WorkerError {
    /// An input clock failed verification.
    Verify(VerifyError),
}

/// The content of a parsed, signature-checked attestation document: the
/// platform configuration registers by index, and the signer's user data.
#[derive(Debug, PartialEq, Eq)]
pub struct AttestationDocument {
    /// Register index -> measured value.
    pub pcrs: Vec<(u64, Vec<u8>)>,
    /// The bytes the environment attested to.
    pub user_data: Option<Vec<u8>>,
}

/// The register value at `index`, as the document carries it.
pub open spec fn pcr_lookup(s: Seq<(u64, Vec<u8>)>, index: u64) -> Option<Seq<u8>>
    decreases s.len(),
{
    if s.len() == 0 {
        None
    } else if s[0].0 == index {
        Some(s[0].1@)
    } else {
        pcr_lookup(s.drop_first(), index)
    }
}

/// Register `i` of the document holds exactly the expected value.
pub open spec fn pcr_ok(doc: &AttestationDocument, expected: Seq<Vec<u8>>, i: int) -> bool {
    pcr_lookup(doc.pcrs@, i as u64) == Some(expected[i]@)
}

/// The first register that fails the expected-value check, if any.
pub open spec fn pcr_error(doc: &AttestationDocument, expected: Seq<Vec<u8>>, i: int) -> Option<
    VerifyError,
>
    decreases expected.len() - i,
{
    if i < 0 || i >= expected.len() {
        None
    } else if !pcr_ok(doc, expected, i) {
        Some(VerifyError::PcrMismatch { index: i as usize })
    } else {
        pcr_error(doc, expected, i + 1)
    }
}

/// The document's user data is exactly the given fingerprint.
pub open spec fn user_data_matches(doc: &AttestationDocument, fingerprint: Seq<u8>) -> bool {
    match doc.user_data {
        Some(u) => u@ == fingerprint,
        None => false,
    }
}

impl AttestationDocument {
    /// The measured value of register `index`, when the document carries
    /// that register.
    pub fn pcr(&self, index: u64) -> (r: Option<&Vec<u8>>)
        ensures
            match r {
                Some(v) => pcr_lookup(self.pcrs@, index) == Some(v@),
                None => pcr_lookup(self.pcrs@, index) is None,
            },
    {
        let n = self.pcrs.len();
        let mut i: usize = 0;
        proof {
            assert(self.pcrs@.skip(0) =~= self.pcrs@);
        }
        while i < n
            invariant
                n == self.pcrs@.len(),
                0 <= i <= n,
                pcr_lookup(self.pcrs@, index) == pcr_lookup(self.pcrs@.skip(i as int), index),
            decreases n - i,
        {
            proof {
                assert(self.pcrs@.skip(i as int).drop_first() =~= self.pcrs@.skip(i as int + 1));
                assert(self.pcrs@.skip(i as int)[0] == self.pcrs@[i as int]);
            }
            if self.pcrs[i].0 == index {
                return Some(&self.pcrs[i].1);
            }
            i += 1;
        }
        proof {
            assert(self.pcrs@.skip(n as int) =~= Seq::<(u64, Vec<u8>)>::empty());
        }
        None
    }
}

/// Whether two byte vectors hold the same bytes.
fn bytes_eq(a: &Vec<u8>, b: &Vec<u8>) -> (r: bool)
    ensures
        r == (a@ == b@),
{
    let n = a.len();
    if n != b.len() {
        return false;
    }
    let mut i: usize = 0;
    while i < n
        invariant
            n == a@.len(),
            n == b@.len(),
            0 <= i <= n,
            forall|j: int| 0 <= j < i ==> a@[j] == b@[j],
        decreases n - i,
    {
        if a[i] != b[i] {
            return false;
        }
        i += 1;
    }
    proof {
        assert(a@ =~= b@);
    }
    true
}

/// Whether a byte vector holds exactly the given 32-byte digest.
fn bytes_eq_digest(a: &Vec<u8>, b: &[u8; 32]) -> (r: bool)
    ensures
        r == (a@ == b@),
{
    let n = a.len();
    if n != 32 {
        return false;
    }
    let mut i: usize = 0;
    while i < n
        invariant
            n == 32,
            n == a@.len(),
            b@.len() == 32,
            0 <= i <= n,
            forall|j: int| 0 <= j < i ==> a@[j] == b@[j],
        decreases n - i,
    {
        if a[i] != b[i] {
            return false;
        }
        i += 1;
    }
    proof {
        assert(a@ =~= b@);
    }
    true
}

/// A vector clock together with the attestation document that binds its
/// fingerprint to a measured execution environment. A genesis clock
/// carries an empty document; any other clock is trusted only as far as
/// `verify` accepts its document.
#[derive(Debug, Clone)]
pub struct NitroEnclavesClock {
    /// The clock value itself; equality and ordering consider only this.
    pub plain: OrdinaryClock,
    /// The opaque signed attestation document, empty for genesis clocks.
    pub document: Vec<u8>,
}

/// What `verify` decides once the document parse outcome is known: a
/// genesis clock carries no obligation; otherwise a failed parse is fatal,
/// and a parsed document must carry the wrapped clock's fingerprint as its
/// user data.
pub open spec fn verify_spec(c: &NitroEnclavesClock, parsed: Option<AttestationDocument>) -> Result<
    Option<AttestationDocument>,
    VerifyError,
> {
    if c.plain.spec_is_genesis() {
        Ok(None)
    } else {
        match parsed {
            None => Err(VerifyError::StaleOrInvalidDocument),
            Some(doc) => if user_data_matches(&doc, c.plain.spec_sha256()) {
                Ok(Some(doc))
            } else {
                Err(VerifyError::FingerprintMismatch)
            },
        }
    }
}

impl NitroEnclavesClock {
    /// The wrapped clock is in canonical form.
    pub open spec fn wf(&self) -> bool {
        self.plain.wf()
    }

    /// Wraps a genesis clock with an empty document: the only construction
    /// path open to untrusted callers. A clock that already counts events
    /// is refused, since no honest document could be attached to it here.
    pub fn from_genesis(clock: OrdinaryClock) -> (r: Result<Self, ConstructionError>)
        ensures
            clock.spec_is_genesis() ==> match r {
                Ok(c) => c.plain == clock && c.document@ =~= Seq::<u8>::empty(),
                Err(_) => false,
            },
            !clock.spec_is_genesis() ==> r == Err::<Self, ConstructionError>(
                ConstructionError::NotGenesis,
            ),
    {
        if clock.is_genesis() {
            Ok(NitroEnclavesClock { plain: clock, document: Vec::new() })
        } else {
            Err(ConstructionError::NotGenesis)
        }
    }

    /// Checks the binding between the wrapped clock and the parse outcome
    /// of its document. `parsed` must be the result of parsing
    /// `self.document` against the trust anchor and the current time,
    /// `None` when the signature, chain, window or format was rejected.
    ///
    /// A genesis clock needs no attestation and yields `Ok(None)`. For any
    /// other clock the document must have parsed and its user data must
    /// equal the clock's fingerprint; the parsed document is then returned
    /// for caller inspection.
    pub fn verify(&self, parsed: Option<AttestationDocument>) -> (r: Result<
        Option<AttestationDocument>,
        VerifyError,
    >)
        ensures
            r == verify_spec(self, parsed),
    {
        if self.plain.is_genesis() {
            return Ok(None);
        }
        match parsed {
            None => Err(VerifyError::StaleOrInvalidDocument),
            Some(doc) => {
                let fingerprint = self.plain.calculate_sha256();
                let matches = match &doc.user_data {
                    Some(u) => bytes_eq_digest(u, &fingerprint),
                    None => false,
                };
                if matches {
                    Ok(Some(doc))
                } else {
                    Err(VerifyError::FingerprintMismatch)
                }
            },
        }
    }
}

/// What the full caller-side verification decides: the genesis rule, then
/// the parse outcome, then the caller's register policy, then the
/// fingerprint binding — a register mismatch is reported before a
/// fingerprint mismatch.
pub open spec fn verify_policy_spec(
    c: &NitroEnclavesClock,
    parsed: Option<AttestationDocument>,
    expected: Seq<Vec<u8>>,
) -> Result<Option<AttestationDocument>, VerifyError> {
    if c.plain.spec_is_genesis() {
        Ok(None)
    } else {
        match parsed {
            None => Err(VerifyError::StaleOrInvalidDocument),
            Some(doc) => match pcr_error(&doc, expected, 0) {
                Some(e) => Err(e),
                None => if user_data_matches(&doc, c.plain.spec_sha256()) {
                    Ok(Some(doc))
                } else {
                    Err(VerifyError::FingerprintMismatch)
                },
            },
        }
    }
}

impl NitroEnclavesClock {
    /// The whole verification a relying caller performs, against its own
    /// deployment policy: a genesis clock carries no obligation; otherwise
    /// the document must have parsed against the trust anchor (`parsed` is
    /// that outcome), each expected register must match, and the user data
    /// must be this clock's fingerprint. On success the document is
    /// returned for inspection.
    pub fn verify_with_policy(
        &self,
        parsed: Option<AttestationDocument>,
        expected: &Vec<Vec<u8>>,
    ) -> (r: Result<Option<AttestationDocument>, VerifyError>)
        ensures
            r == verify_policy_spec(self, parsed, expected@),
    {
        if self.plain.is_genesis() {
            return Ok(None);
        }
        match parsed {
            None => Err(VerifyError::StaleOrInvalidDocument),
            Some(doc) => {
                match check_pcrs(&doc, expected) {
                    Err(e) => Err(e),
                    Ok(()) => {
                        let fingerprint = self.plain.calculate_sha256();
                        let matches = match &doc.user_data {
                            Some(u) => bytes_eq_digest(u, &fingerprint),
                            None => false,
                        };
                        if matches {
                            Ok(Some(doc))
                        } else {
                            Err(VerifyError::FingerprintMismatch)
                        }
                    },
                }
            },
        }
    }
}

impl Clock for NitroEnclavesClock {
    /// The scalar reduction of the wrapped clock.
    open spec fn reduce_spec(&self) -> int {
        self.plain.reduce_spec()
    }

    open spec fn reduce_in_range(&self) -> bool {
        self.plain.reduce_in_range()
    }

    fn reduce(&self) -> (r: LamportClock) {
        self.plain.reduce()
    }
}

impl PartialEq for NitroEnclavesClock {
    /// Equality over the wrapped clocks alone; the documents are skipped.
    fn eq(&self, other: &Self) -> (r: bool) {
        self.plain.eq(&other.plain)
    }
}

impl vstd::std_specs::cmp::PartialEqSpecImpl for NitroEnclavesClock {
    open spec fn obeys_eq_spec() -> bool {
        true
    }

    open spec fn eq_spec(&self, other: &Self) -> bool {
        self.plain@ == other.plain@
    }
}

impl NitroEnclavesClock {
    /// The causal partial order, over the wrapped clocks alone; the
    /// documents play no part in ordering.
    pub fn partial_cmp(&self, other: &Self) -> (r: Option<core::cmp::Ordering>)
        ensures
            r == crate::ordinary_clock::cmp_seq(self.plain@, other.plain@),
    {
        self.plain.partial_cmp(&other.plain)
    }
}

/// The clock a request presents at position `j`: the previous clock first,
/// then each dependency in order.
pub open spec fn clock_at(u: &Update<NitroEnclavesClock>, j: int) -> NitroEnclavesClock {
    if j == 0 {
        u.0
    } else {
        u.1@[j - 1]
    }
}

/// What verifying the clock at one position yields: the verification
/// verdict first, then — for a clock that did present a document — the
/// worker's own register check against its expected values.
pub open spec fn clock_check(
    c: NitroEnclavesClock,
    parsed: Option<AttestationDocument>,
    expected: Seq<Vec<u8>>,
) -> Option<VerifyError> {
    match verify_spec(&c, parsed) {
        Err(e) => Some(e),
        Ok(None) => None,
        Ok(Some(doc)) => pcr_error(&doc, expected, 0),
    }
}

/// The first verification failure among the request's clocks from
/// position `j` on, if any.
pub open spec fn first_check_error(
    u: &Update<NitroEnclavesClock>,
    parsed: Seq<Option<AttestationDocument>>,
    expected: Seq<Vec<u8>>,
    j: int,
) -> Option<VerifyError>
    decreases 1 + u.1@.len() - j,
{
    if j < 0 || j >= 1 + u.1@.len() {
        None
    } else {
        match clock_check(clock_at(u, j), parsed[j], expected) {
            Some(e) => Some(e),
            None => first_check_error(u, parsed, expected, j + 1),
        }
    }
}

/// The plain clocks a dependency list wraps.
pub open spec fn plains(deps: Seq<NitroEnclavesClock>) -> Seq<OrdinaryClock> {
    deps.map(|i: int, c: NitroEnclavesClock| c.plain)
}

/// Whether one presented clock passes verification: the genesis rule and
/// fingerprint binding first, then — when a document was presented — the
/// worker's own register check against its expected values.
fn check_one(
    c: &NitroEnclavesClock,
    parsed: &Option<AttestationDocument>,
    expected: &Vec<Vec<u8>>,
) -> (r: Option<VerifyError>)
    ensures
        r == clock_check(*c, *parsed, expected@),
{
    if c.plain.is_genesis() {
        return None;
    }
    match parsed {
        None => Some(VerifyError::StaleOrInvalidDocument),
        Some(doc) => {
            let fingerprint = c.plain.calculate_sha256();
            let matches = match &doc.user_data {
                Some(u) => bytes_eq_digest(u, &fingerprint),
                None => false,
            };
            if !matches {
                return Some(VerifyError::FingerprintMismatch);
            }
            match check_pcrs(doc, expected) {
                Ok(()) => None,
                Err(e) => Some(e),
            }
        },
    }
}

/// One worker step, after the request was decoded and each clock's
/// document was parsed: verifies the previous clock and every dependency
/// (`parsed[0]` belongs to the previous clock, `parsed[1 + i]` to
/// dependency `i`), cross-checks presented documents against the worker's
/// own expected registers, and on success advances the clock and computes
/// the fingerprint to be attested.
///
/// The first failing clock aborts the request with its error; nothing is
/// advanced in that case.
pub fn process_update(
    u: &Update<NitroEnclavesClock>,
    parsed: &Vec<Option<AttestationDocument>>,
    expected: &Vec<Vec<u8>>,
) -> (r: Result<(OrdinaryClock, [u8; 32]), WorkerError>)
    requires
        u.0.wf(),
        forall|i: int| 0 <= i < u.1@.len() ==> (#[trigger] u.1@[i]).wf(),
        parsed@.len() == 1 + u.1@.len(),
        u.0.plain.spec_get0(u.2) < u64::MAX,
        forall|i: int| 0 <= i < u.1@.len() ==> (#[trigger] u.1@[i]).plain.spec_get0(u.2)
            < u64::MAX,
    ensures
        match first_check_error(u, parsed@, expected@, 0) {
            Some(e) => r == Err::<(OrdinaryClock, [u8; 32]), WorkerError>(WorkerError::Verify(e)),
            None => match r {
                Ok(p) => p.0.wf() && p.0@ == seq_set(
                    merge_all(u.0.plain@, plains(u.1@)),
                    u.2,
                    (seq_get0(merge_all(u.0.plain@, plains(u.1@)), u.2) + 1) as u64,
                ) && p.1@ == sha256_of(encoded_entries(p.0@)),
                Err(_) => false,
            },
        },
{
    let deps_n = u.1.len();

    // Verify the previous clock.
    match check_one(&u.0, &parsed[0], expected) {
        Some(e) => {
            proof {
                assert(first_check_error(u, parsed@, expected@, 0) == Some(e));
            }
            return Err(WorkerError::Verify(e));
        },
        None => {
            proof {
                assert(first_check_error(u, parsed@, expected@, 0) == first_check_error(
                    u,
                    parsed@,
                    expected@,
                    1,
                ));
            }
        },
    }

    // Verify each dependency clock in order.
    let mut i: usize = 0;
    while i < deps_n
        invariant
            deps_n == u.1@.len(),
            0 <= i <= deps_n,
            parsed@.len() == 1 + deps_n,
            u.0.wf(),
            forall|j: int| 0 <= j < deps_n ==> (#[trigger] u.1@[j]).wf(),
            first_check_error(u, parsed@, expected@, 0) == first_check_error(
                u,
                parsed@,
                expected@,
                1 + i as int,
            ),
        decreases deps_n - i,
    {
        match check_one(&u.1[i], &parsed[1 + i], expected) {
            Some(e) => {
                proof {
                    assert(clock_at(u, 1 + i as int) == u.1@[i as int]);
                    assert(first_check_error(u, parsed@, expected@, 1 + i as int) == Some(e));
                }
                return Err(WorkerError::Verify(e));
            },
            None => {
                proof {
                    assert(clock_at(u, 1 + i as int) == u.1@[i as int]);
                    assert(first_check_error(u, parsed@, expected@, 1 + i as int)
                        == first_check_error(u, parsed@, expected@, 2 + i as int));
                }
            },
        }
        i += 1;
    }
    proof {
        assert(first_check_error(u, parsed@, expected@, 1 + deps_n as int) is None);
    }

    // Advance the clock and compute the fingerprint to be attested.
    let mut plain_deps: Vec<OrdinaryClock> = Vec::new();
    let mut j: usize = 0;
    while j < deps_n
        invariant
            deps_n == u.1@.len(),
            0 <= j <= deps_n,
            forall|k: int| 0 <= k < deps_n ==> (#[trigger] u.1@[k]).wf(),
            plain_deps@.len() == j,
            forall|k: int| 0 <= k < j ==> (#[trigger] plain_deps@[k])@ == u.1@[k].plain@,
        decreases deps_n - j,
    {
        plain_deps.push(u.1[j].plain.duplicate());
        j += 1;
    }
    proof {
        assert forall|k: int| 0 <= k < deps_n implies (#[trigger] plain_deps@[k]).wf()
            && plain_deps@[k].spec_get0(u.2) < u64::MAX by {
            assert(u.1@[k].wf());
            assert(u.1@[k].plain.spec_get0(u.2) < u64::MAX);
        }
    }
    let updated = u.0.plain.update(&plain_deps, u.2);
    proof {
        assert forall|k: int| 0 <= k < deps_n implies (#[trigger] plain_deps@[k])@ == plains(
            u.1@,
        )[k]@ by {
            assert(plains(u.1@)[k] == u.1@[k].plain);
        }
        lemma_merge_all_views(u.0.plain@, plain_deps@, plains(u.1@));
    }
    let fingerprint = updated.calculate_sha256();
    Ok((updated, fingerprint))
}

/// Checks the document's platform registers against the expected values:
/// register `i` must hold exactly `expected[i]` for every listed index.
/// The first mismatching or missing register is reported.
pub fn check_pcrs(doc: &AttestationDocument, expected: &Vec<Vec<u8>>) -> (r: Result<
    (),
    VerifyError,
>)
    ensures
        r == match pcr_error(doc, expected@, 0) {
            None => Ok::<(), VerifyError>(()),
            Some(e) => Err::<(), VerifyError>(e),
        },
{
    let n = expected.len();
    let mut i: usize = 0;
    while i < n
        invariant
            n == expected@.len(),
            0 <= i <= n,
            pcr_error(doc, expected@, 0) == pcr_error(doc, expected@, i as int),
        decreases n - i,
    {
        let ok = match doc.pcr(i as u64) {
            Some(v) => bytes_eq(v, &expected[i]),
            None => false,
        };
        if !ok {
            return Err(VerifyError::PcrMismatch { index: i });
        }
        i += 1;
    }
    Ok(())
}

} // verus!
