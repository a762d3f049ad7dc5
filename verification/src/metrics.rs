//! Per-file fingerprints.
//!
//! A `Metrics` record holds two independent cryptographic digests of a file's
//! bytes together with three lightweight content fingerprints: the byte size,
//! whether a NUL byte occurs, and whether a byte outside the 7-bit ASCII
//! range occurs.  All five fields are computed in a single forward pass over
//! the data, fed to the engine chunk by chunk; the result does not depend on
//! how the stream was cut into chunks.

use vstd::prelude::*;
use vstd::slice::slice_subrange;
use digest::Digest;

verus! {

/// Does the data contain a NUL byte?
pub open spec fn has_nul(data: Seq<u8>) -> bool {
    exists|j: int| 0 <= j < data.len() && data[j] == 0
}

/// Does the data contain a byte outside the 7-bit ASCII range?
pub open spec fn has_nonascii(data: Seq<u8>) -> bool {
    exists|j: int| 0 <= j < data.len() && data[j] >= 0x80
}

pub proof fn lemma_flags_concat(a: Seq<u8>, b: Seq<u8>)
    ensures
        has_nul(a + b) == (has_nul(a) || has_nul(b)),
        has_nonascii(a + b) == (has_nonascii(a) || has_nonascii(b)),
{
    if has_nul(a) {
        let j = choose|j: int| 0 <= j < a.len() && a[j] == 0;
        assert((a + b)[j] == 0);
    }
    if has_nul(b) {
        let j = choose|j: int| 0 <= j < b.len() && b[j] == 0;
        assert((a + b)[a.len() + j] == 0);
    }
    if has_nul(a + b) {
        let j = choose|j: int| 0 <= j < (a + b).len() && (a + b)[j] == 0;
        if j < a.len() {
            assert(a[j] == 0);
        } else {
            assert(b[j - a.len()] == 0);
        }
    }
    if has_nonascii(a) {
        let j = choose|j: int| 0 <= j < a.len() && a[j] >= 0x80;
        assert((a + b)[j] >= 0x80);
    }
    if has_nonascii(b) {
        let j = choose|j: int| 0 <= j < b.len() && b[j] >= 0x80;
        assert((a + b)[a.len() + j] >= 0x80);
    }
    if has_nonascii(a + b) {
        let j = choose|j: int| 0 <= j < (a + b).len() && (a + b)[j] >= 0x80;
        if j < a.len() {
            assert(a[j] >= 0x80);
        } else {
            assert(b[j - a.len()] >= 0x80);
        }
    }
}

/// The SHA-256 digest of a byte stream.  What the digest is on given bytes is
/// not stated here; only that it is a function of the bytes alone.
pub uninterp spec fn sha256_of(data: Seq<u8>) -> Seq<u8>;

/// The SHA3-256 digest of a byte stream.
pub uninterp spec fn sha3_256_of(data: Seq<u8>) -> Seq<u8>;

/// The bytes a SHA-256 hasher has absorbed so far.
pub uninterp spec fn sha256_fed(h: sha2::Sha256) -> Seq<u8>;

/// The bytes a SHA3-256 hasher has absorbed so far.
pub uninterp spec fn sha3_fed(h: sha3::Sha3_256) -> Seq<u8>;

/// Declares `sha2::Sha256`, the streaming SHA-256 hasher, as an opaque
/// outside type; `sha256_fed` names what it has absorbed.
#[verifier::external_type_specification]
#[verifier::external_body]
pub struct ExSha256(sha2::Sha256);

/// Declares `sha3::Sha3_256`, the streaming SHA3-256 hasher, as an opaque
/// outside type; `sha3_fed` names what it has absorbed.
#[verifier::external_type_specification]
#[verifier::external_body]
pub struct ExSha3_256(sha3::Sha3_256);

/// Relies on `sha2::Sha256`'s `Default`: a fresh hasher has absorbed nothing.
#[verifier::external_body]
fn sha256_new() -> (h: sha2::Sha256)
    ensures
        sha256_fed(h) == Seq::<u8>::empty(),
{
    sha2::Sha256::default()
}

/// Relies on `digest::Digest::input` for `sha2::Sha256`: absorbing a chunk
/// appends it to the absorbed stream.
#[verifier::external_body]
fn sha256_input(h: &mut sha2::Sha256, data: &[u8])
    ensures
        sha256_fed(*final(h)) == sha256_fed(*old(h)) + data@,
{
    h.input(data);
}

/// Relies on `digest::Digest::result` for `sha2::Sha256`: the digest is 32
/// bytes and depends on the absorbed stream alone.
#[verifier::external_body]
fn sha256_result(h: sha2::Sha256) -> (r: Vec<u8>)
    ensures
        r@ == sha256_of(sha256_fed(h)),
        r@.len() == 32,
{
    h.result().as_slice().to_vec()
}

/// Relies on `sha3::Sha3_256`'s `Default`: a fresh hasher has absorbed nothing.
#[verifier::external_body]
fn sha3_new() -> (h: sha3::Sha3_256)
    ensures
        sha3_fed(h) == Seq::<u8>::empty(),
{
    sha3::Sha3_256::default()
}

/// Relies on `digest::Digest::input` for `sha3::Sha3_256`: absorbing a chunk
/// appends it to the absorbed stream.
#[verifier::external_body]
fn sha3_input(h: &mut sha3::Sha3_256, data: &[u8])
    ensures
        sha3_fed(*final(h)) == sha3_fed(*old(h)) + data@,
{
    h.input(data);
}

/// Relies on `digest::Digest::result` for `sha3::Sha3_256`: the digest is 32
/// bytes and depends on the absorbed stream alone.
#[verifier::external_body]
fn sha3_256_result(h: sha3::Sha3_256) -> (r: Vec<u8>)
    ensures
        r@ == sha3_256_of(sha3_fed(h)),
        r@.len() == 32,
{
    h.result().as_slice().to_vec()
}

/// One cryptographic digest value, as raw bytes.
#[derive(Debug, Clone, PartialEq, Eq)]
pub struct HashSum(pub Vec<u8>);

impl View for HashSum {
    type V = Seq<u8>;

    open spec fn view(&self) -> Seq<u8> {
        self.0@
    }
}

/// The per-file fingerprint record.
#[derive(Debug, Clone, PartialEq, Eq)]
pub struct Metrics {
    /// SHA-256 digest of the file's bytes.
    pub sha2: HashSum,
    /// SHA3-256 digest of the file's bytes.
    pub sha3: HashSum,
    /// File size in bytes.
    pub size: u64,
    /// Does the file contain a NUL byte?
    pub nul: bool,
    /// Does the file contain non-ASCII bytes?
    pub nonascii: bool,
}

/// The mathematical model of a `Metrics` record.
pub struct MetricsV {
    pub sha2: Seq<u8>,
    pub sha3: Seq<u8>,
    pub size: nat,
    pub nul: bool,
    pub nonascii: bool,
}

impl View for Metrics {
    type V = MetricsV;

    open spec fn view(&self) -> MetricsV {
        MetricsV {
            sha2: self.sha2@,
            sha3: self.sha3@,
            size: self.size as nat,
            nul: self.nul,
            nonascii: self.nonascii,
        }
    }
}

/// The metrics record that a byte stream determines.
pub open spec fn spec_metrics_of(data: Seq<u8>) -> MetricsV {
    MetricsV {
        sha2: sha256_of(data),
        sha3: sha3_256_of(data),
        size: data.len(),
        nul: has_nul(data),
        nonascii: has_nonascii(data),
    }
}

/// Accumulates the byte count of the stream.
pub struct EngineSize(pub u64);

impl EngineSize {
    pub fn input(&mut self, input: &[u8])
        requires
            old(self).0 + input@.len() <= u64::MAX,
        ensures
            final(self).0 == old(self).0 + input@.len(),
    {
        self.0 += input.len() as u64;
    }

    pub fn result(self) -> (r: u64)
        ensures
            r == self.0,
    {
        self.0
    }
}

/// Accumulates whether any chunk so far contained a NUL byte.
pub struct EngineNul(pub bool);

impl EngineNul {
    pub fn input(&mut self, input: &[u8])
        ensures
            final(self).0 == (old(self).0 || has_nul(input@)),
    {
        self.0 = self.0 || contains_nul(input);
    }

    pub fn result(self) -> (r: bool)
        ensures
            r == self.0,
    {
        self.0
    }
}

/// Accumulates whether any chunk so far contained a non-ASCII byte.
pub struct EngineNonascii(pub bool);

impl EngineNonascii {
    pub fn input(&mut self, input: &[u8])
        ensures
            final(self).0 == (old(self).0 || has_nonascii(input@)),
    {
        self.0 = self.0 || contains_nonascii(input);
    }

    pub fn result(self) -> (r: bool)
        ensures
            r == self.0,
    {
        self.0
    }
}

fn contains_nul(data: &[u8]) -> (r: bool)
    ensures
        r == has_nul(data@),
{
    let mut i: usize = 0;
    let mut found = false;
    while i < data.len()
        invariant
            0 <= i <= data@.len(),
            found == exists|j: int| 0 <= j < i && data@[j] == 0,
        decreases data@.len() - i,
    {
        if *vstd::slice::slice_index_get(data, i) == 0 {
            found = true;
            proof {
                assert(data@[i as int] == 0);
            }
        }
        i += 1;
    }
    found
}

fn contains_nonascii(data: &[u8]) -> (r: bool)
    ensures
        r == has_nonascii(data@),
{
    let mut i: usize = 0;
    let mut found = false;
    while i < data.len()
        invariant
            0 <= i <= data@.len(),
            found == exists|j: int| 0 <= j < i && data@[j] >= 0x80,
        decreases data@.len() - i,
    {
        if *vstd::slice::slice_index_get(data, i) >= 0x80 {
            found = true;
            proof {
                assert(data@[i as int] >= 0x80);
            }
        }
        i += 1;
    }
    found
}

/// The streaming metrics engine: both digest accumulators and the three
/// lightweight fingerprint accumulators, all fed from the same single pass.
pub struct Engines {
    sha2: sha2::Sha256,
    sha3: sha3::Sha3_256,
    size: EngineSize,
    nul: EngineNul,
    nonascii: EngineNonascii,
}

impl Engines {
    /// The bytes this engine has absorbed so far.
    pub closed spec fn fed(self) -> Seq<u8> {
        sha256_fed(self.sha2)
    }

    /// All five accumulators agree on the absorbed stream.
    pub closed spec fn wf(self) -> bool {
        &&& sha3_fed(self.sha3) == self.fed()
        &&& self.size.0 == self.fed().len()
        &&& self.nul.0 == has_nul(self.fed())
        &&& self.nonascii.0 == has_nonascii(self.fed())
    }

    pub fn new() -> (e: Engines)
        ensures
            e.wf(),
            e.fed() == Seq::<u8>::empty(),
    {
        Engines {
            sha2: sha256_new(),
            sha3: sha3_new(),
            size: EngineSize(0),
            nul: EngineNul(false),
            nonascii: EngineNonascii(false),
        }
    }

    /// Feed one chunk of the stream into every accumulator.
    pub fn input(&mut self, data: &[u8])
        requires
            old(self).wf(),
            old(self).fed().len() + data@.len() <= u64::MAX,
        ensures
            final(self).wf(),
            final(self).fed() == old(self).fed() + data@,
    {
        proof {
            lemma_flags_concat(old(self).fed(), data@);
        }
        sha256_input(&mut self.sha2, data);
        sha3_input(&mut self.sha3, data);
        self.size.input(data);
        self.nul.input(data);
        self.nonascii.input(data);
    }

    /// Extract the finished metrics record.
    pub fn result(self) -> (m: Metrics)
        requires
            self.wf(),
        ensures
            m@ == spec_metrics_of(self.fed()),
    {
        let Engines { sha2: h2, sha3: h3, size, nul, nonascii } = self;
        let d2 = sha256_result(h2);
        let d3 = sha3_256_result(h3);
        Metrics {
            sha2: HashSum(d2),
            sha3: HashSum(d3),
            size: size.result(),
            nul: nul.result(),
            nonascii: nonascii.result(),
        }
    }
}

/// Compute the metrics of a byte stream held in memory, feeding it to the
/// engine in bounded-size chunks.
pub fn compute_metrics(data: &[u8]) -> (m: Metrics)
    requires
        data@.len() <= u64::MAX,
    ensures
        m@ == spec_metrics_of(data@),
{
    let mut engines = Engines::new();
    let len = data.len();
    let mut i: usize = 0;
    while i < len
        invariant
            0 <= i <= len,
            len == data@.len(),
            len <= u64::MAX,
            engines.wf(),
            engines.fed() == data@.subrange(0, i as int),
        decreases len - i,
    {
        let n: usize = if len - i < 4096 {
            len - i
        } else {
            4096
        };
        let chunk = slice_subrange(data, i, i + n);
        engines.input(chunk);
        proof {
            assert(data@.subrange(0, i as int) + data@.subrange(i as int, (i + n) as int)
                =~= data@.subrange(0, (i + n) as int));
        }
        i += n;
    }
    proof {
        assert(data@.subrange(0, data@.len() as int) =~= data@);
    }
    engines.result()
}

/// Determinism of the metrics engine: two records computed from the same
/// byte stream are identical in every field.
pub proof fn lemma_metrics_deterministic(m1: Metrics, m2: Metrics, data: Seq<u8>)
    requires
        m1@ == spec_metrics_of(data),
        m2@ == spec_metrics_of(data),
    ensures
        m1@ == m2@,
{
}

/// Changing a single byte without crossing the 0x00 or 0x80 boundary leaves
/// the NUL flag, the non-ASCII flag and the size unchanged.
pub proof fn lemma_flags_single_byte(a: Seq<u8>, b: Seq<u8>, i: int)
    requires
        a.len() == b.len(),
        0 <= i < a.len(),
        forall|j: int| 0 <= j < a.len() && j != i ==> a[j] == b[j],
        (a[i] == 0) == (b[i] == 0),
        (a[i] >= 0x80) == (b[i] >= 0x80),
    ensures
        spec_metrics_of(a).nul == spec_metrics_of(b).nul,
        spec_metrics_of(a).nonascii == spec_metrics_of(b).nonascii,
        spec_metrics_of(a).size == spec_metrics_of(b).size,
{
    if has_nul(a) {
        let j = choose|j: int| 0 <= j < a.len() && a[j] == 0;
        assert(b[j] == 0);
    }
    if has_nul(b) {
        let j = choose|j: int| 0 <= j < b.len() && b[j] == 0;
        assert(a[j] == 0);
    }
    if has_nonascii(a) {
        let j = choose|j: int| 0 <= j < a.len() && a[j] >= 0x80;
        assert(b[j] >= 0x80);
    }
    if has_nonascii(b) {
        let j = choose|j: int| 0 <= j < b.len() && b[j] >= 0x80;
        assert(a[j] >= 0x80);
    }
}

} // verus!
