//! Streaming digests of file contents. Each digest function is fed chunk by
//! chunk, so a file never needs to be held in memory whole.
use vstd::prelude::*;

use crate::algo::Algorithm;

verus! {

#[verifier::external_type_specification]
#[verifier::external_body]
pub struct ExBlake3Hasher(blake3::Hasher);

/// The bytes a BLAKE3 hasher has been fed.
pub uninterp spec fn blake3_fed(h: blake3::Hasher) -> Seq<u8>;

/// The BLAKE3 hash of some bytes.
pub uninterp spec fn blake3_digest(data: Seq<u8>) -> Seq<u8>;

/// Relies on blake3::Hasher::new: a hasher that has been fed nothing.
#[verifier::external_body]
fn blake3_new() -> (r: blake3::Hasher)
    ensures
        blake3_fed(r) == Seq::<u8>::empty(),
{
    blake3::Hasher::new()
}

/// Relies on blake3::Hasher::update: the input follows what was fed before.
#[verifier::external_body]
fn blake3_update(h: &mut blake3::Hasher, data: &[u8])
    ensures
        blake3_fed(*final(h)) == blake3_fed(*old(h)) + data@,
{
    h.update(data);
}

/// Relies on blake3::Hasher::finalize: the 32-byte hash of everything fed.
#[verifier::external_body]
fn blake3_finalize(h: &blake3::Hasher) -> (r: Vec<u8>)
    ensures
        r@ == blake3_digest(blake3_fed(*h)),
        r@.len() == 32,
{
    h.finalize().as_bytes().to_vec()
}

/// An MD5 hasher (`md5::Md5`, through `digest::Digest`).
#[verifier::external_body]
pub struct Md5State {
    inner: md5::Md5,
}

/// The bytes an MD5 hasher has been fed.
pub uninterp spec fn md5_fed(h: Md5State) -> Seq<u8>;

/// The MD5 digest of some bytes.
pub uninterp spec fn md5_digest(data: Seq<u8>) -> Seq<u8>;

/// Relies on digest::Digest::new for md5::Md5: a hasher fed nothing.
#[verifier::external_body]
fn md5_new() -> (r: Md5State)
    ensures
        md5_fed(r) == Seq::<u8>::empty(),
{
    Md5State { inner: <md5::Md5 as digest::Digest>::new() }
}

/// Relies on digest::Digest::update for md5::Md5: the input follows what was fed before.
#[verifier::external_body]
fn md5_update(h: &mut Md5State, data: &[u8])
    ensures
        md5_fed(*final(h)) == md5_fed(*old(h)) + data@,
{
    digest::Digest::update(&mut h.inner, data);
}

/// Relies on digest::Digest::finalize for md5::Md5: the 16-byte digest of everything fed.
#[verifier::external_body]
fn md5_finalize(h: Md5State) -> (r: Vec<u8>)
    ensures
        r@ == md5_digest(md5_fed(h)),
        r@.len() == 16,
{
    digest::Digest::finalize(h.inner).to_vec()
}

/// A SHA-1 hasher (`sha1::Sha1`, through `digest::Digest`).
#[verifier::external_body]
pub struct Sha1State {
    inner: sha1::Sha1,
}

/// The bytes a SHA-1 hasher has been fed.
pub uninterp spec fn sha1_fed(h: Sha1State) -> Seq<u8>;

/// The SHA-1 digest of some bytes.
pub uninterp spec fn sha1_digest(data: Seq<u8>) -> Seq<u8>;

/// Relies on digest::Digest::new for sha1::Sha1: a hasher fed nothing.
#[verifier::external_body]
fn sha1_new() -> (r: Sha1State)
    ensures
        sha1_fed(r) == Seq::<u8>::empty(),
{
    Sha1State { inner: <sha1::Sha1 as digest::Digest>::new() }
}

/// Relies on digest::Digest::update for sha1::Sha1: the input follows what was fed before.
#[verifier::external_body]
fn sha1_update(h: &mut Sha1State, data: &[u8])
    ensures
        sha1_fed(*final(h)) == sha1_fed(*old(h)) + data@,
{
    digest::Digest::update(&mut h.inner, data);
}

/// Relies on digest::Digest::finalize for sha1::Sha1: the 20-byte digest of everything fed.
#[verifier::external_body]
fn sha1_finalize(h: Sha1State) -> (r: Vec<u8>)
    ensures
        r@ == sha1_digest(sha1_fed(h)),
        r@.len() == 20,
{
    digest::Digest::finalize(h.inner).to_vec()
}

/// A SHA-256 hasher (`sha2::Sha256`, through `digest::Digest`).
#[verifier::external_body]
pub struct Sha256State {
    inner: sha2::Sha256,
}

/// The bytes a SHA-256 hasher has been fed.
pub uninterp spec fn sha256_fed(h: Sha256State) -> Seq<u8>;

/// The SHA-256 digest of some bytes.
pub uninterp spec fn sha256_digest(data: Seq<u8>) -> Seq<u8>;

/// Relies on digest::Digest::new for sha2::Sha256: a hasher fed nothing.
#[verifier::external_body]
fn sha256_new() -> (r: Sha256State)
    ensures
        sha256_fed(r) == Seq::<u8>::empty(),
{
    Sha256State { inner: <sha2::Sha256 as digest::Digest>::new() }
}

/// Relies on digest::Digest::update for sha2::Sha256: the input follows what was fed before.
#[verifier::external_body]
fn sha256_update(h: &mut Sha256State, data: &[u8])
    ensures
        sha256_fed(*final(h)) == sha256_fed(*old(h)) + data@,
{
    digest::Digest::update(&mut h.inner, data);
}

/// Relies on digest::Digest::finalize for sha2::Sha256: the 32-byte digest of everything fed.
#[verifier::external_body]
fn sha256_finalize(h: Sha256State) -> (r: Vec<u8>)
    ensures
        r@ == sha256_digest(sha256_fed(h)),
        r@.len() == 32,
{
    digest::Digest::finalize(h.inner).to_vec()
}

/// A SHA-512 hasher (`sha2::Sha512`, through `digest::Digest`).
#[verifier::external_body]
pub struct Sha512State {
    inner: sha2::Sha512,
}

/// The bytes a SHA-512 hasher has been fed.
pub uninterp spec fn sha512_fed(h: Sha512State) -> Seq<u8>;

/// The SHA-512 digest of some bytes.
pub uninterp spec fn sha512_digest(data: Seq<u8>) -> Seq<u8>;

/// Relies on digest::Digest::new for sha2::Sha512: a hasher fed nothing.
#[verifier::external_body]
fn sha512_new() -> (r: Sha512State)
    ensures
        sha512_fed(r) == Seq::<u8>::empty(),
{
    Sha512State { inner: <sha2::Sha512 as digest::Digest>::new() }
}

/// Relies on digest::Digest::update for sha2::Sha512: the input follows what was fed before.
#[verifier::external_body]
fn sha512_update(h: &mut Sha512State, data: &[u8])
    ensures
        sha512_fed(*final(h)) == sha512_fed(*old(h)) + data@,
{
    digest::Digest::update(&mut h.inner, data);
}

/// Relies on digest::Digest::finalize for sha2::Sha512: the 64-byte digest of everything fed.
#[verifier::external_body]
fn sha512_finalize(h: Sha512State) -> (r: Vec<u8>)
    ensures
        r@ == sha512_digest(sha512_fed(h)),
        r@.len() == 64,
{
    digest::Digest::finalize(h.inner).to_vec()
}

/// The digest of `data` under an algorithm.
pub open spec fn digest_of(a: Algorithm, data: Seq<u8>) -> Seq<u8> {
    match a {
        Algorithm::Blake3 => blake3_digest(data),
        Algorithm::Md5 => md5_digest(data),
        Algorithm::Sha1 => sha1_digest(data),
        Algorithm::Sha256 => sha256_digest(data),
        Algorithm::Sha512 => sha512_digest(data),
    }
}

/// The length in bytes of an algorithm's digests.
pub open spec fn digest_len(a: Algorithm) -> nat {
    match a {
        Algorithm::Blake3 => 32,
        Algorithm::Md5 => 16,
        Algorithm::Sha1 => 20,
        Algorithm::Sha256 => 32,
        Algorithm::Sha512 => 64,
    }
}

/// The running state of one of the digest functions.
pub enum HashState {
    Blake3(blake3::Hasher),
    Md5(Md5State),
    Sha1(Sha1State),
    Sha256(Sha256State),
    Sha512(Sha512State),
}

pub open spec fn state_fed(s: HashState) -> Seq<u8> {
    match s {
        HashState::Blake3(h) => blake3_fed(h),
        HashState::Md5(h) => md5_fed(h),
        HashState::Sha1(h) => sha1_fed(h),
        HashState::Sha256(h) => sha256_fed(h),
        HashState::Sha512(h) => sha512_fed(h),
    }
}

pub open spec fn state_algorithm(s: HashState) -> Algorithm {
    match s {
        HashState::Blake3(_) => Algorithm::Blake3,
        HashState::Md5(_) => Algorithm::Md5,
        HashState::Sha1(_) => Algorithm::Sha1,
        HashState::Sha256(_) => Algorithm::Sha256,
        HashState::Sha512(_) => Algorithm::Sha512,
    }
}

/// Hashes a file's contents as they are read, counting the bytes.
pub struct FileHasher {
    state: HashState,
    size: u64,
}

impl FileHasher {
    /// The bytes fed so far.
    pub closed spec fn fed(&self) -> Seq<u8> {
        state_fed(self.state)
    }

    pub closed spec fn algorithm(&self) -> Algorithm {
        state_algorithm(self.state)
    }

    pub closed spec fn wf(&self) -> bool {
        self.size == state_fed(self.state).len()
    }

    /// A hasher for `algo` that has read nothing.
    pub fn new(algo: Algorithm) -> (r: Self)
        ensures
            r.wf(),
            r.algorithm() == algo,
            r.fed() == Seq::<u8>::empty(),
    {
        let state = match algo {
            Algorithm::Blake3 => HashState::Blake3(blake3_new()),
            Algorithm::Md5 => HashState::Md5(md5_new()),
            Algorithm::Sha1 => HashState::Sha1(sha1_new()),
            Algorithm::Sha256 => HashState::Sha256(sha256_new()),
            Algorithm::Sha512 => HashState::Sha512(sha512_new()),
        };
        FileHasher { state, size: 0 }
    }

    /// The number of bytes fed so far.
    pub fn size(&self) -> (r: u64)
        requires
            self.wf(),
        ensures
            r == self.fed().len(),
    {
        self.size
    }

    /// Feeds the next chunk of the file.
    pub fn update(&mut self, chunk: &[u8])
        requires
            old(self).wf(),
            old(self).fed().len() + chunk@.len() <= u64::MAX,
        ensures
            final(self).wf(),
            final(self).algorithm() == old(self).algorithm(),
            final(self).fed() == old(self).fed() + chunk@,
    {
        match &mut self.state {
            HashState::Blake3(h) => blake3_update(h, chunk),
            HashState::Md5(h) => md5_update(h, chunk),
            HashState::Sha1(h) => sha1_update(h, chunk),
            HashState::Sha256(h) => sha256_update(h, chunk),
            HashState::Sha512(h) => sha512_update(h, chunk),
        }
        self.size = self.size + chunk.len() as u64;
    }

    /// The number of bytes read and the digest of all of them.
    pub fn finalize(self) -> (r: (u64, Vec<u8>))
        requires
            self.wf(),
        ensures
            r.0 == self.fed().len(),
            r.1@ == digest_of(self.algorithm(), self.fed()),
            r.1@.len() == digest_len(self.algorithm()),
    {
        let digest = match self.state {
            HashState::Blake3(h) => blake3_finalize(&h),
            HashState::Md5(h) => md5_finalize(h),
            HashState::Sha1(h) => sha1_finalize(h),
            HashState::Sha256(h) => sha256_finalize(h),
            HashState::Sha512(h) => sha512_finalize(h),
        };
        (self.size, digest)
    }
}

impl Algorithm {
    /// The digest of a byte string held in memory.
    pub fn hash_bytes(&self, data: &[u8]) -> (r: Vec<u8>)
        requires
            data@.len() <= u64::MAX,
        ensures
            r@ == digest_of(*self, data@),
            r@.len() == digest_len(*self),
    {
        let mut h = FileHasher::new(*self);
        h.update(data);
        proof {
            assert(Seq::<u8>::empty() + data@ =~= data@);
        }
        let (_, d) = h.finalize();
        d
    }
}

} // verus!
