//! BIP39 seed derivation and BIP32 master-key checks of candidate passphrases

use std::str::FromStr;

use hmac::{KeyInit, Mac};
use vstd::prelude::*;

use crate::bytes::bytes_eq;
use crate::domain::{
    BackendKind, CandidateBatch, MasterXpubTarget, SecretMnemonic, TargetFingerprint, VerificationTarget,
};
use crate::error::RecoverError;
use crate::settings::DEFAULT_MAX_PASSPHRASE_BYTES;
use crate::text::{owned, utf8};

verus! {

/// PBKDF2-HMAC-SHA512 output, as computed by `pbkdf2::pbkdf2_hmac::<Sha512>`
pub uninterp spec fn pbkdf2_sha512_of(password: Seq<u8>, salt: Seq<u8>, rounds: u32) -> Seq<u8>;

/// HMAC-SHA512 of data under a key, as computed by `hmac::Hmac<Sha512>`
pub uninterp spec fn hmac_sha512_of(key: Seq<u8>, data: Seq<u8>) -> Seq<u8>;

/// BIP32 master public-key fingerprint of a seed, or the error text of
/// `bip32::XPrv::new`
pub uninterp spec fn master_fingerprint_of(seed: Seq<u8>) -> Result<Seq<u8>, Seq<char>>;

/// Compressed BIP32 master public key of a seed, or the error text of
/// `bip32::XPrv::new`
pub uninterp spec fn master_public_key_of(seed: Seq<u8>) -> Result<Seq<u8>, Seq<char>>;

/// Normalized English mnemonic text, or the error text of
/// `bip39::Mnemonic::parse_in`
pub uninterp spec fn english_mnemonic_of(text: Seq<char>) -> Result<Seq<char>, Seq<char>>;

/// BIP39 seed of an English mnemonic text and a passphrase, as computed by
/// `bip39::Mnemonic::to_seed`, if the text parses
pub uninterp spec fn bip39_seed_of(mnemonic: Seq<char>, passphrase: Seq<char>) -> Option<Seq<u8>>;

/// Decoded fields of a serialized extended public key: depth, parent
/// fingerprint, child number, chain code, compressed key and fingerprint, or
/// the error text of `bip32::XPub::from_str`
pub uninterp spec fn xpub_fields_of(text: Seq<char>) -> Result<(u8, Seq<u8>, u32, Seq<u8>, Seq<u8>, Seq<u8>), Seq<char>>;

/// PBKDF2-HMAC-SHA512 with a 64-byte output
///
/// Calls `pbkdf2::pbkdf2_hmac::<sha2::Sha512>`; the contract names the
/// output, which fills the 64-byte buffer passed in.
#[verifier::external_body]
fn pbkdf2_sha512(password: &[u8], salt: &[u8], rounds: u32) -> (output: [u8; 64])
    ensures
        output@ == pbkdf2_sha512_of(password@, salt@, rounds),
{
    let mut output = [0u8; 64];
    pbkdf2::pbkdf2_hmac::<sha2::Sha512>(password, salt, rounds, &mut output);
    output
}

/// HMAC-SHA512 of data
///
/// Calls `hmac::Hmac::<sha2::Sha512>`; HMAC accepts keys of any length, so
/// `new_from_slice` does not fail. The contract names the 64-byte tag.
#[verifier::external_body]
fn hmac_sha512(key: &[u8], data: &[u8]) -> (tag: Vec<u8>)
    ensures
        tag@ == hmac_sha512_of(key@, data@),
        tag@.len() == 64,
{
    match hmac::Hmac::<sha2::Sha512>::new_from_slice(key) {
        Ok(mut mac) => {
            mac.update(data);
            mac.finalize().into_bytes().to_vec()
        },
        Err(_) => vec![0u8; 64],
    }
}

/// BIP32 master public-key fingerprint of a seed
///
/// Calls `bip32::XPrv::new`, then `public_key().fingerprint()`. `XPrv::new`
/// rejects seeds whose length is not 16, 32 or 64 bytes.
#[verifier::external_body]
fn master_fingerprint(seed: &[u8]) -> (result: Result<[u8; 4], String>)
    ensures
        match result {
            Ok(fingerprint) => master_fingerprint_of(seed@) == Ok::<Seq<u8>, Seq<char>>(fingerprint@),
            Err(text) => master_fingerprint_of(seed@) == Err::<Seq<u8>, Seq<char>>(text@),
        },
        !(seed@.len() == 16 || seed@.len() == 32 || seed@.len() == 64) ==> result is Err,
{
    match bip32::XPrv::new(seed) {
        Ok(key) => Ok(key.public_key().fingerprint()),
        Err(error) => Err(error.to_string()),
    }
}

/// Compressed BIP32 master public key of a seed
///
/// Calls `bip32::XPrv::new`, then `public_key().to_bytes()`.
#[verifier::external_body]
fn master_public_key(seed: &[u8]) -> (result: Result<[u8; 33], String>)
    ensures
        match result {
            Ok(key) => master_public_key_of(seed@) == Ok::<Seq<u8>, Seq<char>>(key@),
            Err(text) => master_public_key_of(seed@) == Err::<Seq<u8>, Seq<char>>(text@),
        },
{
    match bip32::XPrv::new(seed) {
        Ok(key) => Ok(key.public_key().to_bytes()),
        Err(error) => Err(error.to_string()),
    }
}

/// Parse an English BIP39 mnemonic
///
/// Calls `bip39::Mnemonic::parse_in` with the English word list and gives
/// back the normalized phrase (`to_string`), or the error text.
#[verifier::external_body]
pub(crate) fn parse_english_mnemonic(text: &str) -> (result: Result<String, String>)
    ensures
        match result {
            Ok(phrase) => english_mnemonic_of(text@) == Ok::<Seq<char>, Seq<char>>(phrase@),
            Err(message) => english_mnemonic_of(text@) == Err::<Seq<char>, Seq<char>>(message@),
        },
{
    match bip39::Mnemonic::parse_in(bip39::Language::English, text) {
        Ok(mnemonic) => Ok(mnemonic.to_string()),
        Err(error) => Err(error.to_string()),
    }
}

/// BIP39 seed of a mnemonic text and passphrase
///
/// Calls `bip39::Mnemonic::parse_in` (English) and then `to_seed`, which
/// normalizes the passphrase before stretching it.
#[verifier::external_body]
fn bip39_seed(mnemonic: &str, passphrase: &str) -> (seed: Option<[u8; 64]>)
    ensures
        match seed {
            Some(s) => bip39_seed_of(mnemonic@, passphrase@) == Some(s@),
            None => bip39_seed_of(mnemonic@, passphrase@) is None,
        },
{
    match bip39::Mnemonic::parse_in(bip39::Language::English, mnemonic) {
        Ok(parsed) => Some(parsed.to_seed(passphrase)),
        Err(_) => None,
    }
}

/// Decoded fields of a serialized extended public key
pub struct XpubFields {
    pub depth: u8,
    pub parent_fingerprint: [u8; 4],
    pub child_number: u32,
    pub chain_code: [u8; 32],
    pub public_key: [u8; 33],
    pub fingerprint: [u8; 4],
}

/// Decode a serialized extended public key
///
/// Calls `bip32::XPub::from_str` and reads its attributes, compressed key
/// (`to_bytes`) and fingerprint; an error is given back as its text.
#[verifier::external_body]
pub(crate) fn decode_xpub(text: &str) -> (result: Result<XpubFields, String>)
    ensures
        match result {
            Ok(f) => xpub_fields_of(text@) == Ok::<(u8, Seq<u8>, u32, Seq<u8>, Seq<u8>, Seq<u8>), Seq<char>>(
                (f.depth, f.parent_fingerprint@, f.child_number, f.chain_code@, f.public_key@, f.fingerprint@),
            ),
            Err(message) => xpub_fields_of(text@) == Err::<(u8, Seq<u8>, u32, Seq<u8>, Seq<u8>, Seq<u8>), Seq<char>>(
                message@,
            ),
        },
{
    match bip32::XPub::from_str(text) {
        Ok(xpub) => Ok(
            XpubFields {
                depth: xpub.attrs().depth,
                parent_fingerprint: xpub.attrs().parent_fingerprint,
                child_number: xpub.attrs().child_number.0,
                chain_code: xpub.attrs().chain_code,
                public_key: xpub.to_bytes(),
                fingerprint: xpub.fingerprint(),
            },
        ),
        Err(error) => Err(error.to_string()),
    }
}

/// Number of worker threads of the current thread pool
///
/// Calls `rayon::current_num_threads`, which depends on the machine and the
/// environment; nothing is claimed of it.
#[verifier::external_body]
fn worker_threads() -> (threads: usize) {
    rayon::current_num_threads()
}

/// Salt of a BIP39 seed: the bytes of "mnemonic" followed by the passphrase
pub open spec fn seed_salt(passphrase: Seq<u8>) -> Seq<u8> {
    seq![109u8, 110, 101, 109, 111, 110, 105, 99] + passphrase
}

/// Number of PBKDF2 rounds of a BIP39 seed
pub const SEED_ROUNDS: u32 = 2048;

/// BIP39 seed of a normalized mnemonic and a passphrase given as bytes
pub open spec fn seed_of(mnemonic: Seq<u8>, passphrase: Seq<u8>) -> Seq<u8> {
    pbkdf2_sha512_of(mnemonic, seed_salt(passphrase), SEED_ROUNDS)
}

/// Derive the BIP39 seed of raw passphrase bytes
pub fn derive_seed(mnemonic: &[u8], passphrase: &[u8]) -> (seed: [u8; 64])
    ensures
        seed@ == seed_of(mnemonic@, passphrase@),
{
    let mut salt: Vec<u8> = Vec::new();
    salt.push(109u8);
    salt.push(110u8);
    salt.push(101u8);
    salt.push(109u8);
    salt.push(111u8);
    salt.push(110u8);
    salt.push(105u8);
    salt.push(99u8);
    let ghost head = salt@;
    let mut i: usize = 0;
    while i < passphrase.len()
        invariant
            i <= passphrase@.len(),
            salt@ == head + passphrase@.take(i as int),
        decreases passphrase@.len() - i,
    {
        salt.push(passphrase[i]);
        i = i + 1;
        assert(salt@ =~= head + passphrase@.take(i as int));
    }
    proof {
        assert(passphrase@.take(passphrase@.len() as int) =~= passphrase@);
        assert(salt@ =~= seed_salt(passphrase@));
    }
    pbkdf2_sha512(mnemonic, salt.as_slice(), SEED_ROUNDS)
}

/// Secret BIP39 seeds corresponding positionally to a candidate batch
pub struct SeedBatch(Vec<[u8; 64]>);

impl SeedBatch {
    pub closed spec fn view_seeds(&self) -> Seq<Seq<u8>> {
        self.0@.map_values(|s: [u8; 64]| s@)
    }

    /// Construct a seed batch after backend derivation
    pub fn new(seeds: Vec<[u8; 64]>) -> (batch: Self)
        ensures
            batch.view_seeds() == seeds@.map_values(|s: [u8; 64]| s@),
    {
        SeedBatch(seeds)
    }

    /// Borrow the derived seeds
    pub fn as_slice(&self) -> (seeds: &[[u8; 64]])
        ensures
            seeds@.map_values(|s: [u8; 64]| s@) == self.view_seeds(),
    {
        self.0.as_slice()
    }
}

/// Audited CPU seed derivation using PBKDF2-HMAC-SHA512
pub struct CpuSeedDeriver {
    mnemonic: Vec<u8>,
    batch_size: usize,
}

/// Candidates per CPU batch for a number of worker threads
pub open spec fn cpu_batch_size(threads: usize) -> nat {
    let workers = if threads == 0 {
        1
    } else {
        threads as nat
    };
    if workers * 128 > usize::MAX {
        usize::MAX as nat
    } else {
        workers * 128
    }
}

impl CpuSeedDeriver {
    pub closed spec fn mnemonic_view(&self) -> Seq<u8> {
        self.mnemonic@
    }

    pub closed spec fn batch_size_view(&self) -> usize {
        self.batch_size
    }

    /// Parse a secret mnemonic for repeated derivations
    pub fn new(mnemonic: &SecretMnemonic) -> (result: Result<Self, RecoverError>)
        ensures
            match result {
                Ok(deriver) => english_mnemonic_of(mnemonic.view_text()) matches Ok(phrase) && deriver.mnemonic_view()
                    == utf8_chars(phrase) && deriver.batch_size_view() > 0,
                Err(error) => english_mnemonic_of(mnemonic.view_text()) matches Err(message) && error
                    matches RecoverError::InvalidMnemonic(shown) && shown@ == message,
            },
    {
        let phrase = match parse_english_mnemonic(mnemonic.expose()) {
            Ok(phrase) => phrase,
            Err(message) => return Err(RecoverError::InvalidMnemonic(message)),
        };
        let threads = worker_threads();
        let workers = if threads == 0 {
            1
        } else {
            threads
        };
        let batch_size = match workers.checked_mul(128) {
            Some(size) => size,
            None => usize::MAX,
        };
        Ok(CpuSeedDeriver { mnemonic: crate::text::str_bytes(phrase.as_str()), batch_size })
    }

    /// Backend identity recorded in benchmarks and state
    pub fn kind(&self) -> (kind: BackendKind)
        ensures
            kind == BackendKind::Cpu,
    {
        BackendKind::Cpu
    }

    /// Batch size suitable for this backend
    pub fn preferred_batch_size(&self) -> (size: usize)
        ensures
            size == self.batch_size_view(),
    {
        self.batch_size
    }

    /// Apply a benchmark-selected batch size; a CPU takes no workgroup size
    pub fn configure(&mut self, batch_size: usize, workgroup_size: Option<u32>) -> (result: Result<(), RecoverError>)
        ensures
            result is Ok <==> batch_size > 0 && workgroup_size is None,
            result is Ok ==> final(self).batch_size_view() == batch_size,
            result is Err ==> final(self).batch_size_view() == old(self).batch_size_view(),
            final(self).mnemonic_view() == old(self).mnemonic_view(),
            result matches Err(error) ==> error is InvalidSetting,
    {
        if batch_size == 0 {
            return Err(RecoverError::InvalidSetting(owned("backend batch size must be greater than zero")));
        }
        if workgroup_size.is_some() {
            return Err(RecoverError::InvalidSetting(owned("CPU backend does not accept a workgroup size")));
        }
        self.batch_size = batch_size;
        Ok(())
    }

    /// Derive one seed for every candidate of the batch, in order
    pub fn derive_seeds(&self, candidates: &CandidateBatch) -> (result: Result<SeedBatch, RecoverError>)
        ensures
            result matches Ok(seeds) && seeds.view_seeds().len() == candidates.candidates_view().len() && forall|i: int|
                0 <= i < candidates.candidates_view().len() ==> #[trigger] seeds.view_seeds()[i] == seed_of(
                    self.mnemonic_view(),
                    utf8(candidates.candidates_view()[i].passphrase_view()),
                ),
    {
        let all = candidates.candidates();
        let mut seeds: Vec<[u8; 64]> = Vec::new();
        let mut i: usize = 0;
        while i < all.len()
            invariant
                i <= all@.len(),
                all@ == candidates.candidates_view(),
                seeds@.len() == i,
                forall|j: int|
                    0 <= j < i ==> (#[trigger] seeds@[j])@ == seed_of(self.mnemonic@, utf8(all@[j].passphrase_view())),
            decreases all@.len() - i,
        {
            let passphrase = all[i].passphrase().as_bytes();
            seeds.push(derive_seed(self.mnemonic.as_slice(), passphrase));
            i = i + 1;
        }
        let batch = SeedBatch::new(seeds);
        proof {
            assert forall|j: int| 0 <= j < all@.len() implies #[trigger] batch.view_seeds()[j] == seed_of(
                self.mnemonic@,
                utf8(all@[j].passphrase_view()),
            ) by {
                assert(batch.view_seeds()[j] == seeds@[j]@);
            }
        }
        Ok(batch)
    }
}

impl CpuSeedDeriver {
    /// Derive the seeds of a batch and give back the indices, in increasing
    /// order, of the candidates that match the wallet identity
    pub fn verify(&self, candidates: &CandidateBatch, target: &VerificationTarget) -> (result: Result<
        Vec<usize>,
        RecoverError,
    >)
        ensures
            match result {
                Ok(indices) => {
                    &&& forall|a: int, b: int| 0 <= a < b < indices@.len() ==> #[trigger] indices@[a] < #[trigger] indices@[b]
                    &&& forall|k: int|
                        0 <= k < candidates.candidates_view().len() ==> (indices@.contains(k as usize)
                            <==> seed_matches_target(
                            seed_of(self.mnemonic_view(), utf8(#[trigger] candidates.candidates_view()[k].passphrase_view())),
                            *target,
                        ))
                },
                Err(error) => error is FingerprintDerivation && exists|k: int|
                    0 <= k < candidates.candidates_view().len() && seed_check_fails(
                        seed_of(self.mnemonic_view(), utf8(#[trigger] candidates.candidates_view()[k].passphrase_view())),
                        *target,
                    ),
            },
    {
        let seeds = match self.derive_seeds(candidates) {
            Ok(seeds) => seeds,
            Err(error) => return Err(error),
        };
        let result = matching_candidate_indices_for_target(&seeds, target);
        proof {
            assert forall|k: int| 0 <= k < candidates.candidates_view().len() implies seeds.view_seeds()[k] == seed_of(
                self.mnemonic_view(),
                utf8(#[trigger] candidates.candidates_view()[k].passphrase_view()),
            ) by {}
            if result is Err {
                let k = choose|k: int| 0 <= k < seeds.view_seeds().len() && seed_check_fails(#[trigger] seeds.view_seeds()[k], *target);
                assert(seeds.view_seeds()[k] == seed_of(self.mnemonic_view(), utf8(candidates.candidates_view()[k].passphrase_view())));
            }
        }
        result
    }
}

/// UTF-8 bytes of characters
pub open spec fn utf8_chars(chars: Seq<char>) -> Seq<u8> {
    vstd::utf8::encode_utf8(chars)
}

/// Derive the standard four-byte BIP32 master public-key fingerprint
pub fn fingerprint_from_seed(seed: &[u8; 64]) -> (result: Result<[u8; 4], RecoverError>)
    ensures
        match result {
            Ok(fingerprint) => master_fingerprint_of(seed@) == Ok::<Seq<u8>, Seq<char>>(fingerprint@),
            Err(error) => master_fingerprint_of(seed@) matches Err(message) && error
                matches RecoverError::FingerprintDerivation(shown) && shown@ == message,
        },
{
    match master_fingerprint(seed.as_slice()) {
        Ok(fingerprint) => Ok(fingerprint),
        Err(message) => Err(RecoverError::FingerprintDerivation(message)),
    }
}

/// The fingerprint of a seed equals the target
pub open spec fn seed_matches_fingerprint(seed: Seq<u8>, target: Seq<u8>) -> bool {
    master_fingerprint_of(seed) == Ok::<Seq<u8>, Seq<char>>(target)
}

fn same_bytes4(a: [u8; 4], b: [u8; 4]) -> (eq: bool)
    ensures
        eq == (a@ == b@),
{
    let eq = a[0] == b[0] && a[1] == b[1] && a[2] == b[2] && a[3] == b[3];
    proof {
        if eq {
            assert(a@ =~= b@);
        }
    }
    eq
}

/// Indices, in increasing order, of the seeds whose master fingerprint
/// matches the target
pub fn matching_candidate_indices(seeds: &SeedBatch, target: TargetFingerprint) -> (result: Result<
    Vec<usize>,
    RecoverError,
>)
    ensures
        match result {
            Ok(indices) => {
                &&& forall|a: int, b: int| 0 <= a < b < indices@.len() ==> #[trigger] indices@[a] < #[trigger] indices@[b]
                &&& forall|k: int|
                    0 <= k < seeds.view_seeds().len() ==> (indices@.contains(k as usize) <==> seed_matches_fingerprint(
                        #[trigger] seeds.view_seeds()[k],
                        target.view_bytes(),
                    ))
                &&& forall|k: int| 0 <= k < seeds.view_seeds().len() ==> master_fingerprint_of(#[trigger] seeds.view_seeds()[k]) is Ok
            },
            Err(error) => error is FingerprintDerivation && exists|k: int|
                0 <= k < seeds.view_seeds().len() && master_fingerprint_of(#[trigger] seeds.view_seeds()[k]) is Err,
        },
{
    let all = seeds.as_slice();
    let expected = target.bytes();
    let mut indices: Vec<usize> = Vec::new();
    let mut i: usize = 0;
    while i < all.len()
        invariant
            i <= all@.len(),
            all@.map_values(|s: [u8; 64]| s@) == seeds.view_seeds(),
            expected@ == target.view_bytes(),
            forall|a: int, b: int| 0 <= a < b < indices@.len() ==> #[trigger] indices@[a] < #[trigger] indices@[b],
            forall|a: int| 0 <= a < indices@.len() ==> #[trigger] indices@[a] < i,
            forall|k: int|
                0 <= k < i ==> (indices@.contains(k as usize) <==> seed_matches_fingerprint(
                    #[trigger] seeds.view_seeds()[k],
                    target.view_bytes(),
                )),
            forall|k: int| 0 <= k < i ==> master_fingerprint_of(#[trigger] seeds.view_seeds()[k]) is Ok,
        decreases all@.len() - i,
    {
        proof {
            assert(seeds.view_seeds()[i as int] == all@[i as int]@);
        }
        let fingerprint = match fingerprint_from_seed(&all[i]) {
            Ok(fingerprint) => fingerprint,
            Err(error) => return Err(error),
        };
        let ghost before = indices@;
        if same_bytes4(fingerprint, expected) {
            indices.push(i);
        }
        proof {
            assert forall|k: int|
                0 <= k < i + 1 implies (indices@.contains(k as usize) <==> seed_matches_fingerprint(
                    #[trigger] seeds.view_seeds()[k],
                    target.view_bytes(),
                )) by {
                if k < i {
                    if before.contains(k as usize) {
                        let t = choose|t: int| 0 <= t < before.len() && before[t] == k as usize;
                        assert(indices@[t] == k as usize);
                    }
                    if indices@.contains(k as usize) {
                        let t = choose|t: int| 0 <= t < indices@.len() && indices@[t] == k as usize;
                        if t < before.len() {
                            assert(before[t] == k as usize);
                        }
                    }
                } else {
                    if indices@.contains(k as usize) {
                        let t = choose|t: int| 0 <= t < indices@.len() && indices@[t] == k as usize;
                        if t < before.len() {
                            assert(before[t] < i);
                        }
                    }
                    if seed_matches_fingerprint(seeds.view_seeds()[k], target.view_bytes()) {
                        assert(indices@[indices@.len() - 1] == i);
                    }
                }
            }
        }
        i = i + 1;
    }
    Ok(indices)
}

/// HMAC key of BIP32 master-key generation: the bytes of "Bitcoin seed"
pub open spec fn master_hmac_key() -> Seq<u8> {
    seq![66u8, 105, 116, 99, 111, 105, 110, 32, 115, 101, 101, 100]
}

/// Chain code of the BIP32 master key of a seed: the right half of its HMAC
pub open spec fn master_chain_code_of(seed: Seq<u8>) -> Seq<u8> {
    hmac_sha512_of(master_hmac_key(), seed).subrange(32, 64)
}

/// The master chain code and the complete master public key of a seed equal
/// those of a master extended public key
pub open spec fn seed_matches_master_key(seed: Seq<u8>, chain_code: Seq<u8>, public_key: Seq<u8>) -> bool {
    &&& master_chain_code_of(seed) == chain_code
    &&& master_public_key_of(seed) == Ok::<Seq<u8>, Seq<char>>(public_key)
}

/// A seed of a candidate matches the wallet identity
pub open spec fn seed_matches_target(seed: Seq<u8>, target: VerificationTarget) -> bool {
    match target {
        VerificationTarget::Fingerprint(fingerprint) => seed_matches_fingerprint(seed, fingerprint.view_bytes()),
        VerificationTarget::MasterXpub { master_xpub, .. } => seed_matches_master_key(
            seed,
            master_xpub.chain_code_view(),
            master_xpub.public_key_view(),
        ),
    }
}

/// Checking a seed against the wallet identity fails: the master key of the
/// seed cannot be derived where it is needed
pub open spec fn seed_check_fails(seed: Seq<u8>, target: VerificationTarget) -> bool {
    match target {
        VerificationTarget::Fingerprint(_) => master_fingerprint_of(seed) is Err,
        VerificationTarget::MasterXpub { master_xpub, .. } => master_chain_code_of(seed)
            == master_xpub.chain_code_view() && master_public_key_of(seed) is Err,
    }
}

fn master_key_bytes() -> (key: Vec<u8>)
    ensures
        key@ == master_hmac_key(),
{
    let key: Vec<u8> = vec![66u8, 105, 116, 99, 111, 105, 110, 32, 115, 101, 101, 100];
    proof {
        assert(key@ =~= master_hmac_key());
    }
    key
}

/// Index of a seed when it matches a master extended public key, `None` when
/// it does not
fn master_key_match(key: &Vec<u8>, seed: &[u8; 64], target: &MasterXpubTarget) -> (result: Result<bool, RecoverError>)
    requires
        key@ == master_hmac_key(),
    ensures
        match result {
            Ok(matched) => !(master_chain_code_of(seed@) == target.chain_code_view() && master_public_key_of(seed@) is Err)
                && matched == seed_matches_master_key(seed@, target.chain_code_view(), target.public_key_view()),
            Err(error) => error is FingerprintDerivation && master_chain_code_of(seed@) == target.chain_code_view()
                && master_public_key_of(seed@) is Err,
        },
{
    let tag = hmac_sha512(key.as_slice(), seed.as_slice());
    let expected_chain_code = target.chain_code();
    let mut same_chain_code = true;
    let mut i: usize = 0;
    proof {
        assert(tag@.subrange(32, 32) =~= expected_chain_code@.take(0));
    }
    while i < 32
        invariant
            tag@.len() == 64,
            expected_chain_code@.len() == 32,
            i <= 32,
            same_chain_code == (tag@.subrange(32, 32 + i as int) == expected_chain_code@.take(i as int)),
        decreases 32 - i,
    {
        let ghost before = same_chain_code;
        if tag[32 + i] != expected_chain_code[i] {
            same_chain_code = false;
        }
        proof {
            assert(tag@.subrange(32, 32 + i + 1) =~= tag@.subrange(32, 32 + i as int).push(tag@[32 + i]));
            assert(expected_chain_code@.take(i + 1) =~= expected_chain_code@.take(i as int).push(
                expected_chain_code@[i as int],
            ));
            if !before {
                assert(tag@.subrange(32, 32 + i as int) != expected_chain_code@.take(i as int));
                if tag@.subrange(32, 32 + i + 1) == expected_chain_code@.take(i + 1) {
                    assert(tag@.subrange(32, 32 + i as int) =~= tag@.subrange(32, 32 + i + 1).drop_last());
                    assert(expected_chain_code@.take(i as int) =~= expected_chain_code@.take(i + 1).drop_last());
                }
            }
            if tag[32 + i as int] != expected_chain_code[i as int] {
                assert(tag@.subrange(32, 32 + i + 1)[i as int] != expected_chain_code@.take(i + 1)[i as int]);
            }
        }
        i = i + 1;
    }
    proof {
        assert(expected_chain_code@.take(32) =~= expected_chain_code@);
    }
    if !same_chain_code {
        return Ok(false);
    }
    let public_key = match master_public_key(seed.as_slice()) {
        Ok(public_key) => public_key,
        Err(message) => return Err(RecoverError::FingerprintDerivation(message)),
    };
    let expected_public_key = target.public_key();
    Ok(bytes_eq(public_key.as_slice(), expected_public_key.as_slice()))
}

/// Indices, in increasing order, of the seeds that match the wallet identity:
/// the master fingerprint for a fingerprint target; the master chain code,
/// then the complete master public key, for a master-key target
pub fn matching_candidate_indices_for_target(seeds: &SeedBatch, target: &VerificationTarget) -> (result: Result<
    Vec<usize>,
    RecoverError,
>)
    ensures
        match result {
            Ok(indices) => {
                &&& forall|a: int, b: int| 0 <= a < b < indices@.len() ==> #[trigger] indices@[a] < #[trigger] indices@[b]
                &&& forall|k: int|
                    0 <= k < seeds.view_seeds().len() ==> (indices@.contains(k as usize) <==> seed_matches_target(
                        #[trigger] seeds.view_seeds()[k],
                        *target,
                    ))
                &&& forall|k: int| 0 <= k < seeds.view_seeds().len() ==> !seed_check_fails(#[trigger] seeds.view_seeds()[k], *target)
            },
            Err(error) => error is FingerprintDerivation && exists|k: int|
                0 <= k < seeds.view_seeds().len() && seed_check_fails(#[trigger] seeds.view_seeds()[k], *target),
        },
{
    let master_xpub = match target {
        VerificationTarget::Fingerprint(fingerprint) => {
            let result = matching_candidate_indices(seeds, *fingerprint);
            proof {
                if result is Ok {
                    assert forall|k: int| 0 <= k < seeds.view_seeds().len() implies !seed_check_fails(
                        #[trigger] seeds.view_seeds()[k],
                        *target,
                    ) by {
                        assert(master_fingerprint_of(seeds.view_seeds()[k]) is Ok);
                    }
                }
            }
            return result;
        },
        VerificationTarget::MasterXpub { master_xpub, .. } => master_xpub,
    };
    let key = master_key_bytes();
    let all = seeds.as_slice();
    let mut indices: Vec<usize> = Vec::new();
    let mut i: usize = 0;
    while i < all.len()
        invariant
            i <= all@.len(),
            all@.map_values(|s: [u8; 64]| s@) == seeds.view_seeds(),
            key@ == master_hmac_key(),
            *target matches VerificationTarget::MasterXpub { master_xpub: x, .. } && x == *master_xpub,
            forall|a: int, b: int| 0 <= a < b < indices@.len() ==> #[trigger] indices@[a] < #[trigger] indices@[b],
            forall|a: int| 0 <= a < indices@.len() ==> #[trigger] indices@[a] < i,
            forall|k: int|
                0 <= k < i ==> (indices@.contains(k as usize) <==> seed_matches_target(
                    #[trigger] seeds.view_seeds()[k],
                    *target,
                )),
            forall|k: int| 0 <= k < i ==> !seed_check_fails(#[trigger] seeds.view_seeds()[k], *target),
        decreases all@.len() - i,
    {
        proof {
            assert(seeds.view_seeds()[i as int] == all@[i as int]@);
        }
        let matched = match master_key_match(&key, &all[i], master_xpub) {
            Ok(matched) => matched,
            Err(error) => return Err(error),
        };
        let ghost before = indices@;
        if matched {
            indices.push(i);
        }
        proof {
            assert forall|k: int|
                0 <= k < i + 1 implies (indices@.contains(k as usize) <==> seed_matches_target(
                    #[trigger] seeds.view_seeds()[k],
                    *target,
                )) by {
                if k < i {
                    if before.contains(k as usize) {
                        let t = choose|t: int| 0 <= t < before.len() && before[t] == k as usize;
                        assert(indices@[t] == k as usize);
                    }
                    if indices@.contains(k as usize) {
                        let t = choose|t: int| 0 <= t < indices@.len() && indices@[t] == k as usize;
                        if t < before.len() {
                            assert(before[t] == k as usize);
                        }
                    }
                } else {
                    if indices@.contains(k as usize) {
                        let t = choose|t: int| 0 <= t < indices@.len() && indices@[t] == k as usize;
                        if t < before.len() {
                            assert(before[t] < i);
                        }
                    }
                    if seed_matches_target(seeds.view_seeds()[k], *target) {
                        assert(indices@[indices@.len() - 1] == i);
                    }
                }
            }
        }
        i = i + 1;
    }
    Ok(indices)
}

/// Derive a fingerprint directly from a mnemonic and passphrase
pub fn fingerprint_for_passphrase(mnemonic: &SecretMnemonic, passphrase: &str) -> (result: Result<
    [u8; 4],
    RecoverError,
>)
    ensures
        match result {
            Ok(fingerprint) => bip39_seed_of(mnemonic.view_text(), passphrase@) matches Some(seed)
                && master_fingerprint_of(seed) == Ok::<Seq<u8>, Seq<char>>(fingerprint@),
            Err(error) => {
                ||| bip39_seed_of(mnemonic.view_text(), passphrase@) is None && error is InvalidMnemonic
                ||| bip39_seed_of(mnemonic.view_text(), passphrase@) matches Some(seed) && master_fingerprint_of(seed)
                    is Err && error is FingerprintDerivation
            },
        },
{
    let seed = match bip39_seed(mnemonic.expose(), passphrase) {
        Some(seed) => seed,
        None => {
            let message = match parse_english_mnemonic(mnemonic.expose()) {
                Ok(_) => String::new(),
                Err(message) => message,
            };
            return Err(RecoverError::InvalidMnemonic(message));
        },
    };
    fingerprint_from_seed(&seed)
}

} // verus!
