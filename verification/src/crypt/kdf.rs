//! The derivation of the master key from the composite hash: AES-KDF, which
//! encrypts the hash over and over, and Argon2.

use crate::bytes::{array_of, bytes_equal, to_array};
use crate::envelope::result_view;
use crate::error::Error;
use crate::variant::{
    bytes_under, lemma_named_at, u32_under, u64_under, Entry, Variant, VariantDictionary,
    VariantEntry, VariantValue,
};
use aes::Aes256;
use argon2::{Algorithm, Argon2, Params, Version};
use cipher::generic_array::GenericArray;
use cipher::{BlockEncrypt, KeyInit};
use vstd::prelude::*;
use vstd::slice::slice_subrange;

verus! {

/// The most threads that Argon2 takes.
pub const MAX_PARALLELISM: u32 = 0xFF_FFFF;

/// One block encrypted with AES-256 under a key of 32 bytes.
pub uninterp spec fn aes256_block(key: Seq<u8>, block: Seq<u8>) -> [u8; 16];

/// The 32 bytes that Argon2 derives, where it takes the parameters:
/// Argon2id if `hybrid`, else Argon2d; the memory in KiB.
pub uninterp spec fn argon2_derived(
    hybrid: bool,
    version: u32,
    salt: Seq<u8>,
    iterations: u32,
    memory: u32,
    parallelism: u32,
    password: Seq<u8>,
) -> Option<[u8; 32]>;

/// `aes::Aes256` (`KeyInit::new_from_slice`, `BlockEncrypt::encrypt_block`):
/// one block encrypted under a key of 32 bytes.
#[verifier::external_body]
pub(crate) fn aes256_encrypt_block(key: &[u8], block: &[u8; 16]) -> (r: [u8; 16])
    requires
        key@.len() == 32,
    ensures
        r == aes256_block(key@, block@),
{
    let cipher = Aes256::new_from_slice(key).unwrap();
    let mut out = GenericArray::from(*block);
    cipher.encrypt_block(&mut out);
    out.into()
}

/// `argon2::Argon2` (`Params::new`, `Argon2::new`,
/// `Argon2::hash_password_into`): 32 bytes derived from the password, or
/// nothing where Argon2 refuses the version, the parameters, the salt or the
/// password.
#[verifier::external_body]
pub(crate) fn argon2_hash(
    hybrid: bool,
    version: u32,
    salt: &[u8],
    iterations: u32,
    memory: u32,
    parallelism: u32,
    password: &[u8],
) -> (r: Option<[u8; 32]>)
    requires
        parallelism <= MAX_PARALLELISM,
    ensures
        r == argon2_derived(hybrid, version, salt@, iterations, memory, parallelism, password@),
{
    let algorithm = if hybrid { Algorithm::Argon2id } else { Algorithm::Argon2d };
    let version = Version::try_from(version).ok()?;
    let params = Params::new(memory, iterations, parallelism, Some(32)).ok()?;
    let mut out = [0u8; 32];
    Argon2::new(algorithm, version, params).hash_password_into(password, salt, &mut out).ok()?;
    Some(out)
}

/// The kinds of Argon2 that the format knows.
#[derive(Debug, Clone, Copy, PartialEq, Eq)]
pub enum Argon2Variant {
    /// Argon2d.
    D,
    /// Argon2id.
    Id,
}

/// How the master key is derived.
#[derive(Debug, Clone, PartialEq, Eq)]
pub enum KdfSettings {
    Aes { seed: Vec<u8>, rounds: u64 },
    Argon2 {
        variant: Argon2Variant,
        salt: Vec<u8>,
        iterations: u64,
        /// In KiB.
        memory: u64,
        parallelism: u32,
        version: u32,
    },
}

/// What the settings of a key derivation are.
pub enum Kdf {
    Aes { seed: Seq<u8>, rounds: u64 },
    Argon2 {
        variant: Argon2Variant,
        salt: Seq<u8>,
        iterations: u64,
        memory: u64,
        parallelism: u32,
        version: u32,
    },
}

impl View for KdfSettings {
    type V = Kdf;

    open spec fn view(&self) -> Kdf {
        match self {
            KdfSettings::Aes { seed, rounds } => Kdf::Aes { seed: seed@, rounds: *rounds },
            KdfSettings::Argon2 { variant, salt, iterations, memory, parallelism, version } => {
                Kdf::Argon2 {
                    variant: *variant,
                    salt: salt@,
                    iterations: *iterations,
                    memory: *memory,
                    parallelism: *parallelism,
                    version: *version,
                }
            },
        }
    }
}

/// The two halves of 32 bytes, each encrypted `rounds` times as one block
/// of AES-256 under the seed, and joined again.
pub open spec fn aes_kdf(seed: Seq<u8>, left: Seq<u8>, right: Seq<u8>, rounds: nat) -> Seq<u8>
    decreases rounds,
{
    if rounds == 0 {
        left + right
    } else {
        aes_kdf(
            seed,
            aes256_block(seed, left)@,
            aes256_block(seed, right)@,
            (rounds - 1) as nat,
        )
    }
}

/// Whether Argon2 is asked for nothing: no thread, no memory or no
/// iteration; or for more than it can be asked for.
pub open spec fn argon2_out_of_range(iterations: u64, memory: u64, parallelism: u32) -> bool {
    parallelism == 0 || memory == 0 || iterations == 0 || parallelism > MAX_PARALLELISM || memory
        > u32::MAX || iterations > u32::MAX
}

/// The master key that the settings derive from the composite hash, 32
/// bytes; or why there is none. AES-KDF without a round, and Argon2 asked
/// for nothing or refusing what it is asked for, are `InvalidKdfParams`; a
/// seed of AES-KDF or a composite hash under AES-KDF of another length
/// than 32 is `InvalidKeyLength`.
pub open spec fn transformed(kdf: Kdf, composite: Seq<u8>) -> Result<Seq<u8>, Error> {
    match kdf {
        Kdf::Aes { seed, rounds } => {
            if rounds == 0 {
                Err(Error::InvalidKdfParams)
            } else if seed.len() != 32 || composite.len() != 32 {
                Err(Error::InvalidKeyLength)
            } else {
                Ok(aes_kdf(seed, composite.take(16), composite.skip(16), rounds as nat))
            }
        },
        Kdf::Argon2 { variant, salt, iterations, memory, parallelism, version } => {
            if argon2_out_of_range(iterations, memory, parallelism) {
                Err(Error::InvalidKdfParams)
            } else {
                match argon2_derived(
                    variant == Argon2Variant::Id,
                    version,
                    salt,
                    iterations as u32,
                    memory as u32,
                    parallelism,
                    composite,
                ) {
                    Some(key) => Ok(key@),
                    None => Err(Error::InvalidKdfParams),
                }
            }
        },
    }
}

/// Runs AES-KDF: encrypts the two halves of `data` `rounds` times under
/// the seed.
pub fn transform_aes(seed: &[u8], data: &[u8], rounds: u64) -> (r: Vec<u8>)
    requires
        seed@.len() == 32,
        data@.len() == 32,
    ensures
        r@ == aes_kdf(seed@, data@.take(16), data@.skip(16), rounds as nat),
        r@.len() == 32,
{
    let mut left: [u8; 16] = to_array::<16>(slice_subrange(data, 0, 16));
    let mut right: [u8; 16] = to_array::<16>(slice_subrange(data, 16, 32));
    assert(left@ =~= data@.take(16));
    assert(right@ =~= data@.skip(16));
    let mut i: u64 = 0;
    while i < rounds
        invariant
            0 <= i <= rounds,
            seed@.len() == 32,
            aes_kdf(seed@, data@.take(16), data@.skip(16), rounds as nat) == aes_kdf(
                seed@,
                left@,
                right@,
                (rounds - i) as nat,
            ),
        decreases rounds - i,
    {
        left = aes256_encrypt_block(seed, &left);
        right = aes256_encrypt_block(seed, &right);
        i += 1;
    }
    let mut r = vstd::slice::slice_to_vec(left.as_slice());
    crate::bytes::append(&mut r, right.as_slice());
    r
}

impl KdfSettings {
    /// Derives the master key from the composite hash.
    pub fn transform_key(&self, composite: &[u8]) -> (r: Result<Vec<u8>, Error>)
        ensures
            result_view(r) == transformed(self@, composite@),
            r matches Ok(key) ==> key@.len() == 32,
    {
        match self {
            KdfSettings::Aes { seed, rounds } => {
                if *rounds == 0 {
                    return Err(Error::InvalidKdfParams);
                }
                if seed.len() != 32 || composite.len() != 32 {
                    return Err(Error::InvalidKeyLength);
                }
                Ok(transform_aes(seed.as_slice(), composite, *rounds))
            },
            KdfSettings::Argon2 { variant, salt, iterations, memory, parallelism, version } => {
                if *parallelism == 0 || *memory == 0 || *iterations == 0 || *parallelism
                    > MAX_PARALLELISM || *memory > 0xFFFF_FFFF || *iterations > 0xFFFF_FFFF {
                    return Err(Error::InvalidKdfParams);
                }
                let hybrid = match variant {
                    Argon2Variant::Id => true,
                    Argon2Variant::D => false,
                };
                match argon2_hash(
                    hybrid,
                    *version,
                    salt.as_slice(),
                    *iterations as u32,
                    *memory as u32,
                    *parallelism,
                    composite,
                ) {
                    Some(key) => Ok(vstd::slice::slice_to_vec(key.as_slice())),
                    None => Err(Error::InvalidKdfParams),
                }
            },
        }
    }
}

/// The name under which a dictionary holds the UUID of the key derivation:
/// `$UUID`.
pub open spec fn name_uuid() -> Seq<u8> {
    seq![0x24u8, 0x55, 0x55, 0x49, 0x44]
}

/// The name of the rounds of AES-KDF: `R`.
pub open spec fn name_rounds() -> Seq<u8> {
    seq![0x52u8]
}

/// The name of the seed of AES-KDF and of the salt of Argon2: `S`.
pub open spec fn name_salt() -> Seq<u8> {
    seq![0x53u8]
}

/// The name of the parallelism of Argon2: `P`.
pub open spec fn name_parallelism() -> Seq<u8> {
    seq![0x50u8]
}

/// The name of the memory of Argon2, in bytes: `M`.
pub open spec fn name_memory() -> Seq<u8> {
    seq![0x4Du8]
}

/// The name of the iterations of Argon2: `I`.
pub open spec fn name_iterations() -> Seq<u8> {
    seq![0x49u8]
}

/// The name of the version of Argon2: `V`.
pub open spec fn name_version() -> Seq<u8> {
    seq![0x56u8]
}

/// The sixteen bytes that name AES-KDF.
pub open spec fn aes_kdf_uuid() -> Seq<u8> {
    seq![
        0xC9u8, 0xD9, 0xF3, 0x9A, 0x62, 0x8A, 0x44, 0x60,
        0xBF, 0x74, 0x0D, 0x08, 0xC1, 0x8A, 0x4F, 0xEA,
    ]
}

/// The sixteen bytes that name a kind of Argon2.
pub open spec fn argon2_uuid(variant: Argon2Variant) -> Seq<u8> {
    match variant {
        Argon2Variant::D => seq![
            0xEFu8, 0x63, 0x6D, 0xDF, 0x8C, 0x29, 0x44, 0x4B,
            0x91, 0xF7, 0xA9, 0xA4, 0x03, 0xE3, 0x0A, 0x0C,
        ],
        Argon2Variant::Id => seq![
            0x9Eu8, 0x29, 0x8B, 0x19, 0x56, 0xDB, 0x47, 0x73,
            0xB2, 0x3D, 0xFC, 0x3E, 0xC6, 0xF0, 0xA1, 0xE6,
        ],
    }
}

/// The settings of Argon2 that a dictionary holds, of the given kind; the
/// dictionary gives the memory in bytes, the settings hold it in KiB.
pub open spec fn argon2_of(entries: Seq<Entry>, variant: Argon2Variant) -> Result<Kdf, Error> {
    match (
        bytes_under(entries, name_salt()),
        u64_under(entries, name_iterations()),
        u64_under(entries, name_memory()),
        u32_under(entries, name_parallelism()),
        u32_under(entries, name_version()),
    ) {
        (Some(salt), Some(iterations), Some(memory), Some(parallelism), Some(version)) => Ok(
            Kdf::Argon2 {
                variant,
                salt,
                iterations,
                memory: memory / 1024,
                parallelism,
                version,
            },
        ),
        _ => Err(Error::InvalidKdfParams),
    }
}

/// The settings that a dictionary holds. A UUID of sixteen bytes that
/// names no key derivation is `UnknownKdf`; a dictionary without a UUID of
/// sixteen bytes, or without a parameter of the key derivation under its
/// name and of its type, is `InvalidKdfParams`.
pub open spec fn kdf_of(entries: Seq<Entry>) -> Result<Kdf, Error> {
    match bytes_under(entries, name_uuid()) {
        None => Err(Error::InvalidKdfParams),
        Some(uuid) => {
            if uuid == aes_kdf_uuid() {
                match (u64_under(entries, name_rounds()), bytes_under(entries, name_salt())) {
                    (Some(rounds), Some(seed)) => Ok(Kdf::Aes { seed, rounds }),
                    _ => Err(Error::InvalidKdfParams),
                }
            } else if uuid == argon2_uuid(Argon2Variant::D) {
                argon2_of(entries, Argon2Variant::D)
            } else if uuid == argon2_uuid(Argon2Variant::Id) {
                argon2_of(entries, Argon2Variant::Id)
            } else if uuid.len() == 16 {
                Err(Error::UnknownKdf(array_of::<16>(uuid)))
            } else {
                Err(Error::InvalidKdfParams)
            }
        },
    }
}

/// The dictionary that holds the settings.
pub open spec fn entries_of(kdf: Kdf) -> Seq<Entry> {
    match kdf {
        Kdf::Aes { seed, rounds } => seq![
            Entry { name: name_uuid(), value: Variant::Bytes(aes_kdf_uuid()) },
            Entry { name: name_rounds(), value: Variant::UInt64(rounds) },
            Entry { name: name_salt(), value: Variant::Bytes(seed) },
        ],
        Kdf::Argon2 { variant, salt, iterations, memory, parallelism, version } => seq![
            Entry { name: name_uuid(), value: Variant::Bytes(argon2_uuid(variant)) },
            Entry { name: name_salt(), value: Variant::Bytes(salt) },
            Entry { name: name_parallelism(), value: Variant::UInt32(parallelism) },
            Entry { name: name_memory(), value: Variant::UInt64((memory * 1024) as u64) },
            Entry { name: name_iterations(), value: Variant::UInt64(iterations) },
            Entry { name: name_version(), value: Variant::UInt32(version) },
        ],
    }
}

/// Whether a dictionary can hold the settings: the memory of Argon2, in
/// bytes, is a number of 64 bits.
pub open spec fn storable(kdf: Kdf) -> bool {
    match kdf {
        Kdf::Aes { .. } => true,
        Kdf::Argon2 { memory, .. } => memory * 1024 <= u64::MAX,
    }
}

/// The settings of a result, or its error.
pub open spec fn kdf_view(r: Result<KdfSettings, Error>) -> Result<Kdf, Error> {
    match r {
        Ok(k) => Ok(k@),
        Err(e) => Err(e),
    }
}

impl Argon2Variant {
    /// The sixteen bytes that name the kind of Argon2.
    pub fn uuid(&self) -> (r: [u8; 16])
        ensures
            r@ == argon2_uuid(*self),
    {
        let r: [u8; 16] = match self {
            Argon2Variant::D => [
                0xEF, 0x63, 0x6D, 0xDF, 0x8C, 0x29, 0x44, 0x4B,
                0x91, 0xF7, 0xA9, 0xA4, 0x03, 0xE3, 0x0A, 0x0C,
            ],
            Argon2Variant::Id => [
                0x9E, 0x29, 0x8B, 0x19, 0x56, 0xDB, 0x47, 0x73,
                0xB2, 0x3D, 0xFC, 0x3E, 0xC6, 0xF0, 0xA1, 0xE6,
            ],
        };
        assert(r@ =~= argon2_uuid(*self));
        r
    }
}

/// The sixteen bytes that name AES-KDF.
pub fn aes_uuid() -> (r: [u8; 16])
    ensures
        r@ == aes_kdf_uuid(),
{
    let r: [u8; 16] = [
        0xC9, 0xD9, 0xF3, 0x9A, 0x62, 0x8A, 0x44, 0x60,
        0xBF, 0x74, 0x0D, 0x08, 0xC1, 0x8A, 0x4F, 0xEA,
    ];
    assert(r@ =~= aes_kdf_uuid());
    r
}

/// The settings of Argon2 that a dictionary holds, of the given kind.
pub fn argon2_from_dictionary(d: &VariantDictionary, variant: Argon2Variant) -> (r: Result<
    KdfSettings,
    Error,
>)
    ensures
        kdf_view(r) == argon2_of(d@, variant),
{
    let s: [u8; 1] = [0x53];
    let i: [u8; 1] = [0x49];
    let m: [u8; 1] = [0x4D];
    let p: [u8; 1] = [0x50];
    let v: [u8; 1] = [0x56];
    assert(s@ =~= name_salt());
    assert(i@ =~= name_iterations());
    assert(m@ =~= name_memory());
    assert(p@ =~= name_parallelism());
    assert(v@ =~= name_version());
    let salt = d.get_bytes(s.as_slice());
    let iterations = d.get_u64(i.as_slice());
    let memory = d.get_u64(m.as_slice());
    let parallelism = d.get_u32(p.as_slice());
    let version = d.get_u32(v.as_slice());
    match (salt, iterations, memory, parallelism, version) {
        (Some(salt), Some(iterations), Some(memory), Some(parallelism), Some(version)) => Ok(
            KdfSettings::Argon2 {
                variant,
                salt,
                iterations,
                memory: memory / 1024,
                parallelism,
                version,
            },
        ),
        _ => Err(Error::InvalidKdfParams),
    }
}

impl KdfSettings {
    /// The settings that a dictionary holds.
    pub fn from_dictionary(d: &VariantDictionary) -> (r: Result<KdfSettings, Error>)
        ensures
            kdf_view(r) == kdf_of(d@),
    {
        let id: [u8; 5] = [0x24, 0x55, 0x55, 0x49, 0x44];
        let rounds_name: [u8; 1] = [0x52];
        let seed_name: [u8; 1] = [0x53];
        assert(id@ =~= name_uuid());
        assert(rounds_name@ =~= name_rounds());
        assert(seed_name@ =~= name_salt());
        let uuid = match d.get_bytes(id.as_slice()) {
            Some(uuid) => uuid,
            None => {
                return Err(Error::InvalidKdfParams);
            },
        };
        if bytes_equal(uuid.as_slice(), aes_uuid().as_slice()) {
            let rounds = d.get_u64(rounds_name.as_slice());
            let seed = d.get_bytes(seed_name.as_slice());
            match (rounds, seed) {
                (Some(rounds), Some(seed)) => Ok(KdfSettings::Aes { seed, rounds }),
                _ => Err(Error::InvalidKdfParams),
            }
        } else if bytes_equal(uuid.as_slice(), Argon2Variant::D.uuid().as_slice()) {
            argon2_from_dictionary(d, Argon2Variant::D)
        } else if bytes_equal(uuid.as_slice(), Argon2Variant::Id.uuid().as_slice()) {
            argon2_from_dictionary(d, Argon2Variant::Id)
        } else if uuid.len() == 16 {
            Err(Error::UnknownKdf(to_array::<16>(uuid.as_slice())))
        } else {
            Err(Error::InvalidKdfParams)
        }
    }

    /// The dictionary that holds the settings; `InvalidKdfParams` where the
    /// memory of Argon2, in bytes, is no number of 64 bits.
    pub fn to_dictionary(&self) -> (r: Result<VariantDictionary, Error>)
        ensures
            match r {
                Ok(d) => storable(self@) && d@ == entries_of(self@),
                Err(e) => e == Error::InvalidKdfParams && !storable(self@),
            },
    {
        let name = |bytes: &[u8]| -> (r: Vec<u8>)
            ensures
                r@ == bytes@,
            { vstd::slice::slice_to_vec(bytes) };
        let id: [u8; 5] = [0x24, 0x55, 0x55, 0x49, 0x44];
        assert(id@ =~= name_uuid());
        let mut entries: Vec<VariantEntry> = Vec::new();
        match self {
            KdfSettings::Aes { seed, rounds } => {
                let r: [u8; 1] = [0x52];
                let s: [u8; 1] = [0x53];
                assert(r@ =~= name_rounds());
                assert(s@ =~= name_salt());
                entries.push(
                    VariantEntry {
                        name: name(id.as_slice()),
                        value: VariantValue::Bytes(name(aes_uuid().as_slice())),
                    },
                );
                entries.push(
                    VariantEntry { name: name(r.as_slice()), value: VariantValue::UInt64(*rounds) },
                );
                entries.push(
                    VariantEntry {
                        name: name(s.as_slice()),
                        value: VariantValue::Bytes(name(seed.as_slice())),
                    },
                );
            },
            KdfSettings::Argon2 { variant, salt, iterations, memory, parallelism, version } => {
                if *memory > 0xFFFF_FFFF_FFFF_FFFF / 1024 {
                    return Err(Error::InvalidKdfParams);
                }
                let s: [u8; 1] = [0x53];
                let i: [u8; 1] = [0x49];
                let m: [u8; 1] = [0x4D];
                let p: [u8; 1] = [0x50];
                let v: [u8; 1] = [0x56];
                assert(s@ =~= name_salt());
                assert(i@ =~= name_iterations());
                assert(m@ =~= name_memory());
                assert(p@ =~= name_parallelism());
                assert(v@ =~= name_version());
                entries.push(
                    VariantEntry {
                        name: name(id.as_slice()),
                        value: VariantValue::Bytes(name(variant.uuid().as_slice())),
                    },
                );
                entries.push(
                    VariantEntry {
                        name: name(s.as_slice()),
                        value: VariantValue::Bytes(name(salt.as_slice())),
                    },
                );
                entries.push(
                    VariantEntry {
                        name: name(p.as_slice()),
                        value: VariantValue::UInt32(*parallelism),
                    },
                );
                entries.push(
                    VariantEntry {
                        name: name(m.as_slice()),
                        value: VariantValue::UInt64(*memory * 1024),
                    },
                );
                entries.push(
                    VariantEntry {
                        name: name(i.as_slice()),
                        value: VariantValue::UInt64(*iterations),
                    },
                );
                entries.push(
                    VariantEntry { name: name(v.as_slice()), value: VariantValue::UInt32(*version) },
                );
            },
        }
        let d = VariantDictionary { entries };
        assert(d@ =~= entries_of(self@));
        Ok(d)
    }
}

/// The settings that a dictionary holds are those that it was made of.
pub proof fn lemma_kdf_of_entries(kdf: Kdf)
    requires
        storable(kdf),
    ensures
        kdf_of(entries_of(kdf)) == Ok::<Kdf, Error>(kdf),
{
    let entries = entries_of(kdf);
    assert(name_uuid().len() == 5);
    assert(name_rounds()[0] == 0x52);
    assert(name_salt()[0] == 0x53);
    assert(name_parallelism()[0] == 0x50);
    assert(name_memory()[0] == 0x4D);
    assert(name_iterations()[0] == 0x49);
    assert(name_version()[0] == 0x56);
    assert(aes_kdf_uuid()[0] == 0xC9);
    assert(argon2_uuid(Argon2Variant::D)[0] == 0xEF);
    assert(argon2_uuid(Argon2Variant::Id)[0] == 0x9E);
    lemma_named_at(entries, name_uuid(), 0, 0);
    match kdf {
        Kdf::Aes { seed, rounds } => {
            lemma_named_at(entries, name_rounds(), 0, 1);
            lemma_named_at(entries, name_salt(), 0, 2);
        },
        Kdf::Argon2 { variant, salt, iterations, memory, parallelism, version } => {
            lemma_named_at(entries, name_salt(), 0, 1);
            lemma_named_at(entries, name_parallelism(), 0, 2);
            lemma_named_at(entries, name_memory(), 0, 3);
            lemma_named_at(entries, name_iterations(), 0, 4);
            lemma_named_at(entries, name_version(), 0, 5);
            assert((memory * 1024) as u64 / 1024 == memory);
        },
    }
}

} // verus!
