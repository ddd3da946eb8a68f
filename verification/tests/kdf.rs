use kdbx4::crypt::kdf::{aes_uuid, transform_aes, Argon2Variant, KdfSettings};
use kdbx4::error::Error;
use kdbx4::variant::{VariantDictionary, VariantEntry, VariantValue};

fn kdf_hex(bytes: &[u8]) -> String {
    bytes.iter().map(|b| format!("{:02x}", b)).collect()
}

fn seed() -> Vec<u8> {
    (100u8..132).collect()
}

fn composite() -> Vec<u8> {
    (0u8..32).collect()
}

fn argon2(variant: Argon2Variant) -> KdfSettings {
    KdfSettings::Argon2 {
        variant,
        salt: vec![1, 2, 3, 4, 5, 6, 7, 8],
        iterations: 2,
        memory: 64,
        parallelism: 1,
        version: 0x13,
    }
}

#[test]
fn one_round_of_aes_kdf_encrypts_each_half_as_a_block() {
    let key: Vec<u8> = (0u8..32).collect();
    let block = [
        0x00u8, 0x11, 0x22, 0x33, 0x44, 0x55, 0x66, 0x77, 0x88, 0x99, 0xaa, 0xbb, 0xcc, 0xdd,
        0xee, 0xff,
    ];
    let data = [block, block].concat();
    let out = transform_aes(&key, &data, 1);
    assert_eq!(kdf_hex(&out[..16]), "8ea2b7ca516745bfeafc49904b496089");
    assert_eq!(out[..16], out[16..]);
}

#[test]
fn aes_kdf_repeats_the_encryption() {
    assert_eq!(transform_aes(&seed(), &composite(), 0), composite());
    assert_eq!(
        kdf_hex(&transform_aes(&seed(), &composite(), 3)),
        "80bb951e7acc01272598a0bd2a41e236916f2b7887ded90934322aa0abbf56ad"
    );
    let settings = KdfSettings::Aes { seed: seed(), rounds: 1000 };
    assert_eq!(
        kdf_hex(&settings.transform_key(&composite()).unwrap()),
        "746f55a602c9105741838af6fb5dbf8e0b679be843429539c3dcab3797da28c9"
    );
}

#[test]
fn aes_kdf_legacy_rounds_derive_a_key() {
    let settings = KdfSettings::Aes { seed: seed(), rounds: 60000 };
    let key = settings.transform_key(&composite()).unwrap();
    assert_eq!(key.len(), 32);
    assert_eq!(key, transform_aes(&seed(), &composite(), 60000));
}

#[test]
fn aes_kdf_without_rounds_or_with_wrong_lengths_is_refused() {
    let none = KdfSettings::Aes { seed: seed(), rounds: 0 };
    assert_eq!(none.transform_key(&composite()), Err(Error::InvalidKdfParams));
    let short = KdfSettings::Aes { seed: vec![1u8; 16], rounds: 2 };
    assert_eq!(short.transform_key(&composite()), Err(Error::InvalidKeyLength));
    let good = KdfSettings::Aes { seed: seed(), rounds: 2 };
    assert_eq!(good.transform_key(&[1u8; 31]), Err(Error::InvalidKeyLength));
}

#[test]
fn argon2_agrees_with_the_crate_by_itself() {
    for (variant, algorithm) in [
        (Argon2Variant::D, argon2::Algorithm::Argon2d),
        (Argon2Variant::Id, argon2::Algorithm::Argon2id),
    ] {
        let ours = argon2(variant).transform_key(&composite()).unwrap();
        let mut theirs = [0u8; 32];
        argon2::Argon2::new(
            algorithm,
            argon2::Version::V0x13,
            argon2::Params::new(64, 2, 1, Some(32)).unwrap(),
        )
        .hash_password_into(&composite(), &[1, 2, 3, 4, 5, 6, 7, 8], &mut theirs)
        .unwrap();
        assert_eq!(ours, theirs.to_vec());
    }
    assert_ne!(
        argon2(Argon2Variant::D).transform_key(&composite()),
        argon2(Argon2Variant::Id).transform_key(&composite())
    );
}

#[test]
fn argon2_depends_on_version_and_password() {
    let new = argon2(Argon2Variant::Id).transform_key(&composite()).unwrap();
    let mut old = argon2(Argon2Variant::Id);
    if let KdfSettings::Argon2 { version, .. } = &mut old {
        *version = 0x10;
    }
    assert_ne!(old.transform_key(&composite()).unwrap(), new);
    assert_ne!(argon2(Argon2Variant::Id).transform_key(&[9u8; 32]).unwrap(), new);
}

#[test]
fn argon2_asked_for_nothing_is_refused() {
    let change = |f: &dyn Fn(&mut u64, &mut u64, &mut u32, &mut u32, &mut Vec<u8>)| {
        let mut settings = argon2(Argon2Variant::Id);
        if let KdfSettings::Argon2 { iterations, memory, parallelism, version, salt, .. } =
            &mut settings
        {
            f(iterations, memory, parallelism, version, salt);
        }
        settings.transform_key(&composite())
    };
    assert_eq!(change(&|i, _, _, _, _| *i = 0), Err(Error::InvalidKdfParams));
    assert_eq!(change(&|_, m, _, _, _| *m = 0), Err(Error::InvalidKdfParams));
    assert_eq!(change(&|_, _, p, _, _| *p = 0), Err(Error::InvalidKdfParams));
    assert_eq!(change(&|i, _, _, _, _| *i = 1 << 32), Err(Error::InvalidKdfParams));
    assert_eq!(change(&|_, m, _, _, _| *m = 1 << 32), Err(Error::InvalidKdfParams));
    assert_eq!(change(&|_, _, p, _, _| *p = 1 << 24), Err(Error::InvalidKdfParams));
    assert_eq!(change(&|_, _, _, v, _| *v = 0x11), Err(Error::InvalidKdfParams));
    assert_eq!(change(&|_, m, _, _, _| *m = 7), Err(Error::InvalidKdfParams));
    assert_eq!(change(&|_, _, _, _, s| s.truncate(7)), Err(Error::InvalidKdfParams));
    assert!(change(&|_, _, _, _, _| {}).is_ok());
}

#[test]
fn aes_kdf_is_held_under_its_names() {
    let settings = KdfSettings::Aes { seed: seed(), rounds: 60000 };
    let d = settings.to_dictionary().unwrap();
    assert_eq!(
        d.entries,
        vec![
            VariantEntry { name: b"$UUID".to_vec(), value: VariantValue::Bytes(aes_uuid().to_vec()) },
            VariantEntry { name: b"R".to_vec(), value: VariantValue::UInt64(60000) },
            VariantEntry { name: b"S".to_vec(), value: VariantValue::Bytes(seed()) },
        ]
    );
    assert_eq!(kdf_hex(&aes_uuid()), "c9d9f39a628a4460bf740d08c18a4fea");
    assert_eq!(KdfSettings::from_dictionary(&d), Ok(settings));
}

#[test]
fn argon2_is_held_under_its_names_with_its_memory_in_bytes() {
    let settings = KdfSettings::Argon2 {
        variant: Argon2Variant::Id,
        salt: vec![9u8; 32],
        iterations: 1000,
        memory: 65536,
        parallelism: 1,
        version: 0x13,
    };
    let d = settings.to_dictionary().unwrap();
    assert_eq!(kdf_hex(&Argon2Variant::Id.uuid()), "9e298b1956db4773b23dfc3ec6f0a1e6");
    assert_eq!(kdf_hex(&Argon2Variant::D.uuid()), "ef636ddf8c29444b91f7a9a403e30a0c");
    assert_eq!(d.get(b"$UUID"), Some(&VariantValue::Bytes(Argon2Variant::Id.uuid().to_vec())));
    assert_eq!(d.get(b"S"), Some(&VariantValue::Bytes(vec![9u8; 32])));
    assert_eq!(d.get(b"P"), Some(&VariantValue::UInt32(1)));
    assert_eq!(d.get(b"M"), Some(&VariantValue::UInt64(65536 * 1024)));
    assert_eq!(d.get(b"I"), Some(&VariantValue::UInt64(1000)));
    assert_eq!(d.get(b"V"), Some(&VariantValue::UInt32(0x13)));
    assert_eq!(d.get(b"R"), None);
    assert_eq!(d.entries.len(), 6);
    assert_eq!(KdfSettings::from_dictionary(&d), Ok(settings.clone()));
    let again = VariantDictionary::parse(&d.serialize()).unwrap();
    assert_eq!(KdfSettings::from_dictionary(&again), Ok(settings));
}

#[test]
fn memory_that_no_dictionary_holds_is_refused() {
    let mut settings = argon2(Argon2Variant::D);
    if let KdfSettings::Argon2 { memory, .. } = &mut settings {
        *memory = u64::MAX / 1024 + 1;
    }
    assert_eq!(settings.to_dictionary(), Err(Error::InvalidKdfParams));
    if let KdfSettings::Argon2 { memory, .. } = &mut settings {
        *memory = u64::MAX / 1024;
    }
    assert!(settings.to_dictionary().is_ok());
}

#[test]
fn unknown_key_derivation_is_named_by_its_uuid() {
    let d = VariantDictionary {
        entries: vec![VariantEntry {
            name: b"$UUID".to_vec(),
            value: VariantValue::Bytes(vec![0x42u8; 16]),
        }],
    };
    assert_eq!(KdfSettings::from_dictionary(&d), Err(Error::UnknownKdf([0x42u8; 16])));
}

#[test]
fn dictionary_without_what_the_key_derivation_needs_is_refused() {
    let entry = |name: &[u8], value| VariantEntry { name: name.to_vec(), value };
    let bad = Err(Error::InvalidKdfParams);
    assert_eq!(KdfSettings::from_dictionary(&VariantDictionary::new()), bad);
    let short = VariantDictionary {
        entries: vec![entry(b"$UUID", VariantValue::Bytes(vec![1, 2, 3]))],
    };
    assert_eq!(KdfSettings::from_dictionary(&short), bad);
    let text = VariantDictionary {
        entries: vec![entry(b"$UUID", VariantValue::Text("aes".to_string()))],
    };
    assert_eq!(KdfSettings::from_dictionary(&text), bad);
    let no_seed = VariantDictionary {
        entries: vec![
            entry(b"$UUID", VariantValue::Bytes(aes_uuid().to_vec())),
            entry(b"R", VariantValue::UInt64(5)),
        ],
    };
    assert_eq!(KdfSettings::from_dictionary(&no_seed), bad);
    let wrong_type = VariantDictionary {
        entries: vec![
            entry(b"$UUID", VariantValue::Bytes(aes_uuid().to_vec())),
            entry(b"R", VariantValue::UInt32(5)),
            entry(b"S", VariantValue::Bytes(seed())),
        ],
    };
    assert_eq!(KdfSettings::from_dictionary(&wrong_type), bad);
    let mut argon = argon2(Argon2Variant::Id).to_dictionary().unwrap();
    argon.entries.remove(4);
    assert_eq!(KdfSettings::from_dictionary(&argon), bad);
}
