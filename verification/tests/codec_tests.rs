use cpu_template_helper::codec::{decode, encode, CodecError, DocEntry, DocKey, MapDocument};
use cpu_template_helper::model::{KeyFamily, ModifierMap, ModifierValue, RegisterKey};

fn sample_msr_map() -> ModifierMap {
    let mut m = ModifierMap::new(KeyFamily::Msr);
    assert!(m.insert(
        RegisterKey::Msr { addr: 0x4b564d00 },
        ModifierValue { filter: 0x1, pattern: 0x1, flags: None },
    ));
    assert!(m.insert(
        RegisterKey::Msr { addr: 0x10 },
        ModifierValue { filter: 0xff00, pattern: 0xab00, flags: None },
    ));
    m
}

fn maps_equal(a: &ModifierMap, b: &ModifierMap) -> bool {
    if a.len() != b.len() {
        return false;
    }
    for i in 0..a.len() {
        let (k, v) = a.entry_at(i);
        match b.get(&k) {
            Some(w) => {
                if !(*w == v) {
                    return false;
                }
            },
            None => return false,
        }
    }
    true
}

#[test]
fn document_round_trips_an_msr_map() {
    let m = sample_msr_map();
    let doc = encode(&m);
    let back = decode(&doc).unwrap();
    assert!(maps_equal(&m, &back));
}

#[test]
fn document_round_trips_a_cpuid_map() {
    let mut m = ModifierMap::new(KeyFamily::Cpuid);
    assert!(m.insert(
        RegisterKey::Cpuid { leaf: 0x0, subleaf: 0x0, register: 0x0 },
        ModifierValue { filter: 0xffff_ffff, pattern: 0x1, flags: Some(0) },
    ));
    assert!(m.insert(
        RegisterKey::Cpuid { leaf: 0x7, subleaf: 0x1, register: 0x2 },
        ModifierValue { filter: 0x8000_0000, pattern: 0x8000_0000, flags: Some(1) },
    ));
    let doc = encode(&m);
    let back = decode(&doc).unwrap();
    assert!(maps_equal(&m, &back));
}

#[test]
fn document_round_trips_a_sysreg_map() {
    let mut m = ModifierMap::new(KeyFamily::SysReg);
    assert!(m.insert(
        RegisterKey::SysReg { id: 0x6030_0000_0010_0002 },
        ModifierValue { filter: 0x1, pattern: 0x1, flags: None },
    ));
    let doc = encode(&m);
    let back = decode(&doc).unwrap();
    assert!(maps_equal(&m, &back));
}

#[test]
fn encoding_uses_fixed_width_hex_and_binary() {
    let mut m = ModifierMap::new(KeyFamily::Cpuid);
    assert!(m.insert(
        RegisterKey::Cpuid { leaf: 0x1a, subleaf: 0x0, register: 0x3 },
        ModifierValue { filter: 0x0000_0001, pattern: 0x0000_0001, flags: Some(0) },
    ));
    let doc = encode(&m);
    assert_eq!(doc.entries.len(), 1);
    match &doc.entries[0].key {
        DocKey::Cpuid { leaf, subleaf, register } => {
            assert_eq!(leaf, b"0000001a");
            assert_eq!(subleaf, b"00000000");
            assert_eq!(register, b"00000003");
        },
        _ => panic!("wrong key shape"),
    }
    assert_eq!(doc.entries[0].filter, b"00000000000000000000000000000001");
    assert_eq!(doc.entries[0].pattern, b"00000000000000000000000000000001");
    assert_eq!(doc.entries[0].flags, Some(0));
}

#[test]
fn decoding_rejects_a_wrong_width_bitmap() {
    let doc = MapDocument {
        family: KeyFamily::Msr,
        entries: vec![
            DocEntry {
                key: DocKey::Msr { addr: b"00000010".to_vec() },
                // 63 digits instead of the 64 an MSR needs.
                filter: b"000000000000000000000000000000000000000000000000000000000000001".to_vec(),
                pattern: b"0000000000000000000000000000000000000000000000000000000000000001"
                    .to_vec(),
                flags: None,
            },
        ],
    };
    assert_eq!(decode(&doc).unwrap_err(), CodecError::MalformedModifier { index: 0 });
}

#[test]
fn decoding_rejects_a_bad_digit() {
    let doc = MapDocument {
        family: KeyFamily::Msr,
        entries: vec![
            DocEntry {
                key: DocKey::Msr { addr: b"0000001g".to_vec() },
                filter: b"0000000000000000000000000000000000000000000000000000000000000001"
                    .to_vec(),
                pattern: b"0000000000000000000000000000000000000000000000000000000000000001"
                    .to_vec(),
                flags: None,
            },
        ],
    };
    assert_eq!(decode(&doc).unwrap_err(), CodecError::MalformedModifier { index: 0 });
}

#[test]
fn decoding_rejects_a_key_shape_of_another_family() {
    let doc = MapDocument {
        family: KeyFamily::Msr,
        entries: vec![
            DocEntry {
                key: DocKey::SysReg { id: b"0000000000000010".to_vec() },
                filter: b"0000000000000000000000000000000000000000000000000000000000000001"
                    .to_vec(),
                pattern: b"0000000000000000000000000000000000000000000000000000000000000001"
                    .to_vec(),
                flags: None,
            },
        ],
    };
    assert_eq!(decode(&doc).unwrap_err(), CodecError::MalformedModifier { index: 0 });
}

#[test]
fn decoding_rejects_a_duplicate_key() {
    let entry = DocEntry {
        key: DocKey::Msr { addr: b"00000010".to_vec() },
        filter: b"0000000000000000000000000000000000000000000000000000000000000001".to_vec(),
        pattern: b"0000000000000000000000000000000000000000000000000000000000000001".to_vec(),
        flags: None,
    };
    let doc = MapDocument {
        family: KeyFamily::Msr,
        entries: vec![entry.clone(), entry],
    };
    assert_eq!(decode(&doc).unwrap_err(), CodecError::DuplicateKey { index: 1 });
}

#[test]
fn decoding_reads_exact_values_back() {
    let doc = MapDocument {
        family: KeyFamily::Msr,
        entries: vec![
            DocEntry {
                key: DocKey::Msr { addr: b"4b564d00".to_vec() },
                filter: b"0000000000000000000000000000000000000000000000000000000000000011"
                    .to_vec(),
                pattern: b"0000000000000000000000000000000000000000000000000000000000000010"
                    .to_vec(),
                flags: None,
            },
        ],
    };
    let m = decode(&doc).unwrap();
    assert_eq!(m.len(), 1);
    let v = *m.get(&RegisterKey::Msr { addr: 0x4b564d00 }).unwrap();
    assert!(v == ModifierValue { filter: 0x3, pattern: 0x2, flags: None });
}
