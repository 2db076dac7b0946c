use cpu_template_helper::model::{KeyFamily, ModifierMap, ModifierValue, RegisterKey};
use cpu_template_helper::strip::{strip_common, StripError};

fn msr_map(entries: &[(u32, u128, u128)]) -> ModifierMap {
    let mut m = ModifierMap::new(KeyFamily::Msr);
    for &(addr, filter, pattern) in entries {
        let inserted = m.insert(
            RegisterKey::Msr { addr },
            ModifierValue { filter, pattern, flags: None },
        );
        assert!(inserted);
    }
    m
}

fn map_equals(m: &ModifierMap, entries: &[(u32, u128, u128)]) -> bool {
    if m.len() != entries.len() {
        return false;
    }
    for &(addr, filter, pattern) in entries {
        match m.get(&RegisterKey::Msr { addr }) {
            Some(v) => {
                if !(*v == ModifierValue { filter, pattern, flags: None }) {
                    return false;
                }
            },
            None => return false,
        }
    }
    true
}

#[test]
fn test_strip_common() {
    let mut input = vec![
        msr_map(&[
            (0x0, 0b1111_1111, 0b0000_0000),
            (0x1, 0b1111_0000, 0b1111_1111),
            (0x2, 0b1111_1111, 0b1111_1111),
        ]),
        msr_map(&[
            (0x0, 0b1111_1111, 0b0000_0000),
            (0x1, 0b0000_1111, 0b1111_1111),
            (0x2, 0b1111_1111, 0b1111_1111),
        ]),
        msr_map(&[
            (0x0, 0b1111_1111, 0b0000_0000),
            (0x1, 0b1111_1111, 0b1111_1111),
            (0x3, 0b1111_1111, 0b1111_1111),
        ]),
    ];

    let result = strip_common(&mut input);
    assert!(result.is_ok());

    assert!(map_equals(
        &input[0],
        &[(0x1, 0b1111_0000, 0b1111_1111), (0x2, 0b1111_1111, 0b1111_1111)],
    ));
    assert!(map_equals(
        &input[1],
        &[(0x1, 0b0000_1111, 0b1111_1111), (0x2, 0b1111_1111, 0b1111_1111)],
    ));
    assert!(map_equals(
        &input[2],
        &[(0x1, 0b1111_1111, 0b1111_1111), (0x3, 0b1111_1111, 0b1111_1111)],
    ));
}

#[test]
fn strip_is_idempotent() {
    let mut maps = vec![
        msr_map(&[(0x10, 0xff, 0x0f), (0x11, 0xff, 0xff)]),
        msr_map(&[(0x10, 0xff, 0x0f), (0x12, 0xff, 0x00)]),
    ];
    assert!(strip_common(&mut maps).is_ok());
    let after_first: Vec<Vec<(u32, u128, u128)>> = vec![
        vec![(0x11, 0xff, 0xff)],
        vec![(0x12, 0xff, 0x00)],
    ];
    assert!(map_equals(&maps[0], &after_first[0]));
    assert!(map_equals(&maps[1], &after_first[1]));

    assert!(strip_common(&mut maps).is_ok());
    assert!(map_equals(&maps[0], &after_first[0]));
    assert!(map_equals(&maps[1], &after_first[1]));
}

#[test]
fn strip_is_order_independent() {
    let a = [(0x1, 0xff_u128, 0x01_u128), (0x2, 0xff_u128, 0x02_u128)];
    let b = [(0x1, 0xff_u128, 0x01_u128), (0x3, 0xf0_u128, 0x30_u128)];
    let c = [(0x1, 0xff_u128, 0x01_u128), (0x2, 0xff_u128, 0x12_u128)];
    let mk = |e: &[(u32, u128, u128)]| msr_map(e);

    let mut fwd = vec![mk(&a), mk(&b), mk(&c)];
    let mut rev = vec![mk(&c), mk(&b), mk(&a)];
    assert!(strip_common(&mut fwd).is_ok());
    assert!(strip_common(&mut rev).is_ok());

    // Matching each map to its permuted counterpart, the results agree.
    assert!(map_equals(&fwd[0], &[(0x2, 0xff, 0x02)]));
    assert!(map_equals(&rev[2], &[(0x2, 0xff, 0x02)]));
    assert!(map_equals(&fwd[1], &[(0x3, 0xf0, 0x30)]));
    assert!(map_equals(&rev[1], &[(0x3, 0xf0, 0x30)]));
    assert!(map_equals(&fwd[2], &[(0x2, 0xff, 0x12)]));
    assert!(map_equals(&rev[0], &[(0x2, 0xff, 0x12)]));
}

#[test]
fn strip_rejects_a_single_map() {
    let mut maps = vec![msr_map(&[(0x0, 0xff, 0x00)])];
    assert_eq!(strip_common(&mut maps), Err(StripError::InsufficientInputs));
    assert!(map_equals(&maps[0], &[(0x0, 0xff, 0x00)]));
}

#[test]
fn strip_rejects_no_maps() {
    let mut maps: Vec<ModifierMap> = Vec::new();
    assert_eq!(strip_common(&mut maps), Err(StripError::InsufficientInputs));
}

#[test]
fn strip_rejects_mixed_families() {
    let mut maps = vec![
        msr_map(&[(0x0, 0xff, 0x00)]),
        {
            let mut m = ModifierMap::new(KeyFamily::Cpuid);
            let inserted = m.insert(
                RegisterKey::Cpuid { leaf: 0, subleaf: 0, register: 0 },
                ModifierValue { filter: 0x1, pattern: 0x1, flags: Some(0) },
            );
            assert!(inserted);
            m
        },
    ];
    assert_eq!(strip_common(&mut maps), Err(StripError::KeyFamilyMismatch));
    assert!(map_equals(&maps[0], &[(0x0, 0xff, 0x00)]));
}

#[test]
fn strip_leaves_no_common_entry_behind() {
    let mut maps = vec![
        msr_map(&[(0x0, 0xff, 0x00), (0x1, 0x0f, 0x01)]),
        msr_map(&[(0x0, 0xff, 0x00), (0x1, 0x0f, 0x01)]),
    ];
    assert!(strip_common(&mut maps).is_ok());
    assert_eq!(maps[0].len(), 0);
    assert_eq!(maps[1].len(), 0);
}

#[test]
fn strip_keeps_empty_maps_empty() {
    let mut maps = vec![msr_map(&[(0x0, 0xff, 0x00)]), ModifierMap::new(KeyFamily::Msr)];
    assert!(strip_common(&mut maps).is_ok());
    // The empty map blocks every key from being common.
    assert!(map_equals(&maps[0], &[(0x0, 0xff, 0x00)]));
    assert_eq!(maps[1].len(), 0);
}
