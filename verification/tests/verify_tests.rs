use cpu_template_helper::model::{KeyFamily, ModifierMap, ModifierValue, RegisterKey, ValueMap};
use cpu_template_helper::verify::{verify, VerifyFailure};

fn wall_clock_template() -> ModifierMap {
    let mut t = ModifierMap::new(KeyFamily::Msr);
    let inserted = t.insert(
        RegisterKey::Msr { addr: 0x4b564d00 },
        ModifierValue { filter: 0x1, pattern: 0x1, flags: None },
    );
    assert!(inserted);
    t
}

fn observed_with(addr: u32, value: u128) -> ValueMap {
    let mut o = ValueMap::new(KeyFamily::Msr);
    let inserted = o.insert(RegisterKey::Msr { addr }, value);
    assert!(inserted);
    o
}

#[test]
fn verify_succeeds_on_matching_value() {
    let template = wall_clock_template();
    let observed = observed_with(0x4b564d00, 0x1);
    let failures = verify(&template, &observed);
    assert_eq!(failures.len(), 0);
}

#[test]
fn verify_reports_one_mismatch() {
    let template = wall_clock_template();
    let observed = observed_with(0x4b564d00, 0x0);
    let failures = verify(&template, &observed);
    assert_eq!(failures.len(), 1);
    assert_eq!(
        failures[0],
        VerifyFailure::Mismatch {
            key: RegisterKey::Msr { addr: 0x4b564d00 },
            filter: 0x1,
            expected: 0x1,
            actual: 0x0,
        },
    );
}

#[test]
fn verify_reports_a_missing_key() {
    let template = wall_clock_template();
    let observed = observed_with(0x4b564d01, 0x1);
    let failures = verify(&template, &observed);
    assert_eq!(failures.len(), 1);
    assert_eq!(
        failures[0],
        VerifyFailure::MissingKey { key: RegisterKey::Msr { addr: 0x4b564d00 } },
    );
}

#[test]
fn verify_reports_every_discrepancy() {
    let mut template = ModifierMap::new(KeyFamily::Msr);
    assert!(template.insert(
        RegisterKey::Msr { addr: 0x1 },
        ModifierValue { filter: 0xff, pattern: 0xaa, flags: None },
    ));
    assert!(template.insert(
        RegisterKey::Msr { addr: 0x2 },
        ModifierValue { filter: 0xff, pattern: 0xbb, flags: None },
    ));
    assert!(template.insert(
        RegisterKey::Msr { addr: 0x3 },
        ModifierValue { filter: 0x0f, pattern: 0x05, flags: None },
    ));
    let mut observed = ValueMap::new(KeyFamily::Msr);
    assert!(observed.insert(RegisterKey::Msr { addr: 0x1 }, 0xab));
    assert!(observed.insert(RegisterKey::Msr { addr: 0x3 }, 0xf5));
    let failures = verify(&template, &observed);
    assert_eq!(failures.len(), 2);
    assert_eq!(
        failures[0],
        VerifyFailure::Mismatch {
            key: RegisterKey::Msr { addr: 0x1 },
            filter: 0xff,
            expected: 0xaa,
            actual: 0xab,
        },
    );
    assert_eq!(failures[1], VerifyFailure::MissingKey { key: RegisterKey::Msr { addr: 0x2 } });
}

#[test]
fn filtered_match_ignores_bits_outside_the_mask() {
    let m = ModifierValue { filter: 0x0f, pattern: 0x05, flags: None };
    assert!(cpu_template_helper::model::matches(&m, 0x05));
    assert!(cpu_template_helper::model::matches(&m, 0xf5));
    assert!(!cpu_template_helper::model::matches(&m, 0x04));
    // Masks govern the pattern side too: pattern bits outside the mask are ignored.
    let n = ModifierValue { filter: 0x0f, pattern: 0xf5, flags: None };
    assert!(cpu_template_helper::model::matches(&n, 0x05));
}
