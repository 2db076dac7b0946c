//! The codec between a modifier map and its portable document form: per
//! entry, the key fields as fixed-width hexadecimal text and the filter mask
//! and target pattern as fixed-width binary text, so that a document
//! round-trips a map losslessly, bit for bit.

use vstd::arithmetic::div_mod::lemma_fundamental_div_mod;
use vstd::arithmetic::power::{
    lemma_pow_increases, lemma_pow_multiplies, lemma_pow_positive, pow,
};
use vstd::arithmetic::power2::{lemma2_to64, lemma2_to64_rest, lemma_pow2, lemma_pow2_adds};
use vstd::prelude::*;

use crate::model::{
    family_bits, family_mask, value_fits, KeyFamily, ModifierMap, ModifierValue, RegisterKey,
};

verus! {

/// The character (ASCII) of one digit; hexadecimal digits use lowercase.
pub open spec fn digit_char(d: nat) -> u8 {
    if d < 10 {
        (48 + d) as u8
    } else {
        (87 + d) as u8
    }
}

/// Whether a character is a digit of the base (binary or lowercase hex).
pub open spec fn is_digit(c: u8, base: nat) -> bool {
    if base == 2 {
        c == 48 || c == 49
    } else {
        (48 <= c <= 57) || (97 <= c <= 102)
    }
}

/// The value of one digit character.
pub open spec fn digit_val(c: u8) -> nat {
    if 48 <= c <= 57 {
        (c - 48) as nat
    } else {
        (c - 87) as nat
    }
}

/// The fixed-width textual digits of a value, most significant first.
pub open spec fn digits_of(v: nat, base: nat, count: nat) -> Seq<u8>
    decreases count,
{
    if count == 0 {
        Seq::empty()
    } else {
        digits_of(v / base, base, (count - 1) as nat).push(digit_char(v % base))
    }
}

/// The value a digit string denotes.
pub open spec fn value_of(s: Seq<u8>, base: nat) -> nat
    decreases s.len(),
{
    if s.len() == 0 {
        0
    } else {
        value_of(s.drop_last(), base) * base + digit_val(s.last())
    }
}

/// Every character of the string is a digit of the base.
pub open spec fn all_digits(s: Seq<u8>, base: nat) -> bool {
    forall|i: int| 0 <= i < s.len() ==> is_digit(#[trigger] s[i], base)
}

/// Writing a value out and reading the text back yields the value again.
pub proof fn lemma_digits_roundtrip(v: nat, base: nat, count: nat)
    requires
        base == 2 || base == 16,
        v < pow(base as int, count),
    ensures
        digits_of(v, base, count).len() == count,
        all_digits(digits_of(v, base, count), base),
        value_of(digits_of(v, base, count), base) == v,
    decreases count,
{
    reveal(pow);
    if count == 0 {
    } else {
        lemma_pow_positive(base as int, (count - 1) as nat);
        assert(pow(base as int, count) == base * pow(base as int, (count - 1) as nat));
        assert(v / base < pow(base as int, (count - 1) as nat)) by (nonlinear_arith)
            requires
                v < base * pow(base as int, (count - 1) as nat),
                base >= 2,
                pow(base as int, (count - 1) as nat) >= 1,
        ;
        lemma_digits_roundtrip(v / base, base, (count - 1) as nat);
        let s = digits_of(v, base, count);
        assert(s.drop_last() == digits_of(v / base, base, (count - 1) as nat));
        assert(v % base < base) by (nonlinear_arith)
            requires
                base >= 2,
        ;
        lemma_fundamental_div_mod(v as int, base as int);
        assert(value_of(s, base) == (v / base) * base + (v % base));
        assert((v / base) * base + (v % base) == v);
    }
}

/// The value of a digit string lies below the base raised to its length.
pub proof fn lemma_value_bound(s: Seq<u8>, base: nat)
    requires
        base == 2 || base == 16,
        all_digits(s, base),
    ensures
        value_of(s, base) < pow(base as int, s.len()),
    decreases s.len(),
{
    reveal(pow);
    if s.len() == 0 {
    } else {
        assert(all_digits(s.drop_last(), base));
        lemma_value_bound(s.drop_last(), base);
        let hi = value_of(s.drop_last(), base);
        let d = digit_val(s.last());
        assert(is_digit(s[s.len() - 1], base));
        assert(d < base);
        assert(pow(base as int, s.len()) == base * pow(base as int, (s.len() - 1) as nat));
        assert(hi * base + d < base * pow(base as int, (s.len() - 1) as nat)) by (nonlinear_arith)
            requires
                hi < pow(base as int, (s.len() - 1) as nat),
                d < base,
                base >= 2,
        ;
    }
}

/// A valid fixed-width digit string is the canonical text of its value.
pub proof fn lemma_digits_of_value(s: Seq<u8>, base: nat)
    requires
        base == 2 || base == 16,
        all_digits(s, base),
    ensures
        digits_of(value_of(s, base), base, s.len()) == s,
    decreases s.len(),
{
    if s.len() > 0 {
        assert(all_digits(s.drop_last(), base));
        lemma_digits_of_value(s.drop_last(), base);
        let hi = value_of(s.drop_last(), base);
        let d = digit_val(s.last());
        let v = value_of(s, base);
        assert(is_digit(s[s.len() - 1], base));
        assert(d < base);
        assert(v == hi * base + d);
        vstd::arithmetic::div_mod::lemma_fundamental_div_mod_converse(
            v as int,
            base as int,
            hi as int,
            d as int,
        );
        assert(v / base == hi && v % base == d);
        assert(digit_char(d) == s.last());
        assert(digits_of(v, base, s.len()) == digits_of(hi, base, (s.len() - 1) as nat).push(
            digit_char(d),
        ));
        assert(digits_of(v, base, s.len()) =~= s);
    }
}

/// The concrete powers the codec relies on: the hex widths of the key fields
/// and the binary widths of the three register families.
pub proof fn lemma_codec_pows()
    ensures
        pow(16, 8) == 0x1_0000_0000,
        pow(16, 16) == 0x1_0000_0000_0000_0000,
        pow(2, 32) == 0x1_0000_0000,
        pow(2, 64) == 0x1_0000_0000_0000_0000,
        pow(2, 128) == 0x1_0000_0000_0000_0000_0000_0000_0000_0000,
{
    lemma2_to64();
    lemma2_to64_rest();
    lemma_pow2(32);
    lemma_pow2(64);
    lemma_pow2(128);
    lemma_pow2_adds(64, 64);
    assert(pow(2, 4) == 16) by {
        lemma_pow2(4);
    }
    lemma_pow_multiplies(2, 4, 8);
    lemma_pow_multiplies(2, 4, 16);
}

fn digit_char_exec(d: u8) -> (c: u8)
    requires
        d < 16,
    ensures
        c == digit_char(d as nat),
{
    if d < 10 {
        48 + d
    } else {
        87 + d
    }
}

fn digit_val_exec(c: u8, base: u128) -> (r: Option<u8>)
    requires
        base == 2 || base == 16,
    ensures
        match r {
            Some(d) => is_digit(c, base as nat) && d as nat == digit_val(c) && (d as nat) < (
            base as nat),
            None => !is_digit(c, base as nat),
        },
{
    if base == 2 {
        if c == 48 {
            Some(0)
        } else if c == 49 {
            Some(1)
        } else {
            None
        }
    } else {
        if 48 <= c && c <= 57 {
            Some(c - 48)
        } else if 97 <= c && c <= 102 {
            Some(c - 87)
        } else {
            None
        }
    }
}

fn encode_digits(v: u128, base: u128, count: usize) -> (r: Vec<u8>)
    requires
        base == 2 || base == 16,
        (v as nat) < pow(base as int, count as nat),
    ensures
        r@ == digits_of(v as nat, base as nat, count as nat),
    decreases count,
{
    if count == 0 {
        let r: Vec<u8> = Vec::new();
        proof {
            assert(r@ =~= digits_of(v as nat, base as nat, 0));
        }
        r
    } else {
        proof {
            reveal(pow);
            lemma_pow_positive(base as int, (count - 1) as nat);
            assert(pow(base as int, count as nat) == base * pow(
                base as int,
                (count - 1) as nat,
            ));
            assert((v as nat) / (base as nat) < pow(base as int, (count - 1) as nat))
                by (nonlinear_arith)
                requires
                    (v as nat) < (base as nat) * pow(base as int, (count - 1) as nat),
                    base >= 2,
                    pow(base as int, (count - 1) as nat) >= 1,
            ;
        }
        let mut r = encode_digits(v / base, base, count - 1);
        let d = (v % base) as u8;
        proof {
            assert((v as nat) % (base as nat) < base as nat) by (nonlinear_arith)
                requires
                    base >= 2,
            ;
        }
        r.push(digit_char_exec(d));
        r
    }
}

#[verifier::loop_isolation(false)]
fn decode_digits(s: &Vec<u8>, base: u128, count: usize) -> (r: Option<u128>)
    requires
        base == 2 || base == 16,
        pow(base as int, count as nat) <= pow(2, 128),
    ensures
        match r {
            Some(v) => s@.len() == count && all_digits(s@, base as nat) && v as nat == value_of(
                s@,
                base as nat,
            ),
            None => !(s@.len() == count && all_digits(s@, base as nat)),
        },
{
    if s.len() != count {
        return None;
    }
    let mut acc: u128 = 0;
    let mut i: usize = 0;
    while i < count
        invariant
            i <= count,
            all_digits(s@.take(i as int), base as nat),
            acc as nat == value_of(s@.take(i as int), base as nat),
        decreases count - i,
    {
        match digit_val_exec(s[i], base) {
            None => {
                assert(!is_digit(s@[i as int], base as nat));
                return None;
            },
            Some(d) => {
                proof {
                    reveal(pow);
                    lemma_value_bound(s@.take(i as int), base as nat);
                    assert(pow(base as int, (i + 1) as nat) == base * pow(base as int, i as nat));
                    assert((acc as nat) * (base as nat) + (d as nat) < pow(
                        base as int,
                        (i + 1) as nat,
                    )) by (nonlinear_arith)
                        requires
                            (acc as nat) < pow(base as int, i as nat),
                            (d as nat) < (base as nat),
                            base >= 2,
                            pow(base as int, (i + 1) as nat) == base * pow(base as int, i as nat),
                    ;
                    lemma_pow_increases(base as nat, (i + 1) as nat, count as nat);
                    lemma_codec_pows();
                }
                acc = acc * base + (d as u128);
                proof {
                    let pre = s@.take(i as int);
                    let post = s@.take(i + 1 as int);
                    assert(post.drop_last() == pre);
                    assert(post.last() == s@[i as int]);
                    assert(acc as nat == value_of(pre, base as nat) * (base as nat) + digit_val(
                        s@[i as int],
                    ));
                }
                i += 1;
            },
        }
    }
    proof {
        assert(s@.take(count as int) == s@);
    }
    Some(acc)
}

/// The textual key of a document entry, one shape per key family.
#[derive(Clone, Debug)]
pub enum DocKey {
    Cpuid { leaf: Vec<u8>, subleaf: Vec<u8>, register: Vec<u8> },
    Msr { addr: Vec<u8> },
    SysReg { id: Vec<u8> },
}

/// One entry of the document form: the key fields as fixed-width hexadecimal
/// text, the filter mask and target pattern as fixed-width binary text, and
/// the flags carried as they are.
#[derive(Clone, Debug)]
pub struct DocEntry {
    pub key: DocKey,
    pub filter: Vec<u8>,
    pub pattern: Vec<u8>,
    pub flags: Option<u32>,
}

/// The portable document form of one modifier map.
#[derive(Clone, Debug)]
pub struct MapDocument {
    pub family: KeyFamily,
    pub entries: Vec<DocEntry>,
}

/// The width, in hexadecimal digits, of each key field of a family.
pub open spec fn key_hex_digits(f: KeyFamily) -> nat {
    match f {
        KeyFamily::Cpuid => 8,
        KeyFamily::Msr => 8,
        KeyFamily::SysReg => 16,
    }
}

/// A register key and a document key carry the same address text.
pub open spec fn key_encodes(k: RegisterKey, dk: DocKey) -> bool {
    match (k, dk) {
        (
            RegisterKey::Cpuid { leaf, subleaf, register },
            DocKey::Cpuid { leaf: l, subleaf: sl, register: r },
        ) => l@ == digits_of(leaf as nat, 16, 8) && sl@ == digits_of(subleaf as nat, 16, 8) && r@
            == digits_of(register as nat, 16, 8),
        (RegisterKey::Msr { addr }, DocKey::Msr { addr: a }) => a@ == digits_of(addr as nat, 16, 8),
        (RegisterKey::SysReg { id }, DocKey::SysReg { id: i }) => i@ == digits_of(id as nat, 16, 16),
        _ => false,
    }
}

/// A map entry and a document entry carry the same information.
pub open spec fn entry_encodes(e: (RegisterKey, ModifierValue), de: DocEntry, f: KeyFamily) -> bool {
    &&& key_encodes(e.0, de.key)
    &&& de.filter@ == digits_of(e.1.filter as nat, 2, family_bits(f))
    &&& de.pattern@ == digits_of(e.1.pattern as nat, 2, family_bits(f))
    &&& de.flags == e.1.flags
}

/// A document is the exact encoding of a map.
pub open spec fn encodes(m: ModifierMap, d: MapDocument) -> bool {
    &&& d.family == m.family
    &&& d.entries@.len() == m.entries@.len()
    &&& forall|i: int|
        0 <= i < m.entries@.len() ==> entry_encodes(m.entries@[i], #[trigger] d.entries@[i], m.family)
}

/// The key a document key decodes to (meaningful on well-formed entries).
pub open spec fn decode_key(dk: DocKey) -> RegisterKey {
    match dk {
        DocKey::Cpuid { leaf, subleaf, register } => RegisterKey::Cpuid {
            leaf: value_of(leaf@, 16) as u32,
            subleaf: value_of(subleaf@, 16) as u32,
            register: value_of(register@, 16) as u32,
        },
        DocKey::Msr { addr } => RegisterKey::Msr { addr: value_of(addr@, 16) as u32 },
        DocKey::SysReg { id } => RegisterKey::SysReg { id: value_of(id@, 16) as u64 },
    }
}

/// The modifier value a document entry decodes to.
pub open spec fn decode_val(de: DocEntry) -> ModifierValue {
    ModifierValue {
        filter: value_of(de.filter@, 2) as u128,
        pattern: value_of(de.pattern@, 2) as u128,
        flags: de.flags,
    }
}

pub open spec fn hex_field_wf(s: Seq<u8>, count: nat) -> bool {
    s.len() == count && all_digits(s, 16)
}

pub open spec fn bin_field_wf(s: Seq<u8>, count: nat) -> bool {
    s.len() == count && all_digits(s, 2)
}

/// A document entry is well formed for a family: the key shape matches the
/// family and every numeric field has exactly the family's width.
pub open spec fn entry_doc_wf(de: DocEntry, f: KeyFamily) -> bool {
    &&& match (f, de.key) {
        (KeyFamily::Cpuid, DocKey::Cpuid { leaf, subleaf, register }) => hex_field_wf(leaf@, 8)
            && hex_field_wf(subleaf@, 8) && hex_field_wf(register@, 8),
        (KeyFamily::Msr, DocKey::Msr { addr }) => hex_field_wf(addr@, 8),
        (KeyFamily::SysReg, DocKey::SysReg { id }) => hex_field_wf(id@, 16),
        _ => false,
    }
    &&& bin_field_wf(de.filter@, family_bits(f))
    &&& bin_field_wf(de.pattern@, family_bits(f))
}

/// A document is well formed: every entry is, and no two entries name one
/// and the same register key.
pub open spec fn doc_wf(d: MapDocument) -> bool {
    &&& forall|i: int|
        0 <= i < d.entries@.len() ==> entry_doc_wf(#[trigger] d.entries@[i], d.family)
    &&& forall|i: int, j: int|
        0 <= i < j < d.entries@.len() ==> decode_key((#[trigger] d.entries@[i]).key) != decode_key(
            (#[trigger] d.entries@[j]).key,
        )
}

/// The entries a well-formed document decodes to, in document order.
pub open spec fn decoded_entries(d: MapDocument) -> Seq<(RegisterKey, ModifierValue)> {
    Seq::new(d.entries@.len(), |i: int| (decode_key(d.entries@[i].key), decode_val(d.entries@[i])))
}

/// Why a document was rejected.
#[derive(Clone, Copy, Debug, PartialEq, Eq, Structural)]
pub enum CodecError {
    /// The entry's key shape or a numeric field does not fit the family's
    /// register width.
    MalformedModifier { index: usize },
    /// The entry names a register key that an earlier entry already names.
    DuplicateKey { index: usize },
}


fn bits_of(f: KeyFamily) -> (n: usize)
    ensures
        n == family_bits(f),
{
    match f {
        KeyFamily::Cpuid => 32,
        KeyFamily::Msr => 64,
        KeyFamily::SysReg => 128,
    }
}

fn encode_key(k: &RegisterKey) -> (dk: DocKey)
    ensures
        key_encodes(*k, dk),
{
    proof {
        lemma_codec_pows();
    }
    match k {
        RegisterKey::Cpuid { leaf, subleaf, register } => DocKey::Cpuid {
            leaf: encode_digits(*leaf as u128, 16, 8),
            subleaf: encode_digits(*subleaf as u128, 16, 8),
            register: encode_digits(*register as u128, 16, 8),
        },
        RegisterKey::Msr { addr } => DocKey::Msr { addr: encode_digits(*addr as u128, 16, 8) },
        RegisterKey::SysReg { id } => DocKey::SysReg { id: encode_digits(*id as u128, 16, 16) },
    }
}

fn encode_entry(e: &(RegisterKey, ModifierValue), f: KeyFamily) -> (de: DocEntry)
    requires
        value_fits(e.1, f),
    ensures
        entry_encodes(*e, de, f),
{
    proof {
        lemma_codec_pows();
        assert(family_mask(f) as nat + 1 == pow(2, family_bits(f)));
    }
    let bits = bits_of(f);
    DocEntry {
        key: encode_key(&e.0),
        filter: encode_digits(e.1.filter, 2, bits),
        pattern: encode_digits(e.1.pattern, 2, bits),
        flags: e.1.flags,
    }
}

/// Round trip: the document form of a well-formed map is well formed and
/// decodes back to exactly the map's entries, so encoding loses nothing.
pub proof fn lemma_round_trip(m: ModifierMap, d: MapDocument)
    requires
        m.wf(),
        encodes(m, d),
    ensures
        doc_wf(d),
        d.family == m.family,
        decoded_entries(d) == m.entries@,
{
    lemma_codec_pows();
    assert forall|i: int| 0 <= i < d.entries@.len() implies entry_doc_wf(
        #[trigger] d.entries@[i],
        d.family,
    ) && decode_key(d.entries@[i].key) == m.entries@[i].0 && decode_val(d.entries@[i])
        == m.entries@[i].1 by {
        let e = m.entries@[i];
        let de = d.entries@[i];
        assert(entry_encodes(e, de, m.family));
        assert(e.0.spec_family() == m.family);
        assert(value_fits(e.1, m.family));
        assert(family_mask(m.family) as nat + 1 == pow(2, family_bits(m.family)));
        lemma_digits_roundtrip(e.1.filter as nat, 2, family_bits(m.family));
        lemma_digits_roundtrip(e.1.pattern as nat, 2, family_bits(m.family));
        match e.0 {
            RegisterKey::Cpuid { leaf, subleaf, register } => {
                lemma_digits_roundtrip(leaf as nat, 16, 8);
                lemma_digits_roundtrip(subleaf as nat, 16, 8);
                lemma_digits_roundtrip(register as nat, 16, 8);
            },
            RegisterKey::Msr { addr } => {
                lemma_digits_roundtrip(addr as nat, 16, 8);
            },
            RegisterKey::SysReg { id } => {
                lemma_digits_roundtrip(id as nat, 16, 16);
            },
        }
    }
    assert forall|i: int, j: int| 0 <= i < j < d.entries@.len() implies decode_key(
        (#[trigger] d.entries@[i]).key,
    ) != decode_key((#[trigger] d.entries@[j]).key) by {
        assert(decode_key(d.entries@[i].key) == m.entries@[i].0);
        assert(decode_key(d.entries@[j].key) == m.entries@[j].0);
    }
    assert(decoded_entries(d) =~= m.entries@);
}

/// Encodes a modifier map into its portable document form. The document is
/// well formed and decodes back to exactly the same map.
#[verifier::loop_isolation(false)]
pub fn encode(m: &ModifierMap) -> (d: MapDocument)
    requires
        m.wf(),
    ensures
        encodes(*m, d),
        doc_wf(d),
        d.family == m.family,
        decoded_entries(d) == m.entries@,
{
    let n = m.entries.len();
    let mut entries: Vec<DocEntry> = Vec::new();
    let mut i: usize = 0;
    while i < n
        invariant
            i <= n,
            entries@.len() == i,
            forall|j: int|
                0 <= j < i ==> entry_encodes(m.entries@[j], #[trigger] entries@[j], m.family),
        decreases n - i,
    {
        let de = encode_entry(&m.entries[i], m.family);
        entries.push(de);
        i += 1;
    }
    let d = MapDocument { family: m.family, entries };
    proof {
        lemma_round_trip(*m, d);
    }
    d
}

fn decode_entry(de: &DocEntry, f: KeyFamily) -> (r: Option<(RegisterKey, ModifierValue)>)
    ensures
        match r {
            Some(e) => entry_doc_wf(*de, f) && e.0 == decode_key(de.key) && e.1 == decode_val(*de)
                && e.0.spec_family() == f && value_fits(e.1, f),
            None => !entry_doc_wf(*de, f),
        },
{
    proof {
        lemma_codec_pows();
        lemma_pow_increases(2, 32, 128);
        lemma_pow_increases(2, 64, 128);
        assert(family_mask(f) as nat + 1 == pow(2, family_bits(f)));
    }
    let key = match (f, &de.key) {
        (KeyFamily::Cpuid, DocKey::Cpuid { leaf, subleaf, register }) => {
            let l = match decode_digits(leaf, 16, 8) {
                Some(v) => v,
                None => {
                    return None;
                },
            };
            let sl = match decode_digits(subleaf, 16, 8) {
                Some(v) => v,
                None => {
                    return None;
                },
            };
            let rg = match decode_digits(register, 16, 8) {
                Some(v) => v,
                None => {
                    return None;
                },
            };
            proof {
                lemma_value_bound(leaf@, 16);
                lemma_value_bound(subleaf@, 16);
                lemma_value_bound(register@, 16);
            }
            RegisterKey::Cpuid { leaf: l as u32, subleaf: sl as u32, register: rg as u32 }
        },
        (KeyFamily::Msr, DocKey::Msr { addr }) => {
            let a = match decode_digits(addr, 16, 8) {
                Some(v) => v,
                None => {
                    return None;
                },
            };
            proof {
                lemma_value_bound(addr@, 16);
            }
            RegisterKey::Msr { addr: a as u32 }
        },
        (KeyFamily::SysReg, DocKey::SysReg { id }) => {
            let v = match decode_digits(id, 16, 16) {
                Some(v) => v,
                None => {
                    return None;
                },
            };
            proof {
                lemma_value_bound(id@, 16);
            }
            RegisterKey::SysReg { id: v as u64 }
        },
        _ => {
            return None;
        },
    };
    let bits = bits_of(f);
    let filter = match decode_digits(&de.filter, 2, bits) {
        Some(v) => v,
        None => {
            return None;
        },
    };
    let pattern = match decode_digits(&de.pattern, 2, bits) {
        Some(v) => v,
        None => {
            return None;
        },
    };
    proof {
        lemma_value_bound(de.filter@, 2);
        lemma_value_bound(de.pattern@, 2);
    }
    Some((key, ModifierValue { filter, pattern, flags: de.flags }))
}

/// Decodes a document into a modifier map. A document whose entries do not
/// fit the family's register widths, or which names a register key twice,
/// is rejected with the entry at fault.
#[verifier::loop_isolation(false)]
pub fn decode(d: &MapDocument) -> (r: Result<ModifierMap, CodecError>)
    ensures
        match r {
            Ok(m) => doc_wf(*d) && m.wf() && m.family == d.family && m.entries@ == decoded_entries(
                *d,
            ),
            Err(CodecError::MalformedModifier { index }) => !doc_wf(*d) && index < d.entries@.len()
                && !entry_doc_wf(d.entries@[index as int], d.family),
            Err(CodecError::DuplicateKey { index }) => !doc_wf(*d) && index < d.entries@.len() && (
            exists|j: int|
                0 <= j < index && decode_key((#[trigger] d.entries@[j]).key) == decode_key(
                    d.entries@[index as int].key,
                )),
        },
{
    let n = d.entries.len();
    let fam = d.family;
    let mut m = ModifierMap::new(fam);
    let mut i: usize = 0;
    while i < n
        invariant
            i <= n,
            m.wf(),
            m.family == fam,
            m.entries@.len() == i,
            forall|j: int| 0 <= j < i ==> entry_doc_wf(#[trigger] d.entries@[j], fam),
            forall|j: int|
                0 <= j < i ==> #[trigger] m.entries@[j] == (
                    decode_key(d.entries@[j].key),
                    decode_val(d.entries@[j]),
                ),
        decreases n - i,
    {
        let de = &d.entries[i];
        match decode_entry(de, fam) {
            None => {
                return Err(CodecError::MalformedModifier { index: i });
            },
            Some(e) => {
                let ghost pre = m;
                if !m.insert(e.0, e.1) {
                    proof {
                        crate::model::lemma_map_of_contains(pre.entries@);
                        let j = choose|j: int|
                            0 <= j < pre.entries@.len() && (#[trigger] pre.entries@[j]).0 == e.0;
                        assert(pre.entries@[j] == (
                            decode_key(d.entries@[j].key),
                            decode_val(d.entries@[j]),
                        ));
                        assert(decode_key(d.entries@[j].key) == decode_key(
                            d.entries@[i as int].key,
                        ));
                        assert(!doc_wf(*d));
                    }
                    return Err(CodecError::DuplicateKey { index: i });
                }
            },
        }
        i += 1;
    }
    proof {
        assert forall|p: int, q: int| 0 <= p < q < d.entries@.len() implies decode_key(
            (#[trigger] d.entries@[p]).key,
        ) != decode_key((#[trigger] d.entries@[q]).key) by {
            assert(m.entries@[p].0 == decode_key(d.entries@[p].key));
            assert(m.entries@[q].0 == decode_key(d.entries@[q].key));
        }
        assert(m.entries@ =~= decoded_entries(*d));
    }
    Ok(m)
}

} // verus!
