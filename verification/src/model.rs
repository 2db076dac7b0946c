//! The modifier-map model: register keys, modifier values, and the keyed
//! collections of bit-level overrides that the strip and verify engines
//! operate on.
//!
//! A CPU configuration is described as a set of overrides ("modifiers"),
//! each addressed by a register key. A modifier governs the bits selected by
//! its filter mask and demands that they take the bits of its target pattern.

use vstd::prelude::*;

verus! {

/// The architecture-specific shape of a register key. Maps of different
/// families are never merged and are processed independently.
#[derive(Clone, Copy, Debug, PartialEq, Eq, Structural, Hash)]
pub enum KeyFamily {
    /// Keys addressing a CPUID leaf/subleaf/register triple (32-bit registers).
    Cpuid,
    /// Keys addressing a model-specific register by index (64-bit registers).
    Msr,
    /// Keys addressing a system register by id (up to 128-bit registers).
    SysReg,
}

/// A single addressable unit of CPU configuration.
#[derive(Clone, Copy, Debug, PartialEq, Eq, Structural, Hash, PartialOrd, Ord)]
pub enum RegisterKey {
    Cpuid { leaf: u32, subleaf: u32, register: u32 },
    Msr { addr: u32 },
    SysReg { id: u64 },
}

impl RegisterKey {
    /// The key family this key belongs to.
    pub open spec fn spec_family(self) -> KeyFamily {
        match self {
            RegisterKey::Cpuid { .. } => KeyFamily::Cpuid,
            RegisterKey::Msr { .. } => KeyFamily::Msr,
            RegisterKey::SysReg { .. } => KeyFamily::SysReg,
        }
    }

    pub fn family(&self) -> (f: KeyFamily)
        ensures
            f == self.spec_family(),
    {
        match self {
            RegisterKey::Cpuid { .. } => KeyFamily::Cpuid,
            RegisterKey::Msr { .. } => KeyFamily::Msr,
            RegisterKey::SysReg { .. } => KeyFamily::SysReg,
        }
    }
}

/// The native register width of a key family, in bits.
pub open spec fn family_bits(f: KeyFamily) -> nat {
    match f {
        KeyFamily::Cpuid => 32,
        KeyFamily::Msr => 64,
        KeyFamily::SysReg => 128,
    }
}

/// All-ones mask of the family's native register width. A value fits the
/// family's width iff it is no larger than this mask.
pub open spec fn family_mask(f: KeyFamily) -> u128 {
    match f {
        KeyFamily::Cpuid => 0xffff_ffff,
        KeyFamily::Msr => 0xffff_ffff_ffff_ffff,
        KeyFamily::SysReg => 0xffff_ffff_ffff_ffff_ffff_ffff_ffff_ffff,
    }
}

pub fn mask_of(f: KeyFamily) -> (m: u128)
    ensures
        m == family_mask(f),
{
    match f {
        KeyFamily::Cpuid => 0xffff_ffff,
        KeyFamily::Msr => 0xffff_ffff_ffff_ffff,
        KeyFamily::SysReg => 0xffff_ffff_ffff_ffff_ffff_ffff_ffff_ffff,
    }
}

/// The override applied at a register key: the filter mask selects which bits
/// are governed, the target pattern gives the bits they must take. The flags
/// disambiguate sub-registers for the key families that need it.
#[derive(Clone, Copy, Debug, Hash)]
pub struct ModifierValue {
    pub filter: u128,
    pub pattern: u128,
    pub flags: Option<u32>,
}

impl PartialEq for ModifierValue {
    fn eq(&self, other: &ModifierValue) -> (r: bool) {
        let flags_eq = match (self.flags, other.flags) {
            (Some(a), Some(b)) => a == b,
            (None, None) => true,
            _ => false,
        };
        self.filter == other.filter && self.pattern == other.pattern && flags_eq
    }
}

impl vstd::std_specs::cmp::PartialEqSpecImpl for ModifierValue {
    open spec fn obeys_eq_spec() -> bool {
        true
    }

    open spec fn eq_spec(&self, other: &ModifierValue) -> bool {
        *self == *other
    }
}

/// A modifier value fits a key family when mask and pattern lie within the
/// family's native register width.
pub open spec fn value_fits(v: ModifierValue, f: KeyFamily) -> bool {
    v.filter <= family_mask(f) && v.pattern <= family_mask(f)
}

pub fn check_value_fits(v: &ModifierValue, f: KeyFamily) -> (r: bool)
    ensures
        r == value_fits(*v, f),
{
    let m = mask_of(f);
    v.filter <= m && v.pattern <= m
}

/// The filtered-match predicate: the observed value satisfies the modifier
/// iff the bits governed by the filter mask equal the target pattern's bits
/// under the same mask.
pub open spec fn spec_matches(m: ModifierValue, observed: u128) -> bool {
    (observed & m.filter) == (m.pattern & m.filter)
}

pub fn matches(m: &ModifierValue, observed: u128) -> (r: bool)
    ensures
        r == spec_matches(*m, observed),
{
    (observed & m.filter) == (m.pattern & m.filter)
}

/// The mathematical map described by an association list; a later entry for
/// the same key wins, so on lists with unique keys every entry is visible.
pub open spec fn map_of<K, V>(s: Seq<(K, V)>) -> Map<K, V>
    decreases s.len(),
{
    if s.len() == 0 {
        Map::empty()
    } else {
        map_of(s.drop_last()).insert(s.last().0, s.last().1)
    }
}

/// No key occurs twice in the association list.
pub open spec fn unique_keys<K, V>(s: Seq<(K, V)>) -> bool {
    forall|i: int, j: int| 0 <= i < j < s.len() ==> (#[trigger] s[i]).0 != (#[trigger] s[j]).0
}

pub proof fn lemma_map_of_contains<K, V>(s: Seq<(K, V)>)
    ensures
        forall|k: K|
            #[trigger] map_of(s).contains_key(k) <==> exists|i: int|
                0 <= i < s.len() && (#[trigger] s[i]).0 == k,
    decreases s.len(),
{
    if s.len() > 0 {
        lemma_map_of_contains(s.drop_last());
        assert forall|k: K| #[trigger] map_of(s).contains_key(k) implies exists|i: int|
            0 <= i < s.len() && (#[trigger] s[i]).0 == k by {
            if k == s.last().0 {
                assert(s[s.len() - 1].0 == k);
            } else {
                assert(map_of(s.drop_last()).contains_key(k));
                let i = choose|i: int|
                    0 <= i < s.drop_last().len() && (#[trigger] s.drop_last()[i]).0 == k;
                assert(s.drop_last()[i] == s[i]);
                assert(s[i].0 == k);
            }
        }
        assert forall|k: K| (exists|i: int| 0 <= i < s.len() && (#[trigger] s[i]).0 == k) implies
            #[trigger] map_of(s).contains_key(k) by {
            let i = choose|i: int| 0 <= i < s.len() && (#[trigger] s[i]).0 == k;
            if i == s.len() - 1 {
                assert(map_of(s).contains_key(s.last().0));
            } else {
                assert(s.drop_last()[i].0 == k);
                assert(exists|j: int|
                    0 <= j < s.drop_last().len() && (#[trigger] s.drop_last()[j]).0 == k);
                assert(map_of(s.drop_last()).contains_key(k));
                assert(map_of(s) == map_of(s.drop_last()).insert(s.last().0, s.last().1));
            }
        }
    }
}

pub proof fn lemma_map_of_index<K, V>(s: Seq<(K, V)>, i: int)
    requires
        unique_keys(s),
        0 <= i < s.len(),
    ensures
        map_of(s).contains_key(s[i].0),
        map_of(s)[s[i].0] == s[i].1,
    decreases s.len(),
{
    if i < s.len() - 1 {
        assert(unique_keys(s.drop_last()));
        lemma_map_of_index(s.drop_last(), i);
        assert(s[i].0 != s.last().0);
    }
}

/// One complete template or observed configuration: a mapping from register
/// key to modifier value, keys unique, all of one key family.
#[derive(Clone, Debug)]
pub struct ModifierMap {
    pub family: KeyFamily,
    pub entries: Vec<(RegisterKey, ModifierValue)>,
}

impl ModifierMap {
    /// The mathematical map this collection represents.
    pub open spec fn to_map(self) -> Map<RegisterKey, ModifierValue> {
        map_of(self.entries@)
    }

    /// Well-formedness: unique keys, all keys of the stated family, all
    /// values within the family's register width.
    pub open spec fn wf(self) -> bool {
        &&& unique_keys(self.entries@)
        &&& forall|i: int|
            0 <= i < self.entries@.len() ==> (#[trigger] self.entries@[i]).0.spec_family()
                == self.family
        &&& forall|i: int|
            0 <= i < self.entries@.len() ==> value_fits((#[trigger] self.entries@[i]).1, self.family)
    }

    pub fn new(family: KeyFamily) -> (r: ModifierMap)
        ensures
            r.wf(),
            r.family == family,
            r.to_map() == Map::<RegisterKey, ModifierValue>::empty(),
            r.entries@.len() == 0,
    {
        ModifierMap { family, entries: Vec::new() }
    }

    pub fn len(&self) -> (n: usize)
        ensures
            n == self.entries@.len(),
    {
        self.entries.len()
    }

    /// The entry at a position, for callers that walk the collection.
    pub fn entry_at(&self, i: usize) -> (e: (RegisterKey, ModifierValue))
        requires
            i < self.entries@.len(),
        ensures
            e == self.entries@[i as int],
    {
        self.entries[i]
    }

    /// Looks a key up, returning its value when the key is present.
    pub fn get(&self, key: &RegisterKey) -> (r: Option<&ModifierValue>)
        requires
            self.wf(),
        ensures
            match r {
                Some(v) => self.to_map().contains_key(*key) && *v == self.to_map()[*key],
                None => !self.to_map().contains_key(*key),
            },
    {
        let n = self.entries.len();
        let mut i: usize = 0;
        while i < n
            invariant
                self.wf(),
                n == self.entries@.len(),
                i <= n,
                forall|j: int| 0 <= j < i ==> (#[trigger] self.entries@[j]).0 != *key,
            decreases n - i,
        {
            if self.entries[i].0 == *key {
                proof {
                    lemma_map_of_index(self.entries@, i as int);
                }
                return Some(&self.entries[i].1);
            }
            i += 1;
        }
        proof {
            lemma_map_of_contains(self.entries@);
        }
        None
    }

    /// Adds an entry for a fresh key; refuses a key already present and
    /// leaves the collection unchanged in that case.
    pub fn insert(&mut self, key: RegisterKey, value: ModifierValue) -> (r: bool)
        requires
            old(self).wf(),
            key.spec_family() == old(self).family,
            value_fits(value, old(self).family),
        ensures
            final(self).wf(),
            final(self).family == old(self).family,
            r == !old(self).to_map().contains_key(key),
            r ==> final(self).to_map() == old(self).to_map().insert(key, value)
                && final(self).entries@ == old(self).entries@.push((key, value)),
            !r ==> *final(self) == *old(self),
    {
        match self.get(&key) {
            Some(_) => false,
            None => {
                proof {
                    lemma_map_of_contains(self.entries@);
                }
                self.entries.push((key, value));
                proof {
                    assert(self.entries@.drop_last() == old(self).entries@);
                }
                true
            },
        }
    }
}

/// An observed configuration: the concrete bit pattern read at each register
/// key, keys unique, all of one key family, values within the family width.
#[derive(Clone, Debug)]
pub struct ValueMap {
    pub family: KeyFamily,
    pub entries: Vec<(RegisterKey, u128)>,
}

impl ValueMap {
    pub open spec fn to_map(self) -> Map<RegisterKey, u128> {
        map_of(self.entries@)
    }

    pub open spec fn wf(self) -> bool {
        &&& unique_keys(self.entries@)
        &&& forall|i: int|
            0 <= i < self.entries@.len() ==> (#[trigger] self.entries@[i]).0.spec_family()
                == self.family
        &&& forall|i: int|
            0 <= i < self.entries@.len() ==> (#[trigger] self.entries@[i]).1 <= family_mask(
                self.family,
            )
    }

    pub fn new(family: KeyFamily) -> (r: ValueMap)
        ensures
            r.wf(),
            r.family == family,
            r.to_map() == Map::<RegisterKey, u128>::empty(),
            r.entries@.len() == 0,
    {
        ValueMap { family, entries: Vec::new() }
    }

    pub fn len(&self) -> (n: usize)
        ensures
            n == self.entries@.len(),
    {
        self.entries.len()
    }

    pub fn entry_at(&self, i: usize) -> (e: (RegisterKey, u128))
        requires
            i < self.entries@.len(),
        ensures
            e == self.entries@[i as int],
    {
        self.entries[i]
    }

    /// Looks a key up, returning the observed value when the key is present.
    pub fn get(&self, key: &RegisterKey) -> (r: Option<u128>)
        requires
            self.wf(),
        ensures
            match r {
                Some(v) => self.to_map().contains_key(*key) && v == self.to_map()[*key],
                None => !self.to_map().contains_key(*key),
            },
    {
        let n = self.entries.len();
        let mut i: usize = 0;
        while i < n
            invariant
                self.wf(),
                n == self.entries@.len(),
                i <= n,
                forall|j: int| 0 <= j < i ==> (#[trigger] self.entries@[j]).0 != *key,
            decreases n - i,
        {
            if self.entries[i].0 == *key {
                proof {
                    lemma_map_of_index(self.entries@, i as int);
                }
                return Some(self.entries[i].1);
            }
            i += 1;
        }
        proof {
            lemma_map_of_contains(self.entries@);
        }
        None
    }

    /// Adds an entry for a fresh key; refuses a key already present and
    /// leaves the collection unchanged in that case.
    pub fn insert(&mut self, key: RegisterKey, value: u128) -> (r: bool)
        requires
            old(self).wf(),
            key.spec_family() == old(self).family,
            value <= family_mask(old(self).family),
        ensures
            final(self).wf(),
            final(self).family == old(self).family,
            r == !old(self).to_map().contains_key(key),
            r ==> final(self).to_map() == old(self).to_map().insert(key, value)
                && final(self).entries@ == old(self).entries@.push((key, value)),
            !r ==> *final(self) == *old(self),
    {
        match self.get(&key) {
            Some(_) => false,
            None => {
                proof {
                    lemma_map_of_contains(self.entries@);
                }
                self.entries.push((key, value));
                proof {
                    assert(self.entries@.drop_last() == old(self).entries@);
                }
                true
            },
        }
    }
}


/// The observed-configuration view of a dumped map: each entry's target
/// pattern read as the concrete register value at that key.
#[verifier::loop_isolation(false)]
pub fn value_map_of(m: &ModifierMap) -> (o: ValueMap)
    requires
        m.wf(),
    ensures
        o.wf(),
        o.family == m.family,
        o.entries@.len() == m.entries@.len(),
        forall|i: int|
            0 <= i < m.entries@.len() ==> #[trigger] o.entries@[i] == (
                m.entries@[i].0,
                m.entries@[i].1.pattern,
            ),
{
    let n = m.entries.len();
    let mut entries: Vec<(RegisterKey, u128)> = Vec::new();
    let mut i: usize = 0;
    while i < n
        invariant
            i <= n,
            entries@.len() == i,
            forall|j: int|
                0 <= j < i ==> #[trigger] entries@[j] == (m.entries@[j].0, m.entries@[j].1.pattern),
        decreases n - i,
    {
        let e = m.entries[i];
        entries.push((e.0, e.1.pattern));
        i += 1;
    }
    let o = ValueMap { family: m.family, entries };
    proof {
        assert forall|p: int, q: int| 0 <= p < q < o.entries@.len() implies (
        #[trigger] o.entries@[p]).0 != (#[trigger] o.entries@[q]).0 by {
            assert(o.entries@[p].0 == m.entries@[p].0);
            assert(o.entries@[q].0 == m.entries@[q].0);
        }
    }
    o
}

} // verus!
