//! The verify engine: decides whether an observed configuration satisfies a
//! requested template, reporting every discrepancy rather than only the
//! first.

use vstd::prelude::*;

use crate::model::{
    map_of, spec_matches, unique_keys, ModifierMap, ModifierValue, RegisterKey, ValueMap,
};

verus! {

/// One discrepancy between a template and an observed configuration.
#[derive(Clone, Copy, Debug, PartialEq, Eq, Structural)]
pub enum VerifyFailure {
    /// The observed configuration does not expose the key at all.
    MissingKey { key: RegisterKey },
    /// The observed value differs from the target pattern under the filter
    /// mask; expected and actual both carry the masked bits.
    Mismatch { key: RegisterKey, filter: u128, expected: u128, actual: u128 },
}

/// The failures (none or one) that a single template entry contributes.
pub open spec fn failure_of(
    e: (RegisterKey, ModifierValue),
    o: Map<RegisterKey, u128>,
) -> Seq<VerifyFailure> {
    if !o.contains_key(e.0) {
        seq![VerifyFailure::MissingKey { key: e.0 }]
    } else if !spec_matches(e.1, o[e.0]) {
        seq![
            VerifyFailure::Mismatch {
                key: e.0,
                filter: e.1.filter,
                expected: e.1.pattern & e.1.filter,
                actual: o[e.0] & e.1.filter,
            },
        ]
    } else {
        Seq::empty()
    }
}

/// All failures that a template's entries contribute, in entry order.
pub open spec fn failures_of(
    entries: Seq<(RegisterKey, ModifierValue)>,
    o: Map<RegisterKey, u128>,
) -> Seq<VerifyFailure>
    decreases entries.len(),
{
    if entries.len() == 0 {
        Seq::empty()
    } else {
        failures_of(entries.drop_last(), o) + failure_of(entries.last(), o)
    }
}

/// Verification succeeds exactly when every key the template constrains is
/// exposed by the observed configuration and its value matches under the
/// entry's filter mask.
pub open spec fn verify_ok(t: Map<RegisterKey, ModifierValue>, o: Map<RegisterKey, u128>) -> bool {
    forall|k: RegisterKey|
        #[trigger] t.contains_key(k) ==> o.contains_key(k) && spec_matches(t[k], o[k])
}

/// The verdict is clean iff every template entry is exposed and matches.
pub proof fn lemma_verify_iff(entries: Seq<(RegisterKey, ModifierValue)>, o: Map<RegisterKey, u128>)
    requires
        unique_keys(entries),
    ensures
        failures_of(entries, o).len() == 0 <==> verify_ok(map_of(entries), o),
    decreases entries.len(),
{
    if entries.len() == 0 {
        assert(map_of(entries) =~= Map::<RegisterKey, ModifierValue>::empty());
    } else {
        let t = entries.drop_last();
        let e = entries.last();
        assert(unique_keys(t));
        lemma_verify_iff(t, o);
        crate::model::lemma_map_of_contains(t);
        assert(!map_of(t).contains_key(e.0)) by {
            if map_of(t).contains_key(e.0) {
                let i = choose|i: int| 0 <= i < t.len() && (#[trigger] t[i]).0 == e.0;
                assert(entries[i].0 == entries[entries.len() - 1].0);
                assert(false);
            }
        };
        let m = map_of(entries);
        assert(m == map_of(t).insert(e.0, e.1));
        if failures_of(entries, o).len() == 0 {
            assert(failures_of(t, o).len() == 0);
            assert(failure_of(e, o).len() == 0);
            assert(o.contains_key(e.0) && spec_matches(e.1, o[e.0]));
            assert forall|k: RegisterKey| #[trigger] m.contains_key(k) implies o.contains_key(k)
                && spec_matches(m[k], o[k]) by {
                if k == e.0 {
                    assert(m[k] == e.1);
                } else {
                    assert(map_of(t).contains_key(k) && m[k] == map_of(t)[k]);
                }
            }
        }
        if verify_ok(m, o) {
            assert(m.contains_key(e.0) && m[e.0] == e.1);
            assert(o.contains_key(e.0) && spec_matches(e.1, o[e.0]));
            assert(failure_of(e, o).len() == 0);
            assert forall|k: RegisterKey| #[trigger] map_of(t).contains_key(k) implies o.contains_key(
                k,
            ) && spec_matches(map_of(t)[k], o[k]) by {
                assert(k != e.0);
                assert(m.contains_key(k) && m[k] == map_of(t)[k]);
            }
            assert(verify_ok(map_of(t), o));
            assert(failures_of(t, o).len() == 0);
        }
    }
}

/// Compares a template against an observed configuration. The result lists
/// one record for every template key that is missing from the observed
/// configuration or whose observed value fails the filtered match; an empty
/// result means the configuration satisfies the template.
#[verifier::loop_isolation(false)]
pub fn verify(template: &ModifierMap, observed: &ValueMap) -> (r: Vec<VerifyFailure>)
    requires
        template.wf(),
        observed.wf(),
    ensures
        r@ == failures_of(template.entries@, observed.to_map()),
        r@.len() == 0 <==> verify_ok(template.to_map(), observed.to_map()),
{
    let mut r: Vec<VerifyFailure> = Vec::new();
    let n = template.entries.len();
    let mut i: usize = 0;
    while i < n
        invariant
            i <= n,
            r@ == failures_of(template.entries@.take(i as int), observed.to_map()),
        decreases n - i,
    {
        let e = template.entries[i];
        match observed.get(&e.0) {
            None => {
                r.push(VerifyFailure::MissingKey { key: e.0 });
            },
            Some(v) => {
                if !crate::model::matches(&e.1, v) {
                    r.push(
                        VerifyFailure::Mismatch {
                            key: e.0,
                            filter: e.1.filter,
                            expected: e.1.pattern & e.1.filter,
                            actual: v & e.1.filter,
                        },
                    );
                }
            },
        }
        proof {
            let pre = template.entries@.take(i as int);
            let post = template.entries@.take(i + 1 as int);
            assert(post.drop_last() == pre);
            assert(post.last() == template.entries@[i as int]);
        }
        i += 1;
    }
    proof {
        assert(template.entries@.take(n as int) == template.entries@);
        lemma_verify_iff(template.entries@, observed.to_map());
    }
    r
}

} // verus!
