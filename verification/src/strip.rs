//! The strip engine: given several modifier maps of one key family, removes
//! from every map each entry that is present with an identical value in all
//! of them, leaving only the per-host deltas.

use vstd::prelude::*;

use crate::model::{map_of, unique_keys, ModifierMap, ModifierValue, RegisterKey};

verus! {

/// Why a strip invocation was rejected.
#[derive(Clone, Copy, Debug, PartialEq, Eq, Structural)]
pub enum StripError {
    /// Fewer than two maps were supplied: there is nothing to strip against.
    InsufficientInputs,
    /// The maps are not all of one key family.
    KeyFamilyMismatch,
}

/// The mathematical maps of a sequence of modifier maps.
pub open spec fn map_views(s: Seq<ModifierMap>) -> Seq<Map<RegisterKey, ModifierValue>> {
    s.map_values(|m: ModifierMap| m.to_map())
}

/// A key is common to a sequence of maps when every map contains it and all
/// maps agree on its value.
pub open spec fn common_key(s: Seq<Map<RegisterKey, ModifierValue>>, k: RegisterKey) -> bool {
    &&& forall|i: int| 0 <= i < s.len() ==> (#[trigger] s[i]).contains_key(k)
    &&& forall|i: int, j: int|
        #![trigger s[i][k], s[j][k]]
        0 <= i < s.len() && 0 <= j < s.len() ==> s[i][k] == s[j][k]
}

/// One map with the keys common to the whole sequence removed.
pub open spec fn strip_map(
    s: Seq<Map<RegisterKey, ModifierValue>>,
    m: Map<RegisterKey, ModifierValue>,
) -> Map<RegisterKey, ModifierValue> {
    Map::new(|k: RegisterKey| m.contains_key(k) && !common_key(s, k), |k: RegisterKey| m[k])
}

/// The whole sequence after stripping.
pub open spec fn strip_all(
    s: Seq<Map<RegisterKey, ModifierValue>>,
) -> Seq<Map<RegisterKey, ModifierValue>> {
    Seq::new(s.len(), |i: int| strip_map(s, s[i]))
}

fn contains_key_vec(keys: &Vec<RegisterKey>, k: &RegisterKey) -> (r: bool)
    ensures
        r == exists|c: int| 0 <= c < keys@.len() && keys@[c] == *k,
{
    let n = keys.len();
    let mut i: usize = 0;
    while i < n
        invariant
            n == keys@.len(),
            i <= n,
            forall|c: int| 0 <= c < i ==> keys@[c] != *k,
        decreases n - i,
    {
        if keys[i] == *k {
            return true;
        }
        i += 1;
    }
    false
}

proof fn lemma_filtered_to_map(
    src: Seq<(RegisterKey, ModifierValue)>,
    out: Seq<(RegisterKey, ModifierValue)>,
    srcidx: Seq<int>,
    outidx: Seq<int>,
    keys: Seq<RegisterKey>,
)
    requires
        unique_keys(src),
        srcidx.len() == out.len(),
        outidx.len() == src.len(),
        forall|q: int|
            #![trigger out[q]]
            0 <= q < out.len() ==> 0 <= srcidx[q] < src.len() && src[srcidx[q]] == out[q],
        forall|q1: int, q2: int|
            #![trigger srcidx[q1], srcidx[q2]]
            0 <= q1 < q2 < srcidx.len() ==> srcidx[q1] < srcidx[q2],
        forall|q: int| 0 <= q < out.len() ==> !key_listed(keys, (#[trigger] out[q]).0),
        forall|u: int|
            #![trigger outidx[u]]
            0 <= u < src.len() && !key_listed(keys, src[u].0) ==> 0 <= outidx[u] < out.len()
                && out[outidx[u]] == src[u],
    ensures
        unique_keys(out),
        map_of(out) == Map::new(
            |k: RegisterKey| map_of(src).contains_key(k) && !key_listed(keys, k),
            |k: RegisterKey| map_of(src)[k],
        ),
{
    assert forall|q1: int, q2: int| 0 <= q1 < q2 < out.len() implies (#[trigger] out[q1]).0 != (
    #[trigger] out[q2]).0 by {
        assert(src[srcidx[q1]] == out[q1]);
        assert(src[srcidx[q2]] == out[q2]);
        assert(srcidx[q1] < srcidx[q2]);
    }
    crate::model::lemma_map_of_contains(src);
    crate::model::lemma_map_of_contains(out);
    let target = Map::new(
        |k: RegisterKey| map_of(src).contains_key(k) && !key_listed(keys, k),
        |k: RegisterKey| map_of(src)[k],
    );
    assert forall|k: RegisterKey| map_of(out).contains_key(k) implies target.contains_key(k)
        && map_of(out)[k] == target[k] by {
        let q = choose|q: int| 0 <= q < out.len() && (#[trigger] out[q]).0 == k;
        crate::model::lemma_map_of_index(out, q);
        let u = srcidx[q];
        crate::model::lemma_map_of_index(src, u);
        assert(map_of(src).contains_key(k));
        assert(!key_listed(keys, k));
        assert(map_of(out)[k] == out[q].1);
        assert(map_of(src)[k] == src[u].1);
    }
    assert forall|k: RegisterKey| target.contains_key(k) implies map_of(out).contains_key(k) by {
        assert(map_of(src).contains_key(k) && !key_listed(keys, k));
        let u = choose|u: int| 0 <= u < src.len() && (#[trigger] src[u]).0 == k;
        assert(out[outidx[u]].0 == k);
    }
    assert(map_of(out) =~= target);
}

/// Removes from every map each (key, value) pair that is present with an
/// identical value in all of the maps. The maps must all be of one key
/// family and there must be at least two of them; otherwise nothing is
/// changed and the reason is returned.
pub fn strip_common(maps: &mut Vec<ModifierMap>) -> (r: Result<(), StripError>)
    requires
        forall|i: int| 0 <= i < old(maps)@.len() ==> (#[trigger] old(maps)@[i]).wf(),
    ensures
        final(maps)@.len() == old(maps)@.len(),
        forall|i: int| 0 <= i < final(maps)@.len() ==> (#[trigger] final(maps)@[i]).wf(),
        forall|i: int|
            0 <= i < final(maps)@.len() ==> (#[trigger] final(maps)@[i]).family
                == old(maps)@[i].family,
        match r {
            Ok(()) => old(maps)@.len() >= 2 && (forall|i: int|
                0 <= i < old(maps)@.len() ==> (#[trigger] old(maps)@[i]).family
                    == old(maps)@[0].family) && (forall|i: int|
                0 <= i < old(maps)@.len() ==> (#[trigger] final(maps)@[i]).to_map() == strip_map(
                    map_views(old(maps)@),
                    old(maps)@[i].to_map(),
                )),
            Err(StripError::InsufficientInputs) => old(maps)@.len() < 2 && final(maps)@ == old(
                maps,
            )@,
            Err(StripError::KeyFamilyMismatch) => old(maps)@.len() >= 2 && (exists|i: int|
                0 <= i < old(maps)@.len() && (#[trigger] old(maps)@[i]).family != old(
                    maps,
                )@[0].family) && final(maps)@ == old(maps)@,
        },
{
    let ghost views = map_views(old(maps)@);
    let n = maps.len();
    if n < 2 {
        return Err(StripError::InsufficientInputs);
    }

    // All maps must be of one key family.
    let fam0 = maps[0].family;
    let mut mismatch = false;
    let mut i: usize = 1;
    while i < n
        invariant
            maps@ == old(maps)@,
            n == maps@.len(),
            1 <= i <= n,
            fam0 == maps@[0].family,
            mismatch <==> exists|j: int| 0 <= j < i && (#[trigger] maps@[j]).family != fam0,
        decreases n - i,
    {
        if maps[i].family != fam0 {
            mismatch = true;
        }
        i += 1;
    }
    if mismatch {
        return Err(StripError::KeyFamilyMismatch);
    }
    assert(forall|j: int| 0 <= j < n ==> (#[trigger] maps@[j]).family == fam0);

    // Collect the keys common to all maps, seeded from the first map.
    let mut common: Vec<RegisterKey> = Vec::new();
    let m0_len = maps[0].entries.len();
    let mut e: usize = 0;
    while e < m0_len
        invariant
            maps@ == old(maps)@,
            views == map_views(maps@),
            n == maps@.len(),
            n >= 2,
            forall|j: int| 0 <= j < n ==> (#[trigger] maps@[j]).wf(),
            m0_len == maps@[0].entries@.len(),
            e <= m0_len,
            forall|c: int| 0 <= c < common@.len() ==> common_key(views, #[trigger] common@[c]),
            forall|p: int|
                0 <= p < e && common_key(views, (#[trigger] maps@[0].entries@[p]).0)
                    ==> exists|c: int|
                    0 <= c < common@.len() && common@[c] == maps@[0].entries@[p].0,
        decreases m0_len - e,
    {
        let (k, v) = maps[0].entries[e];
        proof {
            crate::model::lemma_map_of_index(maps@[0].entries@, e as int);
        }
        let mut all_match = true;
        let mut j: usize = 1;
        while j < n
            invariant
                maps@ == old(maps)@,
                views == map_views(maps@),
                n == maps@.len(),
                n >= 2,
                forall|jj: int| 0 <= jj < n ==> (#[trigger] maps@[jj]).wf(),
                1 <= j <= n,
                all_match <==> (forall|jj: int|
                    1 <= jj < j ==> (#[trigger] views[jj]).contains_key(k) && views[jj][k] == v),
            decreases n - j,
        {
            let ok = match maps[j].get(&k) {
                Some(w) => *w == v,
                None => false,
            };
            proof {
                assert(views[j as int] == maps@[j as int].to_map());
            }
            if !ok {
                all_match = false;
                assert(!((#[trigger] views[j as int]).contains_key(k) && views[j as int][k] == v));
            }
            j += 1;
        }
        if all_match {
            proof {
                assert(views[0] == maps@[0].to_map());
                assert(views[0].contains_key(k) && views[0][k] == v);
                assert forall|p: int, q: int|
                    #![trigger views[p][k], views[q][k]]
                    0 <= p < views.len() && 0 <= q < views.len() implies views[p][k] == views[q][k]
                by {
                    assert(views[p].contains_key(k) && views[p][k] == v);
                    assert(views[q].contains_key(k) && views[q][k] == v);
                }
                assert(common_key(views, k));
            }
            let ghost old_common = common@;
            common.push(k);
            proof {
                assert forall|p: int|
                    0 <= p < e + 1 && common_key(views, (#[trigger] maps@[0].entries@[p]).0)
                        implies exists|c: int|
                    0 <= c < common@.len() && common@[c] == maps@[0].entries@[p].0 by {
                    if p < e {
                        let c = choose|c: int|
                            0 <= c < old_common.len() && old_common[c] == maps@[0].entries@[p].0;
                        assert(common@[c] == maps@[0].entries@[p].0);
                    } else {
                        assert(common@[common@.len() - 1] == k);
                    }
                }
            }
        } else {
            proof {
                let jj = choose|jj: int|
                    !(1 <= jj < n ==> (#[trigger] views[jj]).contains_key(k) && views[jj][k] == v);
                assert(!common_key(views, k));
            }
        }
        e += 1;
    }
    proof {
        crate::model::lemma_map_of_contains(maps@[0].entries@);
        assert forall|k: RegisterKey|
            (exists|c: int| 0 <= c < common@.len() && #[trigger] common@[c] == k) <==> common_key(
                views,
                k,
            ) by {
            if common_key(views, k) {
                assert(views[0] == maps@[0].to_map());
                assert(views[0].contains_key(k));
                let p = choose|p: int|
                    0 <= p < maps@[0].entries@.len() && (#[trigger] maps@[0].entries@[p]).0 == k;
                assert(exists|c: int| 0 <= c < common@.len() && common@[c] == maps@[0].entries@[p].0);
            }
        }
    }

    // Rebuild every map without the common keys.
    let mut result: Vec<ModifierMap> = Vec::new();
    let mut i: usize = 0;
    while i < n
        invariant
            maps@ == old(maps)@,
            views == map_views(maps@),
            n == maps@.len(),
            n >= 2,
            forall|j: int| 0 <= j < n ==> (#[trigger] maps@[j]).wf(),
            i <= n,
            result@.len() == i,
            forall|k: RegisterKey|
                (exists|c: int| 0 <= c < common@.len() && #[trigger] common@[c] == k)
                    <==> common_key(views, k),
            forall|t: int|
                0 <= t < i ==> (#[trigger] result@[t]).wf() && result@[t].family
                    == maps@[t].family && result@[t].to_map() == strip_map(
                    views,
                    maps@[t].to_map(),
                ),
        decreases n - i,
    {
        let stripped = strip_one(&maps[i], &common);
        proof {
            assert(views[i as int] == maps@[i as int].to_map());
            assert(stripped.to_map() =~= strip_map(views, maps@[i as int].to_map()));
        }
        result.push(stripped);
        i += 1;
    }
    *maps = result;
    Ok(())
}

/// A key occurs somewhere in a list of keys.
pub open spec fn key_listed(keys: Seq<RegisterKey>, k: RegisterKey) -> bool {
    exists|c: int| 0 <= c < keys.len() && keys[c] == k
}

/// One map with every key on the given list removed.
#[verifier::loop_isolation(false)]
fn strip_one(src: &ModifierMap, common: &Vec<RegisterKey>) -> (out: ModifierMap)
    requires
        src.wf(),
    ensures
        out.wf(),
        out.family == src.family,
        out.to_map() == Map::new(
            |k: RegisterKey| src.to_map().contains_key(k) && !key_listed(common@, k),
            |k: RegisterKey| src.to_map()[k],
        ),
{
    let sl = src.entries.len();
    let mut entries: Vec<(RegisterKey, ModifierValue)> = Vec::new();
    // Ghost maps between positions: each kept entry back to its source
    // position, and each source position forward to where it was kept.
    let ghost mut srcidx: Seq<int> = Seq::empty();
    let ghost mut outidx: Seq<int> = Seq::empty();
    let mut p: usize = 0;
    while p < sl
        invariant
            p <= sl,
            srcidx.len() == entries@.len(),
            outidx.len() == p,
            forall|q: int|
                #![trigger srcidx[q]]
                0 <= q < entries@.len() ==> 0 <= srcidx[q] < p && src.entries@[srcidx[q]]
                    == entries@[q],
            forall|q1: int, q2: int|
                #![trigger srcidx[q1], srcidx[q2]]
                0 <= q1 < q2 < srcidx.len() ==> srcidx[q1] < srcidx[q2],
            forall|q: int|
                0 <= q < entries@.len() ==> !key_listed(common@, (#[trigger] entries@[q]).0),
            forall|u: int|
                #![trigger outidx[u]]
                0 <= u < p && !key_listed(common@, src.entries@[u].0) ==> 0 <= outidx[u]
                    < entries@.len() && entries@[outidx[u]] == src.entries@[u],
        decreases sl - p,
    {
        let e = src.entries[p];
        let in_common = contains_key_vec(&common, &e.0);
        let ghost old_entries = entries@;
        let ghost old_srcidx = srcidx;
        if !in_common {
            entries.push(e);
            proof {
                srcidx = srcidx.push(p as int);
                outidx = outidx.push(entries@.len() - 1);
                assert(entries@ == old_entries.push(e));
                assert forall|q: int|
                    #![trigger entries@[q]]
                    0 <= q < entries@.len() implies 0 <= srcidx[q] < p + 1 && src.entries@[srcidx[q]]
                    == entries@[q] by {
                    if q < entries@.len() - 1 {
                        assert(entries@[q] == old_entries[q]);
                        assert(srcidx[q] == old_srcidx[q]);
                    } else {
                        assert(srcidx[q] == p as int);
                        assert(entries@[q] == e);
                    }
                }
            }
        } else {
            proof {
                outidx = outidx.push(-1);
            }
        }
        p += 1;
    }
    proof {
        // Re-expose each kept entry as an entry of the source, for the
        // well-formedness conjuncts and the lemma below.
        assert forall|q: int|
            #![trigger entries@[q]]
            0 <= q < entries@.len() implies 0 <= srcidx[q] < src.entries@.len()
            && src.entries@[srcidx[q]] == entries@[q] by {
            assert(0 <= srcidx[q] < p && src.entries@[srcidx[q]] == entries@[q]);
        }
        lemma_filtered_to_map(src.entries@, entries@, srcidx, outidx, common@);
    }
    ModifierMap { family: src.family, entries }
}



/// What strip leaves behind, map by map, is exactly the stripped sequence,
/// so the laws below apply to the engine's output as a whole.
pub proof fn lemma_strip_all_views(s: Seq<ModifierMap>, r: Seq<ModifierMap>)
    requires
        r.len() == s.len(),
        forall|i: int|
            0 <= i < s.len() ==> (#[trigger] r[i]).to_map() == strip_map(
                map_views(s),
                s[i].to_map(),
            ),
    ensures
        map_views(r) == strip_all(map_views(s)),
{
    assert forall|i: int| 0 <= i < r.len() implies #[trigger] map_views(r)[i] == strip_all(
        map_views(s),
    )[i] by {
        assert(map_views(r)[i] == r[i].to_map());
        assert(map_views(s)[i] == s[i].to_map());
    }
    assert(map_views(r) =~= strip_all(map_views(s)));
}

/// Strip soundness: a key is removed only when every input map held it with
/// one and the same value, and a key kept in some output map is absent from
/// or valued differently in at least one other input map.
pub proof fn lemma_strip_soundness(s: Seq<Map<RegisterKey, ModifierValue>>, i: int, k: RegisterKey)
    requires
        0 <= i < s.len(),
    ensures
        common_key(s, k) ==> forall|j: int|
            0 <= j < s.len() ==> (#[trigger] s[j]).contains_key(k) && s[j][k] == s[i][k],
        strip_map(s, s[i]).contains_key(k) ==> exists|j: int|
            0 <= j < s.len() && (!(#[trigger] s[j]).contains_key(k) || s[j][k] != s[i][k]),
{
    if strip_map(s, s[i]).contains_key(k) {
        assert(s[i].contains_key(k) && !common_key(s, k));
        if exists|j: int| 0 <= j < s.len() && !(#[trigger] s[j]).contains_key(k) {
            let j = choose|j: int| 0 <= j < s.len() && !(#[trigger] s[j]).contains_key(k);
            assert(0 <= j < s.len() && (!s[j].contains_key(k) || s[j][k] != s[i][k]));
        } else {
            assert(forall|j: int| 0 <= j < s.len() ==> (#[trigger] s[j]).contains_key(k));
            let (p, q) = choose|p: int, q: int|
                0 <= p < s.len() && 0 <= q < s.len() && #[trigger] s[p][k] != #[trigger] s[q][k];
            if s[p][k] != s[i][k] {
                assert(0 <= p < s.len() && (!s[p].contains_key(k) || s[p][k] != s[i][k]));
            } else {
                assert(0 <= q < s.len() && (!s[q].contains_key(k) || s[q][k] != s[i][k]));
            }
        }
    }
}

/// Strip completeness: after stripping, no key is left that is present with
/// one and the same value in all of the output maps.
pub proof fn lemma_strip_completeness(s: Seq<Map<RegisterKey, ModifierValue>>, k: RegisterKey)
    requires
        s.len() >= 1,
    ensures
        !common_key(strip_all(s), k),
{
    let r = strip_all(s);
    if common_key(r, k) {
        assert(r[0] == strip_map(s, s[0]));
        assert(r[0].contains_key(k));
        assert(!common_key(s, k));
        assert forall|j: int| 0 <= j < s.len() implies (#[trigger] s[j]).contains_key(k) by {
            assert(r[j].contains_key(k));
            assert(r[j] == strip_map(s, s[j]));
        }
        assert forall|p: int, q: int|
            #![trigger s[p][k], s[q][k]]
            0 <= p < s.len() && 0 <= q < s.len() implies s[p][k] == s[q][k] by {
            assert(r[p] == strip_map(s, s[p]));
            assert(r[q] == strip_map(s, s[q]));
            assert(r[p].contains_key(k) && r[p][k] == s[p][k]);
            assert(r[q].contains_key(k) && r[q][k] == s[q][k]);
            assert(r[p][k] == r[q][k]);
        }
        assert(common_key(s, k));
        assert(false);
    }
}

/// Strip idempotence: stripping a sequence of maps that has already been
/// stripped removes nothing further.
pub proof fn lemma_strip_idempotence(s: Seq<Map<RegisterKey, ModifierValue>>)
    requires
        s.len() >= 1,
    ensures
        strip_all(strip_all(s)) == strip_all(s),
{
    let r = strip_all(s);
    assert forall|k: RegisterKey| !(#[trigger] common_key(r, k)) by {
        lemma_strip_completeness(s, k);
    }
    assert forall|i: int| 0 <= i < r.len() implies #[trigger] strip_all(r)[i] == r[i] by {
        assert(strip_all(r)[i] == strip_map(r, r[i]));
        assert forall|k: RegisterKey| #[trigger] r[i].contains_key(k) implies strip_map(
            r,
            r[i],
        ).contains_key(k) && strip_map(r, r[i])[k] == r[i][k] by {
            assert(!common_key(r, k));
        }
        assert(strip_map(r, r[i]) =~= r[i]);
    }
    assert(strip_all(r) =~= r);
}

proof fn lemma_common_key_multiset(
    s: Seq<Map<RegisterKey, ModifierValue>>,
    t: Seq<Map<RegisterKey, ModifierValue>>,
    k: RegisterKey,
)
    requires
        s.to_multiset() == t.to_multiset(),
        common_key(s, k),
    ensures
        common_key(t, k),
{
    broadcast use vstd::seq_lib::group_to_multiset_ensures;

    vstd::seq_lib::to_multiset_len(s);
    vstd::seq_lib::to_multiset_len(t);
    assert(s.to_multiset().len() == t.to_multiset().len());
    assert(s.len() == t.len());
    if t.len() > 0 {
        assert forall|i: int| 0 <= i < t.len() implies (#[trigger] t[i]).contains_key(k) && t[i][k]
            == s[0][k] by {
            assert(t.contains(t[i]));
            assert(t.to_multiset().count(t[i]) > 0);
            assert(s.contains(t[i]));
            let u = choose|u: int| 0 <= u < s.len() && s[u] == t[i];
            assert(s[u].contains_key(k));
            assert(s[u][k] == s[0][k]);
        }
        assert forall|p: int, q: int|
            #![trigger t[p][k], t[q][k]]
            0 <= p < t.len() && 0 <= q < t.len() implies t[p][k] == t[q][k] by {
            assert(t[p].contains_key(k) && t[p][k] == s[0][k]);
            assert(t[q].contains_key(k) && t[q][k] == s[0][k]);
        }
    }
}

/// Strip order independence: permuting the input maps neither changes which
/// keys are common nor what any given map is reduced to.
pub proof fn lemma_strip_order_independence(
    s: Seq<Map<RegisterKey, ModifierValue>>,
    t: Seq<Map<RegisterKey, ModifierValue>>,
)
    requires
        s.to_multiset() == t.to_multiset(),
    ensures
        forall|k: RegisterKey| #[trigger] common_key(s, k) <==> #[trigger] common_key(t, k),
        forall|i: int, j: int|
            #![trigger strip_all(s)[i], strip_all(t)[j]]
            0 <= i < s.len() && 0 <= j < t.len() && s[i] == t[j] ==> strip_all(s)[i] == strip_all(
                t,
            )[j],
{
    broadcast use vstd::seq_lib::group_to_multiset_ensures;

    vstd::seq_lib::to_multiset_len(s);
    vstd::seq_lib::to_multiset_len(t);
    assert(s.to_multiset().len() == t.to_multiset().len());
    assert(s.len() == t.len());
    assert forall|k: RegisterKey| #[trigger] common_key(s, k) <==> #[trigger] common_key(t, k) by {
        if common_key(s, k) {
            lemma_common_key_multiset(s, t, k);
        }
        if common_key(t, k) {
            lemma_common_key_multiset(t, s, k);
        }
    }
    assert forall|i: int, j: int|
        #![trigger strip_all(s)[i], strip_all(t)[j]]
        0 <= i < s.len() && 0 <= j < t.len() && s[i] == t[j] implies strip_all(s)[i] == strip_all(
        t,
    )[j] by {
        assert(strip_all(s)[i] == strip_map(s, s[i]));
        assert(strip_all(t)[j] == strip_map(t, t[j]));
        assert forall|k: RegisterKey| #[trigger] strip_map(s, s[i]).contains_key(k) <==> strip_map(
            t,
            t[j],
        ).contains_key(k) by {
            assert(common_key(s, k) <==> common_key(t, k));
        }
        assert(strip_map(s, s[i]) =~= strip_map(t, t[j]));
    }
}

} // verus!
