//! The Composer v2 repository wire format: the `composer/2.0` minified
//! metadata algorithm and the `p2/*.json` and root `packages.json`
//! documents.
//!
//! A minified version list (newest first) holds the first version whole
//! and every later one as a sparse diff against the accumulation of the
//! ones before it. A value that is exactly the string `"__unset"` removes
//! an inherited key (JSON `null` sets the key to null). [`expand_versions`]
//! materializes a minified list; [`minify_versions`] is its inverse:
//! expanding a minified list gives back objects equal to the full ones
//! (compared as key/value sets).

use vstd::prelude::*;
use crate::json::{
    deep_eq, distinct_keys, entries_in, entries_well_formed, entry_found, key_index,
    lemma_deep_eq_refl, lemma_deep_eq_trans, lemma_entries_in, lemma_entries_model,
    lemma_entries_well_formed, lemma_lookup_at, lemma_lookup_none, lemma_lookup_some,
    lemma_map_insert, lemma_map_insert_wf, lemma_map_remove, lemma_map_remove_wf,
    lemma_same_keys_same_len, lookup, map_insert,
    map_remove, well_formed, Json, JsonMap, JsonValue,
};
use crate::text::{to_chars, to_string, string_chars};
use crate::version::chars_are;
use crate::bound::lex_sign;

verus! {

/// The `minified` marker of the diff format.
pub const MINIFIED_MARKER: &'static str = "composer/2.0";

/// The deletion sentinel inside a minified diff entry.
pub const UNSET: &'static str = "__unset";

pub open spec fn unset_text() -> Seq<char> {
    "__unset"@
}

pub open spec fn is_unset(v: Json) -> bool {
    v == Json::Str(unset_text())
}

/// Apply one diff entry by entry: `"__unset"` removes the key, anything
/// else (JSON `null` included) is inserted.
pub open spec fn apply(acc: Seq<(Seq<char>, Json)>, diff: Seq<(Seq<char>, Json)>) -> Seq<(Seq<char>, Json)>
    decreases diff.len(),
{
    if diff.len() == 0 {
        acc
    } else {
        let a = apply(acc, diff.drop_last());
        let e = diff.last();
        if is_unset(e.1) {
            map_remove(a, e.0)
        } else {
            map_insert(a, e.0, e.1)
        }
    }
}

/// The object after the first `n` diffs, starting from an empty object.
pub open spec fn accumulated(vs: Seq<Seq<(Seq<char>, Json)>>, n: nat) -> Seq<(Seq<char>, Json)>
    decreases n,
{
    if n == 0 {
        seq![]
    } else {
        apply(accumulated(vs, (n - 1) as nat), vs[n - 1])
    }
}

/// `expand_versions`: one accumulated object per diff.
pub open spec fn expanded(vs: Seq<Seq<(Seq<char>, Json)>>) -> Seq<Seq<(Seq<char>, Json)>> {
    Seq::new(vs.len(), |i: int| accumulated(vs, (i + 1) as nat))
}

/// Whether `cur`'s value for a key differs from `prev`'s (or `prev`
/// lacks the key).
pub open spec fn changed(prev: Seq<(Seq<char>, Json)>, e: (Seq<char>, Json)) -> bool {
    match lookup(prev, e.0) {
        Some(w) => !deep_eq(w, e.1),
        None => true,
    }
}

/// The entries of `cur` that changed against `prev`, in `cur`'s order.
pub open spec fn changed_entries(prev: Seq<(Seq<char>, Json)>, cur: Seq<(Seq<char>, Json)>) -> Seq<(Seq<char>, Json)>
    decreases cur.len(),
{
    if cur.len() == 0 {
        seq![]
    } else {
        let d = changed_entries(prev, cur.drop_last());
        if changed(prev, cur.last()) {
            map_insert(d, cur.last().0, cur.last().1)
        } else {
            d
        }
    }
}

/// `d` followed by an `"__unset"` entry for each key of `prev` (in its
/// order) that `cur` lacks.
pub open spec fn with_unsets(prev: Seq<(Seq<char>, Json)>, cur: Seq<(Seq<char>, Json)>, d: Seq<(Seq<char>, Json)>) -> Seq<(Seq<char>, Json)>
    decreases prev.len(),
{
    if prev.len() == 0 {
        d
    } else {
        let d2 = with_unsets(prev.drop_last(), cur, d);
        if lookup(cur, prev.last().0) is None {
            map_insert(d2, prev.last().0, Json::Str(unset_text()))
        } else {
            d2
        }
    }
}

/// The diff entry that turns `prev` into `cur`.
pub open spec fn diff_of(prev: Seq<(Seq<char>, Json)>, cur: Seq<(Seq<char>, Json)>) -> Seq<(Seq<char>, Json)> {
    with_unsets(prev, cur, changed_entries(prev, cur))
}

/// `minify_versions`: the first object whole, then one diff per object.
pub open spec fn minified(vs: Seq<Seq<(Seq<char>, Json)>>) -> Seq<Seq<(Seq<char>, Json)>> {
    Seq::new(
        vs.len(),
        |i: int|
            if i == 0 {
                vs[0]
            } else {
                diff_of(vs[i - 1], vs[i])
            },
    )
}

pub open spec fn maps_model(vs: Seq<JsonMap>) -> Seq<Seq<(Seq<char>, Json)>> {
    vs.map_values(|m: JsonMap| m.model())
}

fn is_unset_exec(v: &JsonValue) -> (r: bool)
    ensures
        r == is_unset(v.model()),
{
    match v {
        JsonValue::String(s) => chars_are(&string_chars(s), "__unset"),
        _ => false,
    }
}

/// Apply one minified-diff entry onto the accumulator.
fn apply_diff(acc: &mut JsonMap, diff: &JsonMap)
    ensures
        final(acc).model() == apply(old(acc).model(), diff.model()),
{
    let es = &diff.entries;
    proof {
        lemma_entries_model(es@);
    }
    let ghost dm = diff.model();
    let ghost a0 = acc.model();
    let mut k: usize = 0;
    while k < es.len()
        invariant
            k <= es.len(),
            es == &diff.entries,
            dm == diff.model(),
            dm.len() == es.len(),
            forall|i: int| 0 <= i < es.len() ==> #[trigger] dm[i] == (es@[i].0@, es@[i].1.model()),
            acc.model() == apply(a0, dm.take(k as int)),
        decreases es.len() - k,
    {
        assert(dm.take(k + 1).drop_last() =~= dm.take(k as int));
        assert(dm.take(k + 1).last() == dm[k as int]);
        let entry = &es[k];
        if is_unset_exec(&entry.1) {
            acc.remove(&entry.0);
        } else {
            acc.insert(entry.0.clone(), entry.1.duplicate());
        }
        k += 1;
    }
    assert(dm.take(es.len() as int) =~= dm);
}

/// Expand a minified `composer/2.0` version list into fully materialized
/// version objects, one per entry, in the same order: each entry is
/// layered onto the accumulation of the ones before it.
pub fn expand_versions(versions: Vec<JsonMap>) -> (r: Vec<JsonMap>)
    ensures
        maps_model(r@) == expanded(maps_model(versions@)),
        (forall|i: int| 0 <= i < versions.len() ==> (#[trigger] versions@[i]).wf()) ==> forall|i: int|
            0 <= i < r.len() ==> (#[trigger] r@[i]).wf(),
{
    let ghost vm = maps_model(versions@);
    let mut acc = JsonMap::new();
    let mut out: Vec<JsonMap> = Vec::new();
    let mut k: usize = 0;
    while k < versions.len()
        invariant
            k <= versions.len(),
            vm == maps_model(versions@),
            acc.model() == accumulated(vm, k as nat),
            maps_model(out@) =~= expanded(vm).take(k as int),
        decreases versions.len() - k,
    {
        apply_diff(&mut acc, &versions[k]);
        let snapshot = acc.duplicate();
        let ghost before = maps_model(out@);
        out.push(snapshot);
        assert(maps_model(out@) =~= before.push(accumulated(vm, (k + 1) as nat)));
        k += 1;
    }
    proof {
        if forall|i: int| 0 <= i < versions.len() ==> (#[trigger] versions@[i]).wf() {
            assert forall|i: int| 0 <= i < vm.len() implies well_formed(Json::Object(#[trigger] vm[i])) by {
                assert(versions@[i].wf());
            }
            law_minify_expand_keep_well_formed(vm);
            assert forall|i: int| 0 <= i < out.len() implies (#[trigger] out@[i]).wf() by {
                assert(maps_model(out@)[i] == expanded(vm)[i]);
            }
        }
    }
    out
}

/// The diff entry for `cur` against the entry before it: the changed or
/// new keys of `cur`, then `"__unset"` for each key `prev` has and `cur`
/// lacks.
fn diff_exec(prev: &JsonMap, cur: &JsonMap) -> (r: JsonMap)
    ensures
        r.model() == diff_of(prev.model(), cur.model()),
{
    let ghost pm = prev.model();
    let ghost cm = cur.model();
    let mut diff = JsonMap::new();
    let ces = &cur.entries;
    proof {
        lemma_entries_model(ces@);
    }
    let mut k: usize = 0;
    while k < ces.len()
        invariant
            k <= ces.len(),
            ces == &cur.entries,
            pm == prev.model(),
            cm == cur.model(),
            cm.len() == ces.len(),
            forall|i: int| 0 <= i < ces.len() ==> #[trigger] cm[i] == (ces@[i].0@, ces@[i].1.model()),
            diff.model() == changed_entries(pm, cm.take(k as int)),
        decreases ces.len() - k,
    {
        assert(cm.take(k + 1).drop_last() =~= cm.take(k as int));
        assert(cm.take(k + 1).last() == cm[k as int]);
        let entry = &ces[k];
        let differs = match prev.get(&entry.0) {
            Some(w) => !w.equals(&entry.1),
            None => true,
        };
        if differs {
            diff.insert(entry.0.clone(), entry.1.duplicate());
        }
        k += 1;
    }
    assert(cm.take(ces.len() as int) =~= cm);
    let ghost d0 = diff.model();
    let pes = &prev.entries;
    proof {
        lemma_entries_model(pes@);
    }
    let mut k: usize = 0;
    while k < pes.len()
        invariant
            k <= pes.len(),
            pes == &prev.entries,
            pm == prev.model(),
            cm == cur.model(),
            pm.len() == pes.len(),
            forall|i: int| 0 <= i < pes.len() ==> #[trigger] pm[i] == (pes@[i].0@, pes@[i].1.model()),
            diff.model() == with_unsets(pm.take(k as int), cm, d0),
        decreases pes.len() - k,
    {
        assert(pm.take(k + 1).drop_last() =~= pm.take(k as int));
        assert(pm.take(k + 1).last() == pm[k as int]);
        let key = &pes[k].0;
        if !cur.contains_key(key) {
            diff.insert(key.clone(), JsonValue::String(to_string(&to_chars("__unset"))));
        }
        k += 1;
    }
    assert(pm.take(pes.len() as int) =~= pm);
    diff
}

/// Minify a fully materialized version list (newest first) into the
/// `composer/2.0` sparse-diff form: the first entry whole, each later one
/// as its diff against the entry before it.
pub fn minify_versions(versions: &Vec<JsonMap>) -> (r: Vec<JsonMap>)
    ensures
        maps_model(r@) == minified(maps_model(versions@)),
        (forall|i: int| 0 <= i < versions.len() ==> (#[trigger] versions@[i]).wf()) ==> forall|i: int|
            0 <= i < r.len() ==> (#[trigger] r@[i]).wf(),
{
    let ghost vm = maps_model(versions@);
    let mut out: Vec<JsonMap> = Vec::new();
    let mut i: usize = 0;
    while i < versions.len()
        invariant
            i <= versions.len(),
            vm == maps_model(versions@),
            maps_model(out@) =~= minified(vm).take(i as int),
        decreases versions.len() - i,
    {
        let ghost before = maps_model(out@);
        if i == 0 {
            out.push(versions[0].duplicate());
        } else {
            out.push(diff_exec(&versions[i - 1], &versions[i]));
        }
        assert(maps_model(out@) =~= before.push(minified(vm)[i as int]));
        i += 1;
    }
    proof {
        if forall|i: int| 0 <= i < versions.len() ==> (#[trigger] versions@[i]).wf() {
            assert forall|i: int| 0 <= i < vm.len() implies well_formed(Json::Object(#[trigger] vm[i])) by {
                assert(versions@[i].wf());
            }
            law_minify_expand_keep_well_formed(vm);
            assert forall|i: int| 0 <= i < out.len() implies (#[trigger] out@[i]).wf() by {
                assert(maps_model(out@)[i] == minified(vm)[i]);
            }
        }
    }
    out
}

// ---- expanding a minified list gives the full versions back ----------------------

/// A version object the minified format can carry: distinct keys at every
/// depth, and no top-level value that is the string `"__unset"`.
pub open spec fn version_ok(es: Seq<(Seq<char>, Json)>) -> bool {
    &&& distinct_keys(es)
    &&& entries_well_formed(es)
    &&& forall|i: int| 0 <= i < es.len() ==> !is_unset(#[trigger] es[i].1)
}

/// Both absent, or both present with equal values.
pub open spec fn agree(x: Option<Json>, y: Option<Json>) -> bool {
    match (x, y) {
        (Some(a), Some(b)) => deep_eq(a, b),
        (None, None) => true,
        _ => false,
    }
}

/// `a` has distinct keys, the same keys as `v`, and equal values.
pub open spec fn tracks(a: Seq<(Seq<char>, Json)>, v: Seq<(Seq<char>, Json)>) -> bool {
    &&& distinct_keys(a)
    &&& forall|k: Seq<char>|
        #![trigger lookup(a, k)]
        #![trigger lookup(v, k)]
        agree(lookup(a, k), lookup(v, k))
}

proof fn lemma_last_entry(es: Seq<(Seq<char>, Json)>)
    requires
        distinct_keys(es),
        es.len() > 0,
    ensures
        distinct_keys(es.drop_last()),
        lookup(es.drop_last(), es.last().0) is None,
        lookup(es, es.last().0) == Some(es.last().1),
        forall|k: Seq<char>| k != es.last().0 ==> #[trigger] lookup(es, k) == lookup(es.drop_last(), k),
{
    let d = es.drop_last();
    let n = d.len() as int;
    assert(forall|j: int| 0 <= j < n ==> #[trigger] d[j] == es[j]);
    assert(distinct_keys(d));
    assert forall|j: int| 0 <= j < d.len() implies (#[trigger] d[j]).0 != es.last().0 by {
        assert(es[j].0 != es[n].0);
    }
    lemma_lookup_none(d, es.last().0);
    lemma_lookup_at(es, n);
    assert forall|k: Seq<char>| k != es.last().0 implies #[trigger] lookup(es, k) == lookup(d, k) by {
        if exists|j: int| 0 <= j < n && d[j].0 == k {
            let j = choose|j: int| 0 <= j < n && d[j].0 == k;
            lemma_lookup_at(d, j);
            lemma_lookup_at(es, j);
        } else {
            lemma_lookup_none(d, k);
            assert forall|j: int| 0 <= j < es.len() implies (#[trigger] es[j]).0 != k by {
                if j < n {
                    assert(d[j] == es[j]);
                }
            }
            lemma_lookup_none(es, k);
        }
    }
}

/// Applying a diff with distinct keys: a key the diff holds is removed
/// (`"__unset"`) or set; any other key keeps its value.
proof fn lemma_apply(acc: Seq<(Seq<char>, Json)>, diff: Seq<(Seq<char>, Json)>)
    requires
        distinct_keys(acc),
        distinct_keys(diff),
    ensures
        distinct_keys(apply(acc, diff)),
        forall|k: Seq<char>|
            #[trigger] lookup(apply(acc, diff), k) == match lookup(diff, k) {
                Some(v) => if is_unset(v) {
                    None
                } else {
                    Some(v)
                },
                None => lookup(acc, k),
            },
    decreases diff.len(),
{
    if diff.len() > 0 {
        let d0 = diff.drop_last();
        let e = diff.last();
        lemma_last_entry(diff);
        lemma_apply(acc, d0);
        let a = apply(acc, d0);
        if is_unset(e.1) {
            lemma_map_remove(a, e.0);
        } else {
            lemma_map_insert(a, e.0, e.1);
        }
        assert forall|k: Seq<char>|
            #[trigger] lookup(apply(acc, diff), k) == match lookup(diff, k) {
                Some(v) => if is_unset(v) {
                    None
                } else {
                    Some(v)
                },
                None => lookup(acc, k),
            } by {
            if k != e.0 {
                assert(lookup(diff, k) == lookup(d0, k));
                assert(lookup(apply(acc, diff), k) == lookup(a, k));
            }
        }
    } else {
        assert forall|k: Seq<char>| #[trigger] lookup(apply(acc, diff), k) == lookup(acc, k) by {
            lemma_lookup_none(diff, k);
        }
    }
}

proof fn lemma_changed_entries(prev: Seq<(Seq<char>, Json)>, cur: Seq<(Seq<char>, Json)>)
    requires
        distinct_keys(cur),
    ensures
        distinct_keys(changed_entries(prev, cur)),
        forall|k: Seq<char>|
            #[trigger] lookup(changed_entries(prev, cur), k) == match lookup(cur, k) {
                Some(c) => if changed(prev, (k, c)) {
                    Some(c)
                } else {
                    None
                },
                None => None,
            },
    decreases cur.len(),
{
    if cur.len() == 0 {
        assert forall|k: Seq<char>| #[trigger] lookup(changed_entries(prev, cur), k) is None by {
            lemma_lookup_none(changed_entries(prev, cur), k);
        }
        assert forall|k: Seq<char>| #[trigger] lookup(cur, k) is None by {
            lemma_lookup_none(cur, k);
        }
    } else {
        let c0 = cur.drop_last();
        let e = cur.last();
        lemma_last_entry(cur);
        lemma_changed_entries(prev, c0);
        let d = changed_entries(prev, c0);
        if changed(prev, e) {
            lemma_map_insert(d, e.0, e.1);
        }
        assert forall|k: Seq<char>|
            #[trigger] lookup(changed_entries(prev, cur), k) == match lookup(cur, k) {
                Some(c) => if changed(prev, (k, c)) {
                    Some(c)
                } else {
                    None
                },
                None => None,
            } by {
            if k != e.0 {
                assert(lookup(cur, k) == lookup(c0, k));
                assert(lookup(changed_entries(prev, cur), k) == lookup(d, k));
            } else {
                assert(e == (e.0, e.1));
            }
        }
    }
}

proof fn lemma_with_unsets(prev: Seq<(Seq<char>, Json)>, cur: Seq<(Seq<char>, Json)>, d: Seq<(Seq<char>, Json)>)
    requires
        distinct_keys(prev),
        distinct_keys(d),
    ensures
        distinct_keys(with_unsets(prev, cur, d)),
        forall|k: Seq<char>|
            #[trigger] lookup(with_unsets(prev, cur, d), k) == if lookup(cur, k) is None && lookup(
                prev,
                k,
            ) is Some {
                Some(Json::Str(unset_text()))
            } else {
                lookup(d, k)
            },
    decreases prev.len(),
{
    if prev.len() == 0 {
        assert forall|k: Seq<char>| #[trigger] lookup(prev, k) is None by {
            lemma_lookup_none(prev, k);
        }
    } else {
        let p0 = prev.drop_last();
        let e = prev.last();
        lemma_last_entry(prev);
        lemma_with_unsets(p0, cur, d);
        let d2 = with_unsets(p0, cur, d);
        if lookup(cur, e.0) is None {
            lemma_map_insert(d2, e.0, Json::Str(unset_text()));
        }
        assert forall|k: Seq<char>|
            #[trigger] lookup(with_unsets(prev, cur, d), k) == if lookup(cur, k) is None && lookup(
                prev,
                k,
            ) is Some {
                Some(Json::Str(unset_text()))
            } else {
                lookup(d, k)
            } by {
            if k != e.0 {
                assert(lookup(prev, k) == lookup(p0, k));
                assert(lookup(with_unsets(prev, cur, d), k) == lookup(d2, k));
            }
        }
    }
}

/// What the diff between two objects with distinct keys holds: a changed
/// value of `cur`, `"__unset"` for a key only `prev` has, nothing else.
proof fn lemma_diff_of(prev: Seq<(Seq<char>, Json)>, cur: Seq<(Seq<char>, Json)>)
    requires
        distinct_keys(prev),
        distinct_keys(cur),
    ensures
        distinct_keys(diff_of(prev, cur)),
        forall|k: Seq<char>|
            #[trigger] lookup(diff_of(prev, cur), k) == match lookup(cur, k) {
                Some(c) => if changed(prev, (k, c)) {
                    Some(c)
                } else {
                    None
                },
                None => if lookup(prev, k) is Some {
                    Some(Json::Str(unset_text()))
                } else {
                    None
                },
            },
{
    lemma_changed_entries(prev, cur);
    let d = changed_entries(prev, cur);
    lemma_with_unsets(prev, cur, d);
    assert forall|k: Seq<char>|
        #[trigger] lookup(diff_of(prev, cur), k) == match lookup(cur, k) {
            Some(c) => if changed(prev, (k, c)) {
                Some(c)
            } else {
                None
            },
            None => if lookup(prev, k) is Some {
                Some(Json::Str(unset_text()))
            } else {
                None
            },
        } by {
        assert(lookup(d, k) == match lookup(cur, k) {
            Some(c) => if changed(prev, (k, c)) {
                Some(c)
            } else {
                None
            },
            None => None,
        });
    }
}

/// A value a well-formed version holds is well formed and not `"__unset"`.
proof fn lemma_version_value(v: Seq<(Seq<char>, Json)>, k: Seq<char>)
    requires
        version_ok(v),
        lookup(v, k) is Some,
    ensures
        well_formed(lookup(v, k)->Some_0),
        !is_unset(lookup(v, k)->Some_0),
{
    lemma_lookup_some(v, k);
    lemma_entries_well_formed(v);
    let i = key_index(v, k);
    assert(well_formed(v[i].1));
    assert(!is_unset(v[i].1));
}

/// After `n` diffs of a minified list, the accumulator tracks version
/// `n - 1`.
proof fn lemma_accumulated(vs: Seq<Seq<(Seq<char>, Json)>>, n: nat)
    requires
        forall|i: int| 0 <= i < vs.len() ==> version_ok(#[trigger] vs[i]),
        1 <= n <= vs.len(),
    ensures
        tracks(accumulated(minified(vs), n), vs[n - 1]),
    decreases n,
{
    let mv = minified(vs);
    assert(version_ok(vs[n - 1]));
    let v = vs[n - 1];
    if n == 1 {
        assert(mv[0] == vs[0]);
        let empty: Seq<(Seq<char>, Json)> = seq![];
        assert(accumulated(mv, 0) == empty);
        lemma_apply(empty, vs[0]);
        let a = accumulated(mv, 1);
        assert forall|k: Seq<char>|
            #![trigger lookup(a, k)]
            #![trigger lookup(v, k)]
            agree(lookup(a, k), lookup(v, k)) by {
            lemma_lookup_none(empty, k);
            if lookup(v, k) is Some {
                lemma_version_value(v, k);
                lemma_deep_eq_refl(lookup(v, k)->Some_0);
            }
        }
    } else {
        lemma_accumulated(vs, (n - 1) as nat);
        let prev = vs[n - 2];
        assert(version_ok(prev));
        let a0 = accumulated(mv, (n - 1) as nat);
        assert(mv[n - 1] == diff_of(prev, v));
        lemma_diff_of(prev, v);
        let d = diff_of(prev, v);
        lemma_apply(a0, d);
        let a = accumulated(mv, n);
        assert(a == apply(a0, d));
        assert forall|k: Seq<char>|
            #![trigger lookup(a, k)]
            #![trigger lookup(v, k)]
            agree(lookup(a, k), lookup(v, k)) by {
            assert(agree(lookup(a0, k), lookup(prev, k)));
            match lookup(v, k) {
                Some(c) => {
                    lemma_version_value(v, k);
                    if changed(prev, (k, c)) {
                        lemma_deep_eq_refl(c);
                    } else {
                        let w = lookup(prev, k)->Some_0;
                        let x = lookup(a0, k)->Some_0;
                        lemma_deep_eq_trans(x, w, c);
                    }
                },
                None => {},
            }
        }
    }
}

/// Expanding a minified version list gives back, entry for entry, objects
/// equal to the full versions compared as key/value sets, whenever every
/// full version has distinct keys at every depth and no top-level value that
/// is the string `"__unset"`.
pub proof fn law_expand_inverts_minify(vs: Seq<Seq<(Seq<char>, Json)>>)
    requires
        forall|i: int| 0 <= i < vs.len() ==> version_ok(#[trigger] vs[i]),
    ensures
        expanded(minified(vs)).len() == vs.len(),
        forall|i: int|
            0 <= i < vs.len() ==> deep_eq(
                Json::Object(#[trigger] expanded(minified(vs))[i]),
                Json::Object(vs[i]),
            ),
{
    assert forall|i: int|
        0 <= i < vs.len() implies deep_eq(
            Json::Object(#[trigger] expanded(minified(vs))[i]),
            Json::Object(vs[i]),
        ) by {
        let a = expanded(minified(vs))[i];
        let v = vs[i];
        assert(version_ok(v));
        lemma_accumulated(vs, (i + 1) as nat);
        assert(a == accumulated(minified(vs), (i + 1) as nat));
        assert(tracks(a, v));
        assert forall|k: Seq<char>| (#[trigger] lookup(a, k) is Some) <==> (lookup(v, k) is Some) by {
            assert(agree(lookup(a, k), lookup(v, k)));
        }
        lemma_same_keys_same_len(a, v);
        assert forall|j: int| 0 <= j < a.len() implies #[trigger] entry_found(a[j], v) by {
            lemma_lookup_at(a, j);
            assert(agree(lookup(a, a[j].0), lookup(v, a[j].0)));
        }
        lemma_entries_in(a, v);
    }
}

/// The first entry of a minified list is the first version itself; every
/// later entry holds, under each key, the later version's value where it
/// differs from the value before it (or the key is new), `"__unset"` where
/// the later version drops the key, and nothing where the value is
/// unchanged or the key absent from both. For versions with distinct keys,
/// as every JSON object has.
pub proof fn law_minify_per_key(vs: Seq<Seq<(Seq<char>, Json)>>)
    requires
        forall|i: int| 0 <= i < vs.len() ==> distinct_keys(#[trigger] vs[i]),
    ensures
        minified(vs).len() == vs.len(),
        vs.len() > 0 ==> minified(vs)[0] == vs[0],
        forall|i: int, k: Seq<char>|
            1 <= i < vs.len() ==> #[trigger] lookup(minified(vs)[i], k) == match lookup(vs[i], k) {
                Some(c) => if changed(vs[i - 1], (k, c)) {
                    Some(c)
                } else {
                    None
                },
                None => if lookup(vs[i - 1], k) is Some {
                    Some(Json::Str(unset_text()))
                } else {
                    None
                },
            },
{
    assert forall|i: int, k: Seq<char>|
        1 <= i < vs.len() implies #[trigger] lookup(minified(vs)[i], k) == match lookup(vs[i], k) {
            Some(c) => if changed(vs[i - 1], (k, c)) {
                Some(c)
            } else {
                None
            },
            None => if lookup(vs[i - 1], k) is Some {
                Some(Json::Str(unset_text()))
            } else {
                None
            },
        } by {
        assert(distinct_keys(vs[i - 1]));
        assert(distinct_keys(vs[i]));
        lemma_diff_of(vs[i - 1], vs[i]);
        assert(minified(vs)[i] == diff_of(vs[i - 1], vs[i]));
    }
}

// ---- well-formedness is kept -------------------------------------------------------

/// Every version object in the list is well formed.
pub open spec fn all_wf(vs: Seq<Seq<(Seq<char>, Json)>>) -> bool {
    forall|i: int| 0 <= i < vs.len() ==> well_formed(Json::Object(#[trigger] vs[i]))
}

proof fn lemma_apply_wf(acc: Seq<(Seq<char>, Json)>, diff: Seq<(Seq<char>, Json)>)
    requires
        well_formed(Json::Object(acc)),
        entries_well_formed(diff),
    ensures
        well_formed(Json::Object(apply(acc, diff))),
    decreases diff.len(),
{
    if diff.len() > 0 {
        lemma_entries_well_formed(diff);
        lemma_entries_well_formed(diff.drop_last());
        assert forall|i: int| 0 <= i < diff.drop_last().len() implies #[trigger] well_formed(diff.drop_last()[i].1) by {
            assert(diff.drop_last()[i] == diff[i]);
        }
        lemma_apply_wf(acc, diff.drop_last());
        let a = apply(acc, diff.drop_last());
        let e = diff.last();
        assert(well_formed(diff[diff.len() - 1].1));
        if is_unset(e.1) {
            lemma_map_remove_wf(a, e.0);
        } else {
            lemma_map_insert_wf(a, e.0, e.1);
        }
    }
}

proof fn lemma_accumulated_wf(vs: Seq<Seq<(Seq<char>, Json)>>, n: nat)
    requires
        all_wf(vs),
        n <= vs.len(),
    ensures
        well_formed(Json::Object(accumulated(vs, n))),
    decreases n,
{
    if n == 0 {
        let empty: Seq<(Seq<char>, Json)> = seq![];
        assert(accumulated(vs, 0) == empty);
        lemma_entries_well_formed(empty);
    } else {
        lemma_accumulated_wf(vs, (n - 1) as nat);
        assert(well_formed(Json::Object(vs[n - 1])));
        lemma_apply_wf(accumulated(vs, (n - 1) as nat), vs[n - 1]);
    }
}

proof fn lemma_changed_entries_wf(prev: Seq<(Seq<char>, Json)>, cur: Seq<(Seq<char>, Json)>)
    requires
        entries_well_formed(cur),
    ensures
        well_formed(Json::Object(changed_entries(prev, cur))),
    decreases cur.len(),
{
    lemma_entries_well_formed(cur);
    if cur.len() == 0 {
        let empty: Seq<(Seq<char>, Json)> = seq![];
        lemma_entries_well_formed(empty);
    } else {
        let c0 = cur.drop_last();
        assert forall|i: int| 0 <= i < c0.len() implies #[trigger] well_formed(c0[i].1) by {
            assert(c0[i] == cur[i]);
        }
        lemma_entries_well_formed(c0);
        lemma_changed_entries_wf(prev, c0);
        assert(well_formed(cur[cur.len() - 1].1));
        if changed(prev, cur.last()) {
            lemma_map_insert_wf(changed_entries(prev, c0), cur.last().0, cur.last().1);
        }
    }
}

proof fn lemma_with_unsets_wf(prev: Seq<(Seq<char>, Json)>, cur: Seq<(Seq<char>, Json)>, d: Seq<(Seq<char>, Json)>)
    requires
        well_formed(Json::Object(d)),
    ensures
        well_formed(Json::Object(with_unsets(prev, cur, d))),
    decreases prev.len(),
{
    if prev.len() > 0 {
        lemma_with_unsets_wf(prev.drop_last(), cur, d);
        if lookup(cur, prev.last().0) is None {
            lemma_map_insert_wf(with_unsets(prev.drop_last(), cur, d), prev.last().0, Json::Str(unset_text()));
        }
    }
}

/// Expanding well-formed diffs gives well-formed versions, and minifying
/// well-formed versions gives well-formed diffs.
pub proof fn law_minify_expand_keep_well_formed(vs: Seq<Seq<(Seq<char>, Json)>>)
    requires
        all_wf(vs),
    ensures
        all_wf(expanded(vs)),
        all_wf(minified(vs)),
{
    assert forall|i: int| 0 <= i < expanded(vs).len() implies well_formed(Json::Object(#[trigger] expanded(vs)[i])) by {
        lemma_accumulated_wf(vs, (i + 1) as nat);
    }
    assert forall|i: int| 0 <= i < minified(vs).len() implies well_formed(Json::Object(#[trigger] minified(vs)[i])) by {
        if i > 0 {
            assert(well_formed(Json::Object(vs[i])));
            lemma_changed_entries_wf(vs[i - 1], vs[i]);
            lemma_with_unsets_wf(vs[i - 1], vs[i], changed_entries(vs[i - 1], vs[i]));
        } else {
            assert(well_formed(Json::Object(vs[0])));
        }
    }
}

// ---- documents -------------------------------------------------------------------

/// A `/p2/<vendor>/<name>.json` document: version lists by package name.
/// When `minified` is `"composer/2.0"` the lists are diffs; otherwise each
/// entry stands alone.
#[derive(Debug)]
pub struct PackageDocument {
    /// The minified-format marker.
    pub minified: Option<String>,
    /// `vendor/name` and its version list (newest first), in name order,
    /// each name once (`names_sorted`), which the constructors require and
    /// keep.
    pub packages: Vec<(String, Vec<JsonMap>)>,
}

pub open spec fn packages_model(ps: Seq<(String, Vec<JsonMap>)>) -> Seq<(Seq<char>, Seq<Seq<(Seq<char>, Json)>>)> {
    ps.map_values(|p: (String, Vec<JsonMap>)| (p.0@, maps_model(p.1@)))
}

/// Each package's list minified, names and order kept.
pub open spec fn minify_packages(ps: Seq<(Seq<char>, Seq<Seq<(Seq<char>, Json)>>)>) -> Seq<(Seq<char>, Seq<Seq<(Seq<char>, Json)>>)> {
    ps.map_values(|p: (Seq<char>, Seq<Seq<(Seq<char>, Json)>>)| (p.0, minified(p.1)))
}

/// Each package's list expanded, names and order kept.
pub open spec fn expand_packages(ps: Seq<(Seq<char>, Seq<Seq<(Seq<char>, Json)>>)>) -> Seq<(Seq<char>, Seq<Seq<(Seq<char>, Json)>>)> {
    ps.map_values(|p: (Seq<char>, Seq<Seq<(Seq<char>, Json)>>)| (p.0, expanded(p.1)))
}

/// Package names in strictly increasing code-point order, so each name
/// occurs once.
pub open spec fn names_sorted(ps: Seq<(Seq<char>, Seq<Seq<(Seq<char>, Json)>>)>) -> bool {
    forall|i: int, j: int| 0 <= i < j < ps.len() ==> lex_sign(#[trigger] ps[i].0, #[trigger] ps[j].0) < 0
}

proof fn lemma_same_names(
    a: Seq<(Seq<char>, Seq<Seq<(Seq<char>, Json)>>)>,
    b: Seq<(Seq<char>, Seq<Seq<(Seq<char>, Json)>>)>,
)
    requires
        a.len() == b.len(),
        forall|i: int| 0 <= i < a.len() ==> (#[trigger] a[i]).0 == b[i].0,
    ensures
        names_sorted(a) == names_sorted(b),
{
    if names_sorted(a) {
        assert forall|i: int, j: int| 0 <= i < j < b.len() implies lex_sign(#[trigger] b[i].0, #[trigger] b[j].0) < 0 by {
            assert(a[i].0 == b[i].0 && a[j].0 == b[j].0);
            assert(lex_sign(a[i].0, a[j].0) < 0);
        }
    }
    if names_sorted(b) {
        assert forall|i: int, j: int| 0 <= i < j < a.len() implies lex_sign(#[trigger] a[i].0, #[trigger] a[j].0) < 0 by {
            assert(a[i].0 == b[i].0 && a[j].0 == b[j].0);
            assert(lex_sign(b[i].0, b[j].0) < 0);
        }
    }
}

pub open spec fn is_marker(m: Option<String>) -> bool {
    match m {
        Some(t) => t@ == "composer/2.0"@,
        None => false,
    }
}

impl PackageDocument {
    /// A document whose versions stand alone.
    pub fn flat(packages: Vec<(String, Vec<JsonMap>)>) -> (r: Self)
        requires
            names_sorted(packages_model(packages@)),
        ensures
            r.minified is None,
            r.packages == packages,
            names_sorted(packages_model(r.packages@)),
    {
        PackageDocument { minified: None, packages }
    }

    /// A `composer/2.0` document: every package's fully materialized list
    /// minified.
    pub fn minified(packages: Vec<(String, Vec<JsonMap>)>) -> (r: Self)
        requires
            names_sorted(packages_model(packages@)),
        ensures
            is_marker(r.minified),
            packages_model(r.packages@) == minify_packages(packages_model(packages@)),
            names_sorted(packages_model(r.packages@)),
    {
        let mut out: Vec<(String, Vec<JsonMap>)> = Vec::new();
        let mut k: usize = 0;
        while k < packages.len()
            invariant
                k <= packages.len(),
                packages_model(out@) =~= minify_packages(packages_model(packages@)).take(k as int),
            decreases packages.len() - k,
        {
            let name = packages[k].0.clone();
            let mini = minify_versions(&packages[k].1);
            let ghost before = packages_model(out@);
            out.push((name, mini));
            assert(packages_model(out@) =~= before.push(minify_packages(packages_model(packages@))[k as int]));
            k += 1;
        }
        proof {
            let pm = packages_model(packages@);
            assert(minify_packages(pm).take(packages.len() as int) =~= minify_packages(pm));
            assert(packages_model(out@) == minify_packages(pm));
            lemma_same_names(minify_packages(pm), pm);
        }
        PackageDocument { minified: Some(to_string(&to_chars("composer/2.0"))), packages: out }
    }

    /// Fully materialized version lists: expanded when the marker is
    /// `"composer/2.0"`, as they are under any other marker or none.
    pub fn expand(self) -> (r: Vec<(String, Vec<JsonMap>)>)
        requires
            names_sorted(packages_model(self.packages@)),
        ensures
            packages_model(r@) == if is_marker(self.minified) {
                expand_packages(packages_model(self.packages@))
            } else {
                packages_model(self.packages@)
            },
            names_sorted(packages_model(r@)),
    {
        proof {
            let pm = packages_model(self.packages@);
            lemma_same_names(expand_packages(pm), pm);
        }
        let is_minified = match &self.minified {
            Some(m) => chars_are(&string_chars(m), "composer/2.0"),
            None => false,
        };
        let ghost target = if is_marker(self.minified) {
            expand_packages(packages_model(self.packages@))
        } else {
            packages_model(self.packages@)
        };
        assert(target.len() == self.packages.len());
        let ghost total = self.packages.len();
        let ghost pm = packages_model(self.packages@);
        assert(pm.len() == total);
        let mut rest = self.packages;
        let mut out: Vec<(String, Vec<JsonMap>)> = Vec::new();
        let mut k: usize = 0;
        while rest.len() > 0
            invariant
                k + rest.len() == total,
                target.len() == total,
                is_minified == is_marker(self.minified),
                pm.len() == total,
                target == (if is_minified {
                    expand_packages(pm)
                } else {
                    pm
                }),
                packages_model(rest@) =~= pm.skip(k as int),
                packages_model(out@) =~= target.take(k as int),
            decreases rest.len(),
        {
            let ghost before_rest = rest@;
            let (name, versions) = rest.remove(0);
            let ghost elem = (name@, maps_model(versions@));
            assert(packages_model(rest@) =~= packages_model(before_rest).skip(1));
            assert(packages_model(before_rest).skip(1) =~= pm.skip(k + 1));
            assert(packages_model(before_rest)[0] == elem);
            assert(pm.skip(k as int)[0] == pm[k as int]);
            assert(pm[k as int] == elem);
            let expanded_versions = if is_minified {
                expand_versions(versions)
            } else {
                versions
            };
            let ghost before = packages_model(out@);
            out.push((name, expanded_versions));
            assert(packages_model(out@) =~= before.push(target[k as int]));
            k += 1;
        }
        proof {
            assert(target.take(total as int) =~= target);
            assert(packages_model(out@) == target);
        }
        out
    }
}

/// `s` without its trailing `/` characters.
pub open spec fn trim_trailing_slashes(s: Seq<char>) -> Seq<char>
    decreases s.len(),
{
    if s.len() > 0 && s.last() == '/' {
        trim_trailing_slashes(s.drop_last())
    } else {
        s
    }
}

/// `<base>/p2/%package%.json`, trailing slashes of `base` dropped.
pub open spec fn metadata_template_text(base: Seq<char>) -> Seq<char> {
    trim_trailing_slashes(base) + "/p2/%package%.json"@
}

/// The root `packages.json` of a Composer v2 repository.
#[derive(Debug)]
pub struct RootManifest {
    /// `metadata-url`: the per-package metadata template, with a
    /// `%package%` placeholder.
    pub metadata_url: Option<String>,
    /// `available-packages`: every package name served.
    pub available_packages: Option<Vec<String>>,
    /// `available-package-patterns`: wildcard patterns of served names.
    pub available_package_patterns: Option<Vec<String>>,
    /// `providers-url`: the legacy v1 provider template.
    pub providers_url: Option<String>,
    /// Any other root keys, kept as they are.
    pub extra: JsonMap,
}

impl RootManifest {
    /// The v2 `metadata-url` template for a repository at `base_url`.
    pub fn metadata_template(base_url: &str) -> (r: String)
        ensures
            r@ == metadata_template_text(base_url@),
    {
        let b = to_chars(base_url);
        let mut j: usize = b.len();
        assert(b@.subrange(0, b@.len() as int) =~= b@);
        while j > 0 && b[j - 1] == '/'
            invariant
                j <= b.len(),
                trim_trailing_slashes(b@) == trim_trailing_slashes(b@.subrange(0, j as int)),
            decreases j,
        {
            assert(b@.subrange(0, j as int).drop_last() =~= b@.subrange(0, j - 1));
            j -= 1;
        }
        let mut t = crate::text::slice_chars(&b, 0, j);
        crate::text::append(&mut t, &to_chars("/p2/%package%.json"));
        to_string(&t)
    }

    /// A minimal v2 root manifest: the `metadata-url` for `base_url` and
    /// the `available-packages` list.
    pub fn v2(base_url: &str, available_packages: Vec<String>) -> (r: Self)
        ensures
            r.metadata_url is Some,
            r.metadata_url->Some_0@ == metadata_template_text(base_url@),
            r.available_packages == Some(available_packages),
            r.available_package_patterns is None,
            r.providers_url is None,
            r.extra.model().len() == 0,
    {
        RootManifest {
            metadata_url: Some(RootManifest::metadata_template(base_url)),
            available_packages: Some(available_packages),
            available_package_patterns: None,
            providers_url: None,
            extra: JsonMap::new(),
        }
    }
}

} // verus!
