//! Laws of the merge: what holds of every configuration.
//!
//! These public proofs state, over the same models the contracts use, the
//! guarantees a consumer of the library relies on: a single locale's
//! schema mirrors its key set exactly; a locale that conforms to the
//! schema merges without a single diagnostic; a missing or surplus key
//! yields exactly one warning and leaves the schema untouched; and a
//! default locale re-merged against its own schema is clean.

use crate::diag::WarnV;
use crate::key::KeyPathV;
use crate::merge::{
    entry_warns, fwd_warns, lemma_merge_schema_props, merge_all_ok, merge_all_schema,
    merge_all_warns, merge_ok, merge_schema, merge_warns, skel, surplus_warns, value_merge_ok,
};
use crate::schema::{
    build_schema, classify_value, lemma_lookup_s, lookup_s, unique_s, LocaleValueV, SchemaV,
};
use crate::tree::{
    lemma_lookup, lemma_reduce_locale, locale_has_marker, locale_wf, lookup_v, norm_ikeys,
    reduce_locale, reduce_value, unique_keys, value_has_marker, LocaleV, ValueV,
};
use vstd::prelude::*;

verus! {

/// The key path a warning reports.
pub open spec fn warn_kp(w: WarnV) -> KeyPathV {
    match w {
        WarnV::Missing { key_path, .. } => key_path,
        WarnV::Surplus { key_path, .. } => key_path,
    }
}

/// How often a warning occurs in a list.
pub open spec fn count_warn(ws: Seq<WarnV>, t: WarnV) -> int
    decreases ws.len(),
{
    if ws.len() == 0 {
        0
    } else {
        (if ws[0] == t {
            1int
        } else {
            0int
        }) + count_warn(ws.drop_first(), t)
    }
}

/// Counting distributes over concatenation.
pub proof fn lemma_count_add(a: Seq<WarnV>, b: Seq<WarnV>, t: WarnV)
    ensures
        count_warn(a + b, t) == count_warn(a, t) + count_warn(b, t),
    decreases a.len(),
{
    if a.len() == 0 {
        assert(a + b =~= b);
    } else {
        assert((a + b)[0] == a[0]);
        assert((a + b).drop_first() =~= a.drop_first() + b);
        lemma_count_add(a.drop_first(), b, t);
    }
}

/// A list without the warning holds it zero times.
pub proof fn lemma_count_zero(ws: Seq<WarnV>, t: WarnV)
    requires
        forall|x: int| 0 <= x < ws.len() ==> ws[x] != t,
    ensures
        count_warn(ws, t) == 0,
    decreases ws.len(),
{
    if ws.len() > 0 {
        assert forall|x: int| 0 <= x < ws.drop_first().len() implies ws.drop_first()[x] != t by {
            assert(ws.drop_first()[x] == ws[x + 1]);
        }
        lemma_count_zero(ws.drop_first(), t);
    }
}

/// A warning emitted below `base`: it carries the scope's namespace and a
/// path strictly below `base`.
pub open spec fn scoped(w: WarnV, ns: Option<Seq<char>>, base: Seq<Seq<char>>) -> bool {
    warn_kp(w).namespace == ns && warn_kp(w).path.len() > base.len() && warn_kp(w).path.take(
        base.len() as int,
    ) == base
}

/// Every reverse-pass warning is a `SurplusKey` one level below `base`,
/// for one of the locale's own keys.
pub proof fn lemma_surplus_scope(
    lentries: Seq<(Seq<char>, ValueV)>,
    s_entries: Seq<(Seq<char>, LocaleValueV)>,
    top: Seq<char>,
    ns: Option<Seq<char>>,
    base: Seq<Seq<char>>,
)
    ensures
        forall|x: int|
            0 <= x < surplus_warns(lentries, s_entries, top, ns, base).len()
                ==> (#[trigger] surplus_warns(lentries, s_entries, top, ns, base)[x]) is Surplus
                && scoped(surplus_warns(lentries, s_entries, top, ns, base)[x], ns, base)
                && warn_kp(surplus_warns(lentries, s_entries, top, ns, base)[x]).path.len()
                == base.len() + 1,
    decreases lentries.len(),
{
    if lentries.len() > 0 {
        lemma_surplus_scope(lentries.drop_first(), s_entries, top, ns, base);
        let ws = surplus_warns(lentries, s_entries, top, ns, base);
        let head = if lookup_s(s_entries, lentries[0].0) is None {
            seq![
                WarnV::Surplus {
                    locale: top,
                    key_path: KeyPathV { namespace: ns, path: base.push(lentries[0].0) },
                },
            ]
        } else {
            Seq::<WarnV>::empty()
        };
        let rest = surplus_warns(lentries.drop_first(), s_entries, top, ns, base);
        assert(ws == head + rest);
        assert forall|x: int| 0 <= x < ws.len() implies (#[trigger] ws[x]) is Surplus && scoped(
            ws[x],
            ns,
            base,
        ) && warn_kp(ws[x]).path.len() == base.len() + 1 by {
            if x < head.len() {
                assert(ws[x] == head[x]);
                assert(base.push(lentries[0].0).take(base.len() as int) =~= base);
            } else {
                assert(ws[x] == rest[x - head.len()]);
            }
        }
    }
}

/// Every warning of a merge lies strictly below the base path, in the
/// scope's namespace.
pub proof fn lemma_merge_warns_scope(
    s: SchemaV,
    l: LocaleV,
    top: Seq<char>,
    ns: Option<Seq<char>>,
    base: Seq<Seq<char>>,
)
    ensures
        forall|x: int|
            0 <= x < merge_warns(s, l, top, ns, base).len() ==> scoped(
                #[trigger] merge_warns(s, l, top, ns, base)[x],
                ns,
                base,
            ),
    decreases s,
{
    let a = fwd_warns(s.entries, l, top, ns, base);
    let b = surplus_warns(l.entries, s.entries, top, ns, base);
    lemma_fwd_warns_scope(s.entries, l, top, ns, base);
    lemma_surplus_scope(l.entries, s.entries, top, ns, base);
    assert forall|x: int| 0 <= x < merge_warns(s, l, top, ns, base).len() implies scoped(
        #[trigger] merge_warns(s, l, top, ns, base)[x],
        ns,
        base,
    ) by {
        if x < a.len() {
            assert(merge_warns(s, l, top, ns, base)[x] == a[x]);
        } else {
            assert(merge_warns(s, l, top, ns, base)[x] == b[x - a.len()]);
        }
    }
}

/// Every forward-pass warning lies strictly below the base path.
pub proof fn lemma_fwd_warns_scope(
    entries: Seq<(Seq<char>, LocaleValueV)>,
    l: LocaleV,
    top: Seq<char>,
    ns: Option<Seq<char>>,
    base: Seq<Seq<char>>,
)
    ensures
        forall|x: int|
            0 <= x < fwd_warns(entries, l, top, ns, base).len() ==> scoped(
                #[trigger] fwd_warns(entries, l, top, ns, base)[x],
                ns,
                base,
            ),
    decreases entries,
{
    if entries.len() > 0 {
        let head = entry_warns(entries[0].0, entries[0].1, l, top, ns, base);
        let rest = fwd_warns(entries.drop_first(), l, top, ns, base);
        lemma_entry_warns_scope(entries[0].0, entries[0].1, l, top, ns, base);
        lemma_fwd_warns_scope(entries.drop_first(), l, top, ns, base);
        assert forall|x: int| 0 <= x < fwd_warns(entries, l, top, ns, base).len() implies scoped(
            #[trigger] fwd_warns(entries, l, top, ns, base)[x],
            ns,
            base,
        ) by {
            if x < head.len() {
                assert(fwd_warns(entries, l, top, ns, base)[x] == head[x]);
            } else {
                assert(fwd_warns(entries, l, top, ns, base)[x] == rest[x - head.len()]);
            }
        }
    }
}

/// Every warning of one schema entry lies strictly below the base path.
pub proof fn lemma_entry_warns_scope(
    k: Seq<char>,
    lv: LocaleValueV,
    l: LocaleV,
    top: Seq<char>,
    ns: Option<Seq<char>>,
    base: Seq<Seq<char>>,
)
    ensures
        forall|x: int|
            0 <= x < entry_warns(k, lv, l, top, ns, base).len() ==> scoped(
                #[trigger] entry_warns(k, lv, l, top, ns, base)[x],
                ns,
                base,
            ),
    decreases lv,
{
    let ws = entry_warns(k, lv, l, top, ns, base);
    match lookup_v(l.entries, k) {
        None => {
            assert(base.push(k).take(base.len() as int) =~= base);
            assert(scoped(ws[0], ns, base));
        },
        Some(v) => match v {
            ValueV::Subkeys(sub) => match lv {
                LocaleValueV::Subkeys { keys, .. } => {
                    lemma_merge_warns_scope(keys, sub, top, ns, base.push(k));
                    assert(ws == merge_warns(keys, sub, top, ns, base.push(k)));
                    assert forall|x: int| 0 <= x < ws.len() implies scoped(
                        #[trigger] ws[x],
                        ns,
                        base,
                    ) by {
                        assert(ws[x] == merge_warns(keys, sub, top, ns, base.push(k))[x]);
                        assert(scoped(ws[x], ns, base.push(k)));
                        assert(warn_kp(ws[x]).path.take(base.len() as int) =~= base) by {
                            let p = warn_kp(ws[x]).path;
                            assert(p.take(base.len() as int + 1) == base.push(k));
                            assert forall|y: int| 0 <= y < base.len() implies p.take(
                                base.len() as int,
                            )[y] == base[y] by {
                                assert(p.take(base.len() as int + 1)[y] == base.push(k)[y]);
                            }
                        }
                    }
                },
                _ => {},
            },
            _ => {},
        },
    }
}

/// The one warning a missing key yields.
pub open spec fn missing_warn(
    top: Seq<char>,
    ns: Option<Seq<char>>,
    base: Seq<Seq<char>>,
    k: Seq<char>,
) -> WarnV {
    WarnV::Missing { locale: top, key_path: KeyPathV { namespace: ns, path: base.push(k) } }
}

/// The one warning a surplus key yields.
pub open spec fn surplus_warn(
    top: Seq<char>,
    ns: Option<Seq<char>>,
    base: Seq<Seq<char>>,
    k: Seq<char>,
) -> WarnV {
    WarnV::Surplus { locale: top, key_path: KeyPathV { namespace: ns, path: base.push(k) } }
}

/// One schema entry contributes the missing-key warning for `k` exactly
/// when it is the entry for `k` and the locale lacks `k`.
proof fn lemma_entry_count(
    k0: Seq<char>,
    lv: LocaleValueV,
    l: LocaleV,
    top: Seq<char>,
    ns: Option<Seq<char>>,
    base: Seq<Seq<char>>,
    k: Seq<char>,
)
    ensures
        count_warn(entry_warns(k0, lv, l, top, ns, base), missing_warn(top, ns, base, k)) == (
        if k0 == k && lookup_v(l.entries, k) is None {
            1int
        } else {
            0int
        }),
        count_warn(entry_warns(k0, lv, l, top, ns, base), surplus_warn(top, ns, base, k)) == 0,
    decreases lv,
{
    let ws = entry_warns(k0, lv, l, top, ns, base);
    let mt = missing_warn(top, ns, base, k);
    let st = surplus_warn(top, ns, base, k);
    match lookup_v(l.entries, k0) {
        None => {
            assert(ws == seq![missing_warn(top, ns, base, k0)]);
            assert(ws.drop_first() =~= Seq::<WarnV>::empty());
            lemma_count_zero(ws.drop_first(), mt);
            lemma_count_zero(ws.drop_first(), st);
            if k0 == k {
                assert(count_warn(ws, mt) == 1);
            } else {
                assert(base.push(k0)[base.len() as int] == k0);
                assert(base.push(k)[base.len() as int] == k);
                assert(ws[0] != mt);
            }
            assert(ws[0] != st);
        },
        Some(v) => {
            if k0 == k {
                assert(lookup_v(l.entries, k) is Some);
            }
            match v {
                ValueV::Subkeys(sub) => match lv {
                    LocaleValueV::Subkeys { keys, .. } => {
                        lemma_merge_warns_scope(keys, sub, top, ns, base.push(k0));
                        assert(ws == merge_warns(keys, sub, top, ns, base.push(k0)));
                        assert forall|x: int| 0 <= x < ws.len() implies ws[x] != mt && ws[x] != st
                            by {
                            assert(ws[x] == merge_warns(keys, sub, top, ns, base.push(k0))[x]);
                            assert(scoped(ws[x], ns, base.push(k0)));
                            assert(warn_kp(ws[x]).path.len() > base.len() + 1);
                        }
                        lemma_count_zero(ws, mt);
                        lemma_count_zero(ws, st);
                    },
                    _ => {
                        assert(ws == Seq::<WarnV>::empty());
                        lemma_count_zero(ws, mt);
                        lemma_count_zero(ws, st);
                    },
                },
                _ => {
                    assert(ws == Seq::<WarnV>::empty());
                    lemma_count_zero(ws, mt);
                    lemma_count_zero(ws, st);
                },
            }
        },
    }
}

/// The forward pass yields the missing-key warning for `k` exactly once
/// when the schema declares `k` and the locale lacks it, and never yields
/// a surplus-key warning at depth one.
proof fn lemma_fwd_count(
    entries: Seq<(Seq<char>, LocaleValueV)>,
    l: LocaleV,
    top: Seq<char>,
    ns: Option<Seq<char>>,
    base: Seq<Seq<char>>,
    k: Seq<char>,
)
    requires
        unique_s(entries),
    ensures
        count_warn(fwd_warns(entries, l, top, ns, base), missing_warn(top, ns, base, k)) == (if (
        exists|i: int| 0 <= i < entries.len() && (#[trigger] entries[i]).0 == k) && lookup_v(
            l.entries,
            k,
        ) is None {
            1int
        } else {
            0int
        }),
        count_warn(fwd_warns(entries, l, top, ns, base), surplus_warn(top, ns, base, k)) == 0,
    decreases entries,
{
    let mt = missing_warn(top, ns, base, k);
    let st = surplus_warn(top, ns, base, k);
    if entries.len() > 0 {
        let head = entry_warns(entries[0].0, entries[0].1, l, top, ns, base);
        let rest = entries.drop_first();
        lemma_entry_count(entries[0].0, entries[0].1, l, top, ns, base, k);
        assert(unique_s(rest)) by {
            assert forall|a: int, b: int| 0 <= a < b < rest.len() implies rest[a].0 != rest[b].0 by {
                assert(rest[a] == entries[a + 1]);
                assert(rest[b] == entries[b + 1]);
            }
        }
        lemma_fwd_count(rest, l, top, ns, base, k);
        assert(fwd_warns(entries, l, top, ns, base) == head + fwd_warns(rest, l, top, ns, base));
        lemma_count_add(head, fwd_warns(rest, l, top, ns, base), mt);
        lemma_count_add(head, fwd_warns(rest, l, top, ns, base), st);
        if entries[0].0 == k {
            assert forall|i: int| 0 <= i < rest.len() implies (#[trigger] rest[i]).0 != k by {
                assert(rest[i] == entries[i + 1]);
            }
            assert(!(exists|i: int| 0 <= i < rest.len() && (#[trigger] rest[i]).0 == k));
        } else {
            if exists|i: int| 0 <= i < entries.len() && (#[trigger] entries[i]).0 == k {
                let i = choose|i: int| 0 <= i < entries.len() && (#[trigger] entries[i]).0 == k;
                assert(rest[i - 1].0 == k);
            }
            if exists|i: int| 0 <= i < rest.len() && (#[trigger] rest[i]).0 == k {
                let i = choose|i: int| 0 <= i < rest.len() && (#[trigger] rest[i]).0 == k;
                assert(entries[i + 1].0 == k);
            }
        }
    }
}

/// The reverse pass yields the surplus-key warning for `k` exactly once
/// when the locale holds `k` and the schema lacks it, and never a
/// missing-key warning.
proof fn lemma_surplus_count(
    lentries: Seq<(Seq<char>, ValueV)>,
    s_entries: Seq<(Seq<char>, LocaleValueV)>,
    top: Seq<char>,
    ns: Option<Seq<char>>,
    base: Seq<Seq<char>>,
    k: Seq<char>,
)
    requires
        unique_keys(lentries),
    ensures
        count_warn(
            surplus_warns(lentries, s_entries, top, ns, base),
            surplus_warn(top, ns, base, k),
        ) == (if (exists|j: int| 0 <= j < lentries.len() && (#[trigger] lentries[j]).0 == k)
            && lookup_s(s_entries, k) is None {
            1int
        } else {
            0int
        }),
        count_warn(
            surplus_warns(lentries, s_entries, top, ns, base),
            missing_warn(top, ns, base, k),
        ) == 0,
    decreases lentries.len(),
{
    let mt = missing_warn(top, ns, base, k);
    let st = surplus_warn(top, ns, base, k);
    if lentries.len() > 0 {
        let head = if lookup_s(s_entries, lentries[0].0) is None {
            seq![surplus_warn(top, ns, base, lentries[0].0)]
        } else {
            Seq::<WarnV>::empty()
        };
        let rest = lentries.drop_first();
        assert(unique_keys(rest)) by {
            assert forall|a: int, b: int| 0 <= a < b < rest.len() implies rest[a].0 != rest[b].0 by {
                assert(rest[a] == lentries[a + 1]);
                assert(rest[b] == lentries[b + 1]);
            }
        }
        lemma_surplus_count(rest, s_entries, top, ns, base, k);
        assert(surplus_warns(lentries, s_entries, top, ns, base) == head + surplus_warns(
            rest,
            s_entries,
            top,
            ns,
            base,
        ));
        lemma_count_add(head, surplus_warns(rest, s_entries, top, ns, base), mt);
        lemma_count_add(head, surplus_warns(rest, s_entries, top, ns, base), st);
        if head.len() > 0 {
            assert(head.drop_first() =~= Seq::<WarnV>::empty());
            lemma_count_zero(head.drop_first(), mt);
            lemma_count_zero(head.drop_first(), st);
            assert(head[0] != mt);
            if lentries[0].0 == k {
                assert(count_warn(head, st) == 1);
            } else {
                assert(base.push(lentries[0].0)[base.len() as int] == lentries[0].0);
                assert(base.push(k)[base.len() as int] == k);
                assert(head[0] != st);
            }
        }
        if lentries[0].0 == k {
            assert forall|j: int| 0 <= j < rest.len() implies (#[trigger] rest[j]).0 != k by {
                assert(rest[j] == lentries[j + 1]);
            }
            assert(!(exists|j: int| 0 <= j < rest.len() && (#[trigger] rest[j]).0 == k));
        } else {
            if exists|j: int| 0 <= j < lentries.len() && (#[trigger] lentries[j]).0 == k {
                let j = choose|j: int|
                    0 <= j < lentries.len() && (#[trigger] lentries[j]).0 == k;
                assert(rest[j - 1].0 == k);
            }
            if exists|j: int| 0 <= j < rest.len() && (#[trigger] rest[j]).0 == k {
                let j = choose|j: int| 0 <= j < rest.len() && (#[trigger] rest[j]).0 == k;
                assert(lentries[j + 1].0 == k);
            }
        }
    }
}

/// A locale missing a key the schema declares: merging yields exactly one
/// `MissingKey` warning for that (locale, path) pair, and the schema is
/// unaffected by the omission.
pub proof fn lemma_missing_key(
    s: SchemaV,
    l: LocaleV,
    top: Seq<char>,
    ns: Option<Seq<char>>,
    base: Seq<Seq<char>>,
    k: Seq<char>,
)
    requires
        unique_s(s.entries),
        lookup_s(s.entries, k) is Some,
        lookup_v(l.entries, k) is None,
    ensures
        count_warn(merge_warns(s, l, top, ns, base), missing_warn(top, ns, base, k)) == 1,
        skel(merge_schema(s, l)) == skel(s),
{
    lemma_lookup_s(s.entries, k);
    lemma_fwd_count(s.entries, l, top, ns, base, k);
    lemma_surplus_count_zero_all(l.entries, s.entries, top, ns, base, k);
    lemma_count_add(
        fwd_warns(s.entries, l, top, ns, base),
        surplus_warns(l.entries, s.entries, top, ns, base),
        missing_warn(top, ns, base, k),
    );
    lemma_merge_schema_props(s, l);
}

/// Without uniqueness of the locale's keys, the reverse pass still never
/// yields a missing-key warning.
proof fn lemma_surplus_count_zero_all(
    lentries: Seq<(Seq<char>, ValueV)>,
    s_entries: Seq<(Seq<char>, LocaleValueV)>,
    top: Seq<char>,
    ns: Option<Seq<char>>,
    base: Seq<Seq<char>>,
    k: Seq<char>,
)
    ensures
        count_warn(
            surplus_warns(lentries, s_entries, top, ns, base),
            missing_warn(top, ns, base, k),
        ) == 0,
{
    lemma_surplus_scope(lentries, s_entries, top, ns, base);
    let ws = surplus_warns(lentries, s_entries, top, ns, base);
    assert forall|x: int| 0 <= x < ws.len() implies ws[x] != missing_warn(top, ns, base, k) by {
        assert(ws[x] is Surplus);
    }
    lemma_count_zero(ws, missing_warn(top, ns, base, k));
}

/// A locale holding a key the schema never declares: merging yields
/// exactly one `SurplusKey` warning for that (locale, path) pair.
pub proof fn lemma_surplus_key(
    s: SchemaV,
    l: LocaleV,
    top: Seq<char>,
    ns: Option<Seq<char>>,
    base: Seq<Seq<char>>,
    k: Seq<char>,
)
    requires
        unique_s(s.entries),
        unique_keys(l.entries),
        lookup_v(l.entries, k) is Some,
        lookup_s(s.entries, k) is None,
    ensures
        count_warn(merge_warns(s, l, top, ns, base), surplus_warn(top, ns, base, k)) == 1,
{
    lemma_lookup(l.entries, k);
    lemma_fwd_count(s.entries, l, top, ns, base, k);
    lemma_surplus_count(l.entries, s.entries, top, ns, base, k);
    lemma_count_add(
        fwd_warns(s.entries, l, top, ns, base),
        surplus_warns(l.entries, s.entries, top, ns, base),
        surplus_warn(top, ns, base, k),
    );
    assert(!(exists|i: int| 0 <= i < s.entries.len() && (#[trigger] s.entries[i]).0 == k)) by {
        lemma_lookup_s(s.entries, k);
    }
}

/// A locale agrees with the schema entry for entry: it has exactly the
/// schema's keys, with matching shapes and, on leaves, exactly the
/// schema's interpolation requirements.
pub open spec fn conforms(s: SchemaV, l: LocaleV) -> bool
    decreases s,
{
    (forall|i: int|
        0 <= i < s.entries.len() ==> match lookup_v(l.entries, (#[trigger] s.entries[i]).0) {
            Some(v) => match s.entries[i].1 {
                LocaleValueV::Value(ik) => match v {
                    ValueV::Value { text, interpolate_keys } => norm_ikeys(interpolate_keys) == ik,
                    _ => false,
                },
                LocaleValueV::Subkeys { keys, .. } => match v {
                    ValueV::Subkeys(sub) => conforms(keys, sub),
                    _ => false,
                },
            },
            None => false,
        }) && (forall|j: int|
        0 <= j < l.entries.len() ==> lookup_s(s.entries, (#[trigger] l.entries[j]).0) is Some)
}

/// A conforming locale merges with no shape mismatch and not a single
/// warning.
pub proof fn lemma_conforming_clean(
    s: SchemaV,
    l: LocaleV,
    top: Seq<char>,
    ns: Option<Seq<char>>,
    base: Seq<Seq<char>>,
)
    requires
        conforms(s, l),
    ensures
        merge_ok(s, l),
        merge_warns(s, l, top, ns, base) == Seq::<WarnV>::empty(),
    decreases s,
{
    assert forall|i: int| 0 <= i < s.entries.len() implies match lookup_v(
        l.entries,
        (#[trigger] s.entries[i]).0,
    ) {
        Some(v) => value_merge_ok(s.entries[i].1, v),
        None => true,
    } by {
        match lookup_v(l.entries, s.entries[i].0) {
            Some(v) => match s.entries[i].1 {
                LocaleValueV::Subkeys { keys, .. } => match v {
                    ValueV::Subkeys(sub) => {
                        lemma_conforming_clean(keys, sub, top, ns, base.push(s.entries[i].0));
                    },
                    _ => {},
                },
                _ => {},
            },
            None => {},
        }
    }
    lemma_fwd_clean(s.entries, l, top, ns, base);
    lemma_surplus_clean(l.entries, s.entries, top, ns, base);
    assert(merge_warns(s, l, top, ns, base) =~= Seq::<WarnV>::empty());
}

/// The forward pass of a conforming locale emits nothing.
proof fn lemma_fwd_clean(
    entries: Seq<(Seq<char>, LocaleValueV)>,
    l: LocaleV,
    top: Seq<char>,
    ns: Option<Seq<char>>,
    base: Seq<Seq<char>>,
)
    requires
        forall|i: int|
            0 <= i < entries.len() ==> match lookup_v(l.entries, (#[trigger] entries[i]).0) {
                Some(v) => match entries[i].1 {
                    LocaleValueV::Value(ik) => match v {
                        ValueV::Value { text, interpolate_keys } => norm_ikeys(interpolate_keys)
                            == ik,
                        _ => false,
                    },
                    LocaleValueV::Subkeys { keys, .. } => match v {
                        ValueV::Subkeys(sub) => conforms(keys, sub),
                        _ => false,
                    },
                },
                None => false,
            },
    ensures
        fwd_warns(entries, l, top, ns, base) == Seq::<WarnV>::empty(),
    decreases entries,
{
    if entries.len() > 0 {
        assert(entries[0] == entries[0]);
        let head = entry_warns(entries[0].0, entries[0].1, l, top, ns, base);
        match lookup_v(l.entries, entries[0].0) {
            Some(v) => match entries[0].1 {
                LocaleValueV::Subkeys { keys, .. } => match v {
                    ValueV::Subkeys(sub) => {
                        lemma_conforming_clean(keys, sub, top, ns, base.push(entries[0].0));
                        assert(head == Seq::<WarnV>::empty());
                    },
                    _ => {},
                },
                _ => {},
            },
            None => {
                assert(false);
            },
        }
        assert(head == Seq::<WarnV>::empty());
        let rest = entries.drop_first();
        assert forall|i: int| 0 <= i < rest.len() implies match lookup_v(
            l.entries,
            (#[trigger] rest[i]).0,
        ) {
            Some(v) => match rest[i].1 {
                LocaleValueV::Value(ik) => match v {
                    ValueV::Value { text, interpolate_keys } => norm_ikeys(interpolate_keys) == ik,
                    _ => false,
                },
                LocaleValueV::Subkeys { keys, .. } => match v {
                    ValueV::Subkeys(sub) => conforms(keys, sub),
                    _ => false,
                },
            },
            None => false,
        } by {
            assert(rest[i] == entries[i + 1]);
        }
        lemma_fwd_clean(rest, l, top, ns, base);
        assert(fwd_warns(entries, l, top, ns, base) =~= Seq::<WarnV>::empty());
    }
}

/// The reverse pass of a locale whose every key the schema declares emits
/// nothing.
proof fn lemma_surplus_clean(
    lentries: Seq<(Seq<char>, ValueV)>,
    s_entries: Seq<(Seq<char>, LocaleValueV)>,
    top: Seq<char>,
    ns: Option<Seq<char>>,
    base: Seq<Seq<char>>,
)
    requires
        forall|j: int|
            0 <= j < lentries.len() ==> lookup_s(s_entries, (#[trigger] lentries[j]).0) is Some,
    ensures
        surplus_warns(lentries, s_entries, top, ns, base) == Seq::<WarnV>::empty(),
    decreases lentries.len(),
{
    if lentries.len() > 0 {
        assert(lookup_s(s_entries, lentries[0].0) is Some);
        let rest = lentries.drop_first();
        assert forall|j: int| 0 <= j < rest.len() implies lookup_s(
            s_entries,
            (#[trigger] rest[j]).0,
        ) is Some by {
            assert(rest[j] == lentries[j + 1]);
        }
        lemma_surplus_clean(rest, s_entries, top, ns, base);
        assert(surplus_warns(lentries, s_entries, top, ns, base) =~= Seq::<WarnV>::empty());
    }
}

/// Merging one locale never disturbs another's conformance: the schema's
/// keys, shapes and leaf payloads stay as they were.
pub proof fn lemma_conforms_after_merge(s: SchemaV, l: LocaleV, l2: LocaleV)
    requires
        conforms(s, l2),
    ensures
        conforms(merge_schema(s, l), l2),
    decreases s,
{
    let m = merge_schema(s, l);
    assert(m.entries.len() == s.entries.len());
    assert forall|i: int| 0 <= i < m.entries.len() implies match lookup_v(
        l2.entries,
        (#[trigger] m.entries[i]).0,
    ) {
        Some(v) => match m.entries[i].1 {
            LocaleValueV::Value(ik) => match v {
                ValueV::Value { text, interpolate_keys } => norm_ikeys(interpolate_keys) == ik,
                _ => false,
            },
            LocaleValueV::Subkeys { keys, .. } => match v {
                ValueV::Subkeys(sub) => conforms(keys, sub),
                _ => false,
            },
        },
        None => false,
    } by {
        assert(m.entries[i] == (s.entries[i].0, crate::merge::merged_value(
            s.entries[i].1,
            lookup_v(l.entries, s.entries[i].0),
        )));
        match s.entries[i].1 {
            LocaleValueV::Subkeys { locales, keys } => {
                match lookup_v(l.entries, s.entries[i].0) {
                    Some(v) => match v {
                        ValueV::Subkeys(sub) => {
                            match lookup_v(l2.entries, s.entries[i].0) {
                                Some(v2) => match v2 {
                                    ValueV::Subkeys(sub2) => {
                                        lemma_conforms_after_merge(keys, sub, sub2);
                                    },
                                    _ => {},
                                },
                                None => {},
                            }
                        },
                        _ => {},
                    },
                    None => {},
                }
            },
            _ => {},
        }
    }
    assert forall|j: int| 0 <= j < l2.entries.len() implies lookup_s(
        m.entries,
        (#[trigger] l2.entries[j]).0,
    ) is Some by {
        lemma_lookup_s(s.entries, l2.entries[j].0);
        lemma_lookup_s(m.entries, l2.entries[j].0);
        let i = choose|i: int| 0 <= i < s.entries.len() && s.entries[i].0 == l2.entries[j].0;
        assert(m.entries[i].0 == l2.entries[j].0);
    }
}

/// A configuration where every non-default locale conforms to the schema
/// merges with zero warnings and zero errors, however many locales there
/// are.
pub proof fn lemma_all_conforming_clean(
    s: SchemaV,
    ls: Seq<LocaleV>,
    ns: Option<Seq<char>>,
    base: Seq<Seq<char>>,
)
    requires
        forall|i: int| 0 <= i < ls.len() ==> conforms(s, #[trigger] ls[i]),
    ensures
        merge_all_ok(s, ls),
        merge_all_warns(s, ls, ns, base) == Seq::<WarnV>::empty(),
    decreases ls.len(),
{
    if ls.len() > 0 {
        lemma_conforming_clean(s, ls[0], ls[0].name, ns, base);
        let s2 = merge_schema(s, ls[0]);
        let rest = ls.drop_first();
        assert forall|i: int| 0 <= i < rest.len() implies conforms(s2, #[trigger] rest[i]) by {
            assert(rest[i] == ls[i + 1]);
            lemma_conforms_after_merge(s, ls[0], ls[i + 1]);
        }
        lemma_all_conforming_clean(s2, rest, ns, base);
        assert(merge_all_warns(s, ls, ns, base) =~= Seq::<WarnV>::empty());
    }
}

/// A marker-free, well-formed default locale conforms to its own schema
/// after canonicalization.
pub proof fn lemma_reduced_conforms(l: LocaleV)
    requires
        locale_wf(l),
        !locale_has_marker(l),
    ensures
        conforms(build_schema(reduce_locale(l)), reduce_locale(l)),
    decreases l,
{
    let r = reduce_locale(l);
    let s = build_schema(r);
    lemma_reduce_locale(l);
    assert forall|i: int| 0 <= i < s.entries.len() implies match lookup_v(
        r.entries,
        (#[trigger] s.entries[i]).0,
    ) {
        Some(v) => match s.entries[i].1 {
            LocaleValueV::Value(ik) => match v {
                ValueV::Value { text, interpolate_keys } => norm_ikeys(interpolate_keys) == ik,
                _ => false,
            },
            LocaleValueV::Subkeys { keys, .. } => match v {
                ValueV::Subkeys(sub) => conforms(keys, sub),
                _ => false,
            },
        },
        None => false,
    } by {
        assert(r.entries[i] == (l.entries[i].0, reduce_value(l.entries[i].1)));
        assert(s.entries[i] == (r.entries[i].0, classify_value(r.entries[i].1)));
        lemma_lookup(r.entries, r.entries[i].0);
        assert(lookup_v(r.entries, s.entries[i].0) == Some(r.entries[i].1));
        match l.entries[i].1 {
            ValueV::Inherit => {
                assert(value_has_marker(l.entries[i].1));
                assert(locale_has_marker(l));
                assert(false);
            },
            ValueV::Value { text, interpolate_keys } => {
                assert(norm_ikeys(norm_ikeys(interpolate_keys)) == norm_ikeys(interpolate_keys));
            },
            ValueV::Subkeys(subl) => {
                assert(value_has_marker(l.entries[i].1) == locale_has_marker(subl));
                if locale_has_marker(subl) {
                    assert(locale_has_marker(l));
                }
                assert(crate::tree::value_wf(l.entries[i].1));
                lemma_reduced_conforms(subl);
                assert(r.entries[i].1 == ValueV::Subkeys(reduce_locale(subl)));
            },
        }
    }
    assert forall|j: int| 0 <= j < r.entries.len() implies lookup_s(
        s.entries,
        (#[trigger] r.entries[j]).0,
    ) is Some by {
        assert(s.entries[j].0 == r.entries[j].0);
        lemma_lookup_s(s.entries, r.entries[j].0);
    }
}

/// Self-merge is clean: the canonicalized default locale, merged against
/// the schema built from itself, yields no error and no warning.
pub proof fn lemma_self_merge(
    l: LocaleV,
    top: Seq<char>,
    ns: Option<Seq<char>>,
    base: Seq<Seq<char>>,
)
    requires
        locale_wf(l),
        !locale_has_marker(l),
    ensures
        merge_ok(build_schema(reduce_locale(l)), reduce_locale(l)),
        merge_warns(build_schema(reduce_locale(l)), reduce_locale(l), top, ns, base)
            == Seq::<WarnV>::empty(),
{
    lemma_reduced_conforms(l);
    lemma_conforming_clean(build_schema(reduce_locale(l)), reduce_locale(l), top, ns, base);
}

/// A single-locale project: the scope validates exactly when the locale
/// holds no inherit-from-default marker, its schema carries exactly the
/// locale's keys in order, and no warning is emitted.
pub proof fn lemma_single_locale(l: LocaleV, ns: Option<Seq<char>>)
    ensures
        crate::check::scope_ok(seq![l]) == !locale_has_marker(l),
        crate::check::scope_warns(seq![l], ns) == Seq::<WarnV>::empty(),
        crate::check::scope_keys(seq![l]).entries.len() == l.entries.len(),
        forall|i: int|
            0 <= i < l.entries.len() ==> (#[trigger] crate::check::scope_keys(
                seq![l],
            ).entries[i]).0 == l.entries[i].0,
{
    let ls = seq![l];
    assert(ls[0] == l);
    assert(ls.drop_first() =~= Seq::<LocaleV>::empty());
    let s = crate::check::scope_schema(l);
    assert(merge_all_ok(s, ls.drop_first()));
    assert(merge_all_schema(s, ls.drop_first()) == s);
    assert(merge_all_warns(s, ls.drop_first(), ns, Seq::empty()) == Seq::<WarnV>::empty());
    lemma_reduce_locale(l);
    assert forall|i: int| 0 <= i < l.entries.len() implies (#[trigger] crate::check::scope_keys(
        ls,
    ).entries[i]).0 == l.entries[i].0 by {
        assert(s.entries[i] == (reduce_locale(l).entries[i].0, classify_value(
            reduce_locale(l).entries[i].1,
        )));
    }
}

} // verus!
