//! Reconciling a non-default locale against the schema.
//!
//! The forward pass walks the schema's keys: a key the locale lacks yields
//! one `MissingKey` warning; a key whose value disagrees in shape with the
//! schema (leaf against subtree, either way) is a fatal `ShapeMismatch`; a
//! matching subtree recurses, appending the locale's subtree to the schema
//! entry's per-locale list.  The reverse pass walks the locale's own keys
//! and yields one `SurplusKey` warning for every key the schema never
//! declared.  Warnings accumulate; a shape mismatch aborts at once.

use crate::diag::{warn_views, Error, ErrorV, Shape, WarnV, Warning};
use crate::key::{Key, KeyPath, KeyPathV};
use crate::schema::{
    lemma_lookup_s, locale_value_view, locale_views, lookup_s, schema_entry_views, unique_s,
    BuildersKeysInner, LocaleValue, LocaleValueV, SchemaV,
};
use crate::tree::{locale_wf, lookup_v, value_view, Locale, LocaleV, ParsedValue, ValueV};
use vstd::prelude::*;

verus! {

broadcast use vstd::std_specs::vec::group_vec_axioms;

/// Whether a locale's value agrees in shape with a schema entry,
/// recursively below matching subtrees.  An inherit-from-default marker
/// agrees with any shape.
pub open spec fn value_merge_ok(lv: LocaleValueV, v: ValueV) -> bool
    decreases lv,
{
    match v {
        ValueV::Inherit => true,
        ValueV::Value { .. } => lv is Value,
        ValueV::Subkeys(sub) => match lv {
            LocaleValueV::Subkeys { keys, .. } => merge_ok(keys, sub),
            _ => false,
        },
    }
}

/// Whether a locale agrees in shape with the schema everywhere the two
/// overlap: merging succeeds exactly then.
pub open spec fn merge_ok(s: SchemaV, l: LocaleV) -> bool
    decreases s,
{
    forall|i: int|
        0 <= i < s.entries.len() ==> match lookup_v(l.entries, (#[trigger] s.entries[i]).0) {
            Some(v) => value_merge_ok(s.entries[i].1, v),
            None => true,
        }
}

/// One schema entry after merging one locale's value for its key: a
/// matching subtree is appended to the entry's per-locale list and merged
/// into the nested schema; anything else leaves the entry unchanged.
pub open spec fn merged_value(lv: LocaleValueV, o: Option<ValueV>) -> LocaleValueV
    decreases lv,
{
    match o {
        Some(v) => match v {
            ValueV::Subkeys(sub) => match lv {
                LocaleValueV::Subkeys { locales, keys } => LocaleValueV::Subkeys {
                    locales: locales.push(sub),
                    keys: merge_schema(keys, sub),
                },
                _ => lv,
            },
            _ => lv,
        },
        None => lv,
    }
}

/// The schema after merging one locale: its keys, shapes and leaf payloads
/// are untouched; only the per-locale subtree lists grow.
pub open spec fn merge_schema(s: SchemaV, l: LocaleV) -> SchemaV
    decreases s,
{
    SchemaV {
        entries: Seq::new(
            s.entries.len(),
            |i: int|
                if 0 <= i < s.entries.len() {
                    (s.entries[i].0, merged_value(s.entries[i].1, lookup_v(l.entries, s.entries[i].0)))
                } else {
                    arbitrary()
                },
        ),
    }
}

/// The warnings of the forward pass for one schema entry.
pub open spec fn entry_warns(
    k: Seq<char>,
    lv: LocaleValueV,
    l: LocaleV,
    top: Seq<char>,
    ns: Option<Seq<char>>,
    base: Seq<Seq<char>>,
) -> Seq<WarnV>
    decreases lv,
{
    match lookup_v(l.entries, k) {
        None => seq![
            WarnV::Missing { locale: top, key_path: KeyPathV { namespace: ns, path: base.push(k) } },
        ],
        Some(v) => match v {
            ValueV::Subkeys(sub) => match lv {
                LocaleValueV::Subkeys { keys, .. } => merge_warns(keys, sub, top, ns, base.push(k)),
                _ => Seq::empty(),
            },
            _ => Seq::empty(),
        },
    }
}

/// The warnings of the forward pass over a schema entry list.
pub open spec fn fwd_warns(
    entries: Seq<(Seq<char>, LocaleValueV)>,
    l: LocaleV,
    top: Seq<char>,
    ns: Option<Seq<char>>,
    base: Seq<Seq<char>>,
) -> Seq<WarnV>
    decreases entries,
{
    if entries.len() == 0 {
        Seq::empty()
    } else {
        entry_warns(entries[0].0, entries[0].1, l, top, ns, base) + fwd_warns(
            entries.drop_first(),
            l,
            top,
            ns,
            base,
        )
    }
}

/// The warnings of the reverse pass: one `SurplusKey` per locale key the
/// schema does not declare.
pub open spec fn surplus_warns(
    lentries: Seq<(Seq<char>, ValueV)>,
    s_entries: Seq<(Seq<char>, LocaleValueV)>,
    top: Seq<char>,
    ns: Option<Seq<char>>,
    base: Seq<Seq<char>>,
) -> Seq<WarnV>
    decreases lentries.len(),
{
    if lentries.len() == 0 {
        Seq::empty()
    } else {
        (if lookup_s(s_entries, lentries[0].0) is None {
            seq![
                WarnV::Surplus {
                    locale: top,
                    key_path: KeyPathV { namespace: ns, path: base.push(lentries[0].0) },
                },
            ]
        } else {
            Seq::empty()
        }) + surplus_warns(lentries.drop_first(), s_entries, top, ns, base)
    }
}

/// All warnings of merging one locale against a schema, in emission order.
pub open spec fn merge_warns(
    s: SchemaV,
    l: LocaleV,
    top: Seq<char>,
    ns: Option<Seq<char>>,
    base: Seq<Seq<char>>,
) -> Seq<WarnV>
    decreases s,
{
    fwd_warns(s.entries, l, top, ns, base) + surplus_warns(l.entries, s.entries, top, ns, base)
}

/// Whether following `rel` from schema and locale together reaches a point
/// where the two disagree in shape; `expected_subtree` is the schema's
/// shape there.
pub open spec fn mismatch_at(s: SchemaV, l: LocaleV, rel: Seq<Seq<char>>, expected_subtree: bool) -> bool
    decreases rel.len(),
{
    rel.len() > 0 && match (lookup_s(s.entries, rel[0]), lookup_v(l.entries, rel[0])) {
        (Some(lv), Some(v)) => if rel.len() == 1 {
            match v {
                ValueV::Value { .. } => lv is Subkeys && expected_subtree,
                ValueV::Subkeys(_) => lv is Value && !expected_subtree,
                ValueV::Inherit => false,
            }
        } else {
            match (lv, v) {
                (LocaleValueV::Subkeys { keys, .. }, ValueV::Subkeys(sub)) => mismatch_at(
                    keys,
                    sub,
                    rel.drop_first(),
                    expected_subtree,
                ),
                _ => false,
            }
        },
        _ => false,
    }
}

/// A schema's skeleton: its keys, shapes, leaf payloads and nested
/// structure, with the diagnostic per-locale subtree lists emptied.
pub open spec fn skel_lv(lv: LocaleValueV) -> LocaleValueV
    decreases lv,
{
    match lv {
        LocaleValueV::Value(o) => LocaleValueV::Value(o),
        LocaleValueV::Subkeys { locales, keys } => LocaleValueV::Subkeys {
            locales: Seq::empty(),
            keys: skel(keys),
        },
    }
}

/// The skeleton of a schema: what merging may never change.
pub open spec fn skel(s: SchemaV) -> SchemaV
    decreases s,
{
    SchemaV {
        entries: Seq::new(
            s.entries.len(),
            |i: int|
                if 0 <= i < s.entries.len() {
                    (s.entries[i].0, skel_lv(s.entries[i].1))
                } else {
                    arbitrary()
                },
        ),
    }
}

/// A schema is well formed when its keys are unique at every level.
pub open spec fn swf(s: SchemaV) -> bool
    decreases s,
{
    unique_s(s.entries) && forall|i: int|
        0 <= i < s.entries.len() ==> match (#[trigger] s.entries[i]).1 {
            LocaleValueV::Subkeys { keys, .. } => swf(keys),
            _ => true,
        }
}

/// The schema built from a well-formed tree is well formed.
pub proof fn lemma_build_schema_swf(l: LocaleV)
    requires
        locale_wf(l),
    ensures
        swf(crate::schema::build_schema(l)),
    decreases l,
{
    let s = crate::schema::build_schema(l);
    assert forall|i: int| 0 <= i < s.entries.len() implies match (#[trigger] s.entries[i]).1 {
        LocaleValueV::Subkeys { keys, .. } => swf(keys),
        _ => true,
    } by {
        assert(crate::tree::value_wf(l.entries[i].1));
        match l.entries[i].1 {
            ValueV::Subkeys(sub) => {
                lemma_build_schema_swf(sub);
            },
            _ => {},
        }
    }
}

/// Merging never changes a schema's skeleton, and keeps it well formed.
pub proof fn lemma_merge_schema_props(s: SchemaV, l: LocaleV)
    ensures
        skel(merge_schema(s, l)) == skel(s),
        swf(s) ==> swf(merge_schema(s, l)),
    decreases s,
{
    let m = merge_schema(s, l);
    assert(m.entries.len() == s.entries.len());
    assert forall|i: int| 0 <= i < s.entries.len() implies skel_lv(#[trigger] m.entries[i].1)
        == skel_lv(s.entries[i].1) && (swf(s) ==> match m.entries[i].1 {
        LocaleValueV::Subkeys { keys, .. } => swf(keys),
        _ => true,
    }) by {
        assert(m.entries[i] == (s.entries[i].0, merged_value(
            s.entries[i].1,
            lookup_v(l.entries, s.entries[i].0),
        )));
        match s.entries[i].1 {
            LocaleValueV::Subkeys { locales, keys } => {
                match lookup_v(l.entries, s.entries[i].0) {
                    Some(v) => match v {
                        ValueV::Subkeys(sub) => {
                            lemma_merge_schema_props(keys, sub);
                            assert(skel_lv(m.entries[i].1) =~= skel_lv(s.entries[i].1));
                        },
                        _ => {},
                    },
                    None => {},
                }
            },
            _ => {},
        }
    }
    assert(skel(m) =~= skel(s)) by {
        assert(skel(m).entries.len() == skel(s).entries.len());
        assert forall|i: int| 0 <= i < s.entries.len() implies skel(m).entries[i]
            == skel(s).entries[i] by {
            assert(skel(m).entries[i] == (m.entries[i].0, skel_lv(m.entries[i].1)));
            assert(skel(s).entries[i] == (s.entries[i].0, skel_lv(s.entries[i].1)));
            assert(m.entries[i].0 == s.entries[i].0);
        }
        assert(skel(m).entries =~= skel(s).entries);
    }
}

/// Two schemas with one skeleton are equally well formed.
pub proof fn lemma_skel_swf(a: SchemaV, b: SchemaV)
    requires
        skel(a) == skel(b),
        swf(b),
    ensures
        swf(a),
    decreases a,
{
    assert(skel(a).entries.len() == a.entries.len());
    assert(skel(b).entries.len() == b.entries.len());
    assert(a.entries.len() == b.entries.len());
    assert forall|i: int, j: int| 0 <= i < j < a.entries.len() implies a.entries[i].0
        != a.entries[j].0 by {
        assert(skel(a).entries[i] == skel(b).entries[i]);
        assert(skel(a).entries[j] == skel(b).entries[j]);
        assert(skel(a).entries[i] == (a.entries[i].0, skel_lv(a.entries[i].1)));
        assert(skel(b).entries[i] == (b.entries[i].0, skel_lv(b.entries[i].1)));
        assert(skel(a).entries[j] == (a.entries[j].0, skel_lv(a.entries[j].1)));
        assert(skel(b).entries[j] == (b.entries[j].0, skel_lv(b.entries[j].1)));
        assert(b.entries[i].0 != b.entries[j].0);
    }
    assert forall|i: int| 0 <= i < a.entries.len() implies match (#[trigger] a.entries[i]).1 {
        LocaleValueV::Subkeys { keys, .. } => swf(keys),
        _ => true,
    } by {
        assert(skel(a).entries[i] == skel(b).entries[i]);
        assert(skel(a).entries[i] == (a.entries[i].0, skel_lv(a.entries[i].1)));
        assert(skel(b).entries[i] == (b.entries[i].0, skel_lv(b.entries[i].1)));
        match a.entries[i].1 {
            LocaleValueV::Subkeys { locales: _, keys: ka } => {
                match b.entries[i].1 {
                    LocaleValueV::Subkeys { locales: _, keys: kb } => {
                        lemma_skel_swf(ka, kb);
                    },
                    _ => {
                        assert(false);
                    },
                }
            },
            _ => {},
        }
    }
}

/// The forward-pass warnings of a prefix extend entry by entry.
pub proof fn lemma_fwd_warns_snoc(
    entries: Seq<(Seq<char>, LocaleValueV)>,
    l: LocaleV,
    top: Seq<char>,
    ns: Option<Seq<char>>,
    base: Seq<Seq<char>>,
    i: int,
)
    requires
        0 <= i < entries.len(),
    ensures
        fwd_warns(entries.take(i + 1), l, top, ns, base) == fwd_warns(
            entries.take(i),
            l,
            top,
            ns,
            base,
        ) + entry_warns(entries[i].0, entries[i].1, l, top, ns, base),
    decreases i,
{
    let w = |j: int| entry_warns(entries[j].0, entries[j].1, l, top, ns, base);
    if i == 0 {
        assert(entries.take(1)[0] == entries[0]);
        assert(entries.take(1).drop_first() =~= Seq::<(Seq<char>, LocaleValueV)>::empty());
        assert(entries.take(0) =~= Seq::<(Seq<char>, LocaleValueV)>::empty());
        assert(fwd_warns(entries.take(1), l, top, ns, base) =~= fwd_warns(
            entries.take(0),
            l,
            top,
            ns,
            base,
        ) + w(0));
    } else {
        let d = entries.drop_first();
        assert(entries.take(i + 1)[0] == entries[0]);
        assert(entries.take(i)[0] == entries[0]);
        assert(entries.take(i + 1).drop_first() =~= d.take(i));
        assert(entries.take(i).drop_first() =~= d.take(i - 1));
        lemma_fwd_warns_snoc(d, l, top, ns, base, i - 1);
        assert(d[i - 1] == entries[i]);
        assert(fwd_warns(entries.take(i + 1), l, top, ns, base) == entry_warns(
            entries[0].0,
            entries[0].1,
            l,
            top,
            ns,
            base,
        ) + (fwd_warns(d.take(i - 1), l, top, ns, base) + w(i)));
        assert(entry_warns(entries[0].0, entries[0].1, l, top, ns, base) + (fwd_warns(
            d.take(i - 1),
            l,
            top,
            ns,
            base,
        ) + w(i)) =~= (entry_warns(entries[0].0, entries[0].1, l, top, ns, base) + fwd_warns(
            d.take(i - 1),
            l,
            top,
            ns,
            base,
        )) + w(i));
    }
}

/// The full forward pass is the forward pass of the whole prefix.
pub proof fn lemma_fwd_warns_all(
    entries: Seq<(Seq<char>, LocaleValueV)>,
    l: LocaleV,
    top: Seq<char>,
    ns: Option<Seq<char>>,
    base: Seq<Seq<char>>,
)
    ensures
        fwd_warns(entries.take(entries.len() as int), l, top, ns, base) == fwd_warns(
            entries,
            l,
            top,
            ns,
            base,
        ),
{
    assert(entries.take(entries.len() as int) =~= entries);
}

/// The reverse-pass warnings of a prefix extend entry by entry.
pub proof fn lemma_surplus_warns_snoc(
    lentries: Seq<(Seq<char>, ValueV)>,
    s_entries: Seq<(Seq<char>, LocaleValueV)>,
    top: Seq<char>,
    ns: Option<Seq<char>>,
    base: Seq<Seq<char>>,
    i: int,
)
    requires
        0 <= i < lentries.len(),
    ensures
        surplus_warns(lentries.take(i + 1), s_entries, top, ns, base) == surplus_warns(
            lentries.take(i),
            s_entries,
            top,
            ns,
            base,
        ) + (if lookup_s(s_entries, lentries[i].0) is None {
            seq![
                WarnV::Surplus {
                    locale: top,
                    key_path: KeyPathV { namespace: ns, path: base.push(lentries[i].0) },
                },
            ]
        } else {
            Seq::<WarnV>::empty()
        }),
    decreases i,
{
    let w = |j: int|
        if lookup_s(s_entries, lentries[j].0) is None {
            seq![
                WarnV::Surplus {
                    locale: top,
                    key_path: KeyPathV { namespace: ns, path: base.push(lentries[j].0) },
                },
            ]
        } else {
            Seq::<WarnV>::empty()
        };
    if i == 0 {
        assert(lentries.take(1)[0] == lentries[0]);
        assert(lentries.take(1).drop_first() =~= Seq::<(Seq<char>, ValueV)>::empty());
        assert(lentries.take(0) =~= Seq::<(Seq<char>, ValueV)>::empty());
        assert(surplus_warns(lentries.take(1), s_entries, top, ns, base) =~= surplus_warns(
            lentries.take(0),
            s_entries,
            top,
            ns,
            base,
        ) + w(0));
    } else {
        let d = lentries.drop_first();
        assert(lentries.take(i + 1)[0] == lentries[0]);
        assert(lentries.take(i)[0] == lentries[0]);
        assert(lentries.take(i + 1).drop_first() =~= d.take(i));
        assert(lentries.take(i).drop_first() =~= d.take(i - 1));
        lemma_surplus_warns_snoc(d, s_entries, top, ns, base, i - 1);
        assert(d[i - 1] == lentries[i]);
        assert(w(0) + (surplus_warns(d.take(i - 1), s_entries, top, ns, base) + w(i)) =~= (w(0)
            + surplus_warns(d.take(i - 1), s_entries, top, ns, base)) + w(i));
    }
}

/// Whether merging a list of locales, in order, never hits a shape
/// mismatch.
pub open spec fn merge_all_ok(s: SchemaV, ls: Seq<LocaleV>) -> bool
    decreases ls.len(),
{
    ls.len() == 0 || (merge_ok(s, ls[0]) && merge_all_ok(merge_schema(s, ls[0]), ls.drop_first()))
}

/// The schema after merging a list of locales, in order.
pub open spec fn merge_all_schema(s: SchemaV, ls: Seq<LocaleV>) -> SchemaV
    decreases ls.len(),
{
    if ls.len() == 0 {
        s
    } else {
        merge_all_schema(merge_schema(s, ls[0]), ls.drop_first())
    }
}

/// The warnings of merging a list of locales, in order; each locale's
/// diagnostics carry its own name.
pub open spec fn merge_all_warns(
    s: SchemaV,
    ls: Seq<LocaleV>,
    ns: Option<Seq<char>>,
    base: Seq<Seq<char>>,
) -> Seq<WarnV>
    decreases ls.len(),
{
    if ls.len() == 0 {
        Seq::empty()
    } else {
        merge_warns(s, ls[0], ls[0].name, ns, base) + merge_all_warns(
            merge_schema(s, ls[0]),
            ls.drop_first(),
            ns,
            base,
        )
    }
}

/// Merging one more locale extends the fold.
pub proof fn lemma_merge_all_snoc(
    s: SchemaV,
    ls: Seq<LocaleV>,
    x: LocaleV,
    ns: Option<Seq<char>>,
    base: Seq<Seq<char>>,
)
    ensures
        merge_all_ok(s, ls.push(x)) == (merge_all_ok(s, ls) && merge_ok(merge_all_schema(s, ls), x)),
        merge_all_schema(s, ls.push(x)) == merge_schema(merge_all_schema(s, ls), x),
        merge_all_warns(s, ls.push(x), ns, base) == merge_all_warns(s, ls, ns, base) + merge_warns(
            merge_all_schema(s, ls),
            x,
            x.name,
            ns,
            base,
        ),
    decreases ls.len(),
{
    if ls.len() == 0 {
        assert(ls.push(x)[0] == x);
        let e = ls.push(x).drop_first();
        assert(e.len() == 0);
        assert(merge_all_ok(s, ls));
        assert(merge_all_schema(s, ls) == s);
        assert(merge_all_warns(s, ls, ns, base) == Seq::<WarnV>::empty());
        assert(merge_all_ok(merge_schema(s, x), e));
        assert(merge_all_schema(merge_schema(s, x), e) == merge_schema(s, x));
        assert(merge_all_warns(merge_schema(s, x), e, ns, base) == Seq::<WarnV>::empty());
        assert(merge_all_warns(s, ls.push(x), ns, base) == merge_warns(s, x, x.name, ns, base)
            + Seq::<WarnV>::empty());
        assert(merge_all_warns(s, ls.push(x), ns, base) =~= merge_all_warns(s, ls, ns, base)
            + merge_warns(merge_all_schema(s, ls), x, x.name, ns, base));
    } else {
        assert(ls.push(x)[0] == ls[0]);
        assert(ls.push(x).drop_first() =~= ls.drop_first().push(x));
        lemma_merge_all_snoc(merge_schema(s, ls[0]), ls.drop_first(), x, ns, base);
        let a = merge_warns(s, ls[0], ls[0].name, ns, base);
        let b = merge_all_warns(merge_schema(s, ls[0]), ls.drop_first(), ns, base);
        let c = merge_warns(merge_all_schema(s, ls), x, x.name, ns, base);
        assert(a + (b + c) =~= (a + b) + c);
    }
}

/// A mismatch at any position makes the whole fold fail.
pub proof fn lemma_merge_all_not_ok(s: SchemaV, ls: Seq<LocaleV>, i: int)
    requires
        0 <= i < ls.len(),
        merge_all_ok(s, ls.take(i)),
        !merge_ok(merge_all_schema(s, ls.take(i)), ls[i]),
    ensures
        !merge_all_ok(s, ls),
    decreases i,
{
    if i == 0 {
        assert(ls.take(0) =~= Seq::<LocaleV>::empty());
    } else {
        assert(ls.take(i)[0] == ls[0]);
        assert(ls.take(i).drop_first() =~= ls.drop_first().take(i - 1));
        assert(ls.drop_first()[i - 1] == ls[i]);
        lemma_merge_all_not_ok(merge_schema(s, ls[0]), ls.drop_first(), i - 1);
    }
}

/// Prefixes compose.
pub proof fn lemma_prefix_trans<A>(a: Seq<A>, b: Seq<A>, c: Seq<A>)
    requires
        a.is_prefix_of(b),
        b.is_prefix_of(c),
    ensures
        a.is_prefix_of(c),
{
    assert(a =~= c.take(a.len() as int)) by {
        assert forall|i: int| 0 <= i < a.len() implies a[i] == c.take(a.len() as int)[i] by {
            assert(a[i] == b.take(a.len() as int)[i]);
            assert(b[i] == c.take(b.len() as int)[i]);
        }
    }
}

/// What a lookup finds in a list of well-formed values is well formed.
pub proof fn lemma_lookup_wf(entries: Seq<(Seq<char>, ValueV)>, k: Seq<char>)
    requires
        forall|i: int| 0 <= i < entries.len() ==> crate::tree::value_wf((#[trigger] entries[i]).1),
    ensures
        match lookup_v(entries, k) {
            Some(v) => crate::tree::value_wf(v),
            None => true,
        },
    decreases entries.len(),
{
    if entries.len() > 0 && entries[0].0 != k {
        assert forall|i: int| 0 <= i < entries.drop_first().len() implies crate::tree::value_wf(
            (#[trigger] entries.drop_first()[i]).1,
        ) by {
            assert(entries.drop_first()[i] == entries[i + 1]);
        }
        lemma_lookup_wf(entries.drop_first(), k);
    }
}

/// Whether a schema declares a key.
fn schema_has_key(keys: &BuildersKeysInner, key: &Key) -> (b: bool)
    ensures
        b == (lookup_s(keys@.entries, key@) is Some),
{
    let mut i: usize = 0;
    while i < keys.0.len()
        invariant
            i <= keys.0.len(),
            forall|j: int| 0 <= j < i ==> (#[trigger] keys@.entries[j]).0 != key@,
        decreases keys.0.len() - i,
    {
        let e = &keys.0[i];
        proof {
            assert(keys@.entries[i as int] == (e.0@, locale_value_view(e.1)));
        }
        if e.0 == *key {
            proof {
                lemma_lookup_s(keys@.entries, key@);
            }
            return true;
        }
        i += 1;
    }
    proof {
        lemma_lookup_s(keys@.entries, key@);
    }
    false
}

impl LocaleValue {
    /// A deep copy of this classification, equal in model.
    pub fn duplicate(&self) -> (r: LocaleValue)
        ensures
            r@ == self@,
        decreases *self,
    {
        match self {
            LocaleValue::Value(o) => {
                let ik = match o {
                    Some(v) => Some(crate::key::duplicate_key_vec(v)),
                    None => None,
                };
                LocaleValue::Value(ik)
            },
            LocaleValue::Subkeys { locales, keys } => {
                let mut ls: Vec<Locale> = Vec::new();
                let mut i: usize = 0;
                while i < locales.len()
                    invariant
                        i <= locales.len(),
                        locale_views(ls@) == locale_views(locales@).take(i as int),
                    decreases locales.len() - i,
                {
                    let ghost pre = ls@;
                    let d = locales[i].duplicate();
                    ls.push(d);
                    proof {
                        assert(locale_views(pre).len() == pre.len());
                        assert(ls@ == pre.push(d));
                        assert(locale_views(ls@) =~= locale_views(locales@).take(i + 1)) by {
                            assert forall|j: int| 0 <= j < ls@.len() implies locale_views(ls@)[j]
                                == locale_views(locales@).take(i + 1)[j] by {
                                if j < i {
                                    assert(ls@[j] == pre[j]);
                                    assert(locale_views(pre)[j] == locale_views(locales@).take(
                                        i as int,
                                    )[j]);
                                } else {
                                    assert(ls@[j] == d);
                                }
                            }
                        }
                    }
                    i += 1;
                }
                let inner = keys.duplicate();
                proof {
                    assert(locale_views(locales@).take(locales@.len() as int) =~= locale_views(
                        locales@,
                    ));
                }
                LocaleValue::Subkeys { locales: ls, keys: inner }
            },
        }
    }
}

impl BuildersKeysInner {
    /// A deep copy of this schema, equal in model.
    pub fn duplicate(&self) -> (r: BuildersKeysInner)
        ensures
            r@ == self@,
        decreases *self,
    {
        let mut out: Vec<(Key, LocaleValue)> = Vec::new();
        let mut i: usize = 0;
        while i < self.0.len()
            invariant
                i <= self.0.len(),
                schema_entry_views(out@) == schema_entry_views(self.0@).take(i as int),
            decreases self.0.len() - i,
        {
            let ghost pre = out@;
            let e = &self.0[i];
            let d = (e.0.duplicate(), e.1.duplicate());
            out.push(d);
            proof {
                assert(schema_entry_views(pre).len() == pre.len());
                assert(out@ == pre.push(d));
                assert(schema_entry_views(out@) =~= schema_entry_views(self.0@).take(i + 1)) by {
                    assert forall|j: int| 0 <= j < out@.len() implies schema_entry_views(out@)[j]
                        == schema_entry_views(self.0@).take(i + 1)[j] by {
                        if j < i {
                            assert(out@[j] == pre[j]);
                            assert(schema_entry_views(pre)[j] == schema_entry_views(
                                self.0@,
                            ).take(i as int)[j]);
                        } else {
                            assert(out@[j] == d);
                        }
                    }
                }
            }
            i += 1;
        }
        let r = BuildersKeysInner(out);
        proof {
            assert(schema_entry_views(self.0@).take(self.0@.len() as int) =~= schema_entry_views(
                self.0@,
            ));
            assert(r@ =~= self@);
        }
        r
    }
}

impl Locale {
    /// Reconciles this locale against the schema, producing the merged
    /// schema: the forward pass over the schema's keys, then the reverse
    /// pass over this locale's keys.
    fn merge_make(
        &self,
        keys: &BuildersKeysInner,
        top_locale: &Key,
        key_path: &mut KeyPath,
        warnings: &mut Vec<Warning>,
    ) -> (res: (BuildersKeysInner, Option<Error>))
        requires
            locale_wf(self@),
            swf(keys@),
        ensures
            final(key_path)@ == old(key_path)@,
            (res.1 is None) == merge_ok(keys@, self@),
            res.1 is None ==> res.0@ == merge_schema(keys@, self@) && warn_views(
                final(warnings)@,
            ) == warn_views(old(warnings)@) + merge_warns(
                keys@,
                self@,
                top_locale@,
                old(key_path)@.namespace,
                old(key_path)@.path,
            ),
            res.1 matches Some(e) ==> skel(res.0@) == skel(keys@) && warn_views(
                old(warnings)@,
            ).is_prefix_of(warn_views(final(warnings)@)) && (e@ matches ErrorV::ShapeMismatch {
                key_path: kp,
                expected_subtree: es,
                found_subtree: fs,
            } && kp.namespace == old(key_path)@.namespace && old(key_path)@.path.is_prefix_of(
                kp.path,
            ) && mismatch_at(
                keys@,
                self@,
                kp.path.skip(old(key_path)@.path.len() as int),
                es,
            ) && fs == !es),
        decreases *keys,
    {
        let ghost s0 = keys@;
        let ghost top = top_locale@;
        let ghost ns = old(key_path)@.namespace;
        let ghost base = old(key_path)@.path;
        let ghost w0 = warn_views(old(warnings)@);
        let mut out: Vec<(Key, LocaleValue)> = Vec::new();
        let mut err: Option<Error> = None;
        let mut i: usize = 0;
        while i < keys.0.len()
            invariant
                i <= keys.0.len(),
                locale_wf(self@),
                swf(keys@),
                s0 == keys@,
                top == top_locale@,
                ns == old(key_path)@.namespace,
                base == old(key_path)@.path,
                w0 == warn_views(old(warnings)@),
                key_path@.namespace == ns,
                key_path@.path == base,
                schema_entry_views(out@).len() == i,
                err is None ==> schema_entry_views(out@) == merge_schema(s0, self@).entries.take(
                    i as int,
                ) && warn_views(warnings@) == w0 + fwd_warns(
                    s0.entries.take(i as int),
                    self@,
                    top,
                    ns,
                    base,
                ) && merge_ok(SchemaV { entries: s0.entries.take(i as int) }, self@),
                err matches Some(e) ==> (forall|j: int|
                    0 <= j < i ==> (#[trigger] schema_entry_views(out@)[j]).0 == s0.entries[j].0
                        && skel_lv(schema_entry_views(out@)[j].1) == skel_lv(s0.entries[j].1))
                    && w0.is_prefix_of(warn_views(warnings@)) && !merge_ok(s0, self@) && (
                e@ matches ErrorV::ShapeMismatch {
                    key_path: kp,
                    expected_subtree: es,
                    found_subtree: fs,
                } && kp.namespace == ns && base.is_prefix_of(kp.path) && mismatch_at(
                    s0,
                    self@,
                    kp.path.skip(base.len() as int),
                    es,
                ) && fs == !es),
            decreases keys.0.len() - i,
        {
            let ghost pre = out@;
            let ghost wpre = warnings@;
            let e = &keys.0[i];
            proof {
                assert(s0.entries[i as int] == (e.0@, locale_value_view(e.1)));
            }
            if err.is_some() {
                let d = (e.0.duplicate(), e.1.duplicate());
                out.push(d);
                proof {
                    assert(out@ == pre.push(d));
                    assert(schema_entry_views(pre).len() == pre.len());
                    assert forall|j: int| 0 <= j < i + 1 implies (#[trigger] schema_entry_views(
                        out@,
                    )[j]).0 == s0.entries[j].0 && skel_lv(schema_entry_views(out@)[j].1)
                        == skel_lv(s0.entries[j].1) by {
                        if j < i {
                            assert(out@[j] == pre[j]);
                            assert(schema_entry_views(out@)[j] == schema_entry_views(pre)[j]);
                        } else {
                            assert(out@[j] == d);
                            assert(schema_entry_views(out@)[j] == (d.0@, locale_value_view(d.1)));
                        }
                    }
                }
            } else {
                proof {
                    lemma_lookup_s(s0.entries, e.0@);
                    assert(lookup_s(s0.entries, e.0@) == Some(s0.entries[i as int].1));
                    lemma_lookup_wf(self@.entries, e.0@);
                }
                key_path.push_key(e.0.duplicate());
                proof {
                    assert(key_path@.path == base.push(e.0@));
                    assert(key_path@.path.skip(base.len() as int) =~= seq![e.0@]);
                    assert(key_path@.path.take(base.len() as int) =~= base);
                    assert(base.is_prefix_of(key_path@.path));
                }
                match self.get_value(&e.0) {
                    None => {
                        let w = Warning::MissingKey {
                            locale: top_locale.duplicate(),
                            key_path: key_path.duplicate(),
                        };
                        proof {
                            assert(w@ =~= WarnV::Missing {
                                locale: top,
                                key_path: KeyPathV { namespace: ns, path: base.push(e.0@) },
                            });
                        }
                        warnings.push(w);
                        let d = (e.0.duplicate(), e.1.duplicate());
                        out.push(d);
                        proof {
                            assert(warn_views(warnings@) =~= warn_views(wpre).push(w@));
                        }
                    },
                    Some(v) => {
                        match v {
                            ParsedValue::Inherit => {
                                let d = (e.0.duplicate(), e.1.duplicate());
                                out.push(d);
                            },
                            ParsedValue::Value { .. } => {
                                match &e.1 {
                                    LocaleValue::Value(_) => {
                                        let d = (e.0.duplicate(), e.1.duplicate());
                                        out.push(d);
                                    },
                                    LocaleValue::Subkeys { .. } => {
                                        err = Some(
                                            Error::ShapeMismatch {
                                                key_path: key_path.duplicate(),
                                                expected: Shape::Subtree,
                                                found: Shape::Leaf,
                                            },
                                        );
                                        let d = (e.0.duplicate(), e.1.duplicate());
                                        out.push(d);
                                        proof {
                                            assert(mismatch_at(s0, self@, seq![e.0@], true));
                                            assert(!merge_ok(s0, self@)) by {
                                                assert(!value_merge_ok(
                                                    s0.entries[i as int].1,
                                                    value_view(*v),
                                                ));
                                            }
                                        }
                                    },
                                }
                            },
                            ParsedValue::Subkeys(sub) => {
                                match &e.1 {
                                    LocaleValue::Value(_) => {
                                        err = Some(
                                            Error::ShapeMismatch {
                                                key_path: key_path.duplicate(),
                                                expected: Shape::Leaf,
                                                found: Shape::Subtree,
                                            },
                                        );
                                        let d = (e.0.duplicate(), e.1.duplicate());
                                        out.push(d);
                                        proof {
                                            assert(mismatch_at(s0, self@, seq![e.0@], false));
                                            assert(!merge_ok(s0, self@)) by {
                                                assert(!value_merge_ok(
                                                    s0.entries[i as int].1,
                                                    value_view(*v),
                                                ));
                                            }
                                        }
                                    },
                                    LocaleValue::Subkeys { locales, keys: inner } => {
                                        let ghost kpre = key_path@;
                                        let (inner2, e2) = sub.merge_make(
                                            inner,
                                            top_locale,
                                            key_path,
                                            warnings,
                                        );
                                        let mut ls = duplicate_locale_vec(locales);
                                        match e2 {
                                            None => {
                                                ls.push(sub.duplicate());
                                                let d = (
                                                    e.0.duplicate(),
                                                    LocaleValue::Subkeys {
                                                        locales: ls,
                                                        keys: inner2,
                                                    },
                                                );
                                                out.push(d);
                                                proof {
                                                    assert(locale_views(d.1->Subkeys_locales@)
                                                        =~= locale_views(locales@).push(sub@));
                                                    assert(locale_value_view(d.1) =~= merged_value(
                                                        s0.entries[i as int].1,
                                                        Some(value_view(*v)),
                                                    ));
                                                }
                                            },
                                            Some(er) => {
                                                let d = (
                                                    e.0.duplicate(),
                                                    LocaleValue::Subkeys {
                                                        locales: ls,
                                                        keys: inner2,
                                                    },
                                                );
                                                out.push(d);
                                                proof {
                                                    assert(skel_lv(locale_value_view(d.1))
                                                        =~= skel_lv(s0.entries[i as int].1));
                                                    let kp = er@->ShapeMismatch_key_path;
                                                    let rel = kp.path.skip(base.len() as int);
                                                    assert(kpre.path == base.push(e.0@));
                                                    assert(kpre.path.is_prefix_of(kp.path));
                                                    assert(rel[0] == e.0@) by {
                                                        assert(kp.path[base.len() as int]
                                                            == kpre.path[base.len() as int]);
                                                    }
                                                    assert(rel.drop_first() =~= kp.path.skip(
                                                        base.len() as int + 1,
                                                    ));
                                                    assert(mismatch_at(
                                                        s0,
                                                        self@,
                                                        rel,
                                                        er@->ShapeMismatch_expected_subtree,
                                                    ));
                                                    assert(base.is_prefix_of(kp.path)) by {
                                                        assert(base.is_prefix_of(kpre.path));
                                                        lemma_prefix_trans(
                                                            base,
                                                            kpre.path,
                                                            kp.path,
                                                        );
                                                    }
                                                    assert(!merge_ok(s0, self@)) by {
                                                        assert(!value_merge_ok(
                                                            s0.entries[i as int].1,
                                                            value_view(*v),
                                                        ));
                                                    }
                                                    assert(w0.is_prefix_of(warn_views(warnings@)))
                                                        by {
                                                        assert(w0.is_prefix_of(warn_views(wpre)))
                                                            by {
                                                            assert(w0 =~= warn_views(wpre).take(
                                                                w0.len() as int,
                                                            ));
                                                        }
                                                        lemma_prefix_trans(
                                                            w0,
                                                            warn_views(wpre),
                                                            warn_views(warnings@),
                                                        );
                                                    }
                                                }
                                                err = Some(er);
                                            },
                                        }
                                    },
                                }
                            },
                        }
                    },
                }
                key_path.pop_key();
                proof {
                    assert(key_path@.path =~= base);
                }
                proof {
                    if err is Some {
                        lemma_merge_schema_props(s0, self@);
                        assert forall|j: int| 0 <= j < i + 1 implies (
                        #[trigger] schema_entry_views(out@)[j]).0 == s0.entries[j].0 && skel_lv(
                            schema_entry_views(out@)[j].1,
                        ) == skel_lv(s0.entries[j].1) by {
                            if j < i {
                                assert(out@[j] == pre[j]);
                                assert(schema_entry_views(out@)[j] == schema_entry_views(pre)[j]);
                                assert(schema_entry_views(pre)[j] == merge_schema(
                                    s0,
                                    self@,
                                ).entries.take(i as int)[j]);
                                assert(skel(merge_schema(s0, self@)).entries[j] == skel(
                                    s0,
                                ).entries[j]);
                            } else {
                                assert(schema_entry_views(out@)[j] == (out@[j].0@,
                                locale_value_view(out@[j].1)));
                            }
                        }
                    } else {
                        lemma_fwd_warns_snoc(s0.entries, self@, top, ns, base, i as int);
                        assert(schema_entry_views(out@) =~= merge_schema(s0, self@).entries.take(
                            i + 1,
                        )) by {
                            assert(out@ == pre.push(out@[i as int]));
                            assert forall|j: int| 0 <= j < i + 1 implies schema_entry_views(
                                out@,
                            )[j] == merge_schema(s0, self@).entries.take(i + 1)[j] by {
                                if j < i {
                                    assert(out@[j] == pre[j]);
                                    assert(schema_entry_views(out@)[j] == schema_entry_views(
                                        pre,
                                    )[j]);
                                } else {
                                    assert(schema_entry_views(out@)[j] == (out@[j].0@,
                                    locale_value_view(out@[j].1)));
                                    assert(merge_schema(s0, self@).entries[j] == (
                                    s0.entries[j].0, merged_value(
                                        s0.entries[j].1,
                                        lookup_v(self@.entries, s0.entries[j].0),
                                    )));
                                }
                            }
                        }
                        assert(warn_views(warnings@) =~= w0 + fwd_warns(
                            s0.entries.take(i + 1),
                            self@,
                            top,
                            ns,
                            base,
                        ));
                        assert(merge_ok(SchemaV { entries: s0.entries.take(i + 1) }, self@)) by {
                            let p = SchemaV { entries: s0.entries.take(i + 1) };
                            assert forall|j: int| 0 <= j < p.entries.len() implies match lookup_v(
                                self@.entries,
                                (#[trigger] p.entries[j]).0,
                            ) {
                                Some(v2) => value_merge_ok(p.entries[j].1, v2),
                                None => true,
                            } by {
                                assert(p.entries[j] == s0.entries[j]);
                                if j < i {
                                    let q = SchemaV { entries: s0.entries.take(i as int) };
                                    assert(q.entries[j] == s0.entries[j]);
                                }
                            }
                        }
                    }
                }
            }
            i += 1;
        }
        if err.is_some() {
            let r = BuildersKeysInner(out);
            proof {
                assert(skel(r@) =~= skel(s0)) by {
                    assert(skel(r@).entries.len() == skel(s0).entries.len());
                    assert forall|j: int| 0 <= j < s0.entries.len() implies skel(r@).entries[j]
                        == skel(s0).entries[j] by {
                        assert(skel(r@).entries[j] == (r@.entries[j].0, skel_lv(r@.entries[j].1)));
                        assert(skel(s0).entries[j] == (s0.entries[j].0, skel_lv(
                            s0.entries[j].1,
                        )));
                    }
                    assert(skel(r@).entries =~= skel(s0).entries);
                }
            }
            return (r, err);
        }
        proof {
            assert(s0.entries.take(keys.0.len() as int) =~= s0.entries);
            assert(SchemaV { entries: s0.entries.take(keys.0.len() as int) } =~= s0);
            assert(merge_schema(s0, self@).entries.take(keys.0.len() as int) =~= merge_schema(
                s0,
                self@,
            ).entries);
        }
        let ghost wmid = warnings@;
        let mut j: usize = 0;
        while j < self.keys.len()
            invariant
                j <= self.keys.len(),
                locale_wf(self@),
                swf(keys@),
                s0 == keys@,
                top == top_locale@,
                ns == old(key_path)@.namespace,
                base == old(key_path)@.path,
                key_path@.namespace == ns,
                key_path@.path == base,
                schema_entry_views(out@) == merge_schema(s0, self@).entries,
                warn_views(warnings@) == warn_views(wmid) + surplus_warns(
                    self@.entries.take(j as int),
                    s0.entries,
                    top,
                    ns,
                    base,
                ),
            decreases self.keys.len() - j,
        {
            let ghost wpre = warnings@;
            let e = &self.keys[j];
            proof {
                assert(self@.entries[j as int] == (e.0@, value_view(e.1)));
                lemma_surplus_warns_snoc(self@.entries, s0.entries, top, ns, base, j as int);
            }
            if !schema_has_key(keys, &e.0) {
                key_path.push_key(e.0.duplicate());
                let w = Warning::SurplusKey {
                    locale: top_locale.duplicate(),
                    key_path: key_path.duplicate(),
                };
                proof {
                    assert(w@ =~= WarnV::Surplus {
                        locale: top,
                        key_path: KeyPathV { namespace: ns, path: base.push(e.0@) },
                    });
                }
                warnings.push(w);
                key_path.pop_key();
                proof {
                    assert(key_path@.path =~= base);
                    assert(warn_views(warnings@) =~= warn_views(wpre).push(w@));
                    assert(warn_views(warnings@) =~= warn_views(wmid) + surplus_warns(
                        self@.entries.take(j + 1),
                        s0.entries,
                        top,
                        ns,
                        base,
                    ));
                }
            } else {
                proof {
                    assert(warn_views(warnings@) =~= warn_views(wmid) + surplus_warns(
                        self@.entries.take(j + 1),
                        s0.entries,
                        top,
                        ns,
                        base,
                    ));
                }
            }
            j += 1;
        }
        let r = BuildersKeysInner(out);
        proof {
            assert(self@.entries.take(self.keys@.len() as int) =~= self@.entries);
            lemma_fwd_warns_all(s0.entries, self@, top, ns, base);
            assert(warn_views(warnings@) =~= w0 + merge_warns(s0, self@, top, ns, base)) by {
                assert(warn_views(wmid) == w0 + fwd_warns(s0.entries, self@, top, ns, base));
                assert((w0 + fwd_warns(s0.entries, self@, top, ns, base)) + surplus_warns(
                    self@.entries,
                    s0.entries,
                    top,
                    ns,
                    base,
                ) =~= w0 + (fwd_warns(s0.entries, self@, top, ns, base) + surplus_warns(
                    self@.entries,
                    s0.entries,
                    top,
                    ns,
                    base,
                )));
            }
            assert(r@ =~= merge_schema(s0, self@));
        }
        (r, None)
    }

    /// Reconciles this (non-default) locale against the schema: the forward
    /// pass emits one `MissingKey` warning per schema key this locale
    /// lacks, recurses below matching subtrees, and aborts with a
    /// `ShapeMismatch` where the shapes diverge; the reverse pass emits one
    /// `SurplusKey` warning per key the schema never declared.  The
    /// schema's skeleton is never changed: only its per-locale subtree
    /// lists grow.
    pub fn merge(
        &self,
        keys: &mut BuildersKeysInner,
        default_locale: &Key,
        top_locale: &Key,
        key_path: &mut KeyPath,
        warnings: &mut Vec<Warning>,
    ) -> (r: Result<(), Error>)
        requires
            locale_wf(self@),
            swf(old(keys)@),
        ensures
            final(key_path)@ == old(key_path)@,
            (r is Ok) == merge_ok(old(keys)@, self@),
            swf(final(keys)@),
            skel(final(keys)@) == skel(old(keys)@),
            r is Ok ==> final(keys)@ == merge_schema(old(keys)@, self@) && warn_views(
                final(warnings)@,
            ) == warn_views(old(warnings)@) + merge_warns(
                old(keys)@,
                self@,
                top_locale@,
                old(key_path)@.namespace,
                old(key_path)@.path,
            ),
            r matches Err(e) ==> warn_views(old(warnings)@).is_prefix_of(
                warn_views(final(warnings)@),
            ) && (e@ matches ErrorV::ShapeMismatch {
                key_path: kp,
                expected_subtree: es,
                found_subtree: fs,
            } && kp.namespace == old(key_path)@.namespace && old(key_path)@.path.is_prefix_of(
                kp.path,
            ) && mismatch_at(
                old(keys)@,
                self@,
                kp.path.skip(old(key_path)@.path.len() as int),
                es,
            ) && fs == !es),
    {
        let (nk, e) = self.merge_make(keys, top_locale, key_path, warnings);
        proof {
            lemma_merge_schema_props(old(keys)@, self@);
            if e is Some {
                lemma_skel_swf(nk@, old(keys)@);
            }
        }
        *keys = nk;
        match e {
            None => Ok(()),
            Some(er) => Err(er),
        }
    }
}

/// Copies a list of locale trees, tree by tree.
fn duplicate_locale_vec(v: &Vec<Locale>) -> (r: Vec<Locale>)
    ensures
        locale_views(r@) == locale_views(v@),
{
    let mut r: Vec<Locale> = Vec::new();
    let mut i: usize = 0;
    while i < v.len()
        invariant
            i <= v.len(),
            locale_views(r@) == locale_views(v@).take(i as int),
        decreases v.len() - i,
    {
        let ghost pre = r@;
        let d = v[i].duplicate();
        r.push(d);
        proof {
            assert(locale_views(pre).len() == pre.len());
            assert(r@ == pre.push(d));
            assert(locale_views(r@) =~= locale_views(v@).take(i + 1)) by {
                assert forall|j: int| 0 <= j < r@.len() implies locale_views(r@)[j] == locale_views(
                    v@,
                ).take(i + 1)[j] by {
                    if j < i {
                        assert(r@[j] == pre[j]);
                        assert(locale_views(pre)[j] == locale_views(v@).take(i as int)[j]);
                    } else {
                        assert(r@[j] == d);
                    }
                }
            }
        }
        i += 1;
    }
    proof {
        assert(locale_views(v@).take(v@.len() as int) =~= locale_views(v@));
    }
    r
}

} // verus!
