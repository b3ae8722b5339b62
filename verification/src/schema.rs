//! The validated schema derived from the default locale.
//!
//! A [`BuildersKeysInner`] maps each key of the default locale to a
//! [`LocaleValue`]: either a leaf (with the interpolation keys it requires)
//! or a subtree carrying its own nested schema together with the per-locale
//! subtree list collected for deeper diagnostics.  The shape of the schema
//! is determined solely by the default locale; merging other locales never
//! adds a key, a shape, or an interpolation requirement to it.

use crate::key::{duplicate_key_vec, Key};
use crate::tree::{
    entry_views, locale_view, reduce_locale, value_view, Locale, LocaleV, ParsedValue, ValueV,
};
use vstd::prelude::*;

verus! {

broadcast use vstd::std_specs::vec::group_vec_axioms;

/// The model of one schema entry's classification.
#[verifier::ext_equal]
pub enum LocaleValueV {
    /// A leaf, with the interpolation keys it requires (if any).
    Value(Option<Seq<Seq<char>>>),
    /// A subtree: the per-locale subtree list and the nested schema.
    Subkeys { locales: Seq<LocaleV>, keys: SchemaV },
}

/// The model of a schema.
#[verifier::ext_equal]
pub struct SchemaV {
    /// The entries, in default-locale order.
    pub entries: Seq<(Seq<char>, LocaleValueV)>,
}

/// The classified shape of one schema entry.
pub enum LocaleValue {
    /// A leaf value, with the set of interpolation keys it requires.
    Value(Option<Vec<Key>>),
    /// A subtree: the locales' subtrees collected so far and the nested
    /// schema built from the default locale's subtree.
    Subkeys { locales: Vec<Locale>, keys: BuildersKeysInner },
}

/// The validated mapping from key to classified shape for one scope.
pub struct BuildersKeysInner(pub Vec<(Key, LocaleValue)>);

/// The models of a list of locale trees, in order.
pub open spec fn locale_views(s: Seq<Locale>) -> Seq<LocaleV> {
    s.map_values(|l: Locale| locale_view(l))
}

/// The model of one schema entry's classification.
pub open spec fn locale_value_view(lv: LocaleValue) -> LocaleValueV
    decreases lv,
{
    match lv {
        LocaleValue::Value(o) => LocaleValueV::Value(crate::tree::opt_key_views(o)),
        LocaleValue::Subkeys { locales, keys } => LocaleValueV::Subkeys {
            locales: locale_views(locales@),
            keys: SchemaV { entries: schema_entry_views(keys.0@) },
        },
    }
}

/// The models of a schema's entry list, in order.
pub open spec fn schema_entry_views(s: Seq<(Key, LocaleValue)>) -> Seq<(Seq<char>, LocaleValueV)>
    decreases s,
{
    Seq::new(
        s.len(),
        |i: int|
            if 0 <= i < s.len() {
                (s[i].0@, locale_value_view(s[i].1))
            } else {
                arbitrary()
            },
    )
}

impl View for LocaleValue {
    type V = LocaleValueV;

    open spec fn view(&self) -> LocaleValueV {
        locale_value_view(*self)
    }
}

impl View for BuildersKeysInner {
    type V = SchemaV;

    open spec fn view(&self) -> SchemaV {
        SchemaV { entries: schema_entry_views(self.0@) }
    }
}

/// First-match lookup in a schema's entry list.
pub open spec fn lookup_s(entries: Seq<(Seq<char>, LocaleValueV)>, k: Seq<char>) -> Option<
    LocaleValueV,
>
    decreases entries.len(),
{
    if entries.len() == 0 {
        None
    } else if entries[0].0 == k {
        Some(entries[0].1)
    } else {
        lookup_s(entries.drop_first(), k)
    }
}

/// No two schema entries share a key.
pub open spec fn unique_s(entries: Seq<(Seq<char>, LocaleValueV)>) -> bool {
    forall|i: int, j: int|
        0 <= i < j < entries.len() ==> entries[i].0 != entries[j].0
}

/// Looking a key up in a schema either finds an entry with that key or no
/// entry has it; under unique keys the entry found is the one at the key's
/// index.
pub proof fn lemma_lookup_s(entries: Seq<(Seq<char>, LocaleValueV)>, k: Seq<char>)
    ensures
        (lookup_s(entries, k) is Some) <==> (exists|i: int|
            0 <= i < entries.len() && entries[i].0 == k),
        forall|i: int|
            0 <= i < entries.len() && entries[i].0 == k && unique_s(entries)
                ==> lookup_s(entries, k) == Some(entries[i].1),
    decreases entries.len(),
{
    if entries.len() > 0 && entries[0].0 != k {
        lemma_lookup_s(entries.drop_first(), k);
        assert forall|i: int|
            0 <= i < entries.len() && entries[i].0 == k && unique_s(entries)
            implies lookup_s(entries, k) == Some(entries[i].1) by {
            assert(i > 0);
            assert(entries.drop_first()[i - 1] == entries[i]);
            assert(unique_s(entries.drop_first())) by {
                assert forall|a: int, b: int|
                    0 <= a < b < entries.drop_first().len()
                    implies entries.drop_first()[a].0 != entries.drop_first()[b].0 by {
                    assert(entries.drop_first()[a] == entries[a + 1]);
                    assert(entries.drop_first()[b] == entries[b + 1]);
                }
            }
        }
        if lookup_s(entries, k) is Some {
            let i = choose|i: int|
                0 <= i < entries.drop_first().len() && entries.drop_first()[i].0 == k;
            assert(entries[i + 1].0 == k);
        }
        if exists|i: int| 0 <= i < entries.len() && entries[i].0 == k {
            let i = choose|i: int| 0 <= i < entries.len() && entries[i].0 == k;
            assert(entries.drop_first()[i - 1].0 == k);
        }
    }
}

/// The classification of one (already canonicalized) value.
pub open spec fn classify_value(v: ValueV) -> LocaleValueV
    decreases v,
{
    match v {
        ValueV::Inherit => LocaleValueV::Value(None),
        ValueV::Value { text, interpolate_keys } => LocaleValueV::Value(interpolate_keys),
        ValueV::Subkeys(l) => LocaleValueV::Subkeys { locales: seq![l], keys: build_schema(l) },
    }
}

/// The schema built from an (already canonicalized) default-locale tree:
/// entry for entry, the default locale's classification.
pub open spec fn build_schema(l: LocaleV) -> SchemaV
    decreases l,
{
    SchemaV {
        entries: Seq::new(
            l.entries.len(),
            |i: int|
                if 0 <= i < l.entries.len() {
                    (l.entries[i].0, classify_value(l.entries[i].1))
                } else {
                    arbitrary()
                },
        ),
    }
}

impl Locale {
    /// The schema of this (already canonicalized) tree.
    pub fn build_keys(&self) -> (r: BuildersKeysInner)
        ensures
            r@ == build_schema(self@),
        decreases *self,
    {
        let mut out: Vec<(Key, LocaleValue)> = Vec::new();
        let mut i: usize = 0;
        while i < self.keys.len()
            invariant
                i <= self.keys.len(),
                schema_entry_views(out@) == build_schema(self@).entries.take(i as int),
            decreases self.keys.len() - i,
        {
            let ghost pre = out@;
            let e = &self.keys[i];
            let lv = match &e.1 {
                ParsedValue::Inherit => LocaleValue::Value(None),
                ParsedValue::Value { interpolate_keys, .. } => {
                    let ik = match interpolate_keys {
                        Some(v) => Some(duplicate_key_vec(v)),
                        None => None,
                    };
                    LocaleValue::Value(ik)
                },
                ParsedValue::Subkeys(sub) => {
                    let mut ls: Vec<Locale> = Vec::new();
                    ls.push(sub.duplicate());
                    let inner = sub.build_keys();
                    proof {
                        assert(locale_views(ls@) =~= seq![sub@]);
                    }
                    LocaleValue::Subkeys { locales: ls, keys: inner }
                },
            };
            let d = (e.0.duplicate(), lv);
            out.push(d);
            proof {
                let target = build_schema(self@).entries;
                assert(entry_views(self.keys@)[i as int] == (self.keys@[i as int].0@, value_view(
                    self.keys@[i as int].1,
                )));
                assert(schema_entry_views(pre).len() == pre.len());
                assert(out@ == pre.push(d));
                assert(schema_entry_views(out@) =~= target.take(i + 1)) by {
                    assert forall|j: int| 0 <= j < out@.len() implies schema_entry_views(out@)[j]
                        == target.take(i + 1)[j] by {
                        if j < i {
                            assert(out@[j] == pre[j]);
                            assert(schema_entry_views(pre)[j] == target.take(i as int)[j]);
                        } else {
                            assert(out@[j] == d);
                            assert(locale_value_view(d.1) =~= classify_value(value_view(
                                self.keys@[j].1,
                            )));
                        }
                    }
                }
            }
            i += 1;
        }
        let r = BuildersKeysInner(out);
        proof {
            assert(build_schema(self@).entries.take(build_schema(self@).entries.len() as int)
                =~= build_schema(self@).entries);
            assert(r@ =~= build_schema(self@));
        }
        r
    }

    /// Canonicalizes this tree in place and builds its schema: every entry
    /// of the default locale becomes one classified schema entry.
    pub fn make_builder_keys(&mut self) -> (r: BuildersKeysInner)
        ensures
            final(self)@ == reduce_locale(old(self)@),
            r@ == build_schema(reduce_locale(old(self)@)),
    {
        self.reduce();
        self.build_keys()
    }
}

} // verus!
