//! Locale trees and their mathematical model.
//!
//! A [`Locale`] is one locale's parsed translation tree: an association list
//! from [`Key`] to [`ParsedValue`].  A value is either a leaf (literal text
//! with the interpolation keys it requires), a nested subtree, or the
//! explicit inherit-from-default marker.  The model of a tree is a ghost
//! [`LocaleV`] over character sequences, and every contract in the crate is
//! stated over these models.

use crate::key::{duplicate_key_vec, key_views, Key, KeyPath};
use vstd::prelude::*;
use vstd::slice::slice_index_get;

verus! {

broadcast use vstd::std_specs::vec::group_vec_axioms;

/// The model of one parsed value.
#[verifier::ext_equal]
pub enum ValueV {
    /// The explicit inherit-from-default marker.
    Inherit,
    /// A leaf: literal text and the interpolation keys it requires.
    Value { text: Seq<char>, interpolate_keys: Option<Seq<Seq<char>>> },
    /// A nested subtree.
    Subkeys(LocaleV),
}

/// The model of one locale tree.
#[verifier::ext_equal]
pub struct LocaleV {
    /// Identity of the top-level locale this tree belongs to.
    pub top: Seq<char>,
    /// Name of this tree (equals `top` for top-level trees).
    pub name: Seq<char>,
    /// The entries, in source order.
    pub entries: Seq<(Seq<char>, ValueV)>,
}

/// One parsed translation entry.
pub enum ParsedValue {
    /// The explicit "inherit from the default locale" marker.
    Inherit,
    /// A leaf value: literal text plus the interpolation keys it requires.
    Value { text: String, interpolate_keys: Option<Vec<Key>> },
    /// A nested subtree of keys.
    Subkeys(Locale),
}

/// One locale's (or one subtree's) mapping from key to value, tagged with
/// the owning locale's identity.
pub struct Locale {
    /// The top-level locale identity, propagated unchanged into subtrees.
    pub top_locale_name: Key,
    /// This tree's own name: the locale name at top level, the subtree's
    /// key below.
    pub name: Key,
    /// The entries, in source order.
    pub keys: Vec<(Key, ParsedValue)>,
}

/// The names of an optional interpolation-key list.
pub open spec fn opt_key_views(o: Option<Vec<Key>>) -> Option<Seq<Seq<char>>> {
    match o {
        Some(v) => Some(key_views(v@)),
        None => None,
    }
}

/// The model of a parsed value.
pub open spec fn value_view(v: ParsedValue) -> ValueV
    decreases v,
{
    match v {
        ParsedValue::Inherit => ValueV::Inherit,
        ParsedValue::Value { text, interpolate_keys } => ValueV::Value {
            text: text@,
            interpolate_keys: opt_key_views(interpolate_keys),
        },
        ParsedValue::Subkeys(l) => ValueV::Subkeys(locale_view(l)),
    }
}

/// The models of an entry list, in order.
pub open spec fn entry_views(s: Seq<(Key, ParsedValue)>) -> Seq<(Seq<char>, ValueV)>
    decreases s,
{
    Seq::new(
        s.len(),
        |i: int|
            if 0 <= i < s.len() {
                (s[i].0@, value_view(s[i].1))
            } else {
                arbitrary()
            },
    )
}

/// The model of a locale tree.
pub open spec fn locale_view(l: Locale) -> LocaleV
    decreases l,
{
    LocaleV { top: l.top_locale_name@, name: l.name@, entries: entry_views(l.keys@) }
}

impl View for ParsedValue {
    type V = ValueV;

    open spec fn view(&self) -> ValueV {
        value_view(*self)
    }
}

impl View for Locale {
    type V = LocaleV;

    open spec fn view(&self) -> LocaleV {
        locale_view(*self)
    }
}

/// First-match lookup in an entry list.
pub open spec fn lookup_v(entries: Seq<(Seq<char>, ValueV)>, k: Seq<char>) -> Option<ValueV>
    decreases entries.len(),
{
    if entries.len() == 0 {
        None
    } else if entries[0].0 == k {
        Some(entries[0].1)
    } else {
        lookup_v(entries.drop_first(), k)
    }
}

/// No two entries share a key.
pub open spec fn unique_keys(entries: Seq<(Seq<char>, ValueV)>) -> bool {
    forall|i: int, j: int|
        0 <= i < j < entries.len() ==> entries[i].0 != entries[j].0
}

/// Well-formedness of a value: every nested subtree is well formed.
pub open spec fn value_wf(v: ValueV) -> bool
    decreases v,
{
    match v {
        ValueV::Subkeys(l) => locale_wf(l),
        _ => true,
    }
}

/// Well-formedness of a tree: keys are unique at every level.
pub open spec fn locale_wf(l: LocaleV) -> bool
    decreases l,
{
    unique_keys(l.entries) && forall|i: int|
        0 <= i < l.entries.len() ==> value_wf(#[trigger] l.entries[i].1)
}

/// Whether a value holds an inherit-from-default marker at any depth.
pub open spec fn value_has_marker(v: ValueV) -> bool
    decreases v,
{
    match v {
        ValueV::Inherit => true,
        ValueV::Subkeys(l) => locale_has_marker(l),
        _ => false,
    }
}

/// Whether a tree holds an inherit-from-default marker at any depth.
pub open spec fn locale_has_marker(l: LocaleV) -> bool
    decreases l,
{
    exists|i: int| 0 <= i < l.entries.len() && value_has_marker(#[trigger] l.entries[i].1)
}

/// Whether following `path` from `l` reaches an inherit-from-default marker.
pub open spec fn marker_at(l: LocaleV, path: Seq<Seq<char>>) -> bool
    decreases path.len(),
{
    path.len() > 0 && match lookup_v(l.entries, path[0]) {
        Some(v) => if path.len() == 1 {
            v is Inherit
        } else {
            match v {
                ValueV::Subkeys(sub) => marker_at(sub, path.drop_first()),
                _ => false,
            }
        },
        None => false,
    }
}

/// Canonical form of an interpolation-key set: an empty set collapses to
/// "no interpolation".
pub open spec fn norm_ikeys(o: Option<Seq<Seq<char>>>) -> Option<Seq<Seq<char>>> {
    match o {
        Some(s) => if s.len() == 0 {
            None
        } else {
            Some(s)
        },
        None => None,
    }
}

/// Canonicalization of a value.
pub open spec fn reduce_value(v: ValueV) -> ValueV
    decreases v,
{
    match v {
        ValueV::Inherit => ValueV::Inherit,
        ValueV::Value { text, interpolate_keys } => ValueV::Value {
            text,
            interpolate_keys: norm_ikeys(interpolate_keys),
        },
        ValueV::Subkeys(l) => ValueV::Subkeys(reduce_locale(l)),
    }
}

/// Canonicalization of a tree, entry by entry.
pub open spec fn reduce_locale(l: LocaleV) -> LocaleV
    decreases l,
{
    LocaleV {
        top: l.top,
        name: l.name,
        entries: Seq::new(
            l.entries.len(),
            |i: int|
                if 0 <= i < l.entries.len() {
                    (l.entries[i].0, reduce_value(l.entries[i].1))
                } else {
                    arbitrary()
                },
        ),
    }
}

/// Following a path of keys down a tree.  The empty path denotes no entry;
/// the last segment may name a value of any shape; every earlier segment
/// must name a subtree.
pub open spec fn lookup_path(l: LocaleV, path: Seq<Seq<char>>) -> Option<ValueV>
    decreases path.len(),
{
    if path.len() == 0 {
        None
    } else {
        match lookup_v(l.entries, path[0]) {
            Some(v) => if path.len() == 1 {
                Some(v)
            } else {
                match v {
                    ValueV::Subkeys(sub) => lookup_path(sub, path.drop_first()),
                    _ => None,
                }
            },
            None => None,
        }
    }
}

/// Looking a key up either finds an entry with that key or no entry has it;
/// under unique keys the entry found is the one at the key's index.
pub proof fn lemma_lookup(entries: Seq<(Seq<char>, ValueV)>, k: Seq<char>)
    ensures
        (lookup_v(entries, k) is Some) <==> (exists|i: int|
            0 <= i < entries.len() && entries[i].0 == k),
        forall|i: int|
            0 <= i < entries.len() && entries[i].0 == k && unique_keys(entries)
                ==> lookup_v(entries, k) == Some(entries[i].1),
    decreases entries.len(),
{
    if entries.len() > 0 && entries[0].0 != k {
        lemma_lookup(entries.drop_first(), k);
        assert forall|i: int|
            0 <= i < entries.len() && entries[i].0 == k && unique_keys(entries)
            implies lookup_v(entries, k) == Some(entries[i].1) by {
            assert(i > 0);
            assert(entries.drop_first()[i - 1] == entries[i]);
            assert(unique_keys(entries.drop_first())) by {
                assert forall|a: int, b: int|
                    0 <= a < b < entries.drop_first().len()
                    implies entries.drop_first()[a].0 != entries.drop_first()[b].0 by {
                    assert(entries.drop_first()[a] == entries[a + 1]);
                    assert(entries.drop_first()[b] == entries[b + 1]);
                }
            }
        }
        if lookup_v(entries, k) is Some {
            let i = choose|i: int|
                0 <= i < entries.drop_first().len() && entries.drop_first()[i].0 == k;
            assert(entries[i + 1].0 == k);
        }
        if exists|i: int| 0 <= i < entries.len() && entries[i].0 == k {
            let i = choose|i: int| 0 <= i < entries.len() && entries[i].0 == k;
            assert(entries.drop_first()[i - 1].0 == k);
        }
    }
}

/// First-match lookup returns the first entry whose key matches.
pub proof fn lemma_lookup_first(entries: Seq<(Seq<char>, ValueV)>, k: Seq<char>, i: int)
    requires
        0 <= i < entries.len(),
        entries[i].0 == k,
        forall|j: int| 0 <= j < i ==> entries[j].0 != k,
    ensures
        lookup_v(entries, k) == Some(entries[i].1),
    decreases entries.len(),
{
    if i > 0 {
        assert(entries[0].0 != k);
        assert(entries.drop_first()[i - 1] == entries[i]);
        assert forall|j: int| 0 <= j < i - 1 implies entries.drop_first()[j].0 != k by {
            assert(entries.drop_first()[j] == entries[j + 1]);
        }
        lemma_lookup_first(entries.drop_first(), k, i - 1);
    }
}

/// Reduction keeps a tree's keys, shapes, well-formedness and marker
/// placement; it only canonicalizes leaf payloads.
pub proof fn lemma_reduce_locale(l: LocaleV)
    ensures
        reduce_locale(l).entries.len() == l.entries.len(),
        forall|i: int|
            0 <= i < l.entries.len() ==> (#[trigger] reduce_locale(l).entries[i]).0
                == l.entries[i].0,
        forall|i: int|
            0 <= i < l.entries.len() ==> ((#[trigger] reduce_locale(l).entries[i]).1 is Subkeys
                <==> l.entries[i].1 is Subkeys),
        locale_wf(l) ==> locale_wf(reduce_locale(l)),
        locale_has_marker(reduce_locale(l)) == locale_has_marker(l),
    decreases l,
{
    assert forall|i: int| 0 <= i < l.entries.len() implies {
        &&& (#[trigger] reduce_locale(l).entries[i]).0 == l.entries[i].0
        &&& (reduce_locale(l).entries[i].1 is Subkeys <==> l.entries[i].1 is Subkeys)
        &&& (value_wf(l.entries[i].1) ==> value_wf(reduce_locale(l).entries[i].1))
        &&& value_has_marker(reduce_locale(l).entries[i].1) == value_has_marker(l.entries[i].1)
    } by {
        match l.entries[i].1 {
            ValueV::Subkeys(sub) => {
                lemma_reduce_locale(sub);
            },
            _ => {},
        }
    }
    if locale_has_marker(l) {
        let i = choose|i: int|
            0 <= i < l.entries.len() && value_has_marker(#[trigger] l.entries[i].1);
        assert(value_has_marker(reduce_locale(l).entries[i].1));
    }
    if locale_has_marker(reduce_locale(l)) {
        let i = choose|i: int|
            0 <= i < reduce_locale(l).entries.len() && value_has_marker(
                #[trigger] reduce_locale(l).entries[i].1,
            );
        assert(value_has_marker(l.entries[i].1));
    }
}

impl ParsedValue {
    /// A deep copy of this value, equal in model.
    pub fn duplicate(&self) -> (r: ParsedValue)
        ensures
            r@ == self@,
        decreases *self,
    {
        match self {
            ParsedValue::Inherit => ParsedValue::Inherit,
            ParsedValue::Value { text, interpolate_keys } => {
                let ik = match interpolate_keys {
                    Some(v) => Some(duplicate_key_vec(v)),
                    None => None,
                };
                ParsedValue::Value { text: text.clone(), interpolate_keys: ik }
            },
            ParsedValue::Subkeys(l) => ParsedValue::Subkeys(l.duplicate()),
        }
    }

    /// The canonical form of this value: an empty interpolation-key set
    /// collapses to none, and subtrees are canonicalized recursively.
    pub fn reduced(&self) -> (r: ParsedValue)
        ensures
            r@ == reduce_value(self@),
        decreases *self,
    {
        match self {
            ParsedValue::Inherit => ParsedValue::Inherit,
            ParsedValue::Value { text, interpolate_keys } => {
                let ik = match interpolate_keys {
                    Some(v) => if v.len() == 0 {
                        None
                    } else {
                        Some(duplicate_key_vec(v))
                    },
                    None => None,
                };
                ParsedValue::Value { text: text.clone(), interpolate_keys: ik }
            },
            ParsedValue::Subkeys(l) => ParsedValue::Subkeys(l.reduced()),
        }
    }
}

impl Locale {
    /// Builds a top-level locale tree: its name is also its top-level
    /// identity.
    pub fn new(name: Key, keys: Vec<(Key, ParsedValue)>) -> (l: Locale)
        ensures
            l@.top == name@,
            l@.name == name@,
            l@.entries == entry_views(keys@),
    {
        let top = name.duplicate();
        Locale { top_locale_name: top, name, keys }
    }

    /// A deep copy of this tree, equal in model.
    pub fn duplicate(&self) -> (r: Locale)
        ensures
            r@ == self@,
        decreases *self,
    {
        let mut out: Vec<(Key, ParsedValue)> = Vec::new();
        let mut i: usize = 0;
        while i < self.keys.len()
            invariant
                i <= self.keys.len(),
                entry_views(out@) == entry_views(self.keys@).take(i as int),
            decreases self.keys.len() - i,
        {
            let ghost pre = out@;
            let e = &self.keys[i];
            let d = (e.0.duplicate(), e.1.duplicate());
            out.push(d);
            proof {
                assert(entry_views(pre).len() == pre.len());
                assert(out@ == pre.push(d));
                assert(entry_views(out@) =~= entry_views(self.keys@).take(i + 1)) by {
                    assert forall|j: int| 0 <= j < out@.len() implies entry_views(out@)[j]
                        == entry_views(self.keys@).take(i + 1)[j] by {
                        if j < i {
                            assert(out@[j] == pre[j]);
                            assert(entry_views(pre)[j] == entry_views(self.keys@).take(
                                i as int,
                            )[j]);
                        } else {
                            assert(out@[j] == d);
                        }
                    }
                }
            }
            i += 1;
        }
        let r = Locale {
            top_locale_name: self.top_locale_name.duplicate(),
            name: self.name.duplicate(),
            keys: out,
        };
        proof {
            assert(entry_views(self.keys@).take(self.keys@.len() as int) =~= entry_views(
                self.keys@,
            ));
            assert(r@ =~= self@);
        }
        r
    }

    /// The canonical form of this tree, entry by entry.
    pub fn reduced(&self) -> (r: Locale)
        ensures
            r@ == reduce_locale(self@),
        decreases *self,
    {
        let mut out: Vec<(Key, ParsedValue)> = Vec::new();
        let mut i: usize = 0;
        while i < self.keys.len()
            invariant
                i <= self.keys.len(),
                entry_views(out@) == reduce_locale(self@).entries.take(i as int),
            decreases self.keys.len() - i,
        {
            let ghost pre = out@;
            let e = &self.keys[i];
            let d = (e.0.duplicate(), e.1.reduced());
            out.push(d);
            proof {
                let target = reduce_locale(self@).entries;
                assert(entry_views(pre).len() == pre.len());
                assert(out@ == pre.push(d));
                assert(entry_views(out@) =~= target.take(i + 1)) by {
                    assert forall|j: int| 0 <= j < out@.len() implies entry_views(out@)[j]
                        == target.take(i + 1)[j] by {
                        if j < i {
                            assert(out@[j] == pre[j]);
                            assert(entry_views(pre)[j] == target.take(i as int)[j]);
                        } else {
                            assert(out@[j] == d);
                            assert(self@.entries[j] == (self.keys@[j].0@, value_view(
                                self.keys@[j].1,
                            )));
                        }
                    }
                }
            }
            i += 1;
        }
        let r = Locale {
            top_locale_name: self.top_locale_name.duplicate(),
            name: self.name.duplicate(),
            keys: out,
        };
        proof {
            let target = reduce_locale(self@);
            assert(target.entries.take(target.entries.len() as int) =~= target.entries);
            assert(r@ =~= target);
        }
        r
    }

    /// Canonicalizes this tree in place.
    pub fn reduce(&mut self)
        ensures
            final(self)@ == reduce_locale(old(self)@),
    {
        let r = self.reduced();
        *self = r;
    }

    /// Looks one key up at this level of the tree.
    pub fn get_value<'a>(&'a self, key: &Key) -> (r: Option<&'a ParsedValue>)
        ensures
            match r {
                Some(v) => lookup_v(self@.entries, key@) == Some(v@),
                None => lookup_v(self@.entries, key@) is None,
            },
    {
        let mut i: usize = 0;
        while i < self.keys.len()
            invariant
                i <= self.keys.len(),
                forall|j: int| 0 <= j < i ==> (#[trigger] self@.entries[j]).0 != key@,
            decreases self.keys.len() - i,
        {
            let e = &self.keys[i];
            if e.0 == *key {
                proof {
                    lemma_lookup_first(self@.entries, key@, i as int);
                }
                return Some(&e.1);
            }
            i += 1;
        }
        proof {
            lemma_lookup(self@.entries, key@);
        }
        None
    }

    /// Follows a path of keys down the tree: the empty path names no entry,
    /// and every segment but the last must name a subtree.
    pub fn get_value_at<'a>(&'a self, path: &[Key]) -> (r: Option<&'a ParsedValue>)
        ensures
            match r {
                Some(v) => lookup_path(self@, key_views(path@)) == Some(v@),
                None => lookup_path(self@, key_views(path@)) is None,
            },
    {
        proof {
            assert(key_views(path@).skip(0) =~= key_views(path@));
        }
        self.get_value_from(path, 0)
    }

    /// Follows `path[i..]` down the tree.
    fn get_value_from<'a>(&'a self, path: &[Key], i: usize) -> (r: Option<&'a ParsedValue>)
        requires
            i <= path@.len(),
        ensures
            match r {
                Some(v) => lookup_path(self@, key_views(path@).skip(i as int)) == Some(v@),
                None => lookup_path(self@, key_views(path@).skip(i as int)) is None,
            },
        decreases path@.len() - i,
    {
        let ghost rel = key_views(path@).skip(i as int);
        if i == path.len() {
            return None;
        }
        let key = slice_index_get(path, i);
        proof {
            assert(rel[0] == key_views(path@)[i as int]);
        }
        match self.get_value(key) {
            None => None,
            Some(v) => {
                if i + 1 == path.len() {
                    Some(v)
                } else {
                    match v {
                        ParsedValue::Subkeys(sub) => {
                            let r = sub.get_value_from(path, i + 1);
                            proof {
                                assert(rel.drop_first() =~= key_views(path@).skip(i + 1));
                            }
                            r
                        },
                        _ => None,
                    }
                }
            },
        }
    }

    /// Depth-first search for an inherit-from-default marker.  On success
    /// the cursor is extended by the path of the marker found; otherwise it
    /// is left as it was.
    pub fn find_marker_path(&self, key_path: &mut KeyPath) -> (found: bool)
        requires
            locale_wf(self@),
        ensures
            found == locale_has_marker(self@),
            final(key_path)@.namespace == old(key_path)@.namespace,
            !found ==> final(key_path)@.path == old(key_path)@.path,
            found ==> old(key_path)@.path.is_prefix_of(final(key_path)@.path) && marker_at(
                self@,
                final(key_path)@.path.skip(old(key_path)@.path.len() as int),
            ),
        decreases *self,
    {
        let ghost base = key_path@.path;
        let mut i: usize = 0;
        while i < self.keys.len()
            invariant
                i <= self.keys.len(),
                locale_wf(self@),
                base == old(key_path)@.path,
                key_path@.path == base,
                key_path@.namespace == old(key_path)@.namespace,
                forall|j: int| 0 <= j < i ==> !value_has_marker((#[trigger] self@.entries[j]).1),
            decreases self.keys.len() - i,
        {
            let e = &self.keys[i];
            proof {
                assert(self@.entries[i as int] == (e.0@, value_view(e.1)));
                lemma_lookup(self@.entries, e.0@);
            }
            match &e.1 {
                ParsedValue::Inherit => {
                    key_path.push_key(e.0.duplicate());
                    proof {
                        let rel = seq![e.0@];
                        assert(marker_at(self@, rel));
                        assert(key_path@.path =~= base + rel);
                        assert(key_path@.path.skip(base.len() as int) =~= rel);
                        assert(key_path@.path.take(base.len() as int) =~= base);
                        assert(base.is_prefix_of(key_path@.path));
                        assert(value_has_marker(self@.entries[i as int].1));
                    }
                    return true;
                },
                ParsedValue::Subkeys(sub) => {
                    proof {
                        assert(value_view(e.1) == ValueV::Subkeys(sub@));
                        assert(value_wf(self@.entries[i as int].1));
                    }
                    key_path.push_key(e.0.duplicate());
                    let ghost pushed = key_path@.path;
                    if sub.find_marker_path(key_path) {
                        proof {
                            let srel = key_path@.path.skip(pushed.len() as int);
                            assert(marker_at(sub@, srel));
                            let rel = seq![e.0@] + srel;
                            assert(rel.drop_first() =~= srel);
                            assert(marker_at(self@, rel));
                            assert(key_path@.path =~= base + rel) by {
                                assert(pushed == base.push(e.0@));
                                assert(pushed.is_prefix_of(key_path@.path));
                                assert forall|j: int| 0 <= j < key_path@.path.len()
                                    implies key_path@.path[j] == (base + rel)[j] by {
                                    if j < pushed.len() {
                                        assert(key_path@.path[j] == pushed[j]);
                                    } else {
                                        assert(key_path@.path[j] == srel[j - pushed.len()]);
                                    }
                                }
                            }
                            assert(key_path@.path.skip(base.len() as int) =~= rel);
                            assert(key_path@.path.take(base.len() as int) =~= base);
                            assert(base.is_prefix_of(key_path@.path));
                            assert(value_has_marker(self@.entries[i as int].1));
                        }
                        return true;
                    }
                    key_path.pop_key();
                    proof {
                        assert(key_path@.path =~= base);
                    }
                },
                _ => {},
            }
            i += 1;
        }
        proof {
            assert(!locale_has_marker(self@));
        }
        false
    }
}

} // verus!
