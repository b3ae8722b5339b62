//! Interned identifiers and key paths.
//!
//! A [`Key`] is a name used both as a map key inside a locale tree and as a
//! path segment.  A [`KeyPath`] is the stack of keys (optionally prefixed by
//! a namespace key) identifying the current position of a recursive descent;
//! it is pushed before entering a child and popped on return, so diagnostics
//! always carry the exact nesting at their emission point.

use vstd::prelude::*;

verus! {

/// An identifier compared by its name.
pub struct Key {
    pub name: String,
}

impl View for Key {
    type V = Seq<char>;

    open spec fn view(&self) -> Seq<char> {
        self.name@
    }
}

impl Key {
    /// Builds a key from its name.
    pub fn new(name: String) -> (k: Key)
        ensures
            k@ == name@,
    {
        Key { name }
    }

    /// A copy of this key, equal in name.
    pub fn duplicate(&self) -> (k: Key)
        ensures
            k@ == self@,
    {
        Key { name: self.name.clone() }
    }
}

impl PartialEq for Key {
    fn eq(&self, other: &Key) -> (r: bool) {
        self.name == other.name
    }
}

impl vstd::std_specs::cmp::PartialEqSpecImpl for Key {
    open spec fn obeys_eq_spec() -> bool {
        true
    }

    open spec fn eq_spec(&self, other: &Key) -> bool {
        self@ == other@
    }
}

/// The names of a sequence of keys, in order.
pub open spec fn key_views(s: Seq<Key>) -> Seq<Seq<char>> {
    s.map_values(|k: Key| k@)
}

/// Copies a list of keys, name by name.
pub fn duplicate_key_vec(v: &Vec<Key>) -> (r: Vec<Key>)
    ensures
        key_views(r@) == key_views(v@),
{
    let mut r: Vec<Key> = Vec::new();
    let mut i: usize = 0;
    while i < v.len()
        invariant
            i <= v.len(),
            key_views(r@) == key_views(v@).take(i as int),
        decreases v.len() - i,
    {
        let ghost pre = r@;
        let d = v[i].duplicate();
        r.push(d);
        proof {
            assert(key_views(r@) =~= key_views(v@).take(i + 1)) by {
                assert(key_views(pre).len() == pre.len());
                assert(r@ == pre.push(d));
                assert forall|j: int| 0 <= j < r@.len() implies key_views(r@)[j] == key_views(
                    v@,
                ).take(i + 1)[j] by {
                    if j < i {
                        assert(r@[j] == pre[j]);
                        assert(key_views(pre)[j] == key_views(v@).take(i as int)[j]);
                    } else {
                        assert(r@[j] == d);
                    }
                }
            }
        }
        i += 1;
    }
    proof {
        assert(key_views(v@).take(v@.len() as int) =~= key_views(v@));
    }
    r
}

/// The mathematical value of a [`KeyPath`]: the optional namespace segment
/// and the stack of key segments.
#[verifier::ext_equal]
pub struct KeyPathV {
    pub namespace: Option<Seq<char>>,
    pub path: Seq<Seq<char>>,
}

/// A mutable stack of keys locating the current position of a descent,
/// optionally prefixed by a namespace key.
pub struct KeyPath {
    pub namespace: Option<Key>,
    pub path: Vec<Key>,
}

impl View for KeyPath {
    type V = KeyPathV;

    open spec fn view(&self) -> KeyPathV {
        KeyPathV {
            namespace: match self.namespace {
                Some(k) => Some(k@),
                None => None,
            },
            path: key_views(self.path@),
        }
    }
}

impl KeyPath {
    /// An empty path under the given namespace.
    pub fn new(namespace: Option<Key>) -> (kp: KeyPath)
        ensures
            kp@.namespace == match namespace {
                Some(k) => Some(k@),
                None => None::<Seq<char>>,
            },
            kp@.path == Seq::<Seq<char>>::empty(),
    {
        let kp = KeyPath { namespace, path: Vec::new() };
        proof {
            assert(kp@.path =~= Seq::<Seq<char>>::empty());
        }
        kp
    }

    /// Pushes one key segment before descending into a child.
    pub fn push_key(&mut self, key: Key)
        ensures
            final(self)@.namespace == old(self)@.namespace,
            final(self)@.path == old(self)@.path.push(key@),
    {
        self.path.push(key);
        proof {
            assert(self@.path =~= old(self)@.path.push(key@));
        }
    }

    /// Pops the segment pushed for the child just left.
    pub fn pop_key(&mut self)
        requires
            old(self)@.path.len() > 0,
        ensures
            final(self)@.namespace == old(self)@.namespace,
            final(self)@.path == old(self)@.path.drop_last(),
    {
        let _ = self.path.pop();
        proof {
            assert(self@.path =~= old(self)@.path.drop_last());
        }
    }

    /// A copy of this path, equal segment by segment.
    pub fn duplicate(&self) -> (kp: KeyPath)
        ensures
            kp@ == self@,
    {
        let namespace = match &self.namespace {
            Some(k) => Some(k.duplicate()),
            None => None,
        };
        let path = duplicate_key_vec(&self.path);
        let kp = KeyPath { namespace, path };
        proof {
            assert(kp@ =~= self@) by {
                assert(kp@.namespace == self@.namespace);
            }
        }
        kp
    }
}

} // verus!
