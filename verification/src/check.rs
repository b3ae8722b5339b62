//! Validating one scope: schema construction from the default locale, then
//! a merge pass over every remaining locale.
//!
//! The first locale of a scope is always its default.  Its tree alone
//! determines the schema; if it holds an inherit-from-default marker
//! anywhere, the whole resolution fails before any schema is built.  Every
//! other locale is then merged in configuration order; warnings accumulate
//! and the first shape mismatch aborts.

use crate::diag::{warn_views, Error, ErrorV, WarnV, Warning};
use crate::key::{Key, KeyPath};
use crate::merge::{
    lemma_build_schema_swf, merge_all_ok, merge_all_schema, merge_all_warns, merge_ok,
    merge_schema, merge_warns, mismatch_at, swf,
};
use crate::schema::{build_schema, locale_views, BuildersKeysInner, SchemaV};
use crate::tree::{
    lemma_reduce_locale, locale_has_marker, locale_wf, marker_at, reduce_locale, Locale, LocaleV,
};
use vstd::prelude::*;

verus! {

broadcast use vstd::std_specs::vec::group_vec_axioms;

/// The namespace segment of an optional namespace key.
pub open spec fn ns_view(namespace: Option<Key>) -> Option<Seq<char>> {
    match namespace {
        Some(k) => Some(k@),
        None => None,
    }
}

/// The schema of a scope: built from the canonicalized default locale.
pub open spec fn scope_schema(d: LocaleV) -> SchemaV {
    build_schema(reduce_locale(d))
}

/// The non-default locales of a scope, in configuration order.
pub open spec fn rest_views(ls: Seq<Locale>) -> Seq<LocaleV> {
    locale_views(ls).drop_first()
}

/// Whether a scope validates: no marker in its default locale and no
/// shape mismatch in any other locale.
pub open spec fn scope_ok(ls: Seq<LocaleV>) -> bool {
    !locale_has_marker(ls[0]) && merge_all_ok(scope_schema(ls[0]), ls.drop_first())
}

/// A validated scope's schema: built from its canonicalized default, with
/// every other locale's subtrees merged in.
pub open spec fn scope_keys(ls: Seq<LocaleV>) -> SchemaV {
    merge_all_schema(scope_schema(ls[0]), ls.drop_first())
}

/// A scope's warnings, in emission order.
pub open spec fn scope_warns(ls: Seq<LocaleV>, ns: Option<Seq<char>>) -> Seq<WarnV> {
    merge_all_warns(scope_schema(ls[0]), ls.drop_first(), ns, Seq::empty())
}

/// What a scope's fatal error reports: an inherit-from-default marker in
/// the default locale at the error's path, or a shape mismatch between the
/// schema and some locale at the error's path.
pub open spec fn scope_err(e: ErrorV, ls: Seq<LocaleV>, ns: Option<Seq<char>>) -> bool {
    match e {
        ErrorV::ExplicitDefaultInDefault(kp) => locale_has_marker(ls[0]) && kp.namespace == ns
            && marker_at(ls[0], kp.path),
        ErrorV::ShapeMismatch { key_path: kp, expected_subtree: es, found_subtree: fs } => {
            &&& !locale_has_marker(ls[0])
            &&& !merge_all_ok(scope_schema(ls[0]), ls.drop_first())
            &&& fs == !es
            &&& kp.namespace == ns
            &&& exists|i: int|
                1 <= i < ls.len() && mismatch_at(
                    merge_all_schema(scope_schema(ls[0]), ls.drop_first().take(i - 1)),
                    #[trigger] ls[i],
                    kp.path,
                    es,
                )
        },
        _ => false,
    }
}

/// The warnings of the first `upto` namespaces, in namespace order.
pub open spec fn all_scope_warns(nss: Seq<crate::project::NamespaceV>, upto: int) -> Seq<WarnV>
    decreases upto,
{
    if upto <= 0 {
        Seq::empty()
    } else {
        all_scope_warns(nss, upto - 1) + scope_warns(
            nss[upto - 1].locales,
            Some(nss[upto - 1].key),
        )
    }
}

impl Locale {
    /// Validates one scope: elects the first locale as default, refuses an
    /// inherit-from-default marker anywhere inside it, builds the schema
    /// from its canonicalized tree, and merges every remaining locale
    /// against that schema in order.  Warnings accumulate; the first shape
    /// mismatch aborts.
    pub fn check_locales_inner(
        locales: &mut Vec<Locale>,
        namespace: Option<Key>,
        warnings: &mut Vec<Warning>,
    ) -> (r: Result<BuildersKeysInner, Error>)
        requires
            old(locales)@.len() > 0,
            forall|i: int| 0 <= i < old(locales)@.len() ==> locale_wf((#[trigger] old(locales)@[i])@),
        ensures
            (r is Ok) == (!locale_has_marker(old(locales)@[0]@) && merge_all_ok(
                scope_schema(old(locales)@[0]@),
                rest_views(old(locales)@),
            )),
            match r {
                Ok(keys) => {
                    &&& keys@ == merge_all_schema(
                        scope_schema(old(locales)@[0]@),
                        rest_views(old(locales)@),
                    )
                    &&& swf(keys@)
                    &&& warn_views(final(warnings)@) == warn_views(old(warnings)@)
                        + merge_all_warns(
                        scope_schema(old(locales)@[0]@),
                        rest_views(old(locales)@),
                        ns_view(namespace),
                        Seq::empty(),
                    )
                    &&& locale_views(final(locales)@) == locale_views(old(locales)@).update(
                        0,
                        reduce_locale(old(locales)@[0]@),
                    )
                },
                Err(e) => warn_views(old(warnings)@).is_prefix_of(warn_views(final(warnings)@))
                    && (match e@ {
                    ErrorV::ExplicitDefaultInDefault(kp) => locale_has_marker(old(locales)@[0]@)
                        && kp.namespace == ns_view(namespace) && marker_at(
                        old(locales)@[0]@,
                        kp.path,
                    ),
                    ErrorV::ShapeMismatch { key_path: kp, expected_subtree: es, found_subtree: fs,
                    } => !locale_has_marker(old(locales)@[0]@) && !merge_all_ok(
                        scope_schema(old(locales)@[0]@),
                        rest_views(old(locales)@),
                    ) && fs == !es && kp.namespace == ns_view(namespace) && (exists|i: int|
                        1 <= i < old(locales)@.len() && mismatch_at(
                            merge_all_schema(
                                scope_schema(old(locales)@[0]@),
                                rest_views(old(locales)@).take(i - 1),
                            ),
                            #[trigger] old(locales)@[i]@,
                            kp.path,
                            es,
                        )),
                    _ => false,
                }),
            },
    {
        let ghost d = old(locales)@[0]@;
        let ghost rest = rest_views(old(locales)@);
        let ghost scope = scope_schema(d);
        let ghost w0 = warn_views(old(warnings)@);
        let mut key_path = KeyPath::new(namespace);
        let found = {
            let d0 = &locales[0];
            d0.find_marker_path(&mut key_path)
        };
        if found {
            proof {
                assert(key_path@.path.skip(0) =~= key_path@.path);
                assert(w0.is_prefix_of(warn_views(warnings@))) by {
                    assert(w0 =~= warn_views(warnings@).take(w0.len() as int));
                }
            }
            return Err(Error::ExplicitDefaultInDefault(key_path));
        }
        let mut default_locale = locales.remove(0);
        let keys0 = default_locale.make_builder_keys();
        let default_name = default_locale.name.duplicate();
        locales.insert(0, default_locale);
        proof {
            lemma_reduce_locale(d);
            lemma_build_schema_swf(reduce_locale(d));
            assert(locale_views(locales@) =~= locale_views(old(locales)@).update(
                0,
                reduce_locale(d),
            ));
            assert(rest.take(0) =~= Seq::<LocaleV>::empty());
        }
        let mut keys = keys0;
        let mut i: usize = 1;
        while i < locales.len()
            invariant
                1 <= i <= locales@.len(),
                locales@.len() == old(locales)@.len(),
                d == old(locales)@[0]@,
                rest == rest_views(old(locales)@),
                scope == scope_schema(d),
                w0 == warn_views(old(warnings)@),
                !locale_has_marker(d),
                locale_views(locales@) == locale_views(old(locales)@).update(0, reduce_locale(d)),
                forall|j: int| 0 <= j < locales@.len() ==> locale_wf((#[trigger] locales@[j])@),
                swf(keys@),
                merge_all_ok(scope, rest.take(i - 1)),
                keys@ == merge_all_schema(scope, rest.take(i - 1)),
                warn_views(warnings@) == w0 + merge_all_warns(
                    scope,
                    rest.take(i - 1),
                    ns_view(namespace),
                    Seq::empty(),
                ),
                key_path@.namespace == ns_view(namespace),
                key_path@.path == Seq::<Seq<char>>::empty(),
            decreases locales@.len() - i,
        {
            let loc = &locales[i];
            proof {
                assert(locale_views(locales@)[i as int] == loc@);
                assert(rest[i - 1] == loc@);
            }
            let top = loc.name.duplicate();
            let r = loc.merge(&mut keys, &default_name, &top, &mut key_path, warnings);
            match r {
                Ok(()) => {
                    proof {
                        crate::merge::lemma_merge_all_snoc(
                            scope,
                            rest.take(i - 1),
                            loc@,
                            ns_view(namespace),
                            Seq::empty(),
                        );
                        assert(rest.take(i - 1).push(loc@) =~= rest.take(i as int));
                    }
                },
                Err(e) => {
                    proof {
                        crate::merge::lemma_merge_all_not_ok(scope, rest, i - 1);
                        assert(w0.is_prefix_of(warn_views(warnings@))) by {
                            crate::merge::lemma_prefix_trans(
                                w0,
                                w0 + merge_all_warns(
                                    scope,
                                    rest.take(i - 1),
                                    ns_view(namespace),
                                    Seq::empty(),
                                ),
                                warn_views(warnings@),
                            );
                            assert(w0.is_prefix_of(w0 + merge_all_warns(
                                scope,
                                rest.take(i - 1),
                                ns_view(namespace),
                                Seq::empty(),
                            ))) by {
                                let c = w0 + merge_all_warns(
                                    scope,
                                    rest.take(i - 1),
                                    ns_view(namespace),
                                    Seq::empty(),
                                );
                                assert(w0 =~= c.take(w0.len() as int));
                            }
                        }
                        match e@ {
                            ErrorV::ShapeMismatch { key_path: kp, expected_subtree: es, .. } => {
                                assert(kp.path.skip(0) =~= kp.path);
                                assert(mismatch_at(
                                    merge_all_schema(scope, rest.take(i - 1)),
                                    old(locales)@[i as int]@,
                                    kp.path,
                                    es,
                                ));
                            },
                            _ => {
                                assert(false);
                            },
                        }
                    }
                    return Err(e);
                },
            }
            i += 1;
        }
        proof {
            assert(rest.take(locales@.len() - 1) =~= rest);
        }
        Ok(keys)
    }
}

} // verus!
