//! The whole-project containers and the orchestration.
//!
//! A project holds either a flat list of locales or a list of namespaces,
//! each with its per-locale trees; the choice is fixed by configuration.
//! File paths are derived deterministically from the configuration:
//! `{dir}/{locale}.{ext}` in flat mode, `{dir}/{locale}/{namespace}.{ext}`
//! with namespaces.  [`Locale::check_locales`] validates every scope and
//! bundles the per-scope schemas with the locale trees for code generation.

use crate::check::{ns_view, rest_views, scope_schema};
use crate::diag::{warn_views, Error, ErrorV, WarnV, Warning};
use crate::key::{Key, KeyPath};
use crate::merge::{merge_all_ok, merge_all_schema, merge_all_warns, mismatch_at, swf};
use crate::schema::{locale_views, BuildersKeysInner, SchemaV};
use crate::tree::{
    entry_views, locale_has_marker, locale_wf, lookup_path, marker_at, reduce_locale, Locale,
    LocaleV, ParsedValue,
};
use vstd::prelude::*;
use vstd::string::StringExecFns;

verus! {

broadcast use vstd::std_specs::vec::group_vec_axioms;

/// The model of a namespace: its key and its per-locale trees.
#[verifier::ext_equal]
pub struct NamespaceV {
    pub key: Seq<char>,
    pub locales: Seq<LocaleV>,
}

/// A namespace identifier plus the per-locale trees parsed for it.
pub struct Namespace {
    /// The namespace key.
    pub key: Key,
    /// One tree per locale, in configuration order.
    pub locales: Vec<Locale>,
}

impl View for Namespace {
    type V = NamespaceV;

    open spec fn view(&self) -> NamespaceV {
        NamespaceV { key: self.key@, locales: locale_views(self.locales@) }
    }
}

/// The models of a namespace list, in order.
pub open spec fn namespace_views(s: Seq<Namespace>) -> Seq<NamespaceV> {
    s.map_values(|n: Namespace| n@)
}

/// The model of a whole project's trees.
#[verifier::ext_equal]
pub enum LocalesOrNamespacesV {
    NameSpaces(Seq<NamespaceV>),
    Locales(Seq<LocaleV>),
}

/// The whole-project container: flat locales, or one entry per namespace.
pub enum LocalesOrNamespaces {
    /// Namespaces enabled: one entry per configured namespace.
    NameSpaces(Vec<Namespace>),
    /// Flat: one tree per locale.
    Locales(Vec<Locale>),
}

impl View for LocalesOrNamespaces {
    type V = LocalesOrNamespacesV;

    open spec fn view(&self) -> LocalesOrNamespacesV {
        match self {
            LocalesOrNamespaces::NameSpaces(nss) => LocalesOrNamespacesV::NameSpaces(
                namespace_views(nss@),
            ),
            LocalesOrNamespaces::Locales(ls) => LocalesOrNamespacesV::Locales(locale_views(ls@)),
        }
    }
}

/// The build configuration consumed from the project: the ordered locale
/// list (first = default), the optional namespace list, and the directory
/// holding the locale files.
pub struct ConfigFile {
    /// The configured locales; the first is the default for every scope.
    pub locales: Vec<Key>,
    /// The configured namespaces, if namespaces are enabled.
    pub name_spaces: Option<Vec<Key>>,
    /// The directory holding the locale files.
    pub locales_dir: String,
}

/// The decode context threaded through a seeded parse of one locale file:
/// the locale identity and the key path at the current position, so that a
/// decode error reports its exact location.
pub struct LocaleSeed {
    /// The name of the tree being decoded.
    pub name: Key,
    /// The identity of the top-level locale, unchanged inside subtrees.
    pub top_locale_name: Key,
    /// The position of the decoder inside the tree.
    pub key_path: KeyPath,
}

impl LocaleSeed {
    /// The seed for one locale file's decode.
    pub fn new(locale: Key, namespace: Option<Key>) -> (s: LocaleSeed)
        ensures
            s.name@ == locale@,
            s.top_locale_name@ == locale@,
            s.key_path@.namespace == ns_view(namespace),
            s.key_path@.path == Seq::<Seq<char>>::empty(),
    {
        let top = locale.duplicate();
        LocaleSeed { name: locale, top_locale_name: top, key_path: KeyPath::new(namespace) }
    }
}

/// The derived path of one locale file in flat mode.
pub open spec fn flat_path(dir: Seq<char>, locale: Seq<char>, ext: Seq<char>) -> Seq<char> {
    dir + "/"@ + locale + "."@ + ext
}

/// The derived path of one locale file with namespaces enabled.
pub open spec fn namespaced_path(
    dir: Seq<char>,
    locale: Seq<char>,
    namespace: Seq<char>,
    ext: Seq<char>,
) -> Seq<char> {
    dir + "/"@ + locale + "/"@ + namespace + "."@ + ext
}

/// Derives the file path of one (locale, optional namespace) pair:
/// `{dir}/{locale}.{ext}` flat, `{dir}/{locale}/{namespace}.{ext}` with a
/// namespace.
pub fn locale_file_path(locales_dir: &str, locale: &Key, namespace: Option<&Key>, ext: &str) -> (p:
    String)
    ensures
        match namespace {
            Some(n) => p@ == namespaced_path(locales_dir@, locale@, n@, ext@),
            None => p@ == flat_path(locales_dir@, locale@, ext@),
        },
{
    let mut p = String::from_str(locales_dir);
    p.append("/");
    p.append(locale.name.as_str());
    match namespace {
        Some(n) => {
            p.append("/");
            p.append(n.name.as_str());
        },
        None => {},
    }
    p.append(".");
    p.append(ext);
    p
}

impl Namespace {
    /// Bundles one namespace's per-locale trees under its key.
    pub fn new(key: Key, locales: Vec<Locale>) -> (n: Namespace)
        ensures
            n@.key == key@,
            n@.locales == locale_views(locales@),
    {
        Namespace { key, locales }
    }
}

/// The number of locale files a configuration calls for: one per locale,
/// or one per (namespace, locale) pair.
pub open spec fn config_file_count(cfg: ConfigFile) -> int {
    match cfg.name_spaces {
        Some(nss) => (nss@.len() as int) * (cfg.locales@.len() as int),
        None => cfg.locales@.len() as int,
    }
}

impl LocalesOrNamespaces {
    /// Assembles the whole-project container from the parsed file
    /// contents, given namespace-major with namespaces enabled and in
    /// locale order when flat — the order in which [`locale_file_path`]
    /// derives the files' paths.  Each tree is tagged with its locale's
    /// identity.
    pub fn new(cfg_file: &ConfigFile, files: Vec<Vec<(Key, ParsedValue)>>) -> (r:
        LocalesOrNamespaces)
        requires
            files@.len() == config_file_count(*cfg_file),
        ensures
            match cfg_file.name_spaces {
                Some(nsks) => (r@ matches LocalesOrNamespacesV::NameSpaces(nss) && nss.len()
                    == nsks@.len() && (forall|a: int|
                    0 <= a < nss.len() ==> (#[trigger] nss[a]).key == nsks@[a]@
                        && nss[a].locales.len() == cfg_file.locales@.len()) && (forall|
                    a: int,
                    b: int,
                |
                    0 <= a < nss.len() && 0 <= b < cfg_file.locales@.len()
                        ==> #[trigger] nss[a].locales[b] == (LocaleV {
                        top: cfg_file.locales@[b]@,
                        name: cfg_file.locales@[b]@,
                        entries: entry_views(files@[a * cfg_file.locales@.len() + b]@),
                    }))),
                None => (r@ matches LocalesOrNamespacesV::Locales(ls) && ls.len()
                    == cfg_file.locales@.len() && (forall|b: int|
                    0 <= b < ls.len() ==> #[trigger] ls[b] == (LocaleV {
                        top: cfg_file.locales@[b]@,
                        name: cfg_file.locales@[b]@,
                        entries: entry_views(files@[b]@),
                    }))),
            },
    {
        let ghost all = files@;
        let mut fs = files;
        match &cfg_file.name_spaces {
            Some(nsks) => {
                let n = nsks.len();
                let l = cfg_file.locales.len();
                let mut nss: Vec<Namespace> = Vec::new();
                let mut a: usize = 0;
                proof {
                    assert((n as int) * (l as int) == all.len());
                }
                while a < n
                    invariant
                        a <= n,
                        n == nsks@.len(),
                        l == cfg_file.locales@.len(),
                        all == files@,
                        all.len() == (n as int) * (l as int),
                        fs@ == all.skip((a as int) * (l as int)),
                        nss@.len() == a,
                        forall|x: int|
                            0 <= x < a ==> (#[trigger] namespace_views(nss@)[x]).key == nsks@[x]@
                                && namespace_views(nss@)[x].locales.len() == l,
                        forall|x: int, b: int|
                            0 <= x < a && 0 <= b < l ==> #[trigger] namespace_views(
                                nss@,
                            )[x].locales[b] == (LocaleV {
                                top: cfg_file.locales@[b]@,
                                name: cfg_file.locales@[b]@,
                                entries: entry_views(all[x * (l as int) + b]@),
                            }),
                    decreases n - a,
                {
                    proof {
                        assert((a as int) * (l as int) + (l as int) == ((a as int) + 1) * (
                        l as int)) by (nonlinear_arith);
                        assert(((a as int) + 1) * (l as int) <= (n as int) * (l as int))
                            by (nonlinear_arith)
                            requires
                                (a as int) + 1 <= n as int,
                                l as int >= 0,
                        ;
                        assert((a as int) * (l as int) >= 0) by (nonlinear_arith)
                            requires
                                a as int >= 0,
                                l as int >= 0,
                        ;
                    }
                    let ghost off = (a as int) * (l as int);
                    let mut ls: Vec<Locale> = Vec::new();
                    let mut b: usize = 0;
                    while b < l
                        invariant
                            b <= l,
                            l == cfg_file.locales@.len(),
                            all == files@,
                            0 <= off,
                            off + l <= all.len(),
                            fs@ == all.skip(off + b),
                            ls@.len() == b,
                            forall|y: int|
                                0 <= y < b ==> #[trigger] locale_views(ls@)[y] == (LocaleV {
                                    top: cfg_file.locales@[y]@,
                                    name: cfg_file.locales@[y]@,
                                    entries: entry_views(all[off + y]@),
                                }),
                        decreases l - b,
                    {
                        let ghost pre = ls@;
                        let entries = fs.remove(0);
                        proof {
                            assert(all.skip(off + b)[0] == all[off + b]);
                            assert(fs@ =~= all.skip(off + b + 1));
                        }
                        let lc = Locale::new(cfg_file.locales[b].duplicate(), entries);
                        ls.push(lc);
                        proof {
                            assert(ls@ == pre.push(lc));
                            assert forall|y: int| 0 <= y < b + 1 implies #[trigger] locale_views(
                                ls@,
                            )[y] == (LocaleV {
                                top: cfg_file.locales@[y]@,
                                name: cfg_file.locales@[y]@,
                                entries: entry_views(all[off + y]@),
                            }) by {
                                if y < b {
                                    assert(ls@[y] == pre[y]);
                                    assert(locale_views(pre)[y] == locale_views(ls@)[y]);
                                } else {
                                    assert(ls@[y] == lc);
                                    assert(lc@ =~= LocaleV {
                                        top: cfg_file.locales@[y]@,
                                        name: cfg_file.locales@[y]@,
                                        entries: entry_views(all[off + y]@),
                                    });
                                }
                            }
                        }
                        b += 1;
                    }
                    let ghost prens = nss@;
                    let ns = Namespace::new(nsks[a].duplicate(), ls);
                    nss.push(ns);
                    proof {
                        assert(nss@ == prens.push(ns));
                        assert forall|x: int| 0 <= x < a + 1 implies (#[trigger] namespace_views(
                            nss@,
                        )[x]).key == nsks@[x]@ && namespace_views(nss@)[x].locales.len() == l by {
                            if x < a {
                                assert(nss@[x] == prens[x]);
                                assert(namespace_views(prens)[x] == namespace_views(nss@)[x]);
                            } else {
                                assert(nss@[x] == ns);
                            }
                        }
                        assert forall|x: int, b2: int|
                            0 <= x < a + 1 && 0 <= b2 < l implies #[trigger] namespace_views(
                            nss@,
                        )[x].locales[b2] == (LocaleV {
                            top: cfg_file.locales@[b2]@,
                            name: cfg_file.locales@[b2]@,
                            entries: entry_views(all[x * (l as int) + b2]@),
                        }) by {
                            if x < a {
                                assert(nss@[x] == prens[x]);
                                assert(namespace_views(prens)[x] == namespace_views(nss@)[x]);
                            } else {
                                assert(nss@[x] == ns);
                                assert(x * (l as int) == off);
                            }
                        }
                    }
                    a += 1;
                }
                let r = LocalesOrNamespaces::NameSpaces(nss);
                r
            },
            None => {
                let l = cfg_file.locales.len();
                let mut ls: Vec<Locale> = Vec::new();
                let mut b: usize = 0;
                while b < l
                    invariant
                        b <= l,
                        l == cfg_file.locales@.len(),
                        all == files@,
                        all.len() == l,
                        fs@ == all.skip(b as int),
                        ls@.len() == b,
                        forall|y: int|
                            0 <= y < b ==> #[trigger] locale_views(ls@)[y] == (LocaleV {
                                top: cfg_file.locales@[y]@,
                                name: cfg_file.locales@[y]@,
                                entries: entry_views(all[y]@),
                            }),
                    decreases l - b,
                {
                    let ghost pre = ls@;
                    let entries = fs.remove(0);
                    proof {
                        assert(all.skip(b as int)[0] == all[b as int]);
                        assert(fs@ =~= all.skip(b + 1));
                    }
                    let lc = Locale::new(cfg_file.locales[b].duplicate(), entries);
                    ls.push(lc);
                    proof {
                        assert(ls@ == pre.push(lc));
                        assert forall|y: int| 0 <= y < b + 1 implies #[trigger] locale_views(
                            ls@,
                        )[y] == (LocaleV {
                            top: cfg_file.locales@[y]@,
                            name: cfg_file.locales@[y]@,
                            entries: entry_views(all[y]@),
                        }) by {
                            if y < b {
                                assert(ls@[y] == pre[y]);
                                assert(locale_views(pre)[y] == locale_views(ls@)[y]);
                            } else {
                                assert(ls@[y] == lc);
                                assert(lc@ =~= LocaleV {
                                    top: cfg_file.locales@[y]@,
                                    name: cfg_file.locales@[y]@,
                                    entries: entry_views(all[y]@),
                                });
                            }
                        }
                    }
                    b += 1;
                }
                LocalesOrNamespaces::Locales(ls)
            },
        }
    }
}

/// First-match search of a locale tree by name.
pub open spec fn find_locale(ls: Seq<LocaleV>, name: Seq<char>) -> Option<LocaleV>
    decreases ls.len(),
{
    if ls.len() == 0 {
        None
    } else if ls[0].name == name {
        Some(ls[0])
    } else {
        find_locale(ls.drop_first(), name)
    }
}

/// First-match search of a namespace by key.
pub open spec fn find_namespace(nss: Seq<NamespaceV>, key: Seq<char>) -> Option<NamespaceV>
    decreases nss.len(),
{
    if nss.len() == 0 {
        None
    } else if nss[0].key == key {
        Some(nss[0])
    } else {
        find_namespace(nss.drop_first(), key)
    }
}

/// The tree a whole-project lookup selects: in flat mode the locale by
/// name (when the path has no namespace), with namespaces the locale
/// inside the path's namespace.
pub open spec fn select_locale(
    v: LocalesOrNamespacesV,
    top: Seq<char>,
    namespace: Option<Seq<char>>,
) -> Option<LocaleV> {
    match (namespace, v) {
        (None, LocalesOrNamespacesV::Locales(ls)) => find_locale(ls, top),
        (Some(nk), LocalesOrNamespacesV::NameSpaces(nss)) => match find_namespace(nss, nk) {
            Some(nsv) => find_locale(nsv.locales, top),
            None => None,
        },
        _ => None,
    }
}

/// First-match search finds the first tree with the name.
proof fn lemma_find_locale_first(ls: Seq<LocaleV>, name: Seq<char>, i: int)
    requires
        0 <= i < ls.len(),
        ls[i].name == name,
        forall|j: int| 0 <= j < i ==> ls[j].name != name,
    ensures
        find_locale(ls, name) == Some(ls[i]),
    decreases ls.len(),
{
    if i > 0 {
        assert(ls.drop_first()[i - 1] == ls[i]);
        assert forall|j: int| 0 <= j < i - 1 implies ls.drop_first()[j].name != name by {
            assert(ls.drop_first()[j] == ls[j + 1]);
        }
        lemma_find_locale_first(ls.drop_first(), name, i - 1);
    }
}

/// When no tree has the name, the search finds none.
proof fn lemma_find_locale_none(ls: Seq<LocaleV>, name: Seq<char>)
    requires
        forall|j: int| 0 <= j < ls.len() ==> (#[trigger] ls[j]).name != name,
    ensures
        find_locale(ls, name) is None,
    decreases ls.len(),
{
    if ls.len() > 0 {
        assert forall|j: int| 0 <= j < ls.drop_first().len() implies (#[trigger] ls.drop_first()[j]).name
            != name by {
            assert(ls.drop_first()[j] == ls[j + 1]);
        }
        lemma_find_locale_none(ls.drop_first(), name);
    }
}

/// First-match search finds the first namespace with the key.
proof fn lemma_find_namespace_first(nss: Seq<NamespaceV>, key: Seq<char>, i: int)
    requires
        0 <= i < nss.len(),
        nss[i].key == key,
        forall|j: int| 0 <= j < i ==> nss[j].key != key,
    ensures
        find_namespace(nss, key) == Some(nss[i]),
    decreases nss.len(),
{
    if i > 0 {
        assert(nss.drop_first()[i - 1] == nss[i]);
        assert forall|j: int| 0 <= j < i - 1 implies nss.drop_first()[j].key != key by {
            assert(nss.drop_first()[j] == nss[j + 1]);
        }
        lemma_find_namespace_first(nss.drop_first(), key, i - 1);
    }
}

/// When no namespace has the key, the search finds none.
proof fn lemma_find_namespace_none(nss: Seq<NamespaceV>, key: Seq<char>)
    requires
        forall|j: int| 0 <= j < nss.len() ==> (#[trigger] nss[j]).key != key,
    ensures
        find_namespace(nss, key) is None,
    decreases nss.len(),
{
    if nss.len() > 0 {
        assert forall|j: int| 0 <= j < nss.drop_first().len() implies (
        #[trigger] nss.drop_first()[j]).key != key by {
            assert(nss.drop_first()[j] == nss[j + 1]);
        }
        lemma_find_namespace_none(nss.drop_first(), key);
    }
}

/// Searches a list of trees for one named `top`.
fn find_locale_in<'a>(ls: &'a Vec<Locale>, top: &Key) -> (r: Option<&'a Locale>)
    ensures
        match r {
            Some(l) => find_locale(locale_views(ls@), top@) == Some(l@),
            None => find_locale(locale_views(ls@), top@) is None,
        },
{
    let mut i: usize = 0;
    while i < ls.len()
        invariant
            i <= ls.len(),
            forall|j: int| 0 <= j < i ==> (#[trigger] locale_views(ls@)[j]).name != top@,
        decreases ls.len() - i,
    {
        let l = &ls[i];
        proof {
            assert(locale_views(ls@)[i as int] == l@);
        }
        if l.name == *top {
            proof {
                lemma_find_locale_first(locale_views(ls@), top@, i as int);
            }
            return Some(l);
        }
        i += 1;
    }
    proof {
        lemma_find_locale_none(locale_views(ls@), top@);
    }
    None
}

/// The model of the completed result.
#[verifier::ext_equal]
pub enum BuildersKeysV {
    NameSpaces { namespaces: Seq<NamespaceV>, keys: Seq<(Seq<char>, SchemaV)> },
    Locales { locales: Seq<LocaleV>, keys: SchemaV },
}

/// The completed result: one schema per scope, bundled with the
/// per-locale trees for code generation.
pub enum BuildersKeys {
    /// One schema per namespace, keyed by namespace.
    NameSpaces { namespaces: Vec<Namespace>, keys: Vec<(Key, BuildersKeysInner)> },
    /// A single schema for the flat locale list.
    Locales { locales: Vec<Locale>, keys: BuildersKeysInner },
}

/// The models of a per-namespace schema list, in order.
pub open spec fn keys_views(s: Seq<(Key, BuildersKeysInner)>) -> Seq<(Seq<char>, SchemaV)> {
    Seq::new(
        s.len(),
        |i: int|
            if 0 <= i < s.len() {
                (s[i].0@, s[i].1@)
            } else {
                arbitrary()
            },
    )
}

impl View for BuildersKeys {
    type V = BuildersKeysV;

    open spec fn view(&self) -> BuildersKeysV {
        match self {
            BuildersKeys::NameSpaces { namespaces, keys } => BuildersKeysV::NameSpaces {
                namespaces: namespace_views(namespaces@),
                keys: keys_views(keys@),
            },
            BuildersKeys::Locales { locales, keys } => BuildersKeysV::Locales {
                locales: locale_views(locales@),
                keys: keys@,
            },
        }
    }
}

/// Well-formedness of a whole project: every scope has at least one locale
/// (its default) and every tree has unique keys at every level.
pub open spec fn project_wf(v: LocalesOrNamespacesV) -> bool {
    match v {
        LocalesOrNamespacesV::Locales(ls) => ls.len() > 0 && forall|i: int|
            0 <= i < ls.len() ==> locale_wf(#[trigger] ls[i]),
        LocalesOrNamespacesV::NameSpaces(nss) => forall|a: int|
            0 <= a < nss.len() ==> (#[trigger] nss[a]).locales.len() > 0 && forall|j: int|
                0 <= j < nss[a].locales.len() ==> locale_wf(#[trigger] nss[a].locales[j]),
    }
}

impl Locale {
    /// Validates the whole project: every namespace independently when
    /// namespaces are enabled, the flat locale list as one scope
    /// otherwise.  The first locale is the default of every scope.  The
    /// completed per-scope schemas are bundled with the locale trees;
    /// warnings accumulate across scopes and the first fatal error aborts.
    pub fn check_locales(locales: LocalesOrNamespaces, warnings: &mut Vec<Warning>) -> (r: Result<
        BuildersKeys,
        Error,
    >)
        requires
            project_wf(locales@),
        ensures
            (r is Ok) == (match locales@ {
                LocalesOrNamespacesV::Locales(ls) => crate::check::scope_ok(ls),
                LocalesOrNamespacesV::NameSpaces(nss) => forall|a: int|
                    0 <= a < nss.len() ==> crate::check::scope_ok((#[trigger] nss[a]).locales),
            }),
            match r {
                Ok(bk) => match locales@ {
                    LocalesOrNamespacesV::Locales(ls) => (bk@ matches BuildersKeysV::Locales {
                        locales: out_ls,
                        keys,
                    } && keys == crate::check::scope_keys(ls) && out_ls == ls.update(
                        0,
                        reduce_locale(ls[0]),
                    ) && warn_views(final(warnings)@) == warn_views(old(warnings)@)
                        + crate::check::scope_warns(ls, None)),
                    LocalesOrNamespacesV::NameSpaces(nss) => (bk@ matches BuildersKeysV::NameSpaces {
                        namespaces: out_nss,
                        keys,
                    } && out_nss.len() == nss.len() && keys.len() == nss.len() && (forall|a: int|
                        0 <= a < nss.len() ==> #[trigger] out_nss[a] == (NamespaceV {
                            key: nss[a].key,
                            locales: nss[a].locales.update(0, reduce_locale(nss[a].locales[0])),
                        }) && keys[a] == (nss[a].key, crate::check::scope_keys(nss[a].locales)))
                        && warn_views(final(warnings)@) == warn_views(old(warnings)@)
                        + crate::check::all_scope_warns(nss, nss.len() as int)),
                },
                Err(e) => warn_views(old(warnings)@).is_prefix_of(warn_views(final(warnings)@))
                    && (match locales@ {
                    LocalesOrNamespacesV::Locales(ls) => crate::check::scope_err(e@, ls, None),
                    LocalesOrNamespacesV::NameSpaces(nss) => exists|a: int|
                        0 <= a < nss.len() && (forall|b: int|
                            0 <= b < a ==> crate::check::scope_ok(#[trigger] nss[b].locales))
                            && crate::check::scope_err(
                            e@,
                            (#[trigger] nss[a]).locales,
                            Some(nss[a].key),
                        ),
                }),
            },
    {
        let ghost w0 = warn_views(old(warnings)@);
        let ghost lv0 = locales@;
        match locales {
            LocalesOrNamespaces::NameSpaces(namespaces) => {
                let ghost allns = namespace_views(namespaces@);
                proof {
                    assert(lv0 == LocalesOrNamespacesV::NameSpaces(allns));
                }
                let mut rem = namespaces;
                let mut out_ns: Vec<Namespace> = Vec::new();
                let mut keys: Vec<(Key, BuildersKeysInner)> = Vec::new();
                while rem.len() > 0
                    invariant
                        lv0 == locales@,
                        lv0 == LocalesOrNamespacesV::NameSpaces(allns),
                        w0 == warn_views(old(warnings)@),
                        out_ns@.len() == allns.len() - rem@.len(),
                        keys@.len() == out_ns@.len(),
                        namespace_views(rem@) == allns.skip(out_ns@.len() as int),
                        forall|a: int|
                            0 <= a < allns.len() ==> (#[trigger] allns[a]).locales.len() > 0
                                && forall|j: int|
                                0 <= j < allns[a].locales.len() ==> locale_wf(
                                    #[trigger] allns[a].locales[j],
                                ),
                        forall|b: int|
                            0 <= b < out_ns@.len() ==> crate::check::scope_ok(
                                (#[trigger] allns[b]).locales,
                            ),
                        forall|b: int|
                            0 <= b < out_ns@.len() ==> #[trigger] namespace_views(out_ns@)[b]
                                == (NamespaceV {
                                key: allns[b].key,
                                locales: allns[b].locales.update(
                                    0,
                                    reduce_locale(allns[b].locales[0]),
                                ),
                            }),
                        forall|b: int|
                            0 <= b < keys@.len() ==> #[trigger] keys_views(keys@)[b] == (
                            allns[b].key, crate::check::scope_keys(allns[b].locales)),
                        warn_views(warnings@) == w0 + crate::check::all_scope_warns(
                            allns,
                            out_ns@.len() as int,
                        ),
                    decreases rem@.len(),
                {
                    let ghost a = out_ns@.len() as int;
                    let ghost prerem = rem@;
                    let mut ns = rem.remove(0);
                    proof {
                        assert(namespace_views(prerem)[0] == prerem[0]@);
                        assert(allns.skip(a)[0] == allns[a]);
                        assert(ns@ == allns[a]);
                        assert(namespace_views(rem@) =~= allns.skip(a + 1)) by {
                            assert forall|j: int| 0 <= j < rem@.len() implies namespace_views(
                                rem@,
                            )[j] == allns.skip(a + 1)[j] by {
                                assert(rem@[j] == prerem[j + 1]);
                                assert(namespace_views(prerem)[j + 1] == prerem[j + 1]@);
                                assert(allns.skip(a)[j + 1] == allns[a + 1 + j]);
                            }
                        }
                        assert(locale_views(ns.locales@) == allns[a].locales);
                        assert forall|j: int| 0 <= j < ns.locales@.len() implies locale_wf(
                            (#[trigger] ns.locales@[j])@,
                        ) by {
                            assert(locale_views(ns.locales@)[j] == ns.locales@[j]@);
                        }
                    }
                    let ghost nsv0 = ns@;
                    let ghost pre_ls = ns.locales@;
                    let ghost wpre = warnings@;
                    let namespace_key = ns.key.duplicate();
                    let res = Locale::check_locales_inner(
                        &mut ns.locales,
                        Some(namespace_key),
                        warnings,
                    );
                    proof {
                        assert(pre_ls[0]@ == nsv0.locales[0]) by {
                            assert(locale_views(pre_ls)[0] == pre_ls[0]@);
                        }
                        assert(crate::check::rest_views(pre_ls) =~= nsv0.locales.drop_first());
                        assert(crate::check::ns_view(Some(namespace_key)) == Some(nsv0.key));
                    }
                    match res {
                        Ok(k) => {
                            let ghost prew = keys_views(keys@);
                            let ghost pren = namespace_views(out_ns@);
                            proof {
                                assert(crate::check::scope_ok(allns[a].locales));
                                assert(k@ == crate::check::scope_keys(allns[a].locales));
                                assert(warn_views(warnings@) == warn_views(wpre)
                                    + crate::check::scope_warns(
                                    allns[a].locales,
                                    Some(allns[a].key),
                                ));
                                assert(warn_views(warnings@) =~= w0
                                    + crate::check::all_scope_warns(allns, a + 1)) by {
                                    let x = crate::check::all_scope_warns(allns, a);
                                    let y = crate::check::scope_warns(
                                        allns[a].locales,
                                        Some(allns[a].key),
                                    );
                                    assert((w0 + x) + y =~= w0 + (x + y));
                                }
                                assert(ns.key@ == nsv0.key);
                                assert(locale_views(ns.locales@) == locale_views(pre_ls).update(
                                    0,
                                    reduce_locale(pre_ls[0]@),
                                ));
                                assert(ns@ =~= NamespaceV {
                                    key: allns[a].key,
                                    locales: allns[a].locales.update(
                                        0,
                                        reduce_locale(allns[a].locales[0]),
                                    ),
                                });
                            }
                            let kd = (ns.key.duplicate(), k);
                            keys.push(kd);
                            out_ns.push(ns);
                            proof {
                                assert forall|b: int| 0 <= b < a + 1 implies
                                    #[trigger] namespace_views(out_ns@)[b] == (NamespaceV {
                                    key: allns[b].key,
                                    locales: allns[b].locales.update(
                                        0,
                                        reduce_locale(allns[b].locales[0]),
                                    ),
                                }) by {
                                    if b < a {
                                        assert(namespace_views(out_ns@)[b] == pren[b]);
                                    } else {
                                        assert(out_ns@[b]@ =~= NamespaceV {
                                            key: allns[b].key,
                                            locales: allns[b].locales.update(
                                                0,
                                                reduce_locale(allns[b].locales[0]),
                                            ),
                                        });
                                    }
                                }
                                assert forall|b: int| 0 <= b < a + 1 implies #[trigger] keys_views(
                                    keys@,
                                )[b] == (allns[b].key, crate::check::scope_keys(
                                    allns[b].locales,
                                )) by {
                                    if b < a {
                                        assert(keys_views(keys@)[b] == prew[b]);
                                    } else {
                                        assert(keys_views(keys@)[b] == (kd.0@, kd.1@));
                                    }
                                }
                            }
                        },
                        Err(e) => {
                            proof {
                                assert(!crate::check::scope_ok(allns[a].locales));
                                match e@ {
                                    ErrorV::ExplicitDefaultInDefault(_) => {
                                        assert(crate::check::scope_err(
                                            e@,
                                            allns[a].locales,
                                            Some(allns[a].key),
                                        ));
                                    },
                                    ErrorV::ShapeMismatch {
                                        key_path: kp,
                                        expected_subtree: es,
                                        ..
                                    } => {
                                        let i = choose|i: int|
                                            1 <= i < pre_ls.len() && mismatch_at(
                                                merge_all_schema(
                                                    scope_schema(pre_ls[0]@),
                                                    rest_views(pre_ls).take(i - 1),
                                                ),
                                                #[trigger] pre_ls[i]@,
                                                kp.path,
                                                es,
                                            );
                                        assert(locale_views(pre_ls)[i] == pre_ls[i]@);
                                        assert(allns[a].locales[i] == pre_ls[i]@);
                                        assert(rest_views(pre_ls).take(i - 1)
                                            =~= allns[a].locales.drop_first().take(i - 1));
                                        assert(mismatch_at(
                                            merge_all_schema(
                                                scope_schema(allns[a].locales[0]),
                                                allns[a].locales.drop_first().take(i - 1),
                                            ),
                                            allns[a].locales[i],
                                            kp.path,
                                            es,
                                        ));
                                        assert(crate::check::scope_err(
                                            e@,
                                            allns[a].locales,
                                            Some(allns[a].key),
                                        ));
                                    },
                                    _ => {
                                        assert(false);
                                    },
                                }
                                assert(w0.is_prefix_of(warn_views(warnings@))) by {
                                    let mid = w0 + crate::check::all_scope_warns(allns, a);
                                    assert(w0 =~= mid.take(w0.len() as int));
                                    crate::merge::lemma_prefix_trans(
                                        w0,
                                        mid,
                                        warn_views(warnings@),
                                    );
                                }
                                assert(lv0->NameSpaces_0 == allns);
                                assert(0 <= a < allns.len());
                                assert forall|b: int| 0 <= b < a implies crate::check::scope_ok(
                                    (#[trigger] allns[b]).locales,
                                ) by {
                                    assert(0 <= b < out_ns@.len());
                                }
                            }
                            return Err(e);
                        },
                    }
                }
                proof {
                    assert(out_ns@.len() == allns.len());
                    assert forall|a: int| 0 <= a < allns.len() implies crate::check::scope_ok(
                        (#[trigger] allns[a]).locales,
                    ) by {
                        assert(0 <= a < out_ns@.len());
                    }
                    assert(lv0->NameSpaces_0 == allns);
                }
                Ok(BuildersKeys::NameSpaces { namespaces: out_ns, keys })
            },
            LocalesOrNamespaces::Locales(ls) => {
                let mut ls = ls;
                let ghost lsv = locale_views(ls@);
                proof {
                    assert(lv0 == locales@);
                    assert(lv0 == LocalesOrNamespacesV::Locales(lsv));
                    assert forall|j: int| 0 <= j < ls@.len() implies locale_wf(
                        (#[trigger] ls@[j])@,
                    ) by {
                        assert(locale_views(ls@)[j] == ls@[j]@);
                    }
                }
                let ghost prels = ls@;
                let res = Locale::check_locales_inner(&mut ls, None, warnings);
                match res {
                    Ok(k) => {
                        proof {
                            assert(locale_views(ls@) =~= lsv.update(0, reduce_locale(lsv[0])));
                        }
                        Ok(BuildersKeys::Locales { locales: ls, keys: k })
                    },
                    Err(e) => {
                        proof {
                            assert(lsv[0] == prels[0]@) by {
                                assert(locale_views(prels)[0] == prels[0]@);
                            }
                            assert(rest_views(prels) =~= lsv.drop_first());
                            match e@ {
                                ErrorV::ShapeMismatch {
                                    key_path: kp,
                                    expected_subtree: es,
                                    ..
                                } => {
                                    let i = choose|i: int|
                                        1 <= i < prels.len() && mismatch_at(
                                            merge_all_schema(
                                                scope_schema(prels[0]@),
                                                rest_views(prels).take(i - 1),
                                            ),
                                            #[trigger] prels[i]@,
                                            kp.path,
                                            es,
                                        );
                                    assert(locale_views(prels)[i] == prels[i]@);
                                    assert(lsv[i] == prels[i]@);
                                    assert(rest_views(prels).take(i - 1) =~= lsv.drop_first().take(
                                        i - 1,
                                    ));
                                    assert(mismatch_at(
                                        merge_all_schema(
                                            scope_schema(lsv[0]),
                                            lsv.drop_first().take(i - 1),
                                        ),
                                        lsv[i],
                                        kp.path,
                                        es,
                                    ));
                                },
                                _ => {},
                            }
                        }
                        Err(e)
                    },
                }
            },
        }
    }
}

impl LocalesOrNamespaces {
    /// Follows a whole-project path: selects the locale (inside the path's
    /// namespace, if any) and follows the path's key segments down its
    /// tree.
    pub fn get_value_at<'a>(&'a self, top_locale: &Key, path: &KeyPath) -> (r: Option<
        &'a ParsedValue,
    >)
        ensures
            match select_locale(self@, top_locale@, path@.namespace) {
                Some(l) => match r {
                    Some(v) => lookup_path(l, path@.path) == Some(v@),
                    None => lookup_path(l, path@.path) is None,
                },
                None => r is None,
            },
    {
        let found: Option<&Locale> = match (&path.namespace, self) {
            (None, LocalesOrNamespaces::NameSpaces(_)) => None,
            (Some(_), LocalesOrNamespaces::Locales(_)) => None,
            (None, LocalesOrNamespaces::Locales(locales)) => find_locale_in(locales, top_locale),
            (Some(target_namespace), LocalesOrNamespaces::NameSpaces(namespaces)) => {
                let mut i: usize = 0;
                let mut sel: Option<&Locale> = None;
                let mut hit = false;
                while i < namespaces.len()
                    invariant
                        i <= namespaces.len(),
                        !hit ==> sel is None,
                        !hit ==> forall|j: int|
                            0 <= j < i ==> (#[trigger] namespace_views(namespaces@)[j]).key
                                != target_namespace@,
                        hit ==> match find_namespace(
                            namespace_views(namespaces@),
                            target_namespace@,
                        ) {
                            Some(nsv) => match sel {
                                Some(l) => find_locale(nsv.locales, top_locale@) == Some(l@),
                                None => find_locale(nsv.locales, top_locale@) is None,
                            },
                            None => false,
                        },
                    decreases namespaces.len() - i,
                {
                    if !hit {
                        let ns = &namespaces[i];
                        proof {
                            assert(namespace_views(namespaces@)[i as int] == ns@);
                        }
                        if ns.key == *target_namespace {
                            proof {
                                lemma_find_namespace_first(
                                    namespace_views(namespaces@),
                                    target_namespace@,
                                    i as int,
                                );
                            }
                            sel = find_locale_in(&ns.locales, top_locale);
                            hit = true;
                        }
                    }
                    i += 1;
                }
                if !hit {
                    proof {
                        lemma_find_namespace_none(namespace_views(namespaces@), target_namespace@);
                    }
                }
                sel
            },
        };
        match found {
            Some(locale) => {
                let r = locale.get_value_at(path.path.as_slice());
                proof {
                    assert(crate::key::key_views(path.path@) == path@.path);
                }
                r
            },
            None => None,
        }
    }
}

} // verus!
