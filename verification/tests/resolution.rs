use locale_schema::diag::{Error, Shape, Warning};
use locale_schema::key::{Key, KeyPath};
use locale_schema::project::{
    locale_file_path, BuildersKeys, ConfigFile, LocalesOrNamespaces, Namespace,
};
use locale_schema::schema::{BuildersKeysInner, LocaleValue};
use locale_schema::tree::{Locale, ParsedValue};

fn k(s: &str) -> Key {
    Key::new(String::from(s))
}

fn leaf(text: &str) -> ParsedValue {
    ParsedValue::Value { text: String::from(text), interpolate_keys: None }
}

fn leaf_ik(text: &str, iks: &[&str]) -> ParsedValue {
    ParsedValue::Value {
        text: String::from(text),
        interpolate_keys: Some(iks.iter().map(|s| k(s)).collect()),
    }
}

fn subtree(top: &str, name: &str, entries: Vec<(Key, ParsedValue)>) -> ParsedValue {
    ParsedValue::Subkeys(Locale { top_locale_name: k(top), name: k(name), keys: entries })
}

fn locale(name: &str, entries: Vec<(Key, ParsedValue)>) -> Locale {
    Locale::new(k(name), entries)
}

fn path_names(p: &KeyPath) -> Vec<String> {
    p.path.iter().map(|x| x.name.clone()).collect()
}

fn schema_get<'a>(s: &'a BuildersKeysInner, name: &str) -> Option<&'a LocaleValue> {
    s.0.iter().find(|e| e.0 == k(name)).map(|e| &e.1)
}

#[test]
fn single_locale_schema_mirrors_key_set() {
    let en = locale("en", vec![(k("a"), leaf("x")), (k("b"), leaf("y"))]);
    let mut warnings: Vec<Warning> = Vec::new();
    let r = Locale::check_locales(LocalesOrNamespaces::Locales(vec![en]), &mut warnings);
    match r {
        Ok(BuildersKeys::Locales { keys, .. }) => {
            assert!(keys.0.len() == 2);
            assert!(keys.0[0].0 == k("a"));
            assert!(keys.0[1].0 == k("b"));
        }
        _ => panic!("expected a flat schema"),
    }
    assert!(warnings.is_empty());
}

#[test]
fn identical_locales_merge_clean() {
    let en = locale("en", vec![(k("a"), leaf_ik("hi {who}", &["who"])), (
        k("sub"),
        subtree("en", "sub", vec![(k("x"), leaf("1"))]),
    )]);
    let fr = locale("fr", vec![(k("a"), leaf_ik("salut {who}", &["who"])), (
        k("sub"),
        subtree("fr", "sub", vec![(k("x"), leaf("2"))]),
    )]);
    let mut warnings: Vec<Warning> = Vec::new();
    let r = Locale::check_locales(LocalesOrNamespaces::Locales(vec![en, fr]), &mut warnings);
    assert!(r.is_ok());
    assert!(warnings.is_empty());
}

#[test]
fn missing_key_yields_one_warning() {
    let en = locale("en", vec![(k("a"), leaf("x"))]);
    let de = locale("de", vec![]);
    let mut warnings: Vec<Warning> = Vec::new();
    let r = Locale::check_locales(LocalesOrNamespaces::Locales(vec![en, de]), &mut warnings);
    match r {
        Ok(BuildersKeys::Locales { keys, .. }) => {
            assert!(keys.0.len() == 1);
            assert!(matches!(schema_get(&keys, "a"), Some(LocaleValue::Value(None))));
        }
        _ => panic!("expected success"),
    }
    assert!(warnings.len() == 1);
    match &warnings[0] {
        Warning::MissingKey { locale, key_path } => {
            assert!(*locale == k("de"));
            assert!(path_names(key_path) == vec![String::from("a")]);
            assert!(key_path.namespace.is_none());
        }
        _ => panic!("expected a missing-key warning"),
    }
}

#[test]
fn surplus_key_yields_one_warning() {
    let en = locale("en", vec![(k("a"), leaf("x"))]);
    let de = locale("de", vec![(k("a"), leaf("y")), (k("extra"), leaf("z"))]);
    let mut warnings: Vec<Warning> = Vec::new();
    let r = Locale::check_locales(LocalesOrNamespaces::Locales(vec![en, de]), &mut warnings);
    assert!(r.is_ok());
    assert!(warnings.len() == 1);
    match &warnings[0] {
        Warning::SurplusKey { locale, key_path } => {
            assert!(*locale == k("de"));
            assert!(path_names(key_path) == vec![String::from("extra")]);
        }
        _ => panic!("expected a surplus-key warning"),
    }
}

#[test]
fn marker_in_default_fails_at_path() {
    let en = locale("en", vec![(k("outer"), subtree("en", "outer", vec![(
        k("inner"),
        ParsedValue::Inherit,
    )]))]);
    let fr = locale("fr", vec![]);
    let mut warnings: Vec<Warning> = Vec::new();
    let r = Locale::check_locales(LocalesOrNamespaces::Locales(vec![en, fr]), &mut warnings);
    match r {
        Err(Error::ExplicitDefaultInDefault(p)) => {
            assert!(path_names(&p) == vec![String::from("outer"), String::from("inner")]);
        }
        _ => panic!("expected the inherit marker to be refused"),
    }
}

#[test]
fn marker_in_other_locale_is_allowed() {
    let en = locale("en", vec![(k("a"), leaf("x"))]);
    let fr = locale("fr", vec![(k("a"), ParsedValue::Inherit)]);
    let mut warnings: Vec<Warning> = Vec::new();
    let r = Locale::check_locales(LocalesOrNamespaces::Locales(vec![en, fr]), &mut warnings);
    assert!(r.is_ok());
    assert!(warnings.is_empty());
}

#[test]
fn leaf_against_subtree_is_fatal() {
    let en = locale("en", vec![(k("a"), leaf("x"))]);
    let de = locale("de", vec![(k("a"), subtree("de", "a", vec![(k("b"), leaf("y"))]))]);
    let mut warnings: Vec<Warning> = Vec::new();
    let r = Locale::check_locales(LocalesOrNamespaces::Locales(vec![en, de]), &mut warnings);
    match r {
        Err(Error::ShapeMismatch { key_path, expected, found }) => {
            assert!(path_names(&key_path) == vec![String::from("a")]);
            assert!(matches!(expected, Shape::Leaf));
            assert!(matches!(found, Shape::Subtree));
        }
        _ => panic!("expected a shape mismatch"),
    }
}

#[test]
fn subtree_against_leaf_is_fatal() {
    let en = locale("en", vec![(k("a"), subtree("en", "a", vec![(k("b"), leaf("x"))]))]);
    let de = locale("de", vec![(k("a"), leaf("y"))]);
    let mut warnings: Vec<Warning> = Vec::new();
    let r = Locale::check_locales(LocalesOrNamespaces::Locales(vec![en, de]), &mut warnings);
    match r {
        Err(Error::ShapeMismatch { key_path, expected, found }) => {
            assert!(path_names(&key_path) == vec![String::from("a")]);
            assert!(matches!(expected, Shape::Subtree));
            assert!(matches!(found, Shape::Leaf));
        }
        _ => panic!("expected a shape mismatch"),
    }
}

#[test]
fn self_merge_is_clean() {
    let mut en = locale("en", vec![(k("a"), leaf_ik("hi {who}", &["who"])), (
        k("sub"),
        subtree("en", "sub", vec![(k("x"), leaf("1"))]),
    )]);
    let mut keys = en.make_builder_keys();
    let mut key_path = KeyPath::new(None);
    let mut warnings: Vec<Warning> = Vec::new();
    let r = en.merge(&mut keys, &k("en"), &k("en"), &mut key_path, &mut warnings);
    assert!(r.is_ok());
    assert!(warnings.is_empty());
}

#[test]
fn mixed_scenario_reports_only_the_surplus() {
    let en = locale("en", vec![(k("greeting"), leaf_ik("hi {name}", &["name"])), (
        k("nested"),
        subtree("en", "nested", vec![(k("a"), leaf("x"))]),
    )]);
    let fr = locale("fr", vec![(k("greeting"), leaf_ik("salut {name}", &["name"])), (
        k("nested"),
        subtree("fr", "nested", vec![(k("a"), leaf("y")), (k("b"), leaf("z"))]),
    )]);
    let mut warnings: Vec<Warning> = Vec::new();
    let r = Locale::check_locales(LocalesOrNamespaces::Locales(vec![en, fr]), &mut warnings);
    match r {
        Ok(BuildersKeys::Locales { keys, .. }) => {
            match schema_get(&keys, "greeting") {
                Some(LocaleValue::Value(Some(iks))) => {
                    assert!(iks.len() == 1);
                    assert!(iks[0] == k("name"));
                }
                _ => panic!("greeting must be a leaf requiring its interpolation key"),
            }
            match schema_get(&keys, "nested") {
                Some(LocaleValue::Subkeys { keys: inner, .. }) => {
                    assert!(inner.0.len() == 1);
                    assert!(inner.0[0].0 == k("a"));
                }
                _ => panic!("nested must be a subtree"),
            }
        }
        _ => panic!("expected success"),
    }
    assert!(warnings.len() == 1);
    match &warnings[0] {
        Warning::SurplusKey { locale, key_path } => {
            assert!(*locale == k("fr"));
            assert!(path_names(key_path) == vec![String::from("nested"), String::from("b")]);
        }
        _ => panic!("expected the surplus warning at nested.b"),
    }
}

#[test]
fn empty_interpolation_set_is_canonicalized() {
    let en = locale("en", vec![(k("a"), leaf_ik("x", &[]))]);
    let mut warnings: Vec<Warning> = Vec::new();
    let r = Locale::check_locales(LocalesOrNamespaces::Locales(vec![en]), &mut warnings);
    match r {
        Ok(BuildersKeys::Locales { keys, .. }) => {
            assert!(matches!(schema_get(&keys, "a"), Some(LocaleValue::Value(None))));
        }
        _ => panic!("expected success"),
    }
}

#[test]
fn namespaced_warnings_carry_the_namespace() {
    let common_en = locale("en", vec![(k("title"), leaf("T"))]);
    let common_de = locale("de", vec![]);
    let extra_en = locale("en", vec![(k("foot"), leaf("F"))]);
    let extra_de = locale("de", vec![(k("foot"), leaf("f"))]);
    let project = LocalesOrNamespaces::NameSpaces(vec![
        Namespace::new(k("common"), vec![common_en, common_de]),
        Namespace::new(k("extra"), vec![extra_en, extra_de]),
    ]);
    let mut warnings: Vec<Warning> = Vec::new();
    let r = Locale::check_locales(project, &mut warnings);
    match r {
        Ok(BuildersKeys::NameSpaces { namespaces, keys }) => {
            assert!(namespaces.len() == 2);
            assert!(keys.len() == 2);
            assert!(keys[0].0 == k("common"));
            assert!(keys[1].0 == k("extra"));
        }
        _ => panic!("expected one schema per namespace"),
    }
    assert!(warnings.len() == 1);
    match &warnings[0] {
        Warning::MissingKey { locale, key_path } => {
            assert!(*locale == k("de"));
            assert!(key_path.namespace.as_ref().map(|n| n.name.clone())
                == Some(String::from("common")));
            assert!(path_names(key_path) == vec![String::from("title")]);
        }
        _ => panic!("expected the missing-key warning in the common namespace"),
    }
}

#[test]
fn namespaced_error_aborts_whole_resolution() {
    let a_en = locale("en", vec![(k("x"), leaf("1"))]);
    let a_fr = locale("fr", vec![(k("x"), leaf("2"))]);
    let b_en = locale("en", vec![(k("y"), leaf("1"))]);
    let b_fr = locale("fr", vec![(k("y"), subtree("fr", "y", vec![(k("z"), leaf("2"))]))]);
    let project = LocalesOrNamespaces::NameSpaces(vec![
        Namespace::new(k("a"), vec![a_en, a_fr]),
        Namespace::new(k("b"), vec![b_en, b_fr]),
    ]);
    let mut warnings: Vec<Warning> = Vec::new();
    let r = Locale::check_locales(project, &mut warnings);
    match r {
        Err(Error::ShapeMismatch { key_path, .. }) => {
            assert!(key_path.namespace.as_ref().map(|n| n.name.clone())
                == Some(String::from("b")));
            assert!(path_names(&key_path) == vec![String::from("y")]);
        }
        _ => panic!("expected the mismatch in namespace b"),
    }
}

#[test]
fn file_paths_follow_the_convention() {
    let flat = locale_file_path("locales", &k("en"), None, "json");
    assert_eq!(flat, "locales/en.json");
    let namespaced = locale_file_path("locales", &k("fr"), Some(&k("common")), "yaml");
    assert_eq!(namespaced, "locales/fr/common.yaml");
}

#[test]
fn project_assembly_tags_locale_identity() {
    let cfg = ConfigFile {
        locales: vec![k("en"), k("de")],
        name_spaces: None,
        locales_dir: String::from("locales"),
    };
    let files = vec![vec![(k("a"), leaf("x"))], vec![(k("a"), leaf("y"))]];
    let project = LocalesOrNamespaces::new(&cfg, files);
    match &project {
        LocalesOrNamespaces::Locales(ls) => {
            assert!(ls.len() == 2);
            assert!(ls[0].name == k("en"));
            assert!(ls[0].top_locale_name == k("en"));
            assert!(ls[1].name == k("de"));
        }
        _ => panic!("expected a flat project"),
    }
    let path = KeyPath { namespace: None, path: vec![k("a")] };
    match project.get_value_at(&k("de"), &path) {
        Some(ParsedValue::Value { text, .. }) => assert_eq!(text, "y"),
        _ => panic!("expected the de value for a"),
    }
}

#[test]
fn namespaced_assembly_and_lookup() {
    let cfg = ConfigFile {
        locales: vec![k("en"), k("de")],
        name_spaces: Some(vec![k("common"), k("extra")]),
        locales_dir: String::from("locales"),
    };
    let files = vec![
        vec![(k("t"), leaf("en-common"))],
        vec![(k("t"), leaf("de-common"))],
        vec![(k("u"), leaf("en-extra"))],
        vec![(k("u"), leaf("de-extra"))],
    ];
    let project = LocalesOrNamespaces::new(&cfg, files);
    match &project {
        LocalesOrNamespaces::NameSpaces(nss) => {
            assert!(nss.len() == 2);
            assert!(nss[0].key == k("common"));
            assert!(nss[1].key == k("extra"));
            assert!(nss[1].locales[1].name == k("de"));
        }
        _ => panic!("expected a namespaced project"),
    }
    let path = KeyPath { namespace: Some(k("extra")), path: vec![k("u")] };
    match project.get_value_at(&k("de"), &path) {
        Some(ParsedValue::Value { text, .. }) => assert_eq!(text, "de-extra"),
        _ => panic!("expected the de value for extra:u"),
    }
    let wrong = KeyPath { namespace: None, path: vec![k("u")] };
    assert!(project.get_value_at(&k("de"), &wrong).is_none());
}

#[test]
fn get_value_at_follows_subtrees_only() {
    let en = locale("en", vec![
        (k("a"), subtree("en", "a", vec![(k("b"), leaf("deep"))])),
        (k("c"), leaf("flat")),
    ]);
    let p_ab = vec![k("a"), k("b")];
    match en.get_value_at(&p_ab) {
        Some(ParsedValue::Value { text, .. }) => assert_eq!(text, "deep"),
        _ => panic!("expected the nested leaf"),
    }
    let p_cb = vec![k("c"), k("b")];
    assert!(en.get_value_at(&p_cb).is_none());
    let empty: Vec<Key> = Vec::new();
    assert!(en.get_value_at(&empty).is_none());
}

#[test]
fn errors_missing_schema_never_produced() {
    let en = locale("en", vec![(k("x"), ParsedValue::Inherit)]);
    let de = locale("de", vec![(k("x"), leaf("ok"))]);
    let mut warnings: Vec<Warning> = Vec::new();
    let r = Locale::check_locales(LocalesOrNamespaces::Locales(vec![en, de]), &mut warnings);
    assert!(r.is_err());
}
