use johnfig::{
    dedup_paths, gather, ConfigBuilder, ConfigFile, DirListing, DirLocator, DirWalkLocator, Error, Loader,
    Locator, Value, ValueMap, WalkDirLocator,
};

fn strings(v: &[&str]) -> Vec<String> {
    v.iter().map(|s| s.to_string()).collect()
}

fn file(dir: &str, name: &str) -> String {
    format!("{}/{}", dir, name)
}

fn exts() -> Vec<String> {
    strings(&["json", "toml"])
}

fn context() -> Vec<(String, String)> {
    vec![("name".to_string(), "simple".to_string()), ("env".to_string(), "dev".to_string())]
}

#[test]
fn compiles_one_pattern_per_template_and_extension() {
    let finder = ConfigBuilder::new()
        .with_name_pattern("{name}.config.{ext}".to_string())
        .with_name_pattern("*-{env}.{ext}".to_string())
        .build_with(&exts(), &context())
        .unwrap();
    let texts: Vec<&str> = finder.patterns().iter().map(|p| p.as_str()).collect();
    assert_eq!(texts, vec!["simple.config.json", "simple.config.toml", "*-dev.json", "*-dev.toml"]);
}

#[test]
fn unknown_placeholder_fails_the_build() {
    let r = ConfigBuilder::new().with_name_pattern("{nope}.{ext}".to_string()).build(&exts());
    assert!(matches!(r, Err(Error::Template { template }) if template == "{nope}.{ext}"));
}

#[test]
fn invalid_glob_fails_the_build() {
    let r = ConfigBuilder::new().with_name_pattern("a[.{ext}".to_string()).build(&exts());
    assert!(matches!(r, Err(Error::Pattern { pattern }) if pattern == "a[.json"));
}

#[test]
fn relative_search_path_is_refused() {
    let r = ConfigBuilder::new().with_search_path("relative/dir".to_string());
    assert!(matches!(r, Err(Error::NotAbsolute { path }) if path == "relative/dir"));
    assert!(ConfigBuilder::new().with_search_path("/etc".to_string()).is_ok());
    assert!(matches!(WalkDirLocator::new("x".to_string()), Err(Error::NotAbsolute { .. })));
}

#[test]
fn matches_by_file_name() {
    let finder = ConfigBuilder::new()
        .with_name_pattern("{name}.config.{ext}".to_string())
        .with_name_pattern("*-{env}.{ext}".to_string())
        .build_with(&exts(), &context())
        .unwrap();
    assert!(finder.matches(&file("/d", "simple.config.json")));
    assert!(finder.matches(&file("/d", "app-dev.toml")));
    assert!(!finder.matches(&file("/d", "app-prod.toml")));
    assert!(!finder.matches(&file("/d", "simple.config.yaml")));
    assert!(finder.matche_any(&vec![file("/d", "x.txt"), file("/d", "a-dev.json")]));
    assert!(!finder.matche_any(&vec![file("/d", "x.txt")]));
    assert!(!finder.matche_any(&vec![]));
}

fn tree() -> DirListing {
    // /r: a.json ; /r/s: b.json ; /r/s/t: c.json
    let t = DirListing { path: "/r/s/t".to_string(), files: vec![file("/r/s/t", "c.json")], dirs: vec![] };
    let s = DirListing { path: "/r/s".to_string(), files: vec![file("/r/s", "b.json"), file("/r/s", "b.txt")], dirs: vec![t] };
    DirListing { path: "/r".to_string(), files: vec![file("/r", "a.json")], dirs: vec![s] }
}

fn json_finder(locators: Vec<Locator>) -> johnfig::ConfigFinder {
    let mut b = ConfigBuilder::new().with_name_pattern("*.{ext}".to_string());
    for l in locators {
        b = b.with_locator(l);
    }
    b.build(&strings(&["json"])).unwrap()
}

#[test]
fn walk_respects_depth_bound() {
    let pats = json_finder(vec![]).patterns().iter().map(|p| johnfig::CompiledPattern::new(p.as_str().to_string()).unwrap()).collect::<Vec<_>>();
    let w0 = WalkDirLocator::new("/r".to_string()).unwrap();
    assert_eq!(w0.locate(&tree(), &pats), strings(&["/r/a.json", "/r/s/b.json", "/r/s/t/c.json"]));
    let w1 = WalkDirLocator::new("/r".to_string()).unwrap().depth(1);
    assert_eq!(w1.max_depth(), 1);
    assert_eq!(w1.locate(&tree(), &pats), strings(&["/r/a.json", "/r/s/b.json"]));
    let w2: DirWalkLocator = WalkDirLocator::new("/r".to_string()).unwrap().depth(2);
    assert_eq!(w2.locate(&tree(), &pats), strings(&["/r/a.json", "/r/s/b.json", "/r/s/t/c.json"]));
    let flat = DirLocator("/r".to_string());
    assert_eq!(flat.locate(&tree(), &pats), strings(&["/r/a.json"]));
}

#[test]
fn files_dedup_first_locator_wins() {
    let finder = json_finder(vec![
        Locator::Dir(DirLocator("/r/s".to_string())),
        Locator::Walk(WalkDirLocator::new("/r".to_string()).unwrap()),
    ]);
    let s = tree().dirs.remove(0);
    let found = finder.files(&vec![s, tree()]);
    assert_eq!(found, strings(&["/r/s/b.json", "/r/a.json", "/r/s/t/c.json"]));
}

#[test]
fn dedup_keeps_first_occurrence() {
    let r = dedup_paths(strings(&["/b", "/a", "/b", "/c", "/a"]));
    assert_eq!(r, strings(&["/b", "/a", "/c"]));
    assert!(dedup_paths(vec![]).is_empty());
}

#[test]
fn loader_finds_first_format() {
    let l = Loader::new().with_encoder(strings(&["json"])).with_encoder(strings(&["yaml", "yml"])).with_encoder(strings(&["yml"]));
    assert_eq!(l.extensions(), strings(&["json", "yaml", "yml", "yml"]));
    assert_eq!(l.find("yml"), Some(1));
    assert_eq!(l.find("json"), Some(0));
    assert_eq!(l.find("toml"), None);
}

fn cf(path: &str) -> ConfigFile {
    ConfigFile { config: ValueMap::new(), path: path.to_string() }
}

#[test]
fn gather_strict_and_lenient() {
    let results = || {
        vec![
            Ok(cf("/a")),
            Err(Error::Decode { path: "/b".to_string(), message: "bad".to_string() }),
            Ok(cf("/c")),
            Err(Error::Io { path: "/d".to_string(), message: "gone".to_string() }),
        ]
    };
    match gather(results(), true) {
        Err(Error::Decode { path, .. }) => assert_eq!(path, "/b"),
        _ => panic!("expected the first error"),
    }
    let ok = gather(results(), false).unwrap();
    let paths: Vec<&str> = ok.iter().map(|f| f.path.as_str()).collect();
    assert_eq!(paths, vec!["/a", "/c"]);
    assert_eq!(gather(vec![Ok(cf("/a"))], true).unwrap().len(), 1);
}

#[test]
fn finder_config_orders_by_path() {
    let finder = json_finder(vec![]);
    let mut a = ValueMap::new();
    a.insert("x".to_string(), Value::I64(1));
    let mut b = ValueMap::new();
    b.insert("x".to_string(), Value::I64(2));
    b.insert("y".to_string(), Value::I64(3));
    let c = finder.config(
        ValueMap::new(),
        vec![ConfigFile { config: b, path: "/d/b.json".to_string() }, ConfigFile { config: a, path: "/d/a.json".to_string() }],
    );
    assert_eq!(c.get("x"), Some(&Value::I64(2)));
    assert_eq!(c.get("y"), Some(&Value::I64(3)));
    assert_eq!(c.files(), &strings(&["/d/a.json", "/d/b.json"]));
}

#[test]
fn panicking_template_forms_are_refused() {
    for t in ["{{ if not }}.{ext}", "{# c #}{ext}", "{#}", "a.{ext}\\"] {
        let r = ConfigBuilder::new().with_name_pattern(t.to_string()).build(&exts());
        assert!(matches!(r, Err(Error::Template { template }) if template == t));
    }
    assert!(johnfig::check_template("{name}.config.{ext}"));
    assert!(!johnfig::check_template("{{ if not }}"));
}

#[test]
fn file_names_and_format_keys() {
    assert_eq!(johnfig::file_name("/etc/app/a.config.json"), "a.config.json");
    assert_eq!(johnfig::file_name("plain"), "plain");
    assert_eq!(johnfig::format_key("/etc/app/a.config.json", "json"), "json");
    assert_eq!(johnfig::format_key("/etc/app/b.toml", "json"), "toml");
    assert_eq!(johnfig::format_key("/etc/app/noext", "yaml"), "yaml");
    assert_eq!(johnfig::format_key("/etc/app/.hidden", "yaml"), "yaml");
    assert_eq!(johnfig::format_key("/etc/a.d/file", "ron"), "ron");
}

#[test]
fn unreadable_root_is_reported() {
    let finder = json_finder(vec![
        Locator::Dir(DirLocator("/gone".to_string())),
        Locator::Walk(WalkDirLocator::new("/r".to_string()).unwrap()),
    ]);
    let outcomes = || vec![Err(Error::Io { path: "/gone".to_string(), message: "missing".to_string() }), Ok(tree())];
    match finder.locate_all(outcomes(), true) {
        Err(Error::Io { path, .. }) => assert_eq!(path, "/gone"),
        _ => panic!("a strict search fails on the unreadable root"),
    }
    let (files, errors) = finder.locate_all(outcomes(), false).unwrap();
    assert_eq!(files, strings(&["/r/a.json", "/r/s/b.json", "/r/s/t/c.json"]));
    assert_eq!(errors.len(), 1);
}
