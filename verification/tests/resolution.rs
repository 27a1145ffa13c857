use pcc::dependency_resolver::{
    should_ignore_file, DependencyResolver, LanguageResolver, ResolveStep, TsconfigFile,
};
use pcc::typescript_resolver::{ImportLookup, TypeScriptResolver};

fn strings(v: &[&str]) -> Vec<String> {
    v.iter().map(|s| s.to_string()).collect()
}

/// Takes steps while the walk asks for nothing and reports nothing.
fn settle(r: &mut DependencyResolver, mut step: ResolveStep) -> ResolveStep {
    while let ResolveStep::Continue = step {
        step = r.resume();
    }
    step
}

/// Supplies the imports, then walks to the next request, cycle or end.
fn supply(r: &mut DependencyResolver, imports: Vec<String>) -> ResolveStep {
    let step = r.supply_imports(imports);
    settle(r, step)
}

/// Walks on after a reported cycle, to the next request, cycle or end.
fn resume(r: &mut DependencyResolver) -> ResolveStep {
    let step = r.resume();
    settle(r, step)
}

fn sorted(mut v: Vec<String>) -> Vec<String> {
    v.sort();
    v
}

fn needs(step: &ResolveStep) -> String {
    match step {
        ResolveStep::NeedImports(f) => f.clone(),
        _ => panic!("expected a request for imports"),
    }
}

#[test]
fn node_modules_paths_are_ignored() {
    assert!(should_ignore_file("/p/node_modules/x/index.js"));
    assert!(!should_ignore_file("/p/src/modules/x.ts"));
}

#[test]
fn resolution_follows_imports_depth_first() {
    let mut r = DependencyResolver::with_aliases("/p".to_string(), None);
    let step = r.resolve_deps("/p/src/a.ts");
    assert_eq!(needs(&step), "/p/src/a.ts");
    let step = supply(&mut r, strings(&["/p/src/b.ts", "/p/node_modules/x/index.js", "/p/src/c.ts"]));
    assert_eq!(needs(&step), "/p/src/b.ts");
    let step = supply(&mut r, strings(&["/p/src/c.ts"]));
    assert_eq!(needs(&step), "/p/src/c.ts");
    let step = supply(&mut r, Vec::new());
    match step {
        ResolveStep::Finished(files) => {
            assert_eq!(sorted(files), strings(&["/p/src/a.ts", "/p/src/b.ts", "/p/src/c.ts"]));
        },
        _ => panic!("expected the resolution to finish"),
    }
    assert_eq!(sorted(r.get_all_importers("/p/src/c.ts")), strings(&["/p/src/a.ts", "/p/src/b.ts"]));
    assert_eq!(sorted(r.get_all_importers("/p/src/b.ts")), strings(&["/p/src/a.ts"]));
    assert!(r.get_all_importers("/p/src/a.ts").is_empty());
    assert!(r.get_all_importers("/p/node_modules/x/index.js").is_empty());
}

#[test]
fn cycles_are_reported_and_the_walk_goes_on() {
    let mut r = DependencyResolver::with_aliases("/p".to_string(), None);
    let step = r.resolve_deps("a.ts");
    assert_eq!(needs(&step), "a.ts");
    let step = supply(&mut r, strings(&["b.ts"]));
    assert_eq!(needs(&step), "b.ts");
    let step = supply(&mut r, strings(&["a.ts"]));
    match step {
        ResolveStep::CircularDependency(f) => assert_eq!(f, "a.ts"),
        _ => panic!("expected a cycle"),
    }
    let step = resume(&mut r);
    match step {
        ResolveStep::Finished(files) => assert_eq!(sorted(files), strings(&["a.ts", "b.ts"])),
        _ => panic!("expected the resolution to finish"),
    }
    assert_eq!(sorted(r.get_all_importers("a.ts")), strings(&["a.ts", "b.ts"]));
}

#[test]
fn a_new_resolution_forgets_the_previous_one() {
    let mut r = DependencyResolver::with_aliases("/p".to_string(), None);
    r.resolve_deps("a.ts");
    supply(&mut r, strings(&["b.ts"]));
    supply(&mut r, Vec::new());
    assert_eq!(r.get_all_importers("b.ts"), strings(&["a.ts"]));
    let step = r.resolve_deps("c.ts");
    assert_eq!(needs(&step), "c.ts");
    match supply(&mut r, Vec::new()) {
        ResolveStep::Finished(files) => assert_eq!(files, strings(&["c.ts"])),
        _ => panic!("expected the resolution to finish"),
    }
    assert!(r.get_all_importers("b.ts").is_empty());
}

#[test]
fn tsconfig_paths_become_aliases() {
    let file = TsconfigFile::Read(
        "{\"compilerOptions\": {\"paths\": {\"@/*\": [\"src/*\"], \"~x\": [1], \"lib\": []}}}".to_string(),
    );
    let aliases = DependencyResolver::load_tsconfig_aliases(&file).ok().unwrap();
    assert_eq!(aliases, vec![("@".to_string(), "src".to_string())]);
    assert!(DependencyResolver::load_tsconfig_aliases(&TsconfigFile::Missing).ok().unwrap().is_empty());
    assert!(DependencyResolver::load_tsconfig_aliases(&TsconfigFile::Read("not json".to_string())).ok().unwrap().is_empty());
    assert!(DependencyResolver::load_tsconfig_aliases(&TsconfigFile::Unreadable).is_err());

    let r = DependencyResolver::new("/proj", true, &file).unwrap();
    assert_eq!(r.get_base_path(), "/proj");
    assert_eq!(r.get_alias_map(), Some(&vec![("@".to_string(), "src".to_string())]));
    assert!(DependencyResolver::new("/proj", true, &TsconfigFile::Unreadable).unwrap().get_alias_map().is_none());
    assert!(DependencyResolver::new("/proj", false, &file).unwrap().get_alias_map().is_none());
    assert_eq!(DependencyResolver::new("/proj", true, &TsconfigFile::Missing).unwrap().get_alias_map(), Some(&Vec::new()));
}

#[test]
fn supported_files_have_script_extensions() {
    assert!(TypeScriptResolver::is_supported_file("src/a.ts"));
    assert!(TypeScriptResolver::is_supported_file("src/App.tsx"));
    assert!(TypeScriptResolver::is_supported_file("index.js"));
    assert!(TypeScriptResolver::is_supported_file("x.jsx"));
    assert!(TypeScriptResolver::is_supported_file("types.d.ts"));
    assert!(!TypeScriptResolver::is_supported_file("main.rs"));
    assert!(!TypeScriptResolver::is_supported_file("Makefile"));
    assert!(!TypeScriptResolver::is_supported_file("A.TS"));
}

#[test]
fn resolve_settings_list_the_module_options() {
    let s = TypeScriptResolver::resolve_settings();
    assert_eq!(s.extensions, strings(&[".ts", ".tsx", ".js", ".jsx"]));
    assert_eq!(s.condition_names, strings(&["import", "require"]));
    assert_eq!(s.description_files, strings(&["package.json"]));
    assert_eq!(s.modules, strings(&["node_modules"]));
}

#[test]
fn imports_are_found_in_sources() {
    let mut ts = TypeScriptResolver::new().expect("the TypeScript grammar loads");
    let source = "import { a } from './b';\nimport \"./side.css\";\nconst z = 1;\n";
    assert_eq!(ts.get_imports(source), strings(&["./b", "./side.css"]));
    assert!(ts.get_imports("const x = 1;\n").is_empty());
}

fn from_source(l: ImportLookup) -> (String, String, String) {
    match l {
        ImportLookup::FromSource { direct_path, src_dir, specifier } => (direct_path, src_dir, specifier),
        ImportLookup::FromDirectory { .. } => panic!("expected a lookup from the source directory"),
    }
}

fn from_directory(l: ImportLookup) -> (String, String) {
    match l {
        ImportLookup::FromDirectory { directory, specifier } => (directory, specifier),
        ImportLookup::FromSource { .. } => panic!("expected a lookup from the file's directory"),
    }
}

#[test]
fn imports_are_looked_up_by_kind() {
    let ts = TypeScriptResolver::new().expect("the TypeScript grammar loads");
    let r = DependencyResolver::with_aliases("/proj".to_string(), None);
    assert_eq!(
        from_directory(ts.resolve_import_with_resolver("./b", "/proj/src/app/a.ts", &r)),
        ("/proj/src/app".to_string(), "./b".to_string())
    );
    assert_eq!(
        from_source(ts.resolve_import_with_resolver("lodash", "/proj/src/app/a.ts", &r)),
        ("/proj/src/lodash".to_string(), "/proj/src".to_string(), "lodash".to_string())
    );
    assert_eq!(
        from_source(ts.resolve_import_with_resolver("~/utils/x", "/proj/src/app/a.ts", &r)),
        ("/proj/src/utils/x.ts".to_string(), "/proj/src".to_string(), "utils/x.ts".to_string())
    );
    assert_eq!(
        from_source(ts.resolve_import_with_resolver("~//styles/a.css", "/proj/src/a.ts", &r)),
        ("/proj/src/styles/a.css".to_string(), "/proj/src".to_string(), "styles/a.css".to_string())
    );
    assert_eq!(
        from_source(ts.resolve_import_with_resolver("@/comp", "/proj/src/a.ts", &r)),
        ("/proj/src/@/comp".to_string(), "/proj/src".to_string(), "@/comp".to_string())
    );
    assert_eq!(
        from_source(ts.resolve_import_with_resolver("react", "/other/app/a.ts", &r)),
        ("/other/app/src/react".to_string(), "/other/app/src".to_string(), "react".to_string())
    );
    assert_eq!(
        from_source(ts.resolve_import_with_resolver("x", "a.ts", &r)),
        ("src/x".to_string(), "src".to_string(), "x".to_string())
    );
    assert_eq!(from_directory(ts.resolve_import_with_resolver("./b", "a.ts", &r)), (String::new(), "./b".to_string()));
}

#[test]
fn aliased_imports_are_looked_up_from_the_base_path() {
    let ts = TypeScriptResolver::new().expect("the TypeScript grammar loads");
    let r = DependencyResolver::with_aliases(
        "/proj".to_string(),
        Some(vec![
            ("./lib".to_string(), "../shared/lib".to_string()),
            ("./l".to_string(), "never".to_string()),
        ]),
    );
    assert_eq!(
        from_directory(ts.resolve_import_with_resolver("./lib/x", "/proj/src/a.ts", &r)),
        ("/proj".to_string(), "/proj/../shared/lib/x".to_string())
    );
    assert_eq!(
        from_directory(ts.resolve_import_with_resolver("./long", "/proj/src/a.ts", &r)),
        ("/proj/src".to_string(), "./long".to_string())
    );
    assert_eq!(
        from_directory(ts.resolve_import_with_resolver("../up", "/proj/src/a.ts", &r)),
        ("/proj/src".to_string(), "../up".to_string())
    );
}

#[test]
fn readme_path_alias_example() {
    let ts = TypeScriptResolver::new().expect("the TypeScript grammar loads");
    let file = TsconfigFile::Read("{\"compilerOptions\": {\"paths\": {\"@/*\": [\"src/*\"]}}}".to_string());
    let r = DependencyResolver::new("/proj", true, &file).unwrap();
    assert_eq!(
        from_directory(ts.resolve_import_with_resolver("@/components/Button", "/proj/src/pages/Home.tsx", &r)),
        ("/proj".to_string(), "/proj/src/components/Button".to_string())
    );
    assert_eq!(
        from_source(ts.resolve_import_with_resolver("@mui/material", "/proj/src/pages/Home.tsx", &r)),
        ("/proj/src/@mui/material".to_string(), "/proj/src".to_string(), "@mui/material".to_string())
    );
    assert_eq!(
        from_directory(ts.resolve_import_with_resolver("@", "/proj/src/pages/Home.tsx", &r)),
        ("/proj".to_string(), "/proj/src".to_string())
    );
}

#[test]
fn captures_are_unquoted() {
    assert_eq!(pcc::typescript_resolver::unquote_import("'./a'"), "./a");
    assert_eq!(pcc::typescript_resolver::unquote_import("\"'b'\""), "b");
    assert_eq!(pcc::typescript_resolver::unquote_import("c"), "c");
}

#[test]
fn paths_are_taken_by_their_components() {
    let mut r = DependencyResolver::with_aliases("/p".to_string(), None);
    let step = r.resolve_deps("src//a.ts");
    assert_eq!(needs(&step), "src/a.ts");
    let step = supply(&mut r, strings(&["src/./b.ts", "src/a.ts/"]));
    assert_eq!(needs(&step), "src/b.ts");
    let step = supply(&mut r, strings(&["src//a.ts"]));
    match step {
        ResolveStep::CircularDependency(f) => assert_eq!(f, "src/a.ts"),
        _ => panic!("expected a cycle"),
    }
    let step = resume(&mut r);
    match step {
        ResolveStep::CircularDependency(f) => assert_eq!(f, "src/a.ts"),
        _ => panic!("expected the self-import to close a cycle"),
    }
    match resume(&mut r) {
        ResolveStep::Finished(files) => assert_eq!(sorted(files), strings(&["src/a.ts", "src/b.ts"])),
        _ => panic!("expected the resolution to finish"),
    }
    assert_eq!(sorted(r.get_all_importers("src/./b.ts")), strings(&["src/a.ts", "src/b.ts"]));
    assert_eq!(sorted(r.get_all_importers("src//a.ts")), strings(&["src/a.ts", "src/b.ts"]));
}

#[test]
fn an_import_of_a_file_in_progress_is_reported() {
    let mut r = DependencyResolver::with_aliases("/p".to_string(), None);
    r.resolve_deps("a.ts");
    match supply(&mut r, strings(&["a.ts", "b.ts"])) {
        ResolveStep::CircularDependency(f) => assert_eq!(f, "a.ts"),
        _ => panic!("expected the self-import to be reported"),
    }
    assert_eq!(needs(&resume(&mut r)), "b.ts");
}

#[test]
fn each_step_follows_one_import() {
    let mut r = DependencyResolver::with_aliases("/p".to_string(), None);
    r.resolve_deps("a.ts");
    let step = r.supply_imports(strings(&["b.ts", "/p/node_modules/x/index.js", "b.ts"]));
    assert_eq!(needs(&step), "b.ts");
    // b.ts has no imports: the walk leaves it
    assert!(matches!(r.supply_imports(Vec::new()), ResolveStep::Continue));
    // the import under node_modules is passed over
    assert!(matches!(r.resume(), ResolveStep::Continue));
    // b.ts is resolved already
    assert!(matches!(r.resume(), ResolveStep::Continue));
    // all imports of a.ts were followed: the walk leaves it
    assert!(matches!(r.resume(), ResolveStep::Continue));
    match r.resume() {
        ResolveStep::Finished(files) => assert_eq!(sorted(files), strings(&["a.ts", "b.ts"])),
        _ => panic!("expected the resolution to finish"),
    }
}

#[test]
fn the_project_stays_through_resolutions() {
    let aliases = vec![("@".to_string(), "src".to_string())];
    let mut r = DependencyResolver::with_aliases("/p".to_string(), Some(aliases.clone()));
    r.resolve_deps("a.ts");
    assert!(matches!(supply(&mut r, strings(&["a.ts"])), ResolveStep::CircularDependency(_)));
    assert!(matches!(resume(&mut r), ResolveStep::Finished(_)));
    assert_eq!(r.get_all_importers("a.ts"), strings(&["a.ts"]));
    r.resolve_deps("b.ts");
    assert_eq!(r.get_base_path(), "/p");
    assert_eq!(r.get_alias_map(), Some(&aliases));
}
