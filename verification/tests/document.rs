use pcc::config::ProcessingOptions;
use pcc::dependency_resolver::{DependencyResolver, ResolveStep};
use pcc::processor::{
    display_path, format_file_content, plan_listed_file, plan_target, process_single_file,
    process_single_file_with_importers, FileAction, FileProcessor, Section,
};

const HEADER: &str = "<?xml version=\"1.0\" encoding=\"UTF-8\"?>\n<project>\n";

fn strings(v: &[&str]) -> Vec<String> {
    v.iter().map(|s| s.to_string()).collect()
}

/// Takes steps while the walk asks for nothing and reports nothing.
fn settle(r: &mut DependencyResolver, mut step: ResolveStep) -> ResolveStep {
    while let ResolveStep::Continue = step {
        step = r.resume();
    }
    step
}

/// Supplies the imports, then walks to the next request, cycle or end.
fn supply(r: &mut DependencyResolver, imports: Vec<String>) -> ResolveStep {
    let step = r.supply_imports(imports);
    settle(r, step)
}

fn options(ignore: &str, relative: bool, deps: bool) -> ProcessingOptions {
    ProcessingOptions {
        ignore_patterns: ignore.to_string(),
        use_relative_paths: relative,
        deps,
        target_files: Vec::new(),
        reference_files: Vec::new(),
    }
}

#[test]
fn a_file_block_indents_each_line() {
    assert_eq!(
        format_file_content("src/main.rs", "fn main() {\n}\n"),
        "  <file name=\"src/main.rs\">\n    fn main() {\n    }\n  </file>\n"
    );
    assert_eq!(format_file_content("e.txt", ""), "  <file name=\"e.txt\">\n\n  </file>\n");
}

#[test]
fn names_are_relative_to_the_current_directory_when_asked() {
    assert_eq!(display_path("/home/u/p/src/a.rs", true, "/home/u/p"), "src/a.rs");
    assert_eq!(display_path("/home/u/p/src/a.rs", false, "/home/u/p"), "/home/u/p/src/a.rs");
    assert_eq!(display_path("src/a.rs", false, "/home/u/p"), "/home/u/p/src/a.rs");
    assert_eq!(display_path("src/a.rs", true, "/home/u/p"), "src/a.rs");
    assert_eq!(display_path("/elsewhere/a.rs", true, "/home/u/p"), "/elsewhere/a.rs");
}

#[test]
fn ignored_files_add_nothing() {
    let o = options("*.log", true, false);
    assert_eq!(process_single_file("debug.log", &o, "/w", "text"), "");
    assert_eq!(
        process_single_file("/w/src/a.rs", &o, "/w", "let x = 1;"),
        "  <file name=\"src/a.rs\">\n    let x = 1;\n  </file>\n"
    );
    let importers = strings(&["/w/a.ts"]);
    assert_eq!(process_single_file_with_importers("x.log", &o, &importers, "/w", "t"), "");
}

#[test]
fn dependency_blocks_list_their_importers() {
    let o = options("", true, true);
    assert_eq!(
        process_single_file_with_importers("/p/src/b.ts", &o, &strings(&["/p/src/a.ts"]), "/p", "x\n"),
        "  <file name=\"src/b.ts\">\n    <imported_by>\n      <importer>src/a.ts</importer>\n    </imported_by>\n    x\n  </file>\n"
    );
    assert_eq!(
        process_single_file_with_importers("b.ts", &o, &Vec::new(), "/p", "y"),
        "  <file name=\"b.ts\">\n    y\n  </file>\n"
    );
}

#[test]
fn an_empty_document_has_only_the_frame() {
    let p = FileProcessor::new();
    assert_eq!(p.finalize(), format!("{}</project>\n", HEADER));
}

#[test]
fn listed_files_form_sections() {
    let o = options("", true, false);
    let mut p = FileProcessor::new();
    p.add_listed_files(Section::Targets, &strings(&["main.rs"]), &o, "/w", &strings(&["fn main() {}"]));
    p.add_listed_files(Section::References, &Vec::new(), &o, "/w", &Vec::new());
    p.add_listed_files(Section::References, &strings(&["lib.rs"]), &o, "/w", &strings(&["pub fn f() {}"]));
    assert!(p.is_processed("main.rs"));
    assert!(p.is_processed("lib.rs"));
    assert!(!p.is_processed("other.rs"));
    assert_eq!(
        p.finalize(),
        format!(
            "{}  <targets>\n    <file name=\"main.rs\">\n      fn main() {{}}\n    </file>\n  </targets>\n  <references>\n    <file name=\"lib.rs\">\n      pub fn f() {{}}\n    </file>\n  </references>\n</project>\n",
            HEADER
        )
    );
}

#[test]
fn targets_and_walked_files_are_planned() {
    let mut o = options("*.log", true, true);
    o.target_files = strings(&["t.ts"]);
    o.reference_files = strings(&["r.rs"]);
    assert!(matches!(plan_target(&o, "a.ts", true), FileAction::WithDependencies));
    assert!(matches!(plan_target(&o, "a.rs", true), FileAction::Single));
    assert!(matches!(plan_target(&o, "dir", false), FileAction::Skip));
    assert!(matches!(plan_target(&o, "t.ts", true), FileAction::Skip));
    assert!(matches!(plan_target(&o, "r.rs", true), FileAction::Skip));
    assert!(matches!(plan_target(&o, "x.log", true), FileAction::Single));

    let mut p = FileProcessor::new();
    p.add_file("seen.rs", &o, "/w", "x");
    assert!(matches!(p.plan_walk_entry(&o, "seen.rs", true), FileAction::Skip));
    assert!(matches!(p.plan_walk_entry(&o, "x.log", true), FileAction::Skip));
    assert!(matches!(p.plan_walk_entry(&o, "t.ts", true), FileAction::Skip));
    assert!(matches!(p.plan_walk_entry(&o, "new.rs", false), FileAction::Skip));
    assert!(matches!(p.plan_walk_entry(&o, "new.rs", true), FileAction::Single));
    assert!(matches!(p.plan_walk_entry(&o, "new.tsx", true), FileAction::WithDependencies));
    let no_deps = options("", true, false);
    assert!(matches!(p.plan_walk_entry(&no_deps, "new.tsx", true), FileAction::Single));
}

fn finish(step: ResolveStep) -> Vec<String> {
    match step {
        ResolveStep::Finished(files) => files,
        _ => panic!("expected the resolution to finish"),
    }
}

#[test]
fn dependencies_follow_the_files_in_path_order() {
    let o = options("", true, true);
    let mut r = DependencyResolver::with_aliases("/p".to_string(), None);
    r.resolve_deps("a.ts");
    supply(&mut r, strings(&["c.ts", "b.ts"]));
    supply(&mut r, Vec::new());
    let files = finish(supply(&mut r, Vec::new()));
    let mut p = FileProcessor::new();
    p.process_file_with_deps("a.ts", &o, "/p", "A", &files, &r);
    p.process_file_with_deps("a.ts", &o, "/p", "again", &files, &r);
    let pending = p.pending_dependencies();
    assert_eq!(pending, strings(&["b.ts", "c.ts"]));
    p.add_dependencies_section(&o, "/p", &strings(&["B", "C\nD"]));
    assert!(p.is_processed("b.ts"));
    assert!(p.pending_dependencies().is_empty());
    assert_eq!(
        p.finalize(),
        format!(
            "{}  <file name=\"a.ts\">\n    A\n  </file>\n  <dependencies>\n    <file name=\"b.ts\">\n      <imported_by>\n        <importer>a.ts</importer>\n      </imported_by>\n      B\n    </file>\n    <file name=\"c.ts\">\n      <imported_by>\n        <importer>a.ts</importer>\n      </imported_by>\n      C\n      D\n    </file>\n  </dependencies>\n</project>\n",
            HEADER
        )
    );
}

#[test]
fn ignored_and_already_added_dependencies_are_left_out() {
    let o = options("*.css", true, true);
    let mut r = DependencyResolver::with_aliases("/p".to_string(), None);
    r.resolve_deps("a.ts");
    supply(&mut r, strings(&["s.css", "b.ts"]));
    supply(&mut r, Vec::new());
    let files = finish(supply(&mut r, Vec::new()));
    let mut p = FileProcessor::new();
    p.add_file("b.ts", &o, "/p", "B");
    p.process_file_with_deps("a.ts", &o, "/p", "A", &files, &r);
    assert!(p.pending_dependencies().is_empty());
    p.add_dependencies_section(&o, "/p", &Vec::new());
    assert_eq!(
        p.finalize(),
        format!(
            "{}  <file name=\"b.ts\">\n    B\n  </file>\n  <file name=\"a.ts\">\n    A\n  </file>\n  <dependencies>\n  </dependencies>\n</project>\n",
            HEADER
        )
    );
}

#[test]
fn no_dependencies_no_section() {
    let o = options("", true, false);
    let mut p = FileProcessor::new();
    p.add_file("a.rs", &o, "/p", "A");
    p.add_dependencies_section(&o, "/p", &Vec::new());
    assert_eq!(p.finalize(), format!("{}  <file name=\"a.rs\">\n    A\n  </file>\n</project>\n", HEADER));
}

#[test]
fn readme_sections_example() {
    let mut o = options("", true, false);
    o.target_files = strings(&["main.rs"]);
    o.reference_files = strings(&["lib.rs"]);
    let mut p = FileProcessor::new();
    p.add_listed_files(Section::Targets, &o.target_files, &o, "/w", &strings(&["// Files you want to edit\n"]));
    p.add_listed_files(Section::References, &o.reference_files, &o, "/w", &strings(&["// Files for context\n"]));
    let expected = "<?xml version=\"1.0\" encoding=\"UTF-8\"?>
<project>
  <targets>
    <file name=\"main.rs\">
      // Files you want to edit
    </file>
  </targets>
  <references>
    <file name=\"lib.rs\">
      // Files for context
    </file>
  </references>
</project>
";
    assert_eq!(p.finalize(), expected);
}

#[test]
fn readme_output_format_example() {
    let o = options("", true, false);
    let mut p = FileProcessor::new();
    p.add_file(
        "/proj/src/main.rs",
        &o,
        "/proj",
        "// File contents with proper indentation\nfn main() {\n    println!(\"Hello, World!\");\n}\n",
    );
    p.add_file(
        "/proj/src/lib.rs",
        &o,
        "/proj",
        "// Another file's contents\npub fn add(a: i32, b: i32) -> i32 {\n    a + b\n}\n",
    );
    let expected = "<?xml version=\"1.0\" encoding=\"UTF-8\"?>
<project>
  <file name=\"src/main.rs\">
    // File contents with proper indentation
    fn main() {
        println!(\"Hello, World!\");
    }
  </file>
  <file name=\"src/lib.rs\">
    // Another file's contents
    pub fn add(a: i32, b: i32) -> i32 {
        a + b
    }
  </file>
</project>
";
    assert_eq!(p.finalize(), expected);
}

#[test]
fn readme_dependencies_example() {
    let o = options("", true, true);
    let app = "src/components/App.tsx";
    let button = "src/components/Button.tsx";
    let theme = "src/hooks/useTheme.ts";
    let mut r = DependencyResolver::with_aliases("/proj".to_string(), None);
    r.resolve_deps(app);
    supply(&mut r, strings(&[button, theme]));
    supply(&mut r, strings(&["/proj/node_modules/@mui/material/styles/index.js", theme]));
    let files = finish(supply(&mut r, Vec::new()));
    let mut p = FileProcessor::new();
    p.process_file_with_deps(app, &o, "/proj", "export function App() {}\n", &files, &r);
    assert_eq!(p.pending_dependencies(), strings(&[button, theme]));
    p.add_dependencies_section(
        &o,
        "/proj",
        &strings(&["export const Button = 1;\n", "export const useTheme = () => {\n  // Theme implementation\n};\n"]),
    );
    let out = p.finalize();
    let expected_start = "<?xml version=\"1.0\" encoding=\"UTF-8\"?>
<project>
  <file name=\"src/components/App.tsx\">
    export function App() {}
  </file>
  <dependencies>
    <file name=\"src/components/Button.tsx\">
      <imported_by>
        <importer>src/components/App.tsx</importer>
      </imported_by>
      export const Button = 1;
    </file>
    <file name=\"src/hooks/useTheme.ts\">
      <imported_by>
";
    assert!(out.starts_with(expected_start));
    let rest = &out[expected_start.len()..];
    let app_first = "        <importer>src/components/App.tsx</importer>\n        <importer>src/components/Button.tsx</importer>\n";
    let button_first = "        <importer>src/components/Button.tsx</importer>\n        <importer>src/components/App.tsx</importer>\n";
    assert!(rest.starts_with(app_first) || rest.starts_with(button_first));
    let expected_end = "      </imported_by>
      export const useTheme = () => {
        // Theme implementation
      };
    </file>
  </dependencies>
</project>
";
    assert_eq!(&rest[app_first.len()..], expected_end);
}

#[test]
fn importers_are_shown_like_file_names() {
    let relative = options("", true, true);
    assert_eq!(
        process_single_file_with_importers(
            "/p/src/b.ts",
            &relative,
            &strings(&["/p/src/components/App.tsx"]),
            "/p",
            "x"
        ),
        "  <file name=\"src/b.ts\">\n    <imported_by>\n      <importer>src/components/App.tsx</importer>\n    </imported_by>\n    x\n  </file>\n"
    );
    let absolute = options("", false, true);
    assert_eq!(
        process_single_file_with_importers("b.ts", &absolute, &strings(&["a.ts"]), "/p", "x"),
        "  <file name=\"/p/b.ts\">\n    <imported_by>\n      <importer>/p/a.ts</importer>\n    </imported_by>\n    x\n  </file>\n"
    );
}

#[test]
fn importers_from_every_entry_point_are_kept() {
    let o = options("", true, true);
    let mut r = DependencyResolver::with_aliases("/p".to_string(), None);
    r.resolve_deps("a.ts");
    supply(&mut r, strings(&["d.ts"]));
    let first = finish(supply(&mut r, Vec::new()));
    let mut p = FileProcessor::new();
    p.process_file_with_deps("a.ts", &o, "/p", "A", &first, &r);
    r.resolve_deps("b.ts");
    supply(&mut r, strings(&["d.ts"]));
    let second = finish(supply(&mut r, Vec::new()));
    p.process_file_with_deps("b.ts", &o, "/p", "B", &second, &r);
    assert_eq!(p.pending_dependencies(), strings(&["d.ts"]));
    p.add_dependencies_section(&o, "/p", &strings(&["D"]));
    let out = p.finalize();
    assert!(out.contains("        <importer>a.ts</importer>\n        <importer>b.ts</importer>\n"));
}

#[test]
fn listed_files_have_their_dependencies_collected() {
    let o = options("", true, true);
    assert!(matches!(plan_listed_file(&o, "main.ts"), FileAction::WithDependencies));
    assert!(matches!(plan_listed_file(&o, "lib.rs"), FileAction::Single));
    assert!(matches!(plan_listed_file(&options("", true, false), "main.ts"), FileAction::Single));
    let mut r = DependencyResolver::with_aliases("/p".to_string(), None);
    r.resolve_deps("main.ts");
    supply(&mut r, strings(&["util.ts"]));
    let files = finish(supply(&mut r, Vec::new()));
    let mut p = FileProcessor::new();
    p.add_listed_files(Section::Targets, &strings(&["main.ts"]), &o, "/p", &strings(&["M"]));
    p.record_dependencies(&o, "main.ts", &files, &r);
    assert_eq!(p.pending_dependencies(), strings(&["util.ts"]));
    p.add_dependencies_section(&o, "/p", &strings(&["U"]));
    assert_eq!(
        p.finalize(),
        format!(
            "{}  <targets>\n    <file name=\"main.ts\">\n      M\n    </file>\n  </targets>\n  <dependencies>\n    <file name=\"util.ts\">\n      <imported_by>\n        <importer>main.ts</importer>\n      </imported_by>\n      U\n    </file>\n  </dependencies>\n</project>\n",
            HEADER
        )
    );
}

#[test]
fn paths_are_compared_by_components() {
    let mut o = options("", true, false);
    o.target_files = strings(&["a//b.rs"]);
    assert!(matches!(plan_target(&o, "a/b.rs", true), FileAction::Skip));
    assert!(matches!(plan_target(&o, "a/c.rs", true), FileAction::Single));
    let mut p = FileProcessor::new();
    p.add_file("src//x.rs", &o, "/w", "x");
    assert!(p.is_processed("src/x.rs"));
    assert!(!p.is_processed("./src/x.rs"));
    assert!(matches!(p.plan_walk_entry(&o, "src/./x.rs", true), FileAction::Skip));
}

#[test]
fn the_file_itself_is_not_its_own_dependency() {
    let o = options("", true, true);
    let mut r = DependencyResolver::with_aliases("/p".to_string(), None);
    r.resolve_deps("src//a.ts");
    supply(&mut r, strings(&["src/b.ts"]));
    let files = finish(supply(&mut r, Vec::new()));
    let mut p = FileProcessor::new();
    p.process_file_with_deps("src//a.ts", &o, "/p", "A", &files, &r);
    assert_eq!(p.pending_dependencies(), strings(&["src/b.ts"]));
}
