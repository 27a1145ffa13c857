use pcc::config::{
    decide_action, expand_tilde, get_ignore_patterns, get_output_path, inputs_given, Action, Args,
    Config, OutputPathError, ProcessingOptions,
};
use pcc::json::{get_member, JsonValue};
use pcc::patterns::{convert_ignore_pattern_to_regex, is_ignored};

fn strings(v: &[&str]) -> Vec<String> {
    v.iter().map(|s| s.to_string()).collect()
}

fn no_defaults() -> pcc::config::Default {
    pcc::config::Default {
        action: None,
        output_path: None,
        output_file_name: None,
        ignore_patterns: None,
        use_relative_paths: None,
        deps: None,
    }
}

fn plain_args() -> Args {
    Args {
        targets: Vec::new(),
        copy: false,
        save: false,
        output_path: None,
        ignore_file_path: None,
        ignore_patterns: Vec::new(),
        relative: None,
        deps: false,
        target_files: Vec::new(),
        reference_files: Vec::new(),
    }
}

#[test]
fn configured_ignore_patterns_are_joined() {
    assert_eq!(get_ignore_patterns(&Some(strings(&["target", "*.log"]))).unwrap(), "target\n*.log");
    assert_eq!(get_ignore_patterns(&Some(Vec::new())).unwrap(), "");
    assert_eq!(get_ignore_patterns(&None).unwrap(), "");
}

#[test]
fn options_combine_configuration_and_arguments() {
    let mut args = plain_args();
    args.ignore_patterns = strings(&["*.bak", "tmp"]);
    args.target_files = strings(&["main.rs"]);
    let mut defaults = no_defaults();
    defaults.ignore_patterns = Some(strings(&["target"]));
    defaults.deps = Some(true);
    let options = ProcessingOptions::new(&args, &Config { default: defaults }, None).unwrap();
    assert_eq!(options.ignore_patterns, "target\n*.bak\ntmp");
    assert!(options.use_relative_paths);
    assert!(options.deps);
    assert_eq!(options.target_files, strings(&["main.rs"]));
    assert!(options.reference_files.is_empty());

    let only_args = ProcessingOptions::new(&args, &Config { default: no_defaults() }, None).unwrap();
    assert_eq!(only_args.ignore_patterns, "*.bak\ntmp");
    assert!(!only_args.deps);

    let mut no_extra = plain_args();
    no_extra.relative = Some(false);
    no_extra.deps = true;
    let mut configured = no_defaults();
    configured.ignore_patterns = Some(strings(&["a", "b"]));
    let from_config = ProcessingOptions::new(&no_extra, &Config { default: configured }, None).unwrap();
    assert_eq!(from_config.ignore_patterns, "a\nb");
    assert!(!from_config.use_relative_paths);
    assert!(from_config.deps);
}

#[test]
fn relative_paths_default_to_the_configuration() {
    let mut defaults = no_defaults();
    defaults.use_relative_paths = Some(false);
    let config = Config { default: defaults };
    let from_config = ProcessingOptions::new(&plain_args(), &config, None).unwrap();
    assert!(!from_config.use_relative_paths);
    let mut args = plain_args();
    args.relative = Some(true);
    assert!(ProcessingOptions::new(&args, &config, None).unwrap().use_relative_paths);
    assert!(ProcessingOptions::new(&plain_args(), &Config { default: no_defaults() }, None).unwrap().use_relative_paths);
}

#[test]
fn an_ignore_file_replaces_the_configured_patterns() {
    let mut args = plain_args();
    args.ignore_patterns = strings(&["*.bak"]);
    let mut defaults = no_defaults();
    defaults.ignore_patterns = Some(strings(&["target"]));
    let config = Config { default: defaults };
    let options = ProcessingOptions::new(&args, &config, Some("# build output\nq1\n\n  \nq2\n")).unwrap();
    assert_eq!(options.ignore_patterns, "q1\nq2\n*.bak");
    let empty_file = ProcessingOptions::new(&plain_args(), &config, Some("")).unwrap();
    assert_eq!(empty_file.ignore_patterns, "");
}

#[test]
fn action_is_chosen_from_flags_then_configuration() {
    let mut args = plain_args();
    let mut defaults = no_defaults();
    defaults.action = Some("save".to_string());
    let config = Config { default: defaults };
    assert!(matches!(decide_action(&args, &config), Action::Save));
    args.copy = true;
    assert!(matches!(decide_action(&args, &config), Action::Copy));
    let mut other = no_defaults();
    other.action = Some("print".to_string());
    let unknown = decide_action(&plain_args(), &Config { default: other });
    match unknown {
        Action::Unknown(a) => assert_eq!(a, "print"),
        _ => panic!("expected an unknown action"),
    }
    assert!(matches!(decide_action(&plain_args(), &Config { default: no_defaults() }), Action::NoAction));
}

#[test]
fn tilde_expansion() {
    assert_eq!(expand_tilde("~/x", Some("/home/u")), Some("/home/u/x".to_string()));
    assert_eq!(expand_tilde("~", Some("/h")), Some("/h/~".to_string()));
    assert_eq!(expand_tilde("a/b", None), Some("a/b".to_string()));
    assert_eq!(expand_tilde("~/x", None), None);
}

#[test]
fn output_path_choice() {
    let mut args = plain_args();
    args.output_path = Some("~/out.txt".to_string());
    let config = Config { default: no_defaults() };
    assert_eq!(get_output_path(&args, &config, Some("/h"), None).ok(), Some("/h/out.txt".to_string()));
    let plain = plain_args();
    assert_eq!(
        get_output_path(&plain, &config, None, Some("/w")).ok(),
        Some("/w/combined_code.txt".to_string())
    );
    let mut named = no_defaults();
    named.output_file_name = Some("x.txt".to_string());
    assert_eq!(
        get_output_path(&plain, &Config { default: named }, None, Some("/w")).ok(),
        Some("/w/x.txt".to_string())
    );
    let mut configured = no_defaults();
    configured.output_path = Some("~/combined".to_string());
    assert_eq!(
        get_output_path(&plain, &Config { default: configured }, Some("/home/u"), None).ok(),
        Some("/home/u/combined".to_string())
    );
    assert!(matches!(
        get_output_path(&plain, &config, None, None),
        Err(OutputPathError::CurrentDirUnknown)
    ));
    assert!(matches!(get_output_path(&args, &config, None, Some("/w")), Err(OutputPathError::HomeUnknown)));
}

#[test]
fn configuration_file_location_and_inputs() {
    assert_eq!(Config::location("/home/u"), "/home/u/.pcc_config.toml");
    let mut args = plain_args();
    assert!(!inputs_given(&args));
    args.reference_files = strings(&["lib.rs"]);
    assert!(inputs_given(&args));
}

#[test]
fn ignore_patterns_become_anchored_expressions() {
    assert_eq!(convert_ignore_pattern_to_regex("*.log"), "(^|/)[^/]*\\.log(/|$)");
    assert_eq!(convert_ignore_pattern_to_regex("src/[!a]?.rs"), "^(\\./)?src/[^a][^/]\\.rs(/|$)");
    assert_eq!(convert_ignore_pattern_to_regex("[*]"), "(^|/)[*](/|$)");
    assert_eq!(convert_ignore_pattern_to_regex(""), "(^|/)(/|$)");
    assert_eq!(convert_ignore_pattern_to_regex("temp/"), "(^|/)temp/");
    assert_eq!(convert_ignore_pattern_to_regex("/build"), "^(\\./)?build(/|$)");
    assert_eq!(convert_ignore_pattern_to_regex("a/b/"), "^(\\./)?a/b/");
    assert_eq!(convert_ignore_pattern_to_regex("a+b.txt"), "(^|/)a\\+b\\.txt(/|$)");
}

#[test]
fn paths_are_ignored_by_matching_patterns() {
    assert!(is_ignored("logs/debug.log", "*.log"));
    assert!(!is_ignored("src/main.rs", "*.log\n\ntarget"));
    assert!(is_ignored("target", "  \n*.tmp\ntarget"));
    assert!(is_ignored("target/debug", "target"));
    assert!(is_ignored("target/debug/build.rs", "target\ntemp/"));
    assert!(is_ignored("temp/notes.md", "target\ntemp/"));
    assert!(!is_ignored("temp", "temp/"));
    assert!(!is_ignored("targets/a.rs", "target"));
    assert!(is_ignored("a+b.txt", "a+b.txt"));
    assert!(!is_ignored("aab.txt", "a+b.txt"));
    assert!(!is_ignored("x.log", "# *.log"));
    assert!(is_ignored("src/lib.rs", "*.rs"));
    assert!(!is_ignored("x/a/b", "a/b"));
    assert!(is_ignored("a/b/c.rs", "a/b"));
    assert!(is_ignored("./a/b", "a/b"));
    assert!(!is_ignored("src/build/x", "/build"));
    assert!(is_ignored("build/x", "/build"));
    assert!(!is_ignored("[", "["));
    assert!(!is_ignored("anything", ""));
}

#[test]
fn json_members_are_found_by_key() {
    let doc = JsonValue::Object(vec![
        ("a".to_string(), JsonValue::Bool(true)),
        ("b".to_string(), JsonValue::Null),
    ]);
    assert!(matches!(get_member(&doc, "a"), Some(JsonValue::Bool(true))));
    assert!(matches!(get_member(&doc, "b"), Some(JsonValue::Null)));
    assert!(get_member(&doc, "c").is_none());
    assert!(get_member(&JsonValue::Array(Vec::new()), "a").is_none());
}

#[test]
fn a_later_pattern_list_overrides_an_earlier_one() {
    let first = "*.log\ntarget";
    let second = "!keep.log\nsrc";
    let joined = format!("{}\n{}", first, second);
    // which paths a line of `second` matches: `keep.log` and what lies under `src`
    for (path, second_decides) in [
        ("x.log", false),
        ("keep.log", true),
        ("target/a.rs", false),
        ("src/main.rs", true),
        ("docs/a.md", false),
    ] {
        let expected = if second_decides {
            is_ignored(path, second)
        } else {
            is_ignored(path, first)
        };
        assert_eq!(is_ignored(path, &joined), expected);
        assert!(!is_ignored(path, ""));
    }
    assert!(is_ignored("x.log", &joined));
    assert!(!is_ignored("keep.log", &joined));
    assert!(is_ignored("src/main.rs", &joined));
    assert!(!is_ignored("docs/a.md", &joined));
}

#[test]
fn negated_patterns_reinclude_paths() {
    assert!(!is_ignored("keep.log", "*.log\n!keep.log"));
    assert!(is_ignored("other.log", "*.log\n!keep.log"));
    assert!(is_ignored("keep.log", "!keep.log\n*.log"));
    assert!(!is_ignored("keep.log", "!keep.log"));
    assert!(!is_ignored("a/keep.log", "*.log\n!keep.log"));
    assert!(is_ignored("x", "!\nx"));
    assert!(!is_ignored("!x", "!x"));
}

#[test]
fn double_star_patterns_cross_directories() {
    assert_eq!(convert_ignore_pattern_to_regex("**/foo"), "^(\\./)?(.*/)?foo(/|$)");
    assert_eq!(convert_ignore_pattern_to_regex("a/**/b"), "^(\\./)?a/(.*/)?b(/|$)");
    assert_eq!(convert_ignore_pattern_to_regex("a/**"), "^(\\./)?a/.*(/|$)");
    assert!(is_ignored("foo", "**/foo"));
    assert!(is_ignored("x/y/foo", "**/foo"));
    assert!(is_ignored("a/b", "a/**/b"));
    assert!(is_ignored("a/x/y/b", "a/**/b"));
    assert!(is_ignored("a/x", "a/**"));
    assert!(!is_ignored("a", "a/**"));
    assert!(!is_ignored("c/a/b", "a/**/b"));
}
