//! The user's settings: the `[default]` table of the configuration file,
//! the command-line options, and what the two decide together.
use vstd::prelude::*;
use crate::text::{
    join, strs, push_str, starts_with, chars_of, string_of, lines, lines_of, is_blank, is_blank_str,
    is_comment, is_comment_str,
};
use crate::paths::{path_join, join_path};

verus! {

/// An I/O error (`std::io::Error`).
#[verifier::external_type_specification]
#[verifier::external_body]
pub struct ExIoError(std::io::Error);

/// The `[default]` table of the configuration file.
pub struct Default {
    pub action: Option<String>,
    pub output_path: Option<String>,
    pub output_file_name: Option<String>,
    pub ignore_patterns: Option<Vec<String>>,
    pub use_relative_paths: Option<bool>,
    pub deps: Option<bool>,
}

/// The configuration file.
pub struct Config {
    pub default: Default,
}

/// The command-line options.
pub struct Args {
    /// Files or directories to combine.
    pub targets: Vec<String>,
    /// Copy the result to the clipboard.
    pub copy: bool,
    /// Save the result to a file.
    pub save: bool,
    /// Where to save the result.
    pub output_path: Option<String>,
    /// An ignore file in `.gitignore` format.
    pub ignore_file_path: Option<String>,
    /// More ignore patterns.
    pub ignore_patterns: Vec<String>,
    /// Show paths relative to the current directory (`--relative`) or not
    /// (`--no-relative`); `None` when neither is given.
    pub relative: Option<bool>,
    /// Resolve the dependencies of TypeScript and JavaScript files.
    pub deps: bool,
    /// Files for the `<targets>` section.
    pub target_files: Vec<String>,
    /// Files for the `<references>` section.
    pub reference_files: Vec<String>,
}

/// What the files are combined with.
pub struct ProcessingOptions {
    /// The ignore patterns, one per line.
    pub ignore_patterns: String,
    pub use_relative_paths: bool,
    pub deps: bool,
    pub target_files: Vec<String>,
    pub reference_files: Vec<String>,
}

/// The configured ignore patterns, one per line.
pub open spec fn configured_patterns(config: Option<Vec<String>>) -> Seq<char> {
    match config {
        Some(v) => join(strs(v@), seq!['\n']),
        None => seq![],
    }
}

/// The patterns joined by `sep`.
pub fn join_strings(v: &Vec<String>, sep: &str) -> (r: String)
    ensures
        r@ == join(strs(v@), sep@),
{
    let mut r = String::new();
    let n = v.len();
    assert(strs(v@).take(0) =~= seq![]);
    for i in 0..n
        invariant
            n == v@.len(),
            r@ == join(strs(v@).take(i as int), sep@),
    {
        let ghost parts = strs(v@).take(i as int);
        assert(strs(v@).take(i + 1) =~= parts.push(v@[i as int]@));
        proof {
            crate::text::lemma_join_push(parts, sep@, v@[i as int]@);
        }
        let ghost before = r@;
        if i > 0 {
            push_str(&mut r, sep);
        }
        push_str(&mut r, v[i].as_str());
        assert(r@ =~= join(strs(v@).take(i + 1), sep@));
    }
    assert(strs(v@).take(n as int) =~= strs(v@));
    r
}

/// The configured ignore patterns, one per line; none when there are none.
pub fn get_ignore_patterns(ignore_patterns_config: &Option<Vec<String>>) -> (r: std::io::Result<
    String,
>)
    ensures
        r matches Ok(s) && s@ == configured_patterns(*ignore_patterns_config),
{
    match ignore_patterns_config {
        Some(patterns) => {
            if patterns.len() > 0 {
                proof {
                    reveal_strlit("\n");
                    assert("\n"@ =~= seq!['\n']);
                }
                return Ok(join_strings(patterns, "\n"));
            }
            let r = String::new();
            assert(strs(patterns@) =~= seq![]);
            Ok(r)
        },
        None => Ok(String::new()),
    }
}

/// The pattern lines of an ignore file: neither blank nor comments.
pub open spec fn pattern_lines(ls: Seq<Seq<char>>) -> Seq<Seq<char>>
    decreases ls.len(),
{
    if ls.len() == 0 {
        seq![]
    } else {
        let rest = pattern_lines(ls.drop_last());
        let l = ls.last();
        if is_blank(l) || is_comment(l) {
            rest
        } else {
            rest.push(l)
        }
    }
}

/// The patterns of an ignore file, in `.gitignore` format: its pattern lines,
/// one per line.
pub open spec fn file_patterns(text: Seq<char>) -> Seq<char> {
    join(pattern_lines(lines(text)), seq!['\n'])
}

/// The patterns of an ignore file (`file_patterns`).
pub fn ignore_file_patterns(text: &str) -> (r: String)
    ensures
        r@ == file_patterns(text@),
{
    let ls = lines_of(text);
    let ghost lv = lines(text@);
    let mut kept: Vec<String> = Vec::new();
    let n = ls.len();
    assert(lv.take(0) =~= seq![]);
    for i in 0..n
        invariant
            n == ls@.len(),
            strs(ls@) == lv,
            strs(kept@) == pattern_lines(lv.take(i as int)),
    {
        assert(lv.take(i + 1).drop_last() =~= lv.take(i as int));
        assert(lv.take(i + 1).last() == ls@[i as int]@);
        if !is_blank_str(ls[i].as_str()) && !is_comment_str(ls[i].as_str()) {
            let ghost before = strs(kept@);
            kept.push(ls[i].clone());
            assert(strs(kept@) =~= before.push(ls@[i as int]@));
        }
    }
    assert(lv.take(n as int) =~= lv);
    proof {
        reveal_strlit("\n");
        assert("\n"@ =~= seq!['\n']);
    }
    join_strings(&kept, "\n")
}

/// The ignore patterns of the options: the configured ones, then those of
/// the command line, one per line.
pub open spec fn combined_patterns(configured: Seq<char>, extra: Seq<Seq<char>>) -> Seq<char> {
    if extra.len() == 0 {
        configured
    } else if configured.len() == 0 {
        join(extra, seq!['\n'])
    } else {
        configured + seq!['\n'] + join(extra, seq!['\n'])
    }
}

/// Whether relative paths are used: as the command line says, else as the
/// configuration file says, else yes.
pub open spec fn relative_choice(args: Args, config: Config) -> bool {
    match args.relative {
        Some(b) => b,
        None => match config.default.use_relative_paths {
            Some(b) => b,
            None => true,
        },
    }
}

impl ProcessingOptions {
    /// The options for a run: the ignore patterns of the ignore file when one
    /// is given (its text is `ignore_file`), else those of the configuration
    /// file, followed by those of the command line; relative paths as the
    /// command line, else the configuration file, says; target and reference
    /// files as the command line says; dependency resolution when the command
    /// line or the configuration file asks for it.
    pub fn new(args: &Args, config: &Config, ignore_file: Option<&str>) -> (r: std::io::Result<Self>)
        ensures
            r matches Ok(o) && {
                &&& o.ignore_patterns@ == combined_patterns(
                    match ignore_file {
                        Some(text) => file_patterns(text@),
                        None => configured_patterns(config.default.ignore_patterns),
                    },
                    strs(args.ignore_patterns@),
                )
                &&& o.use_relative_paths == relative_choice(*args, *config)
                &&& o.deps == (args.deps || config.default.deps == Some(true))
                &&& strs(o.target_files@) == strs(args.target_files@)
                &&& strs(o.reference_files@) == strs(args.reference_files@)
            },
    {
        let mut ignore_patterns = match ignore_file {
            Some(text) => ignore_file_patterns(text),
            None => match get_ignore_patterns(&config.default.ignore_patterns) {
                Ok(s) => s,
                Err(e) => return Err(e),
            },
        };
        proof {
            reveal_strlit("\n");
            assert("\n"@ =~= seq!['\n']);
        }
        let additional = &args.ignore_patterns;
        if additional.len() > 0 {
            if !ignore_patterns.as_str().is_empty() {
                ignore_patterns.push('\n');
            }
            let joined = join_strings(additional, "\n");
            push_str(&mut ignore_patterns, joined.as_str());
        }
        let deps = args.deps || match config.default.deps {
            Some(d) => d,
            None => false,
        };
        let use_relative_paths = match args.relative {
            Some(b) => b,
            None => match config.default.use_relative_paths {
                Some(b) => b,
                None => true,
            },
        };
        Ok(ProcessingOptions {
            ignore_patterns,
            use_relative_paths,
            deps,
            target_files: clone_strings(&args.target_files),
            reference_files: clone_strings(&args.reference_files),
        })
    }
}

/// A copy of the strings.
pub fn clone_strings(v: &Vec<String>) -> (r: Vec<String>)
    ensures
        strs(r@) == strs(v@),
{
    let mut r: Vec<String> = Vec::new();
    let n = v.len();
    for i in 0..n
        invariant
            n == v@.len(),
            strs(r@) == strs(v@).take(i as int),
    {
        let ghost before = strs(r@);
        let c = v[i].clone();
        assert(c@ == v@[i as int]@);
        r.push(c);
        assert(strs(r@) =~= before.push(v@[i as int]@));
        assert(strs(r@) =~= strs(v@).take(i + 1));
    }
    assert(strs(v@).take(n as int) =~= strs(v@));
    r
}

/// What to do with the combined code.
pub enum Action {
    /// Copy it to the clipboard.
    Copy,
    /// Save it to a file.
    Save,
    /// The configured action is neither `copy` nor `save`.
    Unknown(String),
    /// No action is given.
    NoAction,
}

/// The action: `--copy`, else `--save`, else the configured one.
pub open spec fn chosen_action(args: Args, config: Config) -> Action {
    if args.copy {
        Action::Copy
    } else if args.save {
        Action::Save
    } else {
        match config.default.action {
            Some(a) => if a@ == "copy"@ {
                Action::Copy
            } else if a@ == "save"@ {
                Action::Save
            } else {
                Action::Unknown(a)
            },
            None => Action::NoAction,
        }
    }
}

/// Chooses the action: `--copy`, else `--save`, else the configured one.
pub fn decide_action(args: &Args, config: &Config) -> (r: Action)
    ensures
        r == chosen_action(*args, *config),
{
    if args.copy {
        Action::Copy
    } else if args.save {
        Action::Save
    } else {
        match &config.default.action {
            Some(a) => {
                let copy = "copy".to_owned();
                let save = "save".to_owned();
                if *a == copy {
                    Action::Copy
                } else if *a == save {
                    Action::Save
                } else {
                    Action::Unknown(a.clone())
                }
            },
            None => Action::NoAction,
        }
    }
}

/// `path` with a leading `~` replaced by the home directory: a leading `~/`
/// is dropped and the rest pushed onto the home directory; a path without
/// `~` stays as it is. `None` when the home directory is needed and unknown.
pub open spec fn tilde_expanded(path: Seq<char>, home: Option<Seq<char>>) -> Option<Seq<char>> {
    if !starts_with(path, seq!['~']) {
        Some(path)
    } else {
        match home {
            None => None,
            Some(h) => Some(
                path_join(
                    h,
                    if starts_with(path, seq!['~', '/']) {
                        path.skip(2)
                    } else {
                        path
                    },
                ),
            ),
        }
    }
}

/// The view of an optional string.
pub open spec fn opt_str(o: Option<&str>) -> Option<Seq<char>> {
    match o {
        Some(s) => Some(s@),
        None => None,
    }
}

/// Expands a leading `~` to the home directory.
pub fn expand_tilde(path: &str, home: Option<&str>) -> (r: Option<String>)
    ensures
        crate::paths::opt_view(r) == tilde_expanded(path@, opt_str(home)),
{
    let pc = chars_of(path);
    if !(pc.len() > 0 && pc[0] == '~') {
        proof {
            if starts_with(path@, seq!['~']) {
                assert(path@.take(1)[0] == '~');
            }
        }
        return Some(path.to_owned());
    }
    assert(path@.take(1) =~= seq!['~']);
    match home {
        None => None,
        Some(h) => {
            if pc.len() >= 2 && pc[1] == '/' {
                assert(path@.take(2) =~= seq!['~', '/']);
                let mut rest: Vec<char> = Vec::new();
                let n = pc.len();
                let mut i: usize = 2;
                while i < n
                    invariant
                        2 <= i <= n == pc@.len(),
                        rest@ == pc@.subrange(2, i as int),
                    decreases n - i,
                {
                    rest.push(pc[i]);
                    assert(rest@ =~= pc@.subrange(2, i + 1));
                    i = i + 1;
                }
                assert(pc@.subrange(2, n as int) =~= path@.skip(2));
                let rest_s = string_of(&rest);
                Some(join_path(h, rest_s.as_str()))
            } else {
                proof {
                    if starts_with(path@, seq!['~', '/']) {
                        assert(path@.take(2)[1] == '/');
                    }
                }
                Some(join_path(h, path))
            }
        },
    }
}

/// Why no output path could be chosen.
pub enum OutputPathError {
    /// The path starts with `~` and the home directory is unknown.
    HomeUnknown,
    /// The current directory is needed and unknown.
    CurrentDirUnknown,
}

/// The file the combined code is saved to: `--output_path`, else the
/// configured `output_path`, each with `~` expanded, else the configured
/// file name (or `combined_code.txt`) in the current directory.
pub open spec fn output_path_for(
    args: Args,
    config: Config,
    home: Option<Seq<char>>,
    current_dir: Option<Seq<char>>,
) -> Result<Seq<char>, OutputPathError> {
    let chosen = match args.output_path {
        Some(p) => Some(p@),
        None => match config.default.output_path {
            Some(p) => Some(p@),
            None => None,
        },
    };
    match chosen {
        Some(p) => match tilde_expanded(p, home) {
            Some(e) => Ok(e),
            None => Err(OutputPathError::HomeUnknown),
        },
        None => match current_dir {
            None => Err(OutputPathError::CurrentDirUnknown),
            Some(d) => Ok(
                path_join(
                    d,
                    match config.default.output_file_name {
                        Some(n) => n@,
                        None => "combined_code.txt"@,
                    },
                ),
            ),
        },
    }
}

/// Chooses the file the combined code is saved to.
pub fn get_output_path(
    args: &Args,
    config: &Config,
    home: Option<&str>,
    current_dir: Option<&str>,
) -> (r: Result<String, OutputPathError>)
    ensures
        match r {
            Ok(p) => output_path_for(*args, *config, opt_str(home), opt_str(current_dir)) == Ok::<
                Seq<char>,
                OutputPathError,
            >(p@),
            Err(e) => output_path_for(*args, *config, opt_str(home), opt_str(current_dir))
                == Err::<Seq<char>, OutputPathError>(e),
        },
{
    let chosen = match &args.output_path {
        Some(p) => Some(p),
        None => match &config.default.output_path {
            Some(p) => Some(p),
            None => None,
        },
    };
    match chosen {
        Some(p) => match expand_tilde(p.as_str(), home) {
            Some(e) => Ok(e),
            None => Err(OutputPathError::HomeUnknown),
        },
        None => match current_dir {
            None => Err(OutputPathError::CurrentDirUnknown),
            Some(d) => match &config.default.output_file_name {
                Some(n) => Ok(join_path(d, n.as_str())),
                None => Ok(join_path(d, "combined_code.txt")),
            },
        },
    }
}

impl Config {
    /// Where the configuration file is: `.pcc_config.toml` in the home
    /// directory.
    pub fn location(home: &str) -> (r: String)
        ensures
            r@ == path_join(home@, ".pcc_config.toml"@),
    {
        join_path(home, ".pcc_config.toml")
    }
}

/// Whether there is something to combine: paths, or `--target` or
/// `--reference` files.
pub fn inputs_given(args: &Args) -> (r: bool)
    ensures
        r == (args.targets@.len() > 0 || args.target_files@.len() > 0
            || args.reference_files@.len() > 0),
{
    args.targets.len() > 0 || args.target_files.len() > 0 || args.reference_files.len() > 0
}

/// A flag on the command line overrides the configured action: `--copy`
/// copies and `--save` without `--copy` saves, whatever the configuration
/// names, so with either flag the configuration makes no difference; with
/// neither, the configured `copy` or `save` is taken, and no action is chosen
/// when none is configured.
pub proof fn lemma_flags_override_configuration(args: Args, config: Config, other: Config)
    ensures
        args.copy ==> chosen_action(args, config) is Copy,
        args.save && !args.copy ==> chosen_action(args, config) is Save,
        args.copy || args.save ==> chosen_action(args, config) == chosen_action(args, other),
        !args.copy && !args.save ==> match config.default.action {
            Some(a) => (a@ == "copy"@ <==> chosen_action(args, config) is Copy) && (a@ == "save"@
                <==> chosen_action(args, config) is Save),
            None => chosen_action(args, config) is NoAction,
        },
{
    reveal_strlit("copy");
    reveal_strlit("save");
    assert("copy"@[0] != "save"@[0]);
    assert("copy"@ != "save"@);
}

} // verus!
