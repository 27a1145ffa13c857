//! TypeScript and JavaScript imports: which files are read for imports, the
//! import specifiers of a file (found with tree-sitter's TypeScript grammar),
//! and where each specifier is to be looked up.
use vstd::prelude::*;
use crate::dependency_resolver::{DependencyResolver, LanguageResolver, alias_pairs};
use crate::paths::{
    extension, extension_of, parent, parent_path, components, components_of, render, render_range,
    path_join, join_path, chars_eq, views, opt_view,
};
use crate::text::{
    starts_with, trim_char, trim_matches_char, chars_of, string_of, push_chars, push_str,
    starts_with_chars, chars_from, has_char, strs,
};

verus! {

/// A tree-sitter parser (`tree_sitter::Parser`).
#[verifier::external_type_specification]
#[verifier::external_body]
pub struct ExParser(tree_sitter::Parser);

/// A compiled tree-sitter query (`tree_sitter::Query`).
#[verifier::external_type_specification]
#[verifier::external_body]
pub struct ExQuery(tree_sitter::Query);

/// Whether the file's imports are followed: its extension is `ts`, `tsx`,
/// `js` or `jsx`.
pub open spec fn supported_file(path: Seq<char>) -> bool {
    match extension(path) {
        Some(e) => e == "ts"@ || e == "tsx"@ || e == "js"@ || e == "jsx"@,
        None => false,
    }
}

/// `s` without its leading `c`s (`str::trim_start_matches` with a character).
pub open spec fn trim_start_char(s: Seq<char>, c: char) -> Seq<char>
    decreases s.len(),
{
    if s.len() > 0 && s[0] == c {
        trim_start_char(s.drop_first(), c)
    } else {
        s
    }
}

/// Whether the specifier `p` falls under the alias: it is the alias, or the
/// alias followed by `/` and more.
pub open spec fn alias_matches(p: Seq<char>, alias: Seq<char>) -> bool {
    p == alias || starts_with(p, alias.push('/'))
}

/// The first alias, in the order of the list, that `p` falls under, with its
/// target.
pub open spec fn first_alias(aliases: Seq<(Seq<char>, Seq<char>)>, p: Seq<char>) -> Option<
    (Seq<char>, Seq<char>),
>
    decreases aliases.len(),
{
    if aliases.len() == 0 {
        None
    } else if alias_matches(p, aliases[0].0) {
        Some(aliases[0])
    } else {
        first_alias(aliases.drop_first(), p)
    }
}

/// What a `~/x` specifier stands for: `x` (all leading `/` dropped), with
/// `.ts` added when it holds no `.`.
pub open spec fn tilde_specifier(import_path: Seq<char>) -> Seq<char> {
    let path = trim_start_char(import_path.drop_first(), '/');
    if path.contains('.') {
        path
    } else {
        path + ".ts"@
    }
}

/// The path, relative to the project's base path, that an aliased specifier
/// stands for: the alias replaced by its target; none when the specifier
/// starts with `~` or falls under no alias.
pub open spec fn alias_target(
    import_path: Seq<char>,
    aliases: Option<Seq<(Seq<char>, Seq<char>)>>,
) -> Option<Seq<char>> {
    if starts_with(import_path, "~"@) {
        None
    } else {
        match aliases {
            Some(a) => match first_alias(a, import_path) {
                Some(hit) => Some(hit.1 + import_path.skip(hit.0.len() as int)),
                None => None,
            },
            None => None,
        }
    }
}

/// What an import specifier stands for once `~` and the aliases are applied:
/// `~/x` as `tilde_specifier` says; a specifier that falls under an alias, the
/// alias replaced by its target; any other as it is.
pub open spec fn aliased_specifier(
    import_path: Seq<char>,
    aliases: Option<Seq<(Seq<char>, Seq<char>)>>,
) -> Seq<char> {
    if starts_with(import_path, "~"@) {
        tilde_specifier(import_path)
    } else {
        match alias_target(import_path, aliases) {
            Some(t) => t,
            None => import_path,
        }
    }
}

/// The view of an optional alias list.
pub open spec fn alias_view(m: Option<&Vec<(String, String)>>) -> Option<Seq<(Seq<char>, Seq<char>)>> {
    match m {
        Some(v) => Some(alias_pairs(v@)),
        None => None,
    }
}

/// Whether a specifier is looked up from the project's `src` directory: it
/// starts with `@` or does not start with `.`.
pub open spec fn from_source(specifier: Seq<char>) -> bool {
    starts_with(specifier, "@"@) || !starts_with(specifier, "."@)
}

/// The index of the last `src` component, if there is one.
pub open spec fn last_src(cs: Seq<Seq<char>>) -> Option<int>
    decreases cs.len(),
{
    if cs.len() == 0 {
        None
    } else if cs.last() == "src"@ {
        Some(cs.len() - 1)
    } else {
        last_src(cs.drop_last())
    }
}

/// The project root for an import of `current_file`: the directory that holds
/// the innermost `src` directory the file lies in; else the file's directory;
/// else, for a file without a parent, the resolver's base path.
pub open spec fn project_root(current_file: Seq<char>, base_path: Seq<char>) -> Seq<char> {
    match parent(current_file) {
        Some(dir) => match last_src(components(dir)) {
            Some(k) => render(components(dir).take(k)),
            None => dir,
        },
        None => base_path,
    }
}

/// Where an import is to be looked up.
pub enum ImportLookup {
    /// `direct_path` is taken when it exists; else the specifier is resolved
    /// from `src_dir`.
    FromSource { direct_path: String, src_dir: String, specifier: String },
    /// The specifier is resolved from the importing file's directory.
    FromDirectory { directory: String, specifier: String },
}

/// Whether `lookup` is where the import `import_path` of `current_file` is
/// looked up, given the aliases and the base path.
pub open spec fn lookup_for(
    lookup: ImportLookup,
    import_path: Seq<char>,
    current_file: Seq<char>,
    aliases: Option<Seq<(Seq<char>, Seq<char>)>>,
    base_path: Seq<char>,
) -> bool {
    let spec_path = aliased_specifier(import_path, aliases);
    if alias_target(import_path, aliases) is Some {
        &&& lookup is FromDirectory
        &&& lookup->directory@ == base_path
        &&& lookup->FromDirectory_specifier@ == path_join(base_path, spec_path)
    } else if from_source(spec_path) {
        let src_dir = path_join(project_root(current_file, base_path), "src"@);
        &&& lookup is FromSource
        &&& lookup->direct_path@ == path_join(src_dir, spec_path)
        &&& lookup->src_dir@ == src_dir
        &&& lookup->FromSource_specifier@ == spec_path
    } else {
        &&& lookup is FromDirectory
        &&& lookup->directory@ == (match parent(current_file) {
            Some(d) => d,
            None => seq![],
        })
        &&& lookup->FromDirectory_specifier@ == spec_path
    }
}

/// What the query `query` captures, with the tree-sitter TypeScript grammar,
/// in `content`, in the order tree-sitter reports the matches; none when
/// tree-sitter gives no tree or a capture is not UTF-8.
pub uninterp spec fn typescript_import_captures(query: Seq<char>, content: Seq<char>) -> Option<
    Seq<Seq<char>>,
>;

/// The views of an optional vector of strings.
pub open spec fn opt_strs(o: Option<Vec<String>>) -> Option<Seq<Seq<char>>> {
    match o {
        Some(v) => Some(strs(v@)),
        None => None,
    }
}

/// A capture as an import specifier: without surrounding `"`, then without
/// surrounding `'`.
pub open spec fn unquoted(s: Seq<char>) -> Seq<char> {
    trim_char(trim_char(s, '"'), '\'')
}

/// The import specifiers of a TypeScript source, as the query `query`
/// captures them, in order.
pub open spec fn import_specifiers(query: Seq<char>, content: Seq<char>) -> Seq<Seq<char>> {
    match typescript_import_captures(query, content) {
        Some(caps) => caps.map_values(|s: Seq<char>| unquoted(s)),
        None => seq![],
    }
}

/// The options of the module resolution that looks imports up on disk.
pub struct ResolveSettings {
    /// Extensions tried in turn.
    pub extensions: Vec<String>,
    /// Conditions of `exports` fields that are taken.
    pub condition_names: Vec<String>,
    /// Files that describe a package.
    pub description_files: Vec<String>,
    /// Directories searched for packages.
    pub modules: Vec<String>,
}

/// A file name or directory name as an owned string.
fn owned(s: &str) -> (r: String)
    ensures
        r@ == s@,
{
    s.to_owned()
}

/// A tree-sitter query together with the text it was compiled from.
pub struct CompiledQuery {
    source: String,
    query: tree_sitter::Query,
}

impl CompiledQuery {
    /// The text the query was compiled from.
    pub closed spec fn source_view(&self) -> Seq<char> {
        self.source@
    }
}

/// Finds the import specifiers of TypeScript sources.
pub struct TypeScriptResolver {
    import_query: CompiledQuery,
    parser: tree_sitter::Parser,
}

impl TypeScriptResolver {
    /// The text of the resolver's query.
    pub closed spec fn query_source(&self) -> Seq<char> {
        self.import_query.source_view()
    }
}

/// The text of the import query: import statements and `import x = require(..)`
/// clauses, capturing their source string.
pub open spec fn import_query_source() -> Seq<char> {
    "\n            (import_statement\n                source: (string) @import_path)\n            (import_require_clause\n                source: (string) @import_path)\n            "@
}

/// Whether tree-sitter compiles `source` as a query for the TypeScript grammar
/// (`Query::new` with `tree_sitter_typescript::language_typescript()`).
pub uninterp spec fn typescript_query_compiles(source: Seq<char>) -> bool;

/// A tree-sitter parser set to the TypeScript grammar (`Parser::new`, then
/// `Parser::set_language` with `tree_sitter_typescript::language_typescript()`).
/// The contract claims that this succeeds: `set_language` refuses only a
/// grammar whose version lies outside 13 to 14, and the TypeScript grammar
/// brought here is of version 14. Nothing is claimed of the parser itself.
#[verifier::external_body]
fn typescript_parser() -> (r: Option<tree_sitter::Parser>)
    ensures
        r is Some,
{
    let mut parser = tree_sitter::Parser::new();
    match parser.set_language(tree_sitter_typescript::language_typescript()) {
        Ok(()) => Some(parser),
        Err(_) => None,
    }
}

/// The query `source` compiled for the TypeScript grammar (`Query::new` with
/// `tree_sitter_typescript::language_typescript()`); none when tree-sitter
/// refuses it. The contract claims that it succeeds exactly when
/// `typescript_query_compiles(source)`, and keeps `source` beside the query.
#[verifier::external_body]
fn typescript_query(source: &str) -> (r: Option<CompiledQuery>)
    ensures
        r is Some <==> typescript_query_compiles(source@),
        r matches Some(q) ==> q.source_view() == source@,
{
    match tree_sitter::Query::new(tree_sitter_typescript::language_typescript(), source) {
        Ok(query) => Some(CompiledQuery { source: source.to_string(), query }),
        Err(_) => None,
    }
}

/// Parses `content` with the resolver's parser (`Parser::parse`, no earlier
/// tree) and runs its import query over the tree (`QueryCursor::matches`),
/// giving the text of each capture (`Node::utf8_text`) in the order the
/// matches come. The contract claims that the result is
/// `typescript_import_captures` of the query's text and `content` (a resolver
/// is only made by `new`, so its parser has the TypeScript grammar), and that
/// the query stays as it was.
#[verifier::external_body]
fn capture_texts(ts: &mut TypeScriptResolver, content: &str) -> (r: Option<Vec<String>>)
    ensures
        opt_strs(r) == typescript_import_captures(old(ts).query_source(), content@),
        final(ts).query_source() == old(ts).query_source(),
{
    let tree = ts.parser.parse(content, None)?;
    let mut cursor = tree_sitter::QueryCursor::new();
    let mut texts = Vec::new();
    for m in cursor.matches(&ts.import_query.query, tree.root_node(), content.as_bytes()) {
        for capture in m.captures {
            texts.push(capture.node.utf8_text(content.as_bytes()).ok()?.to_string());
        }
    }
    Some(texts)
}

impl TypeScriptResolver {
    /// A resolver with the TypeScript grammar and the import query; none when
    /// tree-sitter refuses the import query.
    pub fn new() -> (r: Option<Self>)
        ensures
            r is Some <==> typescript_query_compiles(import_query_source()),
            r matches Some(t) ==> t.query_source() == import_query_source(),
    {
        let parser = match typescript_parser() {
            Some(p) => p,
            None => {
                return None;
            },
        };
        let query_source =
            "\n            (import_statement\n                source: (string) @import_path)\n            (import_require_clause\n                source: (string) @import_path)\n            ";
        assert(query_source@ == import_query_source());
        let import_query = match typescript_query(query_source) {
            Some(q) => q,
            None => {
                return None;
            },
        };
        Some(TypeScriptResolver { import_query, parser })
    }

    /// The options of the module resolution: extensions `.ts`, `.tsx`, `.js`
    /// and `.jsx`, conditions `import` and `require`, `package.json`
    /// describing packages, packages under `node_modules`.
    pub fn resolve_settings() -> (r: ResolveSettings)
        ensures
            strs(r.extensions@) == seq![".ts"@, ".tsx"@, ".js"@, ".jsx"@],
            strs(r.condition_names@) == seq!["import"@, "require"@],
            strs(r.description_files@) == seq!["package.json"@],
            strs(r.modules@) == seq!["node_modules"@],
    {
        let mut extensions: Vec<String> = Vec::new();
        extensions.push(owned(".ts"));
        extensions.push(owned(".tsx"));
        extensions.push(owned(".js"));
        extensions.push(owned(".jsx"));
        let mut condition_names: Vec<String> = Vec::new();
        condition_names.push(owned("import"));
        condition_names.push(owned("require"));
        let mut description_files: Vec<String> = Vec::new();
        description_files.push(owned("package.json"));
        let mut modules: Vec<String> = Vec::new();
        modules.push(owned("node_modules"));
        let r = ResolveSettings { extensions, condition_names, description_files, modules };
        assert(strs(r.extensions@) =~= seq![".ts"@, ".tsx"@, ".js"@, ".jsx"@]);
        assert(strs(r.condition_names@) =~= seq!["import"@, "require"@]);
        assert(strs(r.description_files@) =~= seq!["package.json"@]);
        assert(strs(r.modules@) =~= seq!["node_modules"@]);
        r
    }

    /// The path an aliased specifier stands for (`alias_target`).
    fn alias_hit(import_path: &str, alias_map: Option<&Vec<(String, String)>>) -> (r: Option<String>)
        ensures
            opt_view(r) == alias_target(import_path@, alias_view(alias_map)),
    {
        let p = chars_of(import_path);
        proof {
            reveal_strlit("~");
        }
        if p.len() > 0 && p[0] == '~' {
            assert(starts_with(p@, "~"@)) by {
                assert(p@.take(1) =~= "~"@);
            }
            return None;
        }
        assert(!starts_with(p@, "~"@)) by {
            if starts_with(p@, "~"@) {
                assert(p@[0] == "~"@[0]);
            }
        }
        match alias_map {
            Some(m) => {
                let ghost a = alias_pairs(m@);
                let n = m.len();
                assert(a.skip(0) =~= a);
                for k in 0..n
                    invariant
                        n == m@.len(),
                        a == alias_pairs(m@),
                        p@ == import_path@,
                        first_alias(a, p@) == first_alias(a.skip(k as int), p@),
                        alias_map == Some(m),
                        !starts_with(p@, "~"@),
                {
                    assert(a.skip(k as int).drop_first() =~= a.skip(k + 1));
                    assert(a.skip(k as int)[0] == a[k as int]);
                    assert(a[k as int] == (m@[k as int].0@, m@[k as int].1@));
                    let alias = chars_of(m[k].0.as_str());
                    let mut with_slash = chars_of(m[k].0.as_str());
                    with_slash.push('/');
                    if chars_eq(&p, &alias) || starts_with_chars(&p, &with_slash) {
                        let mut out = m[k].1.clone();
                        let rest = chars_from(&p, alias.len());
                        push_chars(&mut out, &rest);
                        proof {
                            assert(first_alias(a.skip(k as int), p@) == Some(a[k as int]));
                        }
                        return Some(out);
                    }
                }
                assert(a.skip(n as int) =~= seq![]);
                None
            },
            None => None,
        }
    }

    /// What an import specifier stands for once `~` and the aliases are
    /// applied (`aliased_specifier`).
    fn resolve_with_alias(
        &self,
        import_path: &str,
        alias_map: Option<&Vec<(String, String)>>,
        _base_path: &str,
    ) -> (r: Option<String>)
        ensures
            opt_view(r) == Some(aliased_specifier(import_path@, alias_view(alias_map))),
    {
        let p = chars_of(import_path);
        proof {
            reveal_strlit("~");
            reveal_strlit(".ts");
        }
        if p.len() > 0 && p[0] == '~' {
            assert(starts_with(p@, "~"@)) by {
                assert(p@.take(1) =~= "~"@);
            }
            let mut i: usize = 1;
            while i < p.len() && p[i] == '/'
                invariant
                    1 <= i <= p@.len(),
                    trim_start_char(p@.drop_first(), '/') == trim_start_char(p@.skip(i as int), '/'),
                decreases p@.len() - i,
            {
                assert(p@.skip(i as int).drop_first() =~= p@.skip(i + 1));
                i = i + 1;
            }
            assert(p@.drop_first() =~= p@.skip(1));
            let rest = chars_from(&p, i);
            let mut out = string_of(&rest);
            if !has_char(&rest, '.') {
                push_str(&mut out, ".ts");
            }
            return Some(out);
        }
        assert(!starts_with(p@, "~"@)) by {
            if starts_with(p@, "~"@) {
                assert(p@[0] == "~"@[0]);
            }
        }
        match Self::alias_hit(import_path, alias_map) {
            Some(t) => Some(t),
            None => Some(import_path.to_owned()),
        }
    }

    /// The project root for an import of `current_file` (`project_root`).
    fn project_root_of(current_file: &str, base_path: &str) -> (r: String)
        ensures
            r@ == project_root(current_file@, base_path@),
    {
        match parent_path(current_file) {
            Some(dir) => {
                let cs = components_of(dir.as_str());
                let ghost cv = views(cs@);
                assert(cv.len() == cs@.len());
                let src = chars_of("src");
                let mut k = cs.len();
                assert(cv.take(k as int) =~= cv);
                while k > 0
                    invariant
                        k <= cs@.len(),
                        cv == views(cs@),
                        cv.len() == cs@.len(),
                        cv == components(dir@),
                        src@ == "src"@,
                        last_src(cv) == last_src(cv.take(k as int)),
                        parent(current_file@) == Some(dir@),
                    decreases k,
                {
                    assert(cv.take(k as int).drop_last() =~= cv.take(k - 1));
                    assert(cv.take(k as int).last() == cv[k - 1]);
                    assert(cv[k - 1] == cs@[k - 1]@);
                    if chars_eq(&cs[k - 1], &src) {
                        let r = render_range(&cs, 0, k - 1);
                        assert(cv.subrange(0, k - 1) =~= cv.take(k - 1));
                        assert(last_src(cv.take(k as int)) == Some(k - 1));
                        return r;
                    }
                    k = k - 1;
                }
                assert(cv.take(0) =~= seq![]);
                dir
            },
            None => base_path.to_owned(),
        }
    }

    /// Where the import `import_path` of `current_file` is to be looked up,
    /// with the aliases and the base path of `dependency_resolver`: a bare
    /// specifier (one that starts with `@` or not with `.`, after the aliases)
    /// under `src` of the project root, first as a path, then by module
    /// resolution from there; any other from the importing file's directory.
    pub fn resolve_import_with_resolver(
        &self,
        import_path: &str,
        current_file: &str,
        dependency_resolver: &DependencyResolver,
    ) -> (r: ImportLookup)
        ensures
            lookup_for(
                r,
                import_path@,
                current_file@,
                dependency_resolver.alias_map_view(),
                dependency_resolver.base_path_view(),
            ),
    {
        let base = dependency_resolver.get_base_path();
        match Self::alias_hit(import_path, dependency_resolver.get_alias_map()) {
            Some(t) => {
                proof {
                    reveal_strlit("~");
                }
                return ImportLookup::FromDirectory {
                    directory: base.clone(),
                    specifier: join_path(base.as_str(), t.as_str()),
                };
            },
            None => {},
        }
        let resolved_path = match self.resolve_with_alias(
            import_path,
            dependency_resolver.get_alias_map(),
            base.as_str(),
        ) {
            Some(p) => p,
            None => String::new(),
        };
        let rc = chars_of(resolved_path.as_str());
        proof {
            reveal_strlit("@");
            reveal_strlit(".");
            if rc@.len() > 0 {
                assert(rc@.take(1) =~= seq![rc@[0]]);
            }
        }
        if (rc.len() > 0 && rc[0] == '@') || !(rc.len() > 0 && rc[0] == '.') {
            assert(from_source(rc@)) by {
                if starts_with(rc@, "."@) {
                    assert(rc@[0] == "."@[0]);
                }
            }
            let root = Self::project_root_of(current_file, base.as_str());
            let src_dir = join_path(root.as_str(), "src");
            let direct_path = join_path(src_dir.as_str(), resolved_path.as_str());
            ImportLookup::FromSource { direct_path, src_dir, specifier: resolved_path }
        } else {
            assert(!from_source(rc@)) by {
                assert(rc@.take(1) =~= "."@);
                if starts_with(rc@, "@"@) {
                    assert(rc@[0] == "@"@[0]);
                }
            }
            let directory = match parent_path(current_file) {
                Some(d) => d,
                None => String::new(),
            };
            ImportLookup::FromDirectory { directory, specifier: resolved_path }
        }
    }

    /// Whether the file's imports are followed: its extension is `ts`, `tsx`,
    /// `js` or `jsx`.
    pub fn is_supported_file(file_path: &str) -> (r: bool)
        ensures
            r == supported_file(file_path@),
    {
        match extension_of(file_path) {
            Some(e) => {
                chars_eq(&e, &chars_of("ts")) || chars_eq(&e, &chars_of("tsx")) || chars_eq(
                    &e,
                    &chars_of("js"),
                ) || chars_eq(&e, &chars_of("jsx"))
            },
            None => false,
        }
    }
}

/// A captured string as an import specifier: without surrounding `"`, then
/// without surrounding `'`.
pub fn unquote_import(capture: &str) -> (r: String)
    ensures
        r@ == unquoted(capture@),
{
    let t = trim_matches_char(capture, '"');
    trim_matches_char(t.as_str(), '\'')
}

impl LanguageResolver for TypeScriptResolver {
    /// The import specifiers of a TypeScript source, in order, unquoted.
    fn get_imports(&mut self, content: &str) -> (imports: Vec<String>)
        ensures
            strs(imports@) == import_specifiers(old(self).query_source(), content@),
            final(self).query_source() == old(self).query_source(),
    {
        match capture_texts(self, content) {
            Some(texts) => {
                let ghost caps = strs(texts@);
                let mut imports: Vec<String> = Vec::new();
                let n = texts.len();
                for i in 0..n
                    invariant
                        n == texts@.len(),
                        caps == strs(texts@),
                        strs(imports@) == caps.take(i as int).map_values(|s: Seq<char>| unquoted(s)),
                {
                    let u = unquote_import(texts[i].as_str());
                    let ghost before = strs(imports@);
                    assert(caps[i as int] == texts@[i as int]@);
                    assert(u@ == unquoted(caps[i as int]));
                    imports.push(u);
                    assert(strs(imports@) =~= before.push(u@));
                    assert(caps.take(i + 1) =~= caps.take(i as int).push(caps[i as int]));
                    assert(strs(imports@) =~= caps.take(i + 1).map_values(|s: Seq<char>| unquoted(s)));
                }
                assert(caps.take(n as int) =~= caps);
                imports
            },
            None => {
                let imports: Vec<String> = Vec::new();
                assert(strs(imports@) =~= seq![]);
                imports
            },
        }
    }
}

/// The text without spaces and line breaks.
pub open spec fn without_blanks(s: Seq<char>) -> Seq<char>
    decreases s.len(),
{
    if s.len() == 0 {
        seq![]
    } else if s[0] == ' ' || s[0] == '\n' {
        without_blanks(s.drop_first())
    } else {
        seq![s[0]] + without_blanks(s.drop_first())
    }
}

/// Whether the text holds the character.
pub open spec fn holds_char(s: Seq<char>, c: char) -> bool
    decreases s.len(),
{
    s.len() > 0 && (s[0] == c || holds_char(s.drop_first(), c))
}

/// Dropping blanks and looking for a character go piece by piece.
proof fn lemma_pieces(x: Seq<char>, y: Seq<char>, c: char)
    ensures
        without_blanks(x + y) == without_blanks(x) + without_blanks(y),
        holds_char(x + y, c) == (holds_char(x, c) || holds_char(y, c)),
    decreases x.len(),
{
    if x.len() == 0 {
        assert(x + y =~= y);
    } else {
        assert((x + y).drop_first() =~= x.drop_first() + y);
        lemma_pieces(x.drop_first(), y, c);
        assert((x + y)[0] == x[0]);
    }
}

spec fn gap_short() -> Seq<char> {
    "\n            "@
}

spec fn gap_long() -> Seq<char> {
    "\n                "@
}

spec fn head_import() -> Seq<char> {
    "(import_statement"@
}

spec fn head_require() -> Seq<char> {
    "(import_require_clause"@
}

spec fn source_capture() -> Seq<char> {
    "source: (string) @import_path)"@
}

spec fn source_capture_tight() -> Seq<char> {
    "source:(string)@import_path)"@
}

/// The import query, piece by piece.
proof fn lemma_query_pieces()
    ensures
        import_query_source() == gap_short() + head_import() + gap_long() + source_capture()
            + gap_short() + head_require() + gap_long() + source_capture() + gap_short(),
{
    reveal_strlit(
        "\n            (import_statement\n                source: (string) @import_path)\n            (import_require_clause\n                source: (string) @import_path)\n            ",
    );
    reveal_strlit("\n            ");
    reveal_strlit("\n                ");
    reveal_strlit("(import_statement");
    reveal_strlit("(import_require_clause");
    reveal_strlit("source: (string) @import_path)");
    assert(import_query_source() =~= gap_short() + head_import() + gap_long() + source_capture()
        + gap_short() + head_require() + gap_long() + source_capture() + gap_short());
}

proof fn lemma_gaps()
    ensures
        without_blanks(gap_short()) == Seq::<char>::empty(),
        !holds_char(gap_short(), '#'),
        without_blanks(gap_long()) == Seq::<char>::empty(),
        !holds_char(gap_long(), '#'),
{
    reveal_strlit("\n            ");
    reveal_strlit("\n                ");
    reveal_with_fuel(holds_char, 18);
    reveal_with_fuel(without_blanks, 18);
}

proof fn lemma_heads()
    ensures
        without_blanks(head_import()) == head_import(),
        !holds_char(head_import(), '#'),
        without_blanks(head_require()) == head_require(),
        !holds_char(head_require(), '#'),
{
    reveal_strlit("(import_statement");
    reveal_strlit("(import_require_clause");
    reveal_with_fuel(holds_char, 23);
    reveal_with_fuel(without_blanks, 23);
    assert(without_blanks(head_import()) =~= head_import());
    assert(without_blanks(head_require()) =~= head_require());
}

proof fn lemma_source_capture()
    ensures
        without_blanks(source_capture()) == source_capture_tight(),
        !holds_char(source_capture(), '#'),
{
    reveal_strlit("source: (string) @import_path)");
    reveal_strlit("source:(string)@import_path)");
    reveal_with_fuel(holds_char, 31);
    reveal_with_fuel(without_blanks, 31);
    assert(without_blanks(source_capture()) =~= source_capture_tight());
}

/// The import query keeps every import: it holds no predicate (the
/// predicates of a tree-sitter query start with `#`), so nothing filters what
/// its patterns match, and, spaces and line breaks aside, it is the pattern
/// that captures as `import_path` the source string of every import
/// statement, then the one that does so for every `import x = require(..)`
/// clause.
pub proof fn lemma_import_query_keeps_every_import()
    ensures
        !holds_char(import_query_source(), '#'),
        without_blanks(import_query_source())
            == "(import_statementsource:(string)@import_path)(import_require_clausesource:(string)@import_path)"@,
{
    lemma_query_pieces();
    lemma_gaps();
    lemma_heads();
    lemma_source_capture();
    let w12 = gap_short();
    let w16 = gap_long();
    let s1 = head_import();
    let s2 = source_capture();
    let s3 = head_require();
    lemma_pieces(w12, s1, '#');
    lemma_pieces(w12 + s1, w16, '#');
    lemma_pieces(w12 + s1 + w16, s2, '#');
    lemma_pieces(w12 + s1 + w16 + s2, w12, '#');
    lemma_pieces(w12 + s1 + w16 + s2 + w12, s3, '#');
    lemma_pieces(w12 + s1 + w16 + s2 + w12 + s3, w16, '#');
    lemma_pieces(w12 + s1 + w16 + s2 + w12 + s3 + w16, s2, '#');
    lemma_pieces(w12 + s1 + w16 + s2 + w12 + s3 + w16 + s2, w12, '#');
    reveal_strlit("(import_statement");
    reveal_strlit("(import_require_clause");
    reveal_strlit("source:(string)@import_path)");
    reveal_strlit(
        "(import_statementsource:(string)@import_path)(import_require_clausesource:(string)@import_path)",
    );
    assert(s1 + source_capture_tight() + s3 + source_capture_tight()
        =~= "(import_statementsource:(string)@import_path)(import_require_clausesource:(string)@import_path)"@);
}

/// An import's specifier is its source string without its quotes: for a
/// string literal in double or single quotes around a specifier that neither
/// starts nor ends with a quote, the specifier is what lies between them.
pub proof fn lemma_specifier_is_unquoted(q: char, spec: Seq<char>)
    requires
        q == '"' || q == '\'',
        spec.len() > 0,
        spec[0] != '"' && spec[0] != '\'',
        spec.last() != '"' && spec.last() != '\'',
    ensures
        unquoted(seq![q] + spec + seq![q]) == spec,
{
    let s = seq![q] + spec + seq![q];
    assert(s.drop_first() =~= spec + seq![q]);
    assert((spec + seq![q]).drop_last() =~= spec);
    assert(s.drop_last() =~= seq![q] + spec);
    assert((seq![q] + spec).drop_first() =~= spec);
    assert(trim_char(spec, '"') == spec);
    assert(trim_char(spec, '\'') == spec);
    if q == '"' {
        assert(trim_char(spec + seq![q], '"') == trim_char(spec, '"'));
        assert(trim_char(s, '"') == spec);
    } else {
        assert(trim_char(s, '"') == s);
        assert(trim_char(spec + seq![q], '\'') == trim_char(spec, '\''));
        assert(trim_char(s, '\'') == spec);
    }
}

} // verus!
