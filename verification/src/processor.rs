//! The combined document: the XML header, the sections of listed files, the
//! block of each file, the dependencies section and the closing tag.
use vstd::prelude::*;
use crate::config::{ProcessingOptions, clone_strings};
use crate::dependency_resolver::DependencyResolver;
use crate::graph::{Edges, reaches_plus, contains_str, lemma_push_contains};
use crate::paths::{
    strip_prefix, strip_path_prefix, sort_paths, sorted_paths, path_before, lemma_path_before_order,
    path_join, join_path, same_path, same_path_exec, lists_path, lists_path_exec, normalized,
};
use crate::patterns::{ignored_by, is_ignored};
use crate::text::{
    indent_lines, push_str, push_indented_lines, strs, starts_with, ends_with, lines, prefixed, join,
    one_line, clean_line, lemma_lines_clean, lemma_line_split_single, lemma_line_split_joined,
    lemma_line_split_append, line_split,
};
use crate::typescript_resolver::{TypeScriptResolver, supported_file};

verus! {

/// The start of the document.
pub open spec fn document_header() -> Seq<char> {
    "<?xml version=\"1.0\" encoding=\"UTF-8\"?>\n<project>\n"@
}

/// The end of the document.
pub open spec fn document_footer() -> Seq<char> {
    "</project>\n"@
}

/// The name a file is shown under: relative to `current_dir` when relative
/// paths are asked for and the file lies under it (else the path as given);
/// absolute, the path pushed onto `current_dir`, when they are not.
pub open spec fn shown_path(path: Seq<char>, use_relative_paths: bool, current_dir: Seq<char>) -> Seq<char> {
    if use_relative_paths {
        match strip_prefix(path, current_dir) {
            Some(rel) => rel,
            None => path,
        }
    } else {
        path_join(current_dir, path)
    }
}

/// The names the files are shown under, in order.
pub open spec fn shown_paths(paths: Seq<Seq<char>>, use_relative_paths: bool, current_dir: Seq<char>) -> Seq<
    Seq<char>,
> {
    paths.map_values(|p: Seq<char>| shown_path(p, use_relative_paths, current_dir))
}

/// The block of one file: its name, then its lines, each indented by four
/// spaces.
pub open spec fn file_block(name: Seq<char>, content: Seq<char>) -> Seq<char> {
    "  <file name=\""@ + name + "\">\n"@ + indent_lines(content, "    "@) + "\n  </file>\n"@
}

/// The line that names one importer.
pub open spec fn importer_line(importer: Seq<char>) -> Seq<char> {
    "      <importer>"@ + importer + "</importer>\n"@
}

/// The lines that name the importers, in order.
pub open spec fn importer_lines(importers: Seq<Seq<char>>) -> Seq<char>
    decreases importers.len(),
{
    if importers.len() == 0 {
        seq![]
    } else {
        importer_lines(importers.drop_last()) + importer_line(importers.last())
    }
}

/// The `<imported_by>` element; nothing when there are no importers.
pub open spec fn imported_by(importers: Seq<Seq<char>>) -> Seq<char> {
    if importers.len() == 0 {
        seq![]
    } else {
        "    <imported_by>\n"@ + importer_lines(importers) + "    </imported_by>\n"@
    }
}

/// The block of a dependency: its name, the files that import it, then its
/// lines, each indented by four spaces.
pub open spec fn dependency_block(name: Seq<char>, importers: Seq<Seq<char>>, content: Seq<char>) -> Seq<char> {
    "  <file name=\""@ + name + "\">\n"@ + imported_by(importers) + indent_lines(content, "    "@)
        + "\n  </file>\n"@
}

/// What a listed file adds to the document: nothing when it is ignored, else
/// its block under the name it is shown under.
pub open spec fn single_file_output(
    path: Seq<char>,
    options: ProcessingOptions,
    current_dir: Seq<char>,
    content: Seq<char>,
) -> Seq<char> {
    if ignored_by(path, options.ignore_patterns@) {
        seq![]
    } else {
        file_block(shown_path(path, options.use_relative_paths, current_dir), content)
    }
}

/// What a dependency adds before the dependencies section indents it:
/// nothing when it is ignored, else its block with its importers.
pub open spec fn dependency_output(
    path: Seq<char>,
    options: ProcessingOptions,
    importers: Seq<Seq<char>>,
    current_dir: Seq<char>,
    content: Seq<char>,
) -> Seq<char> {
    if ignored_by(path, options.ignore_patterns@) {
        seq![]
    } else {
        dependency_block(
            shown_path(path, options.use_relative_paths, current_dir),
            shown_paths(importers, options.use_relative_paths, current_dir),
            content,
        )
    }
}

/// The name a file is shown under (`shown_path`).
pub fn display_path(file_path: &str, use_relative_paths: bool, current_dir: &str) -> (r: String)
    ensures
        r@ == shown_path(file_path@, use_relative_paths, current_dir@),
{
    if use_relative_paths {
        match strip_path_prefix(file_path, current_dir) {
            Some(rel) => rel,
            None => file_path.to_owned(),
        }
    } else {
        join_path(current_dir, file_path)
    }
}

/// The block of one file, shown under `file_path`.
pub fn format_file_content(file_path: &str, file_content: &str) -> (r: String)
    ensures
        r@ == file_block(file_path@, file_content@),
{
    let mut out = String::new();
    push_str(&mut out, "  <file name=\"");
    push_str(&mut out, file_path);
    push_str(&mut out, "\">\n");
    push_indented_lines(&mut out, file_content, "    ");
    push_str(&mut out, "\n  </file>\n");
    assert(out@ =~= file_block(file_path@, file_content@));
    out
}

/// What a listed file adds to the document, given its contents: nothing when
/// the ignore patterns ignore it, else its block.
pub fn process_single_file(
    file_path: &str,
    options: &ProcessingOptions,
    current_dir: &str,
    file_content: &str,
) -> (r: String)
    ensures
        r@ == single_file_output(file_path@, *options, current_dir@, file_content@),
{
    if is_ignored(file_path, options.ignore_patterns.as_str()) {
        return String::new();
    }
    let shown = display_path(file_path, options.use_relative_paths, current_dir);
    format_file_content(shown.as_str(), file_content)
}

/// Appends the lines that name the importers, each under the name it is
/// shown under.
fn push_importer_lines(out: &mut String, importers: &Vec<String>, use_relative_paths: bool, current_dir: &str)
    ensures
        final(out)@ == old(out)@ + importer_lines(
            shown_paths(strs(importers@), use_relative_paths, current_dir@),
        ),
{
    let ghost start = out@;
    let ghost iv = shown_paths(strs(importers@), use_relative_paths, current_dir@);
    let n = importers.len();
    assert(iv.take(0) =~= seq![]);
    assert(start + seq![] =~= start);
    for i in 0..n
        invariant
            n == importers@.len(),
            iv == shown_paths(strs(importers@), use_relative_paths, current_dir@),
            out@ == start + importer_lines(iv.take(i as int)),
    {
        let shown = display_path(importers[i].as_str(), use_relative_paths, current_dir);
        push_str(out, "      <importer>");
        push_str(out, shown.as_str());
        push_str(out, "</importer>\n");
        assert(iv.take(i + 1).drop_last() =~= iv.take(i as int));
        assert(iv.take(i + 1).last() == shown@);
        assert(out@ =~= start + importer_lines(iv.take(i + 1)));
    }
    assert(iv.take(n as int) =~= iv);
}

/// What a dependency adds, given its importers and contents, before the
/// dependencies section indents it: nothing when the ignore patterns ignore
/// it, else its block with an `<imported_by>` element when it has importers.
pub fn process_single_file_with_importers(
    file_path: &str,
    options: &ProcessingOptions,
    importers: &Vec<String>,
    current_dir: &str,
    file_content: &str,
) -> (r: String)
    ensures
        r@ == dependency_output(file_path@, *options, strs(importers@), current_dir@, file_content@),
{
    if is_ignored(file_path, options.ignore_patterns.as_str()) {
        return String::new();
    }
    let shown = display_path(file_path, options.use_relative_paths, current_dir);
    let mut out = String::new();
    push_str(&mut out, "  <file name=\"");
    push_str(&mut out, shown.as_str());
    push_str(&mut out, "\">\n");
    let ghost head = out@;
    let ghost sp = shown_paths(strs(importers@), options.use_relative_paths, current_dir@);
    if importers.len() > 0 {
        push_str(&mut out, "    <imported_by>\n");
        push_importer_lines(&mut out, importers, options.use_relative_paths, current_dir);
        push_str(&mut out, "    </imported_by>\n");
        assert(out@ =~= head + imported_by(sp));
    } else {
        assert(out@ =~= head + imported_by(sp));
    }
    push_indented_lines(&mut out, file_content, "    ");
    push_str(&mut out, "\n  </file>\n");
    assert(out@ =~= dependency_block(shown@, sp, file_content@));
    out
}


/// The section a listed file goes in.
pub enum Section {
    /// The files to be worked on.
    Targets,
    /// The files given for context.
    References,
}

/// The line that opens a section.
pub open spec fn section_open(section: Section) -> Seq<char> {
    match section {
        Section::Targets => "  <targets>\n"@,
        Section::References => "  <references>\n"@,
    }
}

/// The line that closes a section.
pub open spec fn section_close(section: Section) -> Seq<char> {
    match section {
        Section::Targets => "  </targets>\n"@,
        Section::References => "  </references>\n"@,
    }
}

/// A file's output as it stands in a section: each line indented by two more
/// spaces, then a line break; nothing for a file that adds nothing.
pub open spec fn section_entry(output: Seq<char>) -> Seq<char> {
    if output.len() == 0 {
        seq![]
    } else {
        indent_lines(output, "  "@) + "\n"@
    }
}

/// What the listed files add to their section, one after the other, each
/// with its contents.
pub open spec fn listed_outputs(
    files: Seq<Seq<char>>,
    options: ProcessingOptions,
    current_dir: Seq<char>,
    contents: Seq<Seq<char>>,
) -> Seq<char>
    decreases files.len(),
{
    if files.len() == 0 {
        seq![]
    } else {
        listed_outputs(files.drop_last(), options, current_dir, contents.take(files.len() - 1))
            + section_entry(
            single_file_output(files.last(), options, current_dir, contents[files.len() - 1]),
        )
    }
}

/// How a file met while combining is handled.
pub enum FileAction {
    /// It is left out.
    Skip,
    /// It is added, and the files it depends on are collected.
    WithDependencies,
    /// It is added alone.
    Single,
}

/// How a file is handled once it is to be added: with its dependencies when
/// they are asked for and it is a TypeScript or JavaScript file, else alone.
pub open spec fn adding_action(options: ProcessingOptions, path: Seq<char>) -> FileAction {
    if options.deps && supported_file(path) {
        FileAction::WithDependencies
    } else {
        FileAction::Single
    }
}

/// How a path given on the command line is handled: skipped when it is not a
/// file or is the same path as a target or reference file, else added.
pub open spec fn target_action(options: ProcessingOptions, path: Seq<char>, is_file: bool) -> FileAction {
    if !is_file || lists_path(strs(options.target_files@), path) || lists_path(
        strs(options.reference_files@),
        path,
    ) {
        FileAction::Skip
    } else {
        adding_action(options, path)
    }
}

/// How a path given on the command line is handled (`target_action`);
/// directories are walked by the caller.
pub fn plan_target(options: &ProcessingOptions, target_path: &str, is_file: bool) -> (r: FileAction)
    ensures
        r == target_action(*options, target_path@, is_file),
{
    if !is_file || lists_path_exec(&options.target_files, target_path) || lists_path_exec(
        &options.reference_files,
        target_path,
    ) {
        return FileAction::Skip;
    }
    if options.deps && TypeScriptResolver::is_supported_file(target_path) {
        FileAction::WithDependencies
    } else {
        FileAction::Single
    }
}

/// How a `--target` or `--reference` file is handled beside its section:
/// its dependencies are collected when they are asked for and it is a
/// TypeScript or JavaScript file.
pub fn plan_listed_file(options: &ProcessingOptions, path: &str) -> (r: FileAction)
    ensures
        r == adding_action(*options, path@),
{
    if options.deps && TypeScriptResolver::is_supported_file(path) {
        FileAction::WithDependencies
    } else {
        FileAction::Single
    }
}

/// The views of the keys of a dependency map.
pub open spec fn entry_keys(m: Seq<(String, Vec<String>)>) -> Seq<Seq<char>> {
    m.map_values(|e: (String, Vec<String>)| e.0@)
}

/// The index of the entry for `k`.
pub open spec fn key_index(m: Seq<(String, Vec<String>)>, k: Seq<char>) -> int {
    choose|i: int| 0 <= i < m.len() && m[i].0@ == k
}

/// A dependency map as a map from each dependency to its importers.
pub open spec fn importer_map(m: Seq<(String, Vec<String>)>) -> Map<Seq<char>, Seq<Seq<char>>> {
    Map::new(
        |k: Seq<char>| entry_keys(m).contains(k),
        |k: Seq<char>| strs(m[key_index(m, k)].1@),
    )
}

/// Whether `list` names the files of `prior` and each file that imports
/// `dep` (taken by its components) in `edges`, directly or through other
/// files, and nothing else, each once when `prior` names each once.
pub open spec fn lists_importers(
    list: Seq<Seq<char>>,
    prior: Seq<Seq<char>>,
    edges: Edges,
    dep: Seq<char>,
) -> bool {
    &&& prior.no_duplicates() ==> list.no_duplicates()
    &&& forall|x: Seq<char>|
        #[trigger] list.contains(x) <==> (prior.contains(x) || reaches_plus(edges, x, normalized(dep)))
}

/// The importers `m` holds for `k`, none when it holds no entry for `k`.
pub open spec fn prior_of(m: Map<Seq<char>, Seq<Seq<char>>>, k: Seq<char>) -> Seq<Seq<char>> {
    if m.dom().contains(k) {
        m[k]
    } else {
        seq![]
    }
}

/// Whether `dep` is recorded as a dependency of `file_path`: it is among the
/// resolved files, no ignore pattern ignores it, and it is not the same path
/// as the file itself.
pub open spec fn recorded_dependency(
    options: ProcessingOptions,
    file_path: Seq<char>,
    resolved: Seq<Seq<char>>,
    dep: Seq<char>,
) -> bool {
    resolved.contains(dep) && !ignored_by(dep, options.ignore_patterns@) && !same_path(dep, file_path)
}

/// Whether `after` is `before` with the recorded dependencies of `file_path`
/// put in, each with the importers it had and its importers in `edges`.
pub open spec fn records(
    before: Map<Seq<char>, Seq<Seq<char>>>,
    after: Map<Seq<char>, Seq<Seq<char>>>,
    options: ProcessingOptions,
    file_path: Seq<char>,
    resolved: Seq<Seq<char>>,
    edges: Edges,
) -> bool {
    &&& forall|k: Seq<char>|
        #[trigger] after.dom().contains(k) <==> (before.dom().contains(k) || recorded_dependency(
            options,
            file_path,
            resolved,
            k,
        ))
    &&& forall|k: Seq<char>|
        #[trigger] recorded_dependency(options, file_path, resolved, k) ==> lists_importers(
            after[k],
            prior_of(before, k),
            edges,
            k,
        )
    &&& forall|k: Seq<char>|
        !recorded_dependency(options, file_path, resolved, k) && #[trigger] before.dom().contains(k)
            ==> after[k] == before[k]
}

/// What the dependencies add, in order, each with its contents: its block,
/// each line indented by two more spaces, and a line break.
pub open spec fn dependency_texts(
    deps: Seq<Seq<char>>,
    importers: Map<Seq<char>, Seq<Seq<char>>>,
    options: ProcessingOptions,
    current_dir: Seq<char>,
    contents: Seq<Seq<char>>,
) -> Seq<char>
    decreases deps.len(),
{
    if deps.len() == 0 {
        seq![]
    } else {
        let d = deps.last();
        dependency_texts(deps.drop_last(), importers, options, current_dir, contents.take(deps.len() - 1))
            + indent_lines(
            dependency_output(d, options, importers[d], current_dir, contents[deps.len() - 1]),
            "  "@,
        ) + "\n"@
    }
}

/// Putting in one more recorded dependency with its importers extends
/// `records` to one more resolved file.
proof fn lemma_records_step(
    first: Map<Seq<char>, Seq<Seq<char>>>,
    before: Map<Seq<char>, Seq<Seq<char>>>,
    after: Map<Seq<char>, Seq<Seq<char>>>,
    options: ProcessingOptions,
    file_path: Seq<char>,
    resolved: Seq<Seq<char>>,
    dep: Seq<char>,
    importers: Seq<Seq<char>>,
    edges: Edges,
)
    requires
        records(first, before, options, file_path, resolved, edges),
        !ignored_by(dep, options.ignore_patterns@),
        !same_path(dep, file_path),
        lists_importers(importers, prior_of(before, dep), edges, dep),
        after == before.insert(dep, importers),
    ensures
        records(first, after, options, file_path, resolved.push(dep), edges),
{
    let r1 = resolved.push(dep);
    lemma_push_contains(resolved, dep);
    assert(r1[resolved.len() as int] == dep);
    assert(r1.contains(dep));
    assert(recorded_dependency(options, file_path, r1, dep));
    assert forall|k: Seq<char>| #[trigger] after.dom().contains(k) <==> (first.dom().contains(k)
        || recorded_dependency(options, file_path, r1, k)) by {
        assert(before.dom().contains(k) <==> (first.dom().contains(k) || recorded_dependency(
            options,
            file_path,
            resolved,
            k,
        )));
    }
    assert forall|k: Seq<char>| #[trigger]
        recorded_dependency(options, file_path, r1, k) implies lists_importers(
        after[k],
        prior_of(first, k),
        edges,
        k,
    ) by {
        if k != dep {
            assert(recorded_dependency(options, file_path, resolved, k));
        } else if recorded_dependency(options, file_path, resolved, k) {
            assert(before.dom().contains(k));
            assert(lists_importers(before[k], prior_of(first, k), edges, k));
        } else {
            assert(before.dom().contains(k) <==> first.dom().contains(k));
            if first.dom().contains(k) {
                assert(before[k] == first[k]);
            }
            assert(prior_of(before, k) == prior_of(first, k));
        }
    }
    assert forall|k: Seq<char>|
        !recorded_dependency(options, file_path, r1, k) && #[trigger] first.dom().contains(k) implies after[k]
            == first[k] by {
        assert(!recorded_dependency(options, file_path, resolved, k));
    }
}

/// `records` holds of another list of resolved files that records the same
/// dependencies.
proof fn lemma_records_same(
    first: Map<Seq<char>, Seq<Seq<char>>>,
    after: Map<Seq<char>, Seq<Seq<char>>>,
    options: ProcessingOptions,
    file_path: Seq<char>,
    r0: Seq<Seq<char>>,
    r1: Seq<Seq<char>>,
    edges: Edges,
)
    requires
        records(first, after, options, file_path, r0, edges),
        forall|k: Seq<char>|
            #[trigger] recorded_dependency(options, file_path, r1, k) == recorded_dependency(
                options,
                file_path,
                r0,
                k,
            ),
    ensures
        records(first, after, options, file_path, r1, edges),
{
    assert forall|k: Seq<char>| #[trigger] after.dom().contains(k) <==> (first.dom().contains(k)
        || recorded_dependency(options, file_path, r1, k)) by {
        assert(recorded_dependency(options, file_path, r1, k) == recorded_dependency(
            options,
            file_path,
            r0,
            k,
        ));
    }
    assert forall|k: Seq<char>| #[trigger]
        recorded_dependency(options, file_path, r1, k) implies lists_importers(
        after[k],
        prior_of(first, k),
        edges,
        k,
    ) by {
        assert(recorded_dependency(options, file_path, r0, k));
    }
    assert forall|k: Seq<char>|
        !recorded_dependency(options, file_path, r1, k) && #[trigger] first.dom().contains(k) implies after[k]
            == first[k] by {
        assert(!recorded_dependency(options, file_path, r0, k));
    }
}

/// Sorted sequences of paths with the same paths are equal.
pub proof fn lemma_sorted_unique(a: Seq<Seq<char>>, b: Seq<Seq<char>>)
    requires
        sorted_paths(a),
        sorted_paths(b),
        forall|x: Seq<char>| #[trigger] a.contains(x) <==> b.contains(x),
    ensures
        a == b,
    decreases a.len(),
{
    if a.len() == 0 {
        if b.len() > 0 {
            assert(b.contains(b[0]));
            assert(a.contains(b[0]));
        }
        assert(a =~= b);
    } else if b.len() == 0 {
        assert(a.contains(a[0]));
    } else {
        assert(a.contains(a[0]));
        assert(b.contains(a[0]));
        assert(b.contains(b[0]));
        assert(a.contains(b[0]));
        let i = choose|i: int| 0 <= i < a.len() && a[i] == b[0];
        let j = choose|j: int| 0 <= j < b.len() && b[j] == a[0];
        lemma_path_before_order(a[0], b[0], a[0]);
        if i > 0 {
            assert(path_before(a[0], a[i]));
        }
        if j > 0 {
            assert(path_before(b[0], b[j]));
        }
        assert(a[0] == b[0]);
        let ta = a.drop_first();
        let tb = b.drop_first();
        assert forall|x: Seq<char>| #[trigger] ta.contains(x) <==> tb.contains(x) by {
            if ta.contains(x) {
                let k = choose|k: int| 0 <= k < ta.len() && ta[k] == x;
                assert(a[k + 1] == x);
                assert(path_before(a[0], a[k + 1]));
                lemma_path_before_order(a[0], x, x);
                assert(a.contains(x));
                assert(b.contains(x));
                let m = choose|m: int| 0 <= m < b.len() && b[m] == x;
                assert(m != 0);
                assert(tb[m - 1] == x);
            }
            if tb.contains(x) {
                let k = choose|k: int| 0 <= k < tb.len() && tb[k] == x;
                assert(b[k + 1] == x);
                assert(path_before(b[0], b[k + 1]));
                lemma_path_before_order(b[0], x, x);
                assert(b.contains(x));
                assert(a.contains(x));
                let m = choose|m: int| 0 <= m < a.len() && a[m] == x;
                assert(m != 0);
                assert(ta[m - 1] == x);
            }
        }
        assert(sorted_paths(ta)) by {
            assert forall|p: int, q: int| 0 <= p < q < ta.len() implies path_before(
                #[trigger] ta[p],
                #[trigger] ta[q],
            ) by {
                assert(ta[p] == a[p + 1] && ta[q] == a[q + 1]);
            }
        }
        assert(sorted_paths(tb)) by {
            assert forall|p: int, q: int| 0 <= p < q < tb.len() implies path_before(
                #[trigger] tb[p],
                #[trigger] tb[q],
            ) by {
                assert(tb[p] == b[p + 1] && tb[q] == b[q + 1]);
            }
        }
        lemma_sorted_unique(ta, tb);
        assert(a =~= seq![a[0]] + ta);
        assert(b =~= seq![b[0]] + tb);
    }
}

/// Replacing the entry of a key keeps the other entries and the keys.
proof fn lemma_importer_map_update(m: Seq<(String, Vec<String>)>, i: int, e: (String, Vec<String>))
    requires
        entry_keys(m).no_duplicates(),
        0 <= i < m.len(),
        m[i].0@ == e.0@,
    ensures
        entry_keys(m.update(i, e)) == entry_keys(m),
        importer_map(m.update(i, e)) == importer_map(m).insert(e.0@, strs(e.1@)),
{
    let m1 = m.update(i, e);
    assert(entry_keys(m1) =~= entry_keys(m));
    let k0 = entry_keys(m);
    assert(k0[i] == e.0@);
    assert forall|k: Seq<char>| #[trigger] importer_map(m1).dom().contains(k) implies importer_map(
        m1,
    )[k] == importer_map(m).insert(e.0@, strs(e.1@))[k] by {
        let j1 = key_index(m1, k);
        assert(entry_keys(m1).contains(k));
        let w = choose|w: int| 0 <= w < entry_keys(m1).len() && entry_keys(m1)[w] == k;
        assert(m1[w].0@ == k);
        assert(0 <= j1 < m1.len() && m1[j1].0@ == k);
        if k == e.0@ {
            assert(k0[j1] == k0[i]);
        } else {
            let j0 = key_index(m, k);
            assert(m[w].0@ == k);
            assert(0 <= j0 < m.len() && m[j0].0@ == k);
            assert(j1 != i);
            assert(k0[j1] == k0[j0]);
        }
    }
    assert(importer_map(m1) =~= importer_map(m).insert(e.0@, strs(e.1@)));
}

/// Adding an entry for a new key adds that key.
proof fn lemma_importer_map_push(m: Seq<(String, Vec<String>)>, e: (String, Vec<String>))
    requires
        entry_keys(m).no_duplicates(),
        !entry_keys(m).contains(e.0@),
    ensures
        entry_keys(m.push(e)) == entry_keys(m).push(e.0@),
        entry_keys(m.push(e)).no_duplicates(),
        importer_map(m.push(e)) == importer_map(m).insert(e.0@, strs(e.1@)),
{
    let m1 = m.push(e);
    assert(entry_keys(m1) =~= entry_keys(m).push(e.0@));
    let k0 = entry_keys(m);
    let k1 = entry_keys(m1);
    lemma_push_contains(k0, e.0@);
    assert forall|p: int, q: int| 0 <= p < q < k1.len() implies k1[p] != k1[q] by {
        if q == m.len() {
            assert(k0[p] == k1[p]);
            assert(k0.contains(k1[p]));
        }
    }
    assert forall|k: Seq<char>| #[trigger] importer_map(m1).dom().contains(k) implies importer_map(
        m1,
    )[k] == importer_map(m).insert(e.0@, strs(e.1@))[k] by {
        let j1 = key_index(m1, k);
        let w = choose|w: int| 0 <= w < k1.len() && k1[w] == k;
        assert(m1[w].0@ == k);
        assert(0 <= j1 < m1.len() && m1[j1].0@ == k);
        if k == e.0@ {
            assert(k1[j1] == k1[m.len() as int]);
        } else {
            assert(j1 < m.len());
            let j0 = key_index(m, k);
            assert(m[j1].0@ == k);
            assert(0 <= j0 < m.len() && m[j0].0@ == k);
            assert(k0[j1] == k0[j0]);
        }
    }
    assert(importer_map(m1) =~= importer_map(m).insert(e.0@, strs(e.1@)));
}

/// The importers of `prior`, in order, followed by each of `added` that is
/// not among them yet.
fn merge_importers(prior: &Vec<String>, added: Vec<String>) -> (r: Vec<String>)
    ensures
        forall|y: Seq<char>|
            #[trigger] strs(r@).contains(y) <==> (strs(prior@).contains(y) || strs(added@).contains(y)),
        strs(prior@).no_duplicates() && strs(added@).no_duplicates() ==> strs(r@).no_duplicates(),
{
    let mut r = clone_strings(prior);
    let ghost av = strs(added@);
    let ghost pv = strs(prior@);
    let n = added.len();
    assert(av.take(0) =~= seq![]);
    for i in 0..n
        invariant
            n == added@.len(),
            av == strs(added@),
            pv == strs(prior@),
            forall|y: Seq<char>|
                #[trigger] strs(r@).contains(y) <==> (pv.contains(y) || av.take(i as int).contains(y)),
            pv.no_duplicates() && av.no_duplicates() ==> strs(r@).no_duplicates(),
    {
        let ghost before = strs(r@);
        proof {
            assert(av.take(i + 1) =~= av.take(i as int).push(av[i as int]));
            lemma_push_contains(av.take(i as int), av[i as int]);
        }
        assert(av[i as int] == added@[i as int]@);
        if contains_str(&r, &added[i]) {
            assert forall|y: Seq<char>| #[trigger] strs(r@).contains(y) <==> (pv.contains(y)
                || av.take(i + 1).contains(y)) by {
                assert(before.contains(y) <==> (pv.contains(y) || av.take(i as int).contains(y)));
            }
        } else {
            r.push(added[i].clone());
            proof {
                assert(strs(r@) =~= before.push(av[i as int]));
                lemma_push_contains(before, av[i as int]);
                assert forall|y: Seq<char>| #[trigger] strs(r@).contains(y) <==> (pv.contains(y)
                    || av.take(i + 1).contains(y)) by {
                    assert(before.contains(y) <==> (pv.contains(y) || av.take(i as int).contains(y)));
                }
                if pv.no_duplicates() && av.no_duplicates() {
                    assert forall|p: int, q: int| 0 <= p < q < strs(r@).len() implies strs(r@)[p]
                        != strs(r@)[q] by {
                        if q == before.len() {
                            assert(strs(r@)[p] == before[p]);
                            assert(before.contains(before[p]));
                        }
                    }
                }
            }
        }
    }
    assert(av.take(n as int) =~= av);
    r
}

/// Appending keeps what a text starts with.
pub proof fn lemma_prefix_kept(a: Seq<char>, b: Seq<char>, h: Seq<char>)
    requires
        starts_with(a, h),
    ensures
        starts_with(a + b, h),
{
    assert((a + b).take(h.len() as int) =~= a.take(h.len() as int));
}

/// Collects the document while files are added.
pub struct FileProcessor {
    processed_files: Vec<String>,
    dependency_map: Vec<(String, Vec<String>)>,
    combined_source_code: String,
}

impl FileProcessor {
    /// The document so far.
    pub closed spec fn text(&self) -> Seq<char> {
        self.combined_source_code@
    }

    /// The files added so far.
    pub closed spec fn processed(&self) -> Set<Seq<char>> {
        Set::new(|f: Seq<char>| strs(self.processed_files@).contains(f))
    }

    /// The dependencies collected so far, each with its importers.
    pub closed spec fn dependencies(&self) -> Map<Seq<char>, Seq<Seq<char>>> {
        importer_map(self.dependency_map@)
    }

    /// The invariant: the document starts with its header, and there is one
    /// entry per dependency.
    pub closed spec fn wf(&self) -> bool {
        &&& starts_with(self.combined_source_code@, document_header())
        &&& entry_keys(self.dependency_map@).no_duplicates()
    }

    /// Appends text to the document.
    fn append(&mut self, text: &str)
        requires
            old(self).wf(),
        ensures
            final(self).wf(),
            final(self).text() == old(self).text() + text@,
            final(self).processed_files == old(self).processed_files,
            final(self).dependency_map == old(self).dependency_map,
    {
        let ghost t = self.text();
        push_str(&mut self.combined_source_code, text);
        proof {
            lemma_prefix_kept(t, text@, document_header());
        }
    }

    /// Appends the lines of `text`, each indented by two spaces, and a line
    /// break.
    fn append_indented(&mut self, text: &str)
        requires
            old(self).wf(),
        ensures
            final(self).wf(),
            final(self).text() == old(self).text() + indent_lines(text@, "  "@) + "\n"@,
            final(self).processed_files == old(self).processed_files,
            final(self).dependency_map == old(self).dependency_map,
    {
        let ghost t = self.text();
        push_indented_lines(&mut self.combined_source_code, text, "  ");
        self.combined_source_code.push('\n');
        proof {
            reveal_strlit("\n");
            assert(self.text() =~= t + (indent_lines(text@, "  "@) + "\n"@));
            lemma_prefix_kept(t, indent_lines(text@, "  "@) + "\n"@, document_header());
        }
    }

    /// A processor holding the start of the document only.
    pub fn new() -> (r: Self)
        ensures
            r.wf(),
            r.text() == document_header(),
            r.processed() == Set::<Seq<char>>::empty(),
            r.dependencies() == Map::<Seq<char>, Seq<Seq<char>>>::empty(),
    {
        let mut combined_source_code = String::new();
        push_str(&mut combined_source_code, "<?xml version=\"1.0\" encoding=\"UTF-8\"?>\n<project>\n");
        let r = FileProcessor {
            processed_files: Vec::new(),
            dependency_map: Vec::new(),
            combined_source_code,
        };
        assert(r.text() =~= document_header());
        assert(r.text().take(document_header().len() as int) =~= document_header());
        assert(r.processed() =~= Set::<Seq<char>>::empty());
        assert(r.dependencies() =~= Map::<Seq<char>, Seq<Seq<char>>>::empty());
        r
    }

    /// Whether the same path as `f` was added.
    pub open spec fn added(&self, f: Seq<char>) -> bool {
        exists|g: Seq<char>| #[trigger] self.processed().contains(g) && same_path(g, f)
    }

    /// Whether the same path as the file was added.
    pub fn is_processed(&self, file_path: &str) -> (r: bool)
        ensures
            r == self.added(file_path@),
    {
        let r = lists_path_exec(&self.processed_files, file_path);
        proof {
            let v = strs(self.processed_files@);
            if r {
                let i = choose|i: int| 0 <= i < v.len() && #[trigger] same_path(v[i], file_path@);
                assert(v.contains(v[i]));
                assert(self.processed().contains(v[i]));
            }
            if self.added(file_path@) {
                let g = choose|g: Seq<char>| #[trigger] self.processed().contains(g) && same_path(g, file_path@);
                assert(v.contains(g));
                let i = choose|i: int| 0 <= i < v.len() && v[i] == g;
                assert(same_path(v[i], file_path@));
            }
        }
        r
    }

    /// Records that the file was added.
    fn mark_processed(&mut self, file_path: &str)
        ensures
            final(self).processed() == old(self).processed().insert(file_path@),
            final(self).text() == old(self).text(),
            final(self).dependency_map == old(self).dependency_map,
    {
        let f = file_path.to_owned();
        if !contains_str(&self.processed_files, &f) {
            let ghost before = strs(self.processed_files@);
            self.processed_files.push(f);
            proof {
                assert(strs(self.processed_files@) =~= before.push(file_path@));
                lemma_push_contains(before, file_path@);
            }
        }
        assert(self.processed() =~= old(self).processed().insert(file_path@));
    }

    /// Adds a file, given its contents (`process_single_file`).
    pub fn add_file(
        &mut self,
        file_path: &str,
        options: &ProcessingOptions,
        current_dir: &str,
        file_content: &str,
    )
        requires
            old(self).wf(),
        ensures
            final(self).wf(),
            final(self).text() == old(self).text() + single_file_output(
                file_path@,
                *options,
                current_dir@,
                file_content@,
            ),
            final(self).processed() == old(self).processed().insert(file_path@),
            final(self).dependencies() == old(self).dependencies(),
    {
        let out = process_single_file(file_path, options, current_dir, file_content);
        self.append(out.as_str());
        self.mark_processed(file_path);
    }

    /// Adds a file inside a section, given its contents.
    fn add_section_file(
        &mut self,
        file_path: &str,
        options: &ProcessingOptions,
        current_dir: &str,
        file_content: &str,
    )
        requires
            old(self).wf(),
        ensures
            final(self).wf(),
            final(self).text() == old(self).text() + section_entry(
                single_file_output(file_path@, *options, current_dir@, file_content@),
            ),
            final(self).processed() == old(self).processed().insert(file_path@),
            final(self).dependencies() == old(self).dependencies(),
    {
        let out = process_single_file(file_path, options, current_dir, file_content);
        if !out.as_str().is_empty() {
            self.append_indented(out.as_str());
            proof {
                reveal_strlit("\n");
            }
        } else {
            assert(self.text() =~= old(self).text() + section_entry(out@));
        }
        self.mark_processed(file_path);
    }

    /// Adds a section of listed files, each with its contents; nothing when
    /// the list is empty.
    pub fn add_listed_files(
        &mut self,
        section: Section,
        files: &Vec<String>,
        options: &ProcessingOptions,
        current_dir: &str,
        contents: &Vec<String>,
    )
        requires
            old(self).wf(),
            contents@.len() == files@.len(),
        ensures
            final(self).wf(),
            final(self).text() == (if files@.len() == 0 {
                old(self).text()
            } else {
                old(self).text() + section_open(section) + listed_outputs(
                    strs(files@),
                    *options,
                    current_dir@,
                    strs(contents@),
                ) + section_close(section)
            }),
            forall|f: Seq<char>|
                #[trigger] final(self).processed().contains(f) <==> (old(self).processed().contains(f)
                    || strs(files@).contains(f)),
            final(self).dependencies() == old(self).dependencies(),
    {
        let n = files.len();
        if n == 0 {
            return;
        }
        match section {
            Section::Targets => self.append("  <targets>\n"),
            Section::References => self.append("  <references>\n"),
        }
        let ghost start = self.text();
        let ghost fv = strs(files@);
        let ghost cv = strs(contents@);
        assert(fv.take(0) =~= seq![]);
        assert(start + seq![] =~= start);
        for i in 0..n
            invariant
                n == files@.len(),
                n == contents@.len(),
                fv == strs(files@),
                cv == strs(contents@),
                self.wf(),
                self.text() == start + listed_outputs(
                    fv.take(i as int),
                    *options,
                    current_dir@,
                    cv.take(i as int),
                ),
                forall|f: Seq<char>|
                    #[trigger] self.processed().contains(f) <==> (old(self).processed().contains(f)
                        || fv.take(i as int).contains(f)),
                self.dependencies() == old(self).dependencies(),
        {
            let ghost before = self.text();
            self.add_section_file(files[i].as_str(), options, current_dir, contents[i].as_str());
            proof {
                let ft = fv.take(i + 1);
                assert(ft.drop_last() =~= fv.take(i as int));
                assert(cv.take(i + 1).take(i as int) =~= cv.take(i as int));
                assert(ft.last() == files@[i as int]@);
                assert(cv.take(i + 1)[i as int] == contents@[i as int]@);
                assert(self.text() =~= start + listed_outputs(
                    ft,
                    *options,
                    current_dir@,
                    cv.take(i + 1),
                ));
                assert(ft =~= fv.take(i as int).push(files@[i as int]@));
                lemma_push_contains(fv.take(i as int), files@[i as int]@);
            }
        }
        assert(fv.take(n as int) =~= fv);
        assert(cv.take(n as int) =~= cv);
        let ghost done = self.processed();
        assert(forall|f: Seq<char>|
            #[trigger] done.contains(f) <==> (old(self).processed().contains(f) || fv.contains(f)));
        match section {
            Section::Targets => self.append("  </targets>\n"),
            Section::References => self.append("  </references>\n"),
        }
        assert(self.processed() =~= done);
    }

    /// How a file met while walking a directory is handled: skipped unless it
    /// is a file that no ignore pattern ignores, that is not listed as a target
    /// or reference file and that was not added yet; else added.
    pub fn plan_walk_entry(&self, options: &ProcessingOptions, path: &str, is_file: bool) -> (r: FileAction)
        ensures
            r == (if is_file && !ignored_by(path@, options.ignore_patterns@) && !lists_path(
                strs(options.target_files@),
                path@,
            ) && !lists_path(strs(options.reference_files@), path@) && !self.added(path@) {
                adding_action(*options, path@)
            } else {
                FileAction::Skip
            }),
    {
        if !is_file || is_ignored(path, options.ignore_patterns.as_str()) || lists_path_exec(
            &options.target_files,
            path,
        ) || lists_path_exec(&options.reference_files, path) || self.is_processed(path) {
            return FileAction::Skip;
        }
        if options.deps && TypeScriptResolver::is_supported_file(path) {
            FileAction::WithDependencies
        } else {
            FileAction::Single
        }
    }

    /// Adds importers to a dependency: those it had stay, first, and each new
    /// one that is not among them follows.
    fn put_importers(&mut self, dep: String, importers: Vec<String>)
        requires
            old(self).wf(),
        ensures
            final(self).wf(),
            final(self).dependencies() == old(self).dependencies().insert(
                dep@,
                final(self).dependencies()[dep@],
            ),
            forall|y: Seq<char>|
                #[trigger] final(self).dependencies()[dep@].contains(y) <==> (prior_of(
                    old(self).dependencies(),
                    dep@,
                ).contains(y) || strs(importers@).contains(y)),
            prior_of(old(self).dependencies(), dep@).no_duplicates() && strs(
                importers@,
            ).no_duplicates() ==> final(self).dependencies()[dep@].no_duplicates(),
            final(self).text() == old(self).text(),
            final(self).processed_files == old(self).processed_files,
    {
        let ghost m0 = self.dependency_map@;
        let n = self.dependency_map.len();
        for i in 0..n
            invariant
                n == m0.len(),
                self.dependency_map@ == m0,
                m0 == old(self).dependency_map@,
                entry_keys(m0).no_duplicates(),
                old(self).wf(),
                self.combined_source_code == old(self).combined_source_code,
                self.processed_files == old(self).processed_files,
                forall|j: int| 0 <= j < i ==> m0[j].0@ != dep@,
        {
            if self.dependency_map[i].0 == dep {
                proof {
                    let j = key_index(m0, dep@);
                    assert(entry_keys(m0)[i as int] == dep@);
                    assert(entry_keys(m0).contains(dep@));
                    assert(0 <= j < m0.len() && m0[j].0@ == dep@);
                    assert(entry_keys(m0)[j] == entry_keys(m0)[i as int]);
                    assert(prior_of(old(self).dependencies(), dep@) == strs(m0[i as int].1@));
                }
                let merged = merge_importers(&self.dependency_map[i].1, importers);
                let ghost e = (dep, merged);
                proof {
                    lemma_importer_map_update(m0, i as int, e);
                }
                self.dependency_map.set(i, (dep, merged));
                assert(self.dependency_map@ == m0.update(i as int, e));
                return;
            }
        }
        let ghost e = (dep, importers);
        proof {
            assert(!entry_keys(m0).contains(dep@)) by {
                if entry_keys(m0).contains(dep@) {
                    let j = choose|j: int| 0 <= j < entry_keys(m0).len() && entry_keys(m0)[j] == dep@;
                    assert(m0[j].0@ == dep@);
                }
            }
            lemma_importer_map_push(m0, e);
            assert(prior_of(old(self).dependencies(), dep@) == Seq::<Seq<char>>::empty());
        }
        self.dependency_map.push((dep, importers));
    }

    /// Records the dependencies of `file_path` among the resolved files, each
    /// with the files that import it in `deps_resolver`'s graph.
    pub fn record_dependencies(
        &mut self,
        options: &ProcessingOptions,
        file_path: &str,
        resolved_files: &Vec<String>,
        deps_resolver: &DependencyResolver,
    )
        requires
            old(self).wf(),
        ensures
            final(self).wf(),
            records(
                old(self).dependencies(),
                final(self).dependencies(),
                *options,
                file_path@,
                strs(resolved_files@),
                deps_resolver.dependency_edges(),
            ),
            final(self).text() == old(self).text(),
            final(self).processed() == old(self).processed(),
    {
        let ghost rv = strs(resolved_files@);
        let ghost edges = deps_resolver.dependency_edges();
        let n = resolved_files.len();
        assert(rv.take(0) =~= seq![]);
        for i in 0..n
            invariant
                n == resolved_files@.len(),
                rv == strs(resolved_files@),
                edges == deps_resolver.dependency_edges(),
                self.wf(),
                records(
                    old(self).dependencies(),
                    self.dependencies(),
                    *options,
                    file_path@,
                    rv.take(i as int),
                    edges,
                ),
                self.text() == old(self).text(),
                self.processed_files == old(self).processed_files,
        {
            let ghost before = self.dependencies();
            let ghost t0 = rv.take(i as int);
            let ghost t1 = rv.take(i + 1);
            proof {
                assert(t1 =~= t0.push(rv[i as int]));
                lemma_push_contains(t0, rv[i as int]);
            }
            let dep = resolved_files[i].clone();
            assert(dep@ == rv[i as int]);
            if !is_ignored(dep.as_str(), options.ignore_patterns.as_str()) && !same_path_exec(
                dep.as_str(),
                file_path,
            ) {
                let importers = deps_resolver.get_all_importers(dep.as_str());
                let ghost iv = strs(importers@);
                let ghost d = dep@;
                self.put_importers(dep, importers);
                proof {
                    let merged = self.dependencies()[d];
                    assert forall|x: Seq<char>| #[trigger] merged.contains(x) <==> (prior_of(
                        before,
                        d,
                    ).contains(x) || reaches_plus(edges, x, normalized(d))) by {
                        assert(merged.contains(x) <==> (prior_of(before, d).contains(x) || iv.contains(x)));
                    }
                    lemma_records_step(
                        old(self).dependencies(),
                        before,
                        self.dependencies(),
                        *options,
                        file_path@,
                        t0,
                        d,
                        merged,
                        edges,
                    );
                }
            } else {
                proof {
                    lemma_push_contains(t0, dep@);
                    assert forall|k: Seq<char>|
                        #[trigger] recorded_dependency(*options, file_path@, t1, k) == recorded_dependency(
                            *options,
                            file_path@,
                            t0,
                            k,
                        ) by {}
                    lemma_records_same(
                        old(self).dependencies(),
                        self.dependencies(),
                        *options,
                        file_path@,
                        t0,
                        t1,
                        edges,
                    );
                }
            }
        }
        assert(rv.take(n as int) =~= rv);
        assert(self.processed() =~= old(self).processed());
    }

    /// Adds a file and records its dependencies, unless it was added already:
    /// `resolved_files` are the files it depends on, as `deps_resolver`
    /// resolved them (`process_file_with_deps`).
    pub fn process_file_with_deps(
        &mut self,
        file_path: &str,
        options: &ProcessingOptions,
        current_dir: &str,
        file_content: &str,
        resolved_files: &Vec<String>,
        deps_resolver: &DependencyResolver,
    )
        requires
            old(self).wf(),
        ensures
            final(self).wf(),
            old(self).added(file_path@) ==> {
                &&& final(self).text() == old(self).text()
                &&& final(self).processed() == old(self).processed()
                &&& final(self).dependencies() == old(self).dependencies()
            },
            !old(self).added(file_path@) ==> {
                &&& final(self).text() == old(self).text() + single_file_output(
                    file_path@,
                    *options,
                    current_dir@,
                    file_content@,
                )
                &&& final(self).processed() == old(self).processed().insert(file_path@)
                &&& records(
                    old(self).dependencies(),
                    final(self).dependencies(),
                    *options,
                    file_path@,
                    strs(resolved_files@),
                    deps_resolver.dependency_edges(),
                )
            },
    {
        if self.is_processed(file_path) {
            return;
        }
        self.add_file(file_path, options, current_dir, file_content);
        self.record_dependencies(options, file_path, resolved_files, deps_resolver);
    }

    /// Whether the file is a collected dependency that was not added yet.
    pub open spec fn is_pending(&self, f: Seq<char>) -> bool {
        self.dependencies().dom().contains(f) && !self.added(f)
    }

    /// The collected dependencies not added yet, in path order.
    pub open spec fn pending(&self) -> Seq<Seq<char>> {
        choose|s: Seq<Seq<char>>|
            sorted_paths(s) && forall|f: Seq<char>| #[trigger] s.contains(f) <==> self.is_pending(f)
    }

    /// The collected dependencies not added yet, in path order: those whose
    /// contents `add_dependencies_section` needs, in the order it needs them.
    pub fn pending_dependencies(&self) -> (r: Vec<String>)
        requires
            self.wf(),
        ensures
            strs(r@) == self.pending(),
            sorted_paths(self.pending()),
            forall|f: Seq<char>| #[trigger] self.pending().contains(f) <==> self.is_pending(f),
    {
        let mut keys: Vec<String> = Vec::new();
        let m = self.dependency_map.len();
        let ghost ek = entry_keys(self.dependency_map@);
        for i in 0..m
            invariant
                m == self.dependency_map@.len(),
                ek == entry_keys(self.dependency_map@),
                strs(keys@) == ek.take(i as int),
        {
            keys.push(self.dependency_map[i].0.clone());
            assert(ek.take(i + 1) =~= ek.take(i as int).push(ek[i as int]));
            assert(strs(keys@) =~= ek.take(i + 1));
        }
        assert(ek.take(m as int) =~= ek);
        let sorted = sort_paths(&keys);
        let ghost sv = strs(sorted@);
        let mut r: Vec<String> = Vec::new();
        let n = sorted.len();
        for i in 0..n
            invariant
                n == sorted@.len(),
                sv == strs(sorted@),
                sorted_paths(sv),
                sorted_paths(strs(r@)),
                forall|x: Seq<char>|
                    #[trigger] strs(r@).contains(x) <==> (sv.take(i as int).contains(x)
                        && !self.added(x)),
                forall|j: int| 0 <= j < strs(r@).len() ==> sv.take(i as int).contains(#[trigger] strs(r@)[j]),
        {
            let ghost before = strs(r@);
            let ghost t0 = sv.take(i as int);
            proof {
                assert(sv.take(i + 1) =~= t0.push(sv[i as int]));
                lemma_push_contains(t0, sv[i as int]);
            }
            let ghost x0 = sv[i as int];
            assert(sv.take(i + 1)[i as int] == x0);
            if !self.is_processed(sorted[i].as_str()) {
                r.push(sorted[i].clone());
                proof {
                    let now = strs(r@);
                    assert(now =~= before.push(x0));
                    lemma_push_contains(before, x0);
                    assert forall|p: int, q: int| 0 <= p < q < now.len() implies path_before(
                        #[trigger] now[p],
                        #[trigger] now[q],
                    ) by {
                        if q == before.len() {
                            assert(now[p] == before[p]);
                            assert(t0.contains(before[p]));
                            let k = choose|k: int| 0 <= k < t0.len() && t0[k] == before[p];
                            assert(sv[k] == before[p]);
                        } else {
                            assert(now[p] == before[p] && now[q] == before[q]);
                        }
                    }
                    assert forall|j: int| 0 <= j < now.len() implies sv.take(i + 1).contains(
                        #[trigger] now[j],
                    ) by {
                        if j < before.len() {
                            assert(now[j] == before[j]);
                            assert(t0.contains(before[j]));
                        } else {
                            assert(now[j] == x0);
                        }
                    }
                    assert forall|x: Seq<char>| #[trigger] now.contains(x) <==> (sv.take(i + 1).contains(x)
                        && !self.added(x)) by {
                        assert(before.contains(x) <==> (t0.contains(x) && !self.added(x)));
                    }
                }
            } else {
                proof {
                    assert forall|j: int| 0 <= j < before.len() implies sv.take(i + 1).contains(
                        #[trigger] before[j],
                    ) by {
                        assert(t0.contains(before[j]));
                    }
                    assert forall|x: Seq<char>| #[trigger] before.contains(x) <==> (sv.take(i + 1).contains(x)
                        && !self.added(x)) by {
                        assert(before.contains(x) <==> (t0.contains(x) && !self.added(x)));
                    }
                }
            }
        }
        proof {
            assert(sv.take(n as int) =~= sv);
            assert forall|f: Seq<char>| #[trigger] strs(r@).contains(f) <==> self.is_pending(f) by {
                if self.dependencies().dom().contains(f) {
                    assert(entry_keys(self.dependency_map@).contains(f));
                }
            }
            let p = self.pending();
            assert(sorted_paths(p) && forall|f: Seq<char>| #[trigger] p.contains(f) <==> self.is_pending(f));
            assert forall|f: Seq<char>| #[trigger] p.contains(f) <==> strs(r@).contains(f) by {
                assert(p.contains(f) <==> self.is_pending(f));
            }
            lemma_sorted_unique(p, strs(r@));
        }
        r
    }

    /// The importers collected for a dependency.
    fn importers_of(&self, dep: &String) -> (r: Vec<String>)
        requires
            self.wf(),
            self.dependencies().dom().contains(dep@),
        ensures
            strs(r@) == self.dependencies()[dep@],
    {
        let ghost m = self.dependency_map@;
        let n = self.dependency_map.len();
        for i in 0..n
            invariant
                n == m.len(),
                m == self.dependency_map@,
                self.wf(),
                self.dependencies().dom().contains(dep@),
                forall|j: int| 0 <= j < i ==> m[j].0@ != dep@,
        {
            if self.dependency_map[i].0 == *dep {
                proof {
                    let j = key_index(m, dep@);
                    assert(entry_keys(m).contains(dep@));
                    let w = choose|w: int| 0 <= w < entry_keys(m).len() && entry_keys(m)[w] == dep@;
                    assert(m[w].0@ == dep@);
                    assert(0 <= j < m.len() && m[j].0@ == dep@);
                    assert(entry_keys(m)[j] == entry_keys(m)[i as int]);
                }
                return clone_strings(&self.dependency_map[i].1);
            }
        }
        proof {
            let w = choose|w: int| 0 <= w < entry_keys(m).len() && entry_keys(m)[w] == dep@;
            assert(m[w].0@ == dep@);
        }
        Vec::new()
    }

    /// Adds the dependencies section when dependencies were collected: each
    /// dependency not added yet, in path order, with its importers and the
    /// contents given for it at its place in `pending_dependencies()`.
    pub fn add_dependencies_section(
        &mut self,
        options: &ProcessingOptions,
        current_dir: &str,
        contents: &Vec<String>,
    )
        requires
            old(self).wf(),
            contents@.len() == old(self).pending().len(),
        ensures
            final(self).wf(),
            final(self).text() == (if old(self).dependencies() == Map::<
                Seq<char>,
                Seq<Seq<char>>,
            >::empty() {
                old(self).text()
            } else {
                old(self).text() + "  <dependencies>\n"@ + dependency_texts(
                    old(self).pending(),
                    old(self).dependencies(),
                    *options,
                    current_dir@,
                    strs(contents@),
                ) + "  </dependencies>\n"@
            }),
            forall|f: Seq<char>|
                #[trigger] final(self).processed().contains(f) <==> (old(self).processed().contains(f)
                    || old(self).is_pending(f)),
            final(self).dependencies() == old(self).dependencies(),
    {
        if self.dependency_map.len() == 0 {
            assert(self.dependencies() =~= Map::<Seq<char>, Seq<Seq<char>>>::empty());
            assert forall|f: Seq<char>| !old(self).is_pending(f) by {}
            return;
        }
        proof {
            let k = self.dependency_map@[0].0@;
            assert(entry_keys(self.dependency_map@)[0] == k);
            assert(self.dependencies().dom().contains(k));
            assert(!Map::<Seq<char>, Seq<Seq<char>>>::empty().dom().contains(k));
        }
        let pending = self.pending_dependencies();
        let ghost pv = strs(pending@);
        let ghost cv = strs(contents@);
        let ghost deps = self.dependencies();
        self.append("  <dependencies>\n");
        let ghost start = self.text();
        let n = pending.len();
        assert(pv.take(0) =~= seq![]);
        assert(start + seq![] =~= start);
        for i in 0..n
            invariant
                n == pending@.len(),
                n == contents@.len(),
                pv == strs(pending@),
                cv == strs(contents@),
                pv == old(self).pending(),
                deps == old(self).dependencies(),
                sorted_paths(pv),
                self.wf(),
                self.dependencies() == deps,
                self.text() == start + dependency_texts(
                    pv.take(i as int),
                    deps,
                    *options,
                    current_dir@,
                    cv.take(i as int),
                ),
                forall|f: Seq<char>|
                    #[trigger] self.processed().contains(f) <==> (old(self).processed().contains(f)
                        || pv.take(i as int).contains(f)),
                forall|f: Seq<char>| #[trigger] pv.contains(f) <==> old(self).is_pending(f),
        {
            let dep = &pending[i];
            assert(pv.contains(pv[i as int]));
            assert(pv[i as int] == dep@);
            let importers = self.importers_of(dep);
            let out = process_single_file_with_importers(
                dep.as_str(),
                options,
                &importers,
                current_dir,
                contents[i].as_str(),
            );
            let ghost p0 = self.processed();
            self.append_indented(out.as_str());
            self.mark_processed(dep.as_str());
            proof {
                reveal_strlit("\n");
                assert forall|f: Seq<char>| #[trigger] self.processed().contains(f) <==> (old(
                    self,
                ).processed().contains(f) || pv.take(i + 1).contains(f)) by {
                    assert(p0.contains(f) <==> (old(self).processed().contains(f) || pv.take(
                        i as int,
                    ).contains(f)));
                    lemma_push_contains(pv.take(i as int), dep@);
                    assert(pv.take(i + 1) =~= pv.take(i as int).push(dep@));
                }
                let t1 = pv.take(i + 1);
                assert(t1.drop_last() =~= pv.take(i as int));
                assert(cv.take(i + 1).take(i as int) =~= cv.take(i as int));
                assert(t1.last() == dep@);
                assert(cv.take(i + 1)[i as int] == contents@[i as int]@);
                assert(self.text() =~= start + dependency_texts(
                    t1,
                    deps,
                    *options,
                    current_dir@,
                    cv.take(i + 1),
                ));
                assert(t1 =~= pv.take(i as int).push(dep@));
                lemma_push_contains(pv.take(i as int), dep@);
            }
        }
        assert(pv.take(n as int) =~= pv);
        assert(cv.take(n as int) =~= cv);
        let ghost done = self.processed();
        self.append("  </dependencies>\n");
        assert(self.processed() =~= done);
    }

    /// The finished document: what was collected, then the closing tag. It
    /// starts with the header and ends with the closing tag.
    pub fn finalize(self) -> (r: String)
        requires
            self.wf(),
        ensures
            r@ == self.text() + document_footer(),
            starts_with(r@, document_header()),
            ends_with(r@, document_footer()),
    {
        let mut s = self.combined_source_code;
        let ghost t = s@;
        push_str(&mut s, "</project>\n");
        proof {
            lemma_prefix_kept(t, document_footer(), document_header());
            assert(s@.skip(s@.len() - document_footer().len()) =~= document_footer());
        }
        s
    }
}

/// Once the dependencies section is added, every collected dependency is in
/// the document: none is left pending.
pub proof fn lemma_section_leaves_nothing_pending(before: FileProcessor, after: FileProcessor)
    requires
        after.dependencies() == before.dependencies(),
        forall|f: Seq<char>|
            #[trigger] after.processed().contains(f) <==> (before.processed().contains(f)
                || before.is_pending(f)),
    ensures
        forall|f: Seq<char>| !after.is_pending(f),
        after.pending() == Seq::<Seq<char>>::empty(),
{
    assert forall|f: Seq<char>| !after.is_pending(f) by {
        if after.dependencies().dom().contains(f) && !after.added(f) {
            assert(!after.processed().contains(f)) by {
                if after.processed().contains(f) {
                    assert(same_path(f, f));
                }
            }
            if before.added(f) {
                let g = choose|g: Seq<char>| #[trigger] before.processed().contains(g) && same_path(g, f);
                assert(after.processed().contains(g));
            }
            assert(before.is_pending(f));
        }
    }
    let e = Seq::<Seq<char>>::empty();
    assert(sorted_paths(e) && forall|f: Seq<char>| #[trigger] e.contains(f) <==> after.is_pending(f));
    let p = after.pending();
    assert(sorted_paths(p) && forall|f: Seq<char>| #[trigger] p.contains(f) <==> after.is_pending(f));
    assert forall|f: Seq<char>| #[trigger] p.contains(f) <==> e.contains(f) by {
        assert(p.contains(f) <==> after.is_pending(f));
    }
    lemma_sorted_unique(p, e);
}

/// The lines of a file's block: the opening tag with the name, each line of
/// the contents indented by four spaces, then the closing tag; when the name
/// holds no line break and the contents hold no `\r` and at least one line.
pub proof fn lemma_file_block_lines(name: Seq<char>, content: Seq<char>)
    requires
        !name.contains('\n'),
        !content.contains('\r'),
        lines(content).len() >= 1,
    ensures
        lines(file_block(name, content)) == seq!["  <file name=\""@ + name + "\">"@] + prefixed(
            lines(content),
            "    "@,
        ) + seq!["  </file>"@],
{
    reveal_strlit("  <file name=\"");
    reveal_strlit("\">");
    reveal_strlit("\">\n");
    reveal_strlit("    ");
    reveal_strlit("\n  </file>\n");
    reveal_strlit("  </file>");
    let nl = seq!['\n'];
    let open_tag = "  <file name=\""@ + name + "\">"@;
    let close_tag = "  </file>"@;
    let ls = lines(content);
    let ps = prefixed(ls, "    "@);
    let j = join(ps, nl);
    lemma_lines_clean(content);
    assert(one_line(open_tag)) by {
        if open_tag.contains('\n') {
            let k = choose|k: int| 0 <= k < open_tag.len() && open_tag[k] == '\n';
            if 14 <= k < 14 + name.len() {
                assert(name[k - 14] == '\n');
            }
        }
        assert(open_tag.last() == '>');
    }
    assert(one_line(close_tag)) by {
        assert(close_tag.last() == '>');
    }
    assert forall|i: int| 0 <= i < ps.len() implies one_line(#[trigger] ps[i]) by {
        let l = ls[i];
        assert(clean_line(l));
        assert(ps[i] == "    "@ + l);
        if ps[i].contains('\n') {
            let k = choose|k: int| 0 <= k < ps[i].len() && ps[i][k] == '\n';
            if k >= 4 {
                assert(l[k - 4] == '\n');
            }
        }
        if l.len() > 0 {
            assert(ps[i].last() == l[l.len() - 1]);
            assert(l.contains(l[l.len() - 1]));
        }
    }
    lemma_line_split_single(open_tag);
    lemma_line_split_single(close_tag);
    lemma_line_split_joined(ps);
    lemma_line_split_append(open_tag + nl, j + nl);
    let first = (open_tag + nl) + (j + nl);
    assert(line_split(first) == (seq![open_tag] + ps, Seq::<char>::empty()));
    lemma_line_split_append(first, close_tag + nl);
    assert(file_block(name, content) =~= first + (close_tag + nl));
}

/// The entries of the listed files, in order: the `i`-th is the entry of
/// `files[i]` built from `contents[i]`.
pub open spec fn entries_by_index(
    files: Seq<Seq<char>>,
    options: ProcessingOptions,
    current_dir: Seq<char>,
    contents: Seq<Seq<char>>,
) -> Seq<Seq<char>> {
    Seq::new(
        files.len(),
        |i: int| section_entry(single_file_output(files[i], options, current_dir, contents[i])),
    )
}

/// Each listed file is shown with its own contents: what the listed files add
/// to their section is their entries one after the other, the entry of the
/// `i`-th file being built from the `i`-th contents.
pub proof fn lemma_listed_files_keep_their_contents(
    files: Seq<Seq<char>>,
    options: ProcessingOptions,
    current_dir: Seq<char>,
    contents: Seq<Seq<char>>,
)
    requires
        contents.len() == files.len(),
    ensures
        listed_outputs(files, options, current_dir, contents) == entries_by_index(
            files,
            options,
            current_dir,
            contents,
        ).flatten(),
    decreases files.len(),
{
    let e = entries_by_index(files, options, current_dir, contents);
    e.lemma_flatten_and_flatten_alt_are_equivalent();
    if files.len() > 0 {
        let n = files.len() - 1;
        let f2 = files.drop_last();
        let c2 = contents.take(n);
        lemma_listed_files_keep_their_contents(f2, options, current_dir, c2);
        let e2 = entries_by_index(f2, options, current_dir, c2);
        assert(e2 =~= e.drop_last());
        e2.lemma_flatten_and_flatten_alt_are_equivalent();
        assert(e.last() == section_entry(
            single_file_output(files.last(), options, current_dir, contents[n]),
        ));
    }
}

/// Each dependency is shown with its own contents and importers: what the
/// dependencies add is their texts one after the other, that of the `i`-th
/// built from the `i`-th contents and the importers of that dependency.
pub proof fn lemma_dependencies_keep_their_contents(
    deps: Seq<Seq<char>>,
    importers: Map<Seq<char>, Seq<Seq<char>>>,
    options: ProcessingOptions,
    current_dir: Seq<char>,
    contents: Seq<Seq<char>>,
)
    requires
        contents.len() == deps.len(),
    ensures
        dependency_texts(deps, importers, options, current_dir, contents) == Seq::new(
            deps.len(),
            |i: int|
                indent_lines(
                    dependency_output(deps[i], options, importers[deps[i]], current_dir, contents[i]),
                    "  "@,
                ) + "\n"@,
        ).flatten(),
    decreases deps.len(),
{
    let e = Seq::new(
        deps.len(),
        |i: int|
            indent_lines(
                dependency_output(deps[i], options, importers[deps[i]], current_dir, contents[i]),
                "  "@,
            ) + "\n"@,
    );
    e.lemma_flatten_and_flatten_alt_are_equivalent();
    if deps.len() > 0 {
        let n = deps.len() - 1;
        let d2 = deps.drop_last();
        let c2 = contents.take(n);
        lemma_dependencies_keep_their_contents(d2, importers, options, current_dir, c2);
        let e2 = Seq::new(
            d2.len(),
            |i: int|
                indent_lines(
                    dependency_output(d2[i], options, importers[d2[i]], current_dir, c2[i]),
                    "  "@,
                ) + "\n"@,
        );
        assert(e2 =~= e.drop_last());
        e2.lemma_flatten_and_flatten_alt_are_equivalent();
        assert(dependency_texts(deps, importers, options, current_dir, contents) == e2.flatten()
            + e.last());
    }
}

/// Each importer gets its own line, in order: the lines that name the
/// importers are the line of the `i`-th importer for each `i`, one after the
/// other.
pub proof fn lemma_importer_lines_by_index(importers: Seq<Seq<char>>)
    ensures
        importer_lines(importers) == Seq::new(
            importers.len(),
            |i: int| importer_line(importers[i]),
        ).flatten(),
    decreases importers.len(),
{
    let e = Seq::new(importers.len(), |i: int| importer_line(importers[i]));
    e.lemma_flatten_and_flatten_alt_are_equivalent();
    if importers.len() > 0 {
        lemma_importer_lines_by_index(importers.drop_last());
        let e2 = Seq::new(
            importers.drop_last().len(),
            |i: int| importer_line(importers.drop_last()[i]),
        );
        assert(e2 =~= e.drop_last());
        e2.lemma_flatten_and_flatten_alt_are_equivalent();
    }
}

} // verus!
