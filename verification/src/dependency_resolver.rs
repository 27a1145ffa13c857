//! Resolution of the dependencies of an entry file.
//!
//! The resolver walks the imports depth first, as a state machine: it asks
//! for the imports of one file at a time (reading a file and resolving its
//! import specifiers is the caller's work), records an edge for each import
//! that is not under `node_modules`, reports each import that closes a cycle,
//! and, when every file reachable from the entry has been read, hands back
//! those files.
use vstd::prelude::*;
use crate::graph::{
    Edges, Graph, graph_edge, edges_of, reaches, reaches_plus, is_walk, lemma_reaches_refl,
    lemma_reaches_step, lemma_reaches_mono, lemma_reaches_plus_first, lemma_closed_holds_reached, contains_str,
    collect_reachable, collect_importers, add_edge, lemma_push_contains,
};
use crate::text::{has_substring, contains_substring, trim_suffix, trim_end_matches, strs};
use crate::paths::{normalized, normalize_path, normalize_paths};
use crate::json::{JsonValue, member, first_element, as_text, get_member, json_document, parse_json};

verus! {

/// `node_modules`.
pub open spec fn node_modules() -> Seq<char> {
    seq!['n', 'o', 'd', 'e', '_', 'm', 'o', 'd', 'u', 'l', 'e', 's']
}

/// Whether a resolved import is left out of the graph: its path mentions
/// `node_modules`.
pub open spec fn ignored_import(path: Seq<char>) -> bool {
    has_substring(path, node_modules())
}

/// Whether a resolved import is left out of the graph: its path mentions
/// `node_modules`.
pub fn should_ignore_file(path: &str) -> (r: bool)
    ensures
        r == ignored_import(path@),
{
    let nm = "node_modules";
    proof {
        reveal_strlit("node_modules");
        assert(nm@ =~= node_modules());
    }
    contains_substring(path, nm)
}

/// The dependency edges that the supplied imports define: `a` imports `b`
/// when `b` is among the imports supplied for `a` and is not under
/// `node_modules`.
pub open spec fn told_edge(t: Map<Seq<char>, Seq<Seq<char>>>, a: Seq<char>, b: Seq<char>) -> bool {
    t.dom().contains(a) && t[a].contains(b) && !ignored_import(b)
}

/// The relation `told_edge(t, _, _)`.
pub open spec fn told_edges(t: Map<Seq<char>, Seq<Seq<char>>>) -> Edges {
    |a: Seq<char>, b: Seq<char>| told_edge(t, a, b)
}

/// Finds the import specifiers of a source.
pub trait LanguageResolver {
    /// The import specifiers of `content`, in order.
    fn get_imports(&mut self, content: &str) -> Vec<String>;
}

/// What the resolver asks for or reports after a step.
pub enum ResolveStep {
    /// The imports of this file are needed next: its contents are to be read
    /// and its import specifiers resolved to paths.
    NeedImports(String),
    /// This import closes a cycle: the file is being processed already.
    CircularDependency(String),
    /// The walk moved on by one import, or past a file whose imports were all
    /// followed, with nothing to ask or report; `resume` goes on.
    Continue,
    /// All files that the entry depends on, directly or not, the entry included.
    Finished(Vec<String>),
}

/// Resolves the dependencies of one entry file at a time.
pub struct DependencyResolver {
    base_path: String,
    alias_map: Option<Vec<(String, String)>>,
    resolved_files: Vec<String>,
    dependency_graph: Graph,
    processing_stack: Vec<String>,
    frames: Vec<(Vec<String>, usize)>,
    entry: String,
    awaiting: bool,
    supplied: Ghost<Map<Seq<char>, Seq<Seq<char>>>>,
}

/// What reading the project's `tsconfig.json` gave.
pub enum TsconfigFile {
    /// There is no such file.
    Missing,
    /// The file exists but could not be read.
    Unreadable,
    /// The file was read; its text.
    Read(String),
}

/// The file exists but could not be read.
pub struct TsconfigUnreadable;

/// The alias that a member of `compilerOptions.paths` defines: its name and
/// its first target, each without trailing `/*`, when the first target is a
/// string.
pub open spec fn alias_entry(alias: Seq<char>, targets: JsonValue) -> Option<(Seq<char>, Seq<char>)> {
    match first_element(targets) {
        Some(t) => match as_text(t) {
            Some(target) => Some((trim_suffix(alias, "/*"@), trim_suffix(target, "/*"@))),
            None => None,
        },
        None => None,
    }
}

/// The position of the alias named `k`, or -1.
pub open spec fn alias_index(m: Seq<(Seq<char>, Seq<char>)>, k: Seq<char>) -> int
    decreases m.len(),
{
    if m.len() == 0 {
        -1
    } else if m.last().0 == k {
        m.len() - 1
    } else {
        alias_index(m.drop_last(), k)
    }
}

/// The aliases after inserting `k -> v`, as `HashMap::insert` does: a
/// present `k` gets the new target, a new one is added.
pub open spec fn insert_alias(m: Seq<(Seq<char>, Seq<char>)>, k: Seq<char>, v: Seq<char>) -> Seq<
    (Seq<char>, Seq<char>),
> {
    if alias_index(m, k) >= 0 {
        m.update(alias_index(m, k), (k, v))
    } else {
        m.push((k, v))
    }
}

/// The aliases that the members of `compilerOptions.paths` define, inserted in order.
pub open spec fn aliases_from(members: Seq<(String, JsonValue)>) -> Seq<(Seq<char>, Seq<char>)>
    decreases members.len(),
{
    if members.len() == 0 {
        seq![]
    } else {
        let m = aliases_from(members.drop_last());
        match alias_entry(members.last().0@, members.last().1) {
            Some(kv) => insert_alias(m, kv.0, kv.1),
            None => m,
        }
    }
}

/// The aliases of a parsed `tsconfig.json`: those of
/// `compilerOptions.paths` when that is an object, none otherwise.
pub open spec fn tsconfig_aliases(doc: JsonValue) -> Seq<(Seq<char>, Seq<char>)> {
    match member(doc, "compilerOptions"@) {
        Some(options) => match member(options, "paths"@) {
            Some(JsonValue::Object(members)) => aliases_from(members@),
            _ => seq![],
        },
        None => seq![],
    }
}

/// The aliases loaded from what reading `tsconfig.json` gave: none when it
/// is missing or not JSON, a failure when it could not be read.
pub open spec fn loaded_aliases(file: TsconfigFile) -> Option<Seq<(Seq<char>, Seq<char>)>> {
    match file {
        TsconfigFile::Missing => Some(seq![]),
        TsconfigFile::Unreadable => None,
        TsconfigFile::Read(text) => match json_document(text@) {
            Some(doc) => Some(tsconfig_aliases(doc)),
            None => Some(seq![]),
        },
    }
}

/// Inserts the alias `k -> v`, as `HashMap::insert` does.
fn insert_alias_exec(m: &mut Vec<(String, String)>, k: String, v: String)
    ensures
        alias_pairs(final(m)@) == insert_alias(alias_pairs(old(m)@), k@, v@),
{
    let ghost mv = alias_pairs(m@);
    let mut i = m.len();
    assert(mv.take(i as int) =~= mv);
    while i > 0 && m[i - 1].0 != k
        invariant
            i <= m@.len(),
            mv == alias_pairs(m@),
            alias_index(mv, k@) == alias_index(mv.take(i as int), k@),
        decreases i,
    {
        assert(mv.take(i as int).drop_last() =~= mv.take(i - 1));
        i = i - 1;
    }
    if i > 0 {
        assert(mv.take(i as int).last() == mv[i - 1]);
        m.set(i - 1, (k, v));
        assert(alias_pairs(m@) =~= mv.update(i - 1, (k@, v@)));
    } else {
        assert(mv.take(0) =~= seq![]);
        m.push((k, v));
        assert(alias_pairs(m@) =~= mv.push((k@, v@)));
    }
}

/// The alias that one member of `compilerOptions.paths` defines.
fn alias_of(alias: &String, targets: &JsonValue) -> (r: Option<(String, String)>)
    ensures
        match r {
            Some(kv) => alias_entry(alias@, *targets) == Some((kv.0@, kv.1@)),
            None => alias_entry(alias@, *targets) is None,
        },
{
    match targets {
        JsonValue::Array(items) => {
            if items.len() == 0 {
                return None;
            }
            match &items[0] {
                JsonValue::Str(target) => {
                    let k = trim_end_matches(alias.as_str(), "/*");
                    let v = trim_end_matches(target.as_str(), "/*");
                    Some((k, v))
                },
                _ => None,
            }
        },
        _ => None,
    }
}

/// The aliases that the members of `compilerOptions.paths` define.
fn aliases_of(members: &Vec<(String, JsonValue)>) -> (r: Vec<(String, String)>)
    ensures
        alias_pairs(r@) == aliases_from(members@),
{
    let mut m: Vec<(String, String)> = Vec::new();
    let n = members.len();
    assert(alias_pairs(m@) =~= seq![]);
    assert(members@.take(0) =~= seq![]);
    for i in 0..n
        invariant
            n == members@.len(),
            alias_pairs(m@) == aliases_from(members@.take(i as int)),
    {
        assert(members@.take(i + 1).drop_last() =~= members@.take(i as int));
        assert(members@.take(i + 1).last() == members@[i as int]);
        match alias_of(&members[i].0, &members[i].1) {
            Some(kv) => {
                insert_alias_exec(&mut m, kv.0, kv.1);
            },
            None => {},
        }
    }
    assert(members@.take(n as int) =~= members@);
    m
}

/// The aliases of a parsed `tsconfig.json`.
fn aliases_of_document(doc: &JsonValue) -> (r: Vec<(String, String)>)
    ensures
        alias_pairs(r@) == tsconfig_aliases(*doc),
{
    match get_member(doc, "compilerOptions") {
        Some(options) => match get_member(options, "paths") {
            Some(JsonValue::Object(members)) => aliases_of(members),
            _ => {
                let r: Vec<(String, String)> = Vec::new();
                assert(alias_pairs(r@) =~= seq![]);
                r
            },
        },
        None => {
            let r: Vec<(String, String)> = Vec::new();
            assert(alias_pairs(r@) =~= seq![]);
            r
        },
    }
}

/// Alias pairs as views.
pub open spec fn alias_pairs(v: Seq<(String, String)>) -> Seq<(Seq<char>, Seq<char>)> {
    v.map_values(|p: (String, String)| (p.0@, p.1@))
}

/// The imports not yet handled in each frame, plus one per frame.
pub open spec fn pending_work(fs: Seq<(Vec<String>, usize)>) -> nat
    decreases fs.len(),
{
    if fs.len() == 0 {
        0
    } else {
        pending_work(fs.drop_last()) + ((fs.last().0@.len() - fs.last().1) as nat) + 1
    }
}

/// Whether the import `a -> b` has been followed: `b` is not ignored and is
/// among the supplied imports of `a` (all of them once `a` is resolved; the
/// first `n` of them while `a` is at depth `k` of the walk and its frame has
/// handled `n`).
pub open spec fn handled(
    t: Map<Seq<char>, Seq<Seq<char>>>,
    r: Seq<Seq<char>>,
    s: Seq<Seq<char>>,
    f: Seq<(Vec<String>, usize)>,
    a: Seq<char>,
    b: Seq<char>,
) -> bool {
    &&& t.dom().contains(a)
    &&& !ignored_import(b)
    &&& if r.contains(a) {
        t[a].contains(b)
    } else {
        exists|k: int| 0 <= k < f.len() && #[trigger] s[k] == a && t[a].take(f[k].1 as int).contains(b)
    }
}

/// The invariant of the depth-first walk, over the supplied imports `t`, the
/// resolved files `r`, the stack of files in progress `s`, their frames `f`,
/// the recorded graph `g`, the entry file, and whether the top of the stack
/// waits for its imports.
pub open spec fn walk_inv(
    t: Map<Seq<char>, Seq<Seq<char>>>,
    r: Seq<Seq<char>>,
    s: Seq<Seq<char>>,
    f: Seq<(Vec<String>, usize)>,
    g: Seq<(String, Vec<String>)>,
    entry: Seq<char>,
    awaiting: bool,
) -> bool {
    &&& f.len() + (if awaiting {
        1int
    } else {
        0int
    }) == s.len()
    &&& awaiting ==> !t.dom().contains(s.last())
    &&& forall|k: int|
        0 <= k < f.len() ==> {
            &&& t.dom().contains(#[trigger] s[k])
            &&& strs(f[k].0@) == t[s[k]]
            &&& f[k].1 <= f[k].0@.len()
        }
    &&& s.no_duplicates()
    &&& r.no_duplicates()
    &&& forall|x: Seq<char>| s.contains(x) ==> !r.contains(x)
    &&& forall|x: Seq<char>|
        #[trigger] t.dom().contains(x) <==> (r.contains(x) || exists|k: int|
            0 <= k < f.len() && #[trigger] s[k] == x)
    &&& forall|a: Seq<char>, b: Seq<char>|
        graph_edge(g, a, b) <==> #[trigger] handled(t, r, s, f, a, b)
    &&& forall|a: Seq<char>, b: Seq<char>|
        #[trigger] handled(t, r, s, f, a, b) ==> r.contains(b) || s.contains(b)
    &&& forall|x: Seq<char>|
        r.contains(x) || s.contains(x) ==> #[trigger] reaches(edges_of(g), entry, x)
    &&& s.len() > 0 ==> s[0] == entry
    &&& (s.len() == 0 && r.len() == 0 && t.dom() == Set::<Seq<char>>::empty()) || r.contains(entry)
        || s.contains(entry)
}

/// Dropping the last element keeps the others.
proof fn lemma_drop_last_contains(s: Seq<Seq<char>>)
    requires
        s.len() > 0,
        s.no_duplicates(),
    ensures
        forall|y: Seq<char>| s.drop_last().contains(y) <==> (s.contains(y) && y != s.last()),
{
    assert(s.drop_last().push(s.last()) =~= s);
    lemma_push_contains(s.drop_last(), s.last());
    assert(!s.drop_last().contains(s.last())) by {
        if s.drop_last().contains(s.last()) {
            let k = choose|k: int| 0 <= k < s.drop_last().len() && s.drop_last()[k] == s.last();
            assert(s[k] == s[s.len() - 1]);
        }
    }
}

/// The top frame is done: its file moves from the stack to the resolved files.
proof fn lemma_walk_pop(
    t: Map<Seq<char>, Seq<Seq<char>>>,
    r: Seq<Seq<char>>,
    s: Seq<Seq<char>>,
    f: Seq<(Vec<String>, usize)>,
    g: Seq<(String, Vec<String>)>,
    entry: Seq<char>,
)
    requires
        walk_inv(t, r, s, f, g, entry, false),
        f.len() > 0,
        f.last().1 >= f.last().0@.len(),
    ensures
        walk_inv(t, r.push(s.last()), s.drop_last(), f.drop_last(), g, entry, false),
        pending_work(f.drop_last()) < pending_work(f),
{
    let top = f.len() - 1;
    let cur = s.last();
    let r1 = r.push(cur);
    let s1 = s.drop_last();
    let f1 = f.drop_last();
    assert(s[top] == cur);
    assert(t.dom().contains(s[top]));
    assert(f[top] == f.last());
    assert(strs(f[top].0@) == t[cur]);
    assert(t[cur].take(f[top].1 as int) =~= t[cur]);
    lemma_push_contains(r, cur);
    lemma_drop_last_contains(s);
    assert(s.contains(cur));
    assert(!r.contains(cur));
    assert(r1.no_duplicates()) by {
        assert forall|i: int, j: int| 0 <= i < j < r1.len() implies r1[i] != r1[j] by {
            if j == r.len() {
                assert(r[i] == r1[i]);
            }
        }
    }
    assert forall|k: int| 0 <= k < f1.len() implies {
        &&& t.dom().contains(#[trigger] s1[k])
        &&& strs(f1[k].0@) == t[s1[k]]
        &&& f1[k].1 <= f1[k].0@.len()
    } by {
        assert(s1[k] == s[k] && f1[k] == f[k]);
    }
    assert forall|x: Seq<char>|
        #[trigger] t.dom().contains(x) <==> (r1.contains(x) || exists|k: int|
            0 <= k < f1.len() && #[trigger] s1[k] == x) by {
        if t.dom().contains(x) && !r.contains(x) {
            let k = choose|k: int| 0 <= k < f.len() && #[trigger] s[k] == x;
            if k < top {
                assert(s1[k] == x);
            }
        }
        if exists|k: int| 0 <= k < f1.len() && #[trigger] s1[k] == x {
            let k = choose|k: int| 0 <= k < f1.len() && #[trigger] s1[k] == x;
            assert(s[k] == x);
        }
    }
    assert forall|a: Seq<char>, b: Seq<char>|
        #[trigger] handled(t, r1, s1, f1, a, b) == handled(t, r, s, f, a, b) by {
        if handled(t, r, s, f, a, b) && !r.contains(a) {
            let k = choose|k: int| 0 <= k < f.len() && #[trigger] s[k] == a && t[a].take(f[k].1 as int).contains(b);
            if k < top {
                assert(s1[k] == a && f1[k] == f[k]);
            }
        }
        if handled(t, r1, s1, f1, a, b) && !r1.contains(a) {
            let k = choose|k: int| 0 <= k < f1.len() && #[trigger] s1[k] == a && t[a].take(f1[k].1 as int).contains(b);
            assert(s[k] == a && f1[k] == f[k]);
        }
        if r1.contains(a) && !r.contains(a) {
            assert(a == cur);
            if handled(t, r1, s1, f1, a, b) {
                assert(s[top] == a);
                assert(t[a].take(f[top].1 as int).contains(b));
            }
            if handled(t, r, s, f, a, b) {
                let k = choose|k: int| 0 <= k < f.len() && #[trigger] s[k] == a && t[a].take(f[k].1 as int).contains(b);
                assert(s[k] == s[top]);
            }
        }
    }
    assert forall|a: Seq<char>, b: Seq<char>| #[trigger] handled(t, r1, s1, f1, a, b) implies r1.contains(b) || s1.contains(b) by {
        assert(handled(t, r, s, f, a, b));
    }
    assert forall|x: Seq<char>| r1.contains(x) || s1.contains(x) implies #[trigger] reaches(edges_of(g), entry, x) by {
        assert(r.contains(x) || s.contains(x));
    }
    if s1.len() > 0 {
        assert(s1[0] == s[0]);
    }
    assert(f1 == f.drop_last());
}

/// The next import of the top frame is ignored: only the frame advances.
proof fn lemma_walk_skip(
    t: Map<Seq<char>, Seq<Seq<char>>>,
    r: Seq<Seq<char>>,
    s: Seq<Seq<char>>,
    f: Seq<(Vec<String>, usize)>,
    g: Seq<(String, Vec<String>)>,
    entry: Seq<char>,
    p: Seq<char>,
)
    requires
        walk_inv(t, r, s, f, g, entry, false),
        f.len() > 0,
        f.last().1 < f.last().0@.len() <= usize::MAX,
        p == t[s.last()][f.last().1 as int],
    ensures
        ({
            let f1 = f.update(f.len() - 1, (f.last().0, (f.last().1 + 1) as usize));
            &&& pending_work(f1) < pending_work(f)
            &&& forall|a: Seq<char>, b: Seq<char>|
                #[trigger] handled(t, r, s, f1, a, b) == (handled(t, r, s, f, a, b) || (a == s.last()
                    && b == p && !ignored_import(b)))
            &&& ignored_import(p) ==> walk_inv(t, r, s, f1, g, entry, false)
        }),
{
    let top = f.len() - 1;
    let cur = s.last();
    let next = f.last().1;
    let f1 = f.update(top, (f.last().0, (next + 1) as usize));
    assert(f1.drop_last() =~= f.drop_last());
    assert(f1.last() == f1[top]);
    assert(s[top] == cur);
    assert(t.dom().contains(s[top]));
    assert(f[top] == f.last());
    assert(!r.contains(cur)) by {
        assert(s.contains(cur));
    }
    assert(t[cur].take(next + 1) =~= t[cur].take(next as int).push(p));
    lemma_push_contains(t[cur].take(next as int), p);
    assert forall|a: Seq<char>, b: Seq<char>|
        #[trigger] handled(t, r, s, f1, a, b) == (handled(t, r, s, f, a, b) || (a == cur && b == p && !ignored_import(b))) by {
        if handled(t, r, s, f1, a, b) && !r.contains(a) {
            let k = choose|k: int| 0 <= k < f1.len() && #[trigger] s[k] == a && t[a].take(f1[k].1 as int).contains(b);
            if k != top {
                assert(f1[k] == f[k]);
            } else {
                assert(t[a].take(f[k].1 as int).contains(b) || b == p);
            }
        }
        if handled(t, r, s, f, a, b) && !r.contains(a) {
            let k = choose|k: int| 0 <= k < f.len() && #[trigger] s[k] == a && t[a].take(f[k].1 as int).contains(b);
            if k != top {
                assert(f1[k] == f[k]);
            } else {
                assert(t[a].take(f1[k].1 as int).contains(b));
            }
        }
        if a == cur && b == p && !ignored_import(b) {
            assert(t[a].take(f1[top].1 as int).contains(b));
        }
    }
    if ignored_import(p) {
        assert forall|k: int| 0 <= k < f1.len() implies {
            &&& t.dom().contains(#[trigger] s[k])
            &&& strs(f1[k].0@) == t[s[k]]
            &&& f1[k].1 <= f1[k].0@.len()
        } by {
            if k != top {
                assert(f1[k] == f[k]);
            }
        }
        assert forall|x: Seq<char>|
            #[trigger] t.dom().contains(x) <==> (r.contains(x) || exists|k: int|
                0 <= k < f1.len() && #[trigger] s[k] == x) by {
        }
    }
}

/// The next import of the top frame is followed: its edge is recorded, and
/// the import is pushed onto the stack unless it is resolved or in progress.
proof fn lemma_walk_edge(
    t: Map<Seq<char>, Seq<Seq<char>>>,
    r: Seq<Seq<char>>,
    s: Seq<Seq<char>>,
    f: Seq<(Vec<String>, usize)>,
    f1: Seq<(Vec<String>, usize)>,
    g: Seq<(String, Vec<String>)>,
    g1: Seq<(String, Vec<String>)>,
    entry: Seq<char>,
    p: Seq<char>,
)
    requires
        walk_inv(t, r, s, f, g, entry, false),
        f.len() > 0,
        f1 == f.update(f.len() - 1, (f.last().0, (f.last().1 + 1) as usize)),
        f.last().1 < f.last().0@.len() <= usize::MAX,
        !ignored_import(p),
        forall|a: Seq<char>, b: Seq<char>|
            #[trigger] handled(t, r, s, f1, a, b) == (handled(t, r, s, f, a, b) || (a == s.last()
                && b == p && !ignored_import(b))),
        forall|x: Seq<char>, y: Seq<char>|
            graph_edge(g1, x, y) <==> graph_edge(g, x, y) || (x == s.last() && y == p),
    ensures
        (r.contains(p) || s.contains(p)) ==> walk_inv(t, r, s, f1, g1, entry, false),
        !(r.contains(p) || s.contains(p)) ==> walk_inv(t, r, s.push(p), f1, g1, entry, true),
{
    let top = f.len() - 1;
    let cur = s.last();
    assert(s[top] == cur);
    assert(s.contains(cur));
    assert forall|k: int| 0 <= k < f1.len() implies {
        &&& t.dom().contains(#[trigger] s[k])
        &&& strs(f1[k].0@) == t[s[k]]
        &&& f1[k].1 <= f1[k].0@.len()
    } by {
        if k != top {
            assert(f1[k] == f[k]);
        }
    }
    assert forall|a: Seq<char>, b: Seq<char>| #[trigger] edges_of(g)(a, b) implies edges_of(g1)(a, b) by {}
    assert forall|x: Seq<char>| r.contains(x) || s.contains(x) implies #[trigger] reaches(edges_of(g1), entry, x) by {
        assert(reaches(edges_of(g), entry, x));
        lemma_reaches_mono(edges_of(g), edges_of(g1), entry, x);
    }
    assert(edges_of(g1)(cur, p));
    lemma_reaches_step(edges_of(g1), entry, cur, p);
    assert forall|a: Seq<char>, b: Seq<char>|
        graph_edge(g1, a, b) <==> #[trigger] handled(t, r, s, f1, a, b) by {
        assert(graph_edge(g, a, b) <==> handled(t, r, s, f, a, b));
    }
    if r.contains(p) || s.contains(p) {
        assert forall|a: Seq<char>, b: Seq<char>| #[trigger] handled(t, r, s, f1, a, b) implies r.contains(b) || s.contains(b) by {
            if !(a == cur && b == p) {
                assert(handled(t, r, s, f, a, b));
            }
        }
        assert forall|x: Seq<char>|
            #[trigger] t.dom().contains(x) <==> (r.contains(x) || exists|k: int|
                0 <= k < f1.len() && #[trigger] s[k] == x) by {
        }
    } else {
        let s1 = s.push(p);
        lemma_push_contains(s, p);
        assert(s1.last() == p);
        assert(!t.dom().contains(p)) by {
            if t.dom().contains(p) {
                let k = choose|k: int| 0 <= k < f.len() && #[trigger] s[k] == p;
            }
        }
        assert(s1.no_duplicates()) by {
            assert forall|i: int, j: int| 0 <= i < j < s1.len() implies s1[i] != s1[j] by {
                if j == s.len() {
                    assert(s[i] == s1[i]);
                }
            }
        }
        assert forall|k: int| 0 <= k < f1.len() implies {
            &&& t.dom().contains(#[trigger] s1[k])
            &&& strs(f1[k].0@) == t[s1[k]]
            &&& f1[k].1 <= f1[k].0@.len()
        } by {
            assert(s1[k] == s[k]);
            assert(t.dom().contains(s[k]));
        }
        assert forall|x: Seq<char>|
            #[trigger] t.dom().contains(x) <==> (r.contains(x) || exists|k: int|
                0 <= k < f1.len() && #[trigger] s1[k] == x) by {
            if t.dom().contains(x) && !r.contains(x) {
                let k = choose|k: int| 0 <= k < f.len() && #[trigger] s[k] == x;
                assert(s1[k] == x);
            }
            if exists|k: int| 0 <= k < f1.len() && #[trigger] s1[k] == x {
                let k = choose|k: int| 0 <= k < f1.len() && #[trigger] s1[k] == x;
                assert(s[k] == x);
            }
        }
        assert forall|a: Seq<char>, b: Seq<char>|
            #[trigger] handled(t, r, s1, f1, a, b) == handled(t, r, s, f1, a, b) by {
            if handled(t, r, s1, f1, a, b) && !r.contains(a) {
                let k = choose|k: int| 0 <= k < f1.len() && #[trigger] s1[k] == a && t[a].take(f1[k].1 as int).contains(b);
                assert(s[k] == a);
            }
            if handled(t, r, s, f1, a, b) && !r.contains(a) {
                let k = choose|k: int| 0 <= k < f1.len() && #[trigger] s[k] == a && t[a].take(f1[k].1 as int).contains(b);
                assert(s1[k] == a);
            }
        }
        assert forall|a: Seq<char>, b: Seq<char>|
            graph_edge(g1, a, b) <==> #[trigger] handled(t, r, s1, f1, a, b) by {
            assert(graph_edge(g1, a, b) <==> handled(t, r, s, f1, a, b));
        }
        assert forall|a: Seq<char>, b: Seq<char>| #[trigger] handled(t, r, s1, f1, a, b) implies r.contains(b) || s1.contains(b) by {
            assert(handled(t, r, s, f1, a, b));
            if !(a == cur && b == p) {
                assert(handled(t, r, s, f, a, b));
            }
        }
        assert forall|x: Seq<char>| r.contains(x) || s1.contains(x) implies #[trigger] reaches(edges_of(g1), entry, x) by {
            if x != p {
                assert(r.contains(x) || s.contains(x));
            }
        }
        assert(s1[0] == s[0]);
    }
}

/// The imports of the awaited file arrive: it gets a frame.
proof fn lemma_walk_supply(
    t: Map<Seq<char>, Seq<Seq<char>>>,
    r: Seq<Seq<char>>,
    s: Seq<Seq<char>>,
    f: Seq<(Vec<String>, usize)>,
    g: Seq<(String, Vec<String>)>,
    entry: Seq<char>,
    imports: Vec<String>,
)
    requires
        walk_inv(t, r, s, f, g, entry, true),
    ensures
        walk_inv(t.insert(s.last(), strs(imports@)), r, s, f.push((imports, 0usize)), g, entry, false),
{
    let t1 = t.insert(s.last(), strs(imports@));
    let f1 = f.push((imports, 0usize));
    let top = f.len() as int;
    let cur = s.last();
    assert(s[top] == cur);
    assert(s.contains(cur));
    assert forall|k: int| 0 <= k < f1.len() implies {
        &&& t1.dom().contains(#[trigger] s[k])
        &&& strs(f1[k].0@) == t1[s[k]]
        &&& f1[k].1 <= f1[k].0@.len()
    } by {
        if k < top {
            assert(f1[k] == f[k]);
            assert(t.dom().contains(s[k]));
            assert(s[k] != cur) by {
                assert(s[k] != s[top]);
            }
        }
    }
    assert forall|x: Seq<char>|
        #[trigger] t1.dom().contains(x) <==> (r.contains(x) || exists|k: int|
            0 <= k < f1.len() && #[trigger] s[k] == x) by {
        if x == cur {
            assert(s[top] == x);
        } else {
            assert(t1.dom().contains(x) == t.dom().contains(x));
            if exists|k: int| 0 <= k < f1.len() && #[trigger] s[k] == x {
                let k = choose|k: int| 0 <= k < f1.len() && #[trigger] s[k] == x;
                assert(k < top);
            }
        }
    }
    assert forall|a: Seq<char>, b: Seq<char>|
        #[trigger] handled(t1, r, s, f1, a, b) == handled(t, r, s, f, a, b) by {
        if a == cur {
            assert(!r.contains(a));
            assert(!t.dom().contains(a));
            if handled(t1, r, s, f1, a, b) {
                let k = choose|k: int| 0 <= k < f1.len() && #[trigger] s[k] == a && t1[a].take(f1[k].1 as int).contains(b);
                assert(k == top) by {
                    if k != top {
                        assert(s[k] != s[top]);
                    }
                }
                assert(t1[a].take(0) =~= seq![]);
            }
        } else {
            if handled(t1, r, s, f1, a, b) && !r.contains(a) {
                let k = choose|k: int| 0 <= k < f1.len() && #[trigger] s[k] == a && t1[a].take(f1[k].1 as int).contains(b);
                assert(k != top);
                assert(f1[k] == f[k]);
            }
            if handled(t, r, s, f, a, b) && !r.contains(a) {
                let k = choose|k: int| 0 <= k < f.len() && #[trigger] s[k] == a && t[a].take(f[k].1 as int).contains(b);
                assert(f1[k] == f[k]);
            }
        }
    }
    assert forall|a: Seq<char>, b: Seq<char>|
        graph_edge(g, a, b) <==> #[trigger] handled(t1, r, s, f1, a, b) by {
        assert(graph_edge(g, a, b) <==> handled(t, r, s, f, a, b));
    }
    assert forall|a: Seq<char>, b: Seq<char>| #[trigger] handled(t1, r, s, f1, a, b) implies r.contains(b) || s.contains(b) by {
        assert(handled(t, r, s, f, a, b));
    }
}

/// When the stack is empty the resolved files are exactly the files the
/// entry reaches, and the recorded edges are the supplied ones.
proof fn lemma_walk_finished(
    t: Map<Seq<char>, Seq<Seq<char>>>,
    r: Seq<Seq<char>>,
    s: Seq<Seq<char>>,
    f: Seq<(Vec<String>, usize)>,
    g: Seq<(String, Vec<String>)>,
    entry: Seq<char>,
)
    requires
        walk_inv(t, r, s, f, g, entry, false),
        f.len() == 0,
        t.dom().contains(entry),
    ensures
        forall|x: Seq<char>| #[trigger] t.dom().contains(x) <==> r.contains(x),
        forall|a: Seq<char>, b: Seq<char>| #[trigger] graph_edge(g, a, b) <==> told_edge(t, a, b),
        forall|x: Seq<char>| #[trigger] t.dom().contains(x) <==> reaches(told_edges(t), entry, x),
        forall|x: Seq<char>| reaches(edges_of(g), entry, x) <==> #[trigger] reaches(told_edges(t), entry, x),
{
    let e = edges_of(g);
    let te = told_edges(t);
    assert(s.len() == 0);
    assert forall|x: Seq<char>| #[trigger] t.dom().contains(x) <==> r.contains(x) by {}
    assert forall|a: Seq<char>, b: Seq<char>| #[trigger] graph_edge(g, a, b) <==> told_edge(t, a, b) by {
        assert(graph_edge(g, a, b) <==> handled(t, r, s, f, a, b));
    }
    assert forall|a: Seq<char>, b: Seq<char>| #[trigger] e(a, b) implies te(a, b) by {
        assert(graph_edge(g, a, b));
    }
    assert forall|a: Seq<char>, b: Seq<char>| #[trigger] te(a, b) implies e(a, b) by {
        assert(told_edge(t, a, b));
    }
    let rs = r.to_set();
    assert(rs.contains(entry));
    assert forall|x: Seq<char>, y: Seq<char>| rs.contains(x) && #[trigger] te(x, y) implies rs.contains(y) by {
        assert(handled(t, r, s, f, x, y));
    }
    assert forall|x: Seq<char>| #[trigger] t.dom().contains(x) <==> reaches(te, entry, x) by {
        if t.dom().contains(x) {
            assert(r.contains(x));
            assert(reaches(e, entry, x));
            lemma_reaches_mono(e, te, entry, x);
        }
        if reaches(te, entry, x) {
            lemma_closed_holds_reached(te, rs, entry, x);
        }
    }
    assert forall|x: Seq<char>| reaches(e, entry, x) <==> #[trigger] reaches(te, entry, x) by {
        if reaches(e, entry, x) {
            lemma_reaches_mono(e, te, entry, x);
        }
        if reaches(te, entry, x) {
            lemma_reaches_mono(te, e, entry, x);
        }
    }
}

impl DependencyResolver {
    /// The imports supplied so far for each file in this resolution.
    pub closed spec fn supplied(&self) -> Map<Seq<char>, Seq<Seq<char>>> {
        self.supplied@
    }

    /// The file whose imports the resolver waits for, if any.
    pub closed spec fn awaiting_file(&self) -> Option<Seq<char>> {
        if self.awaiting && self.processing_stack@.len() > 0 {
            Some(self.processing_stack@.last()@)
        } else {
            None
        }
    }

    /// The entry file of the current resolution.
    pub closed spec fn entry_file(&self) -> Seq<char> {
        self.entry@
    }

    /// Whether the file is on the chain of files whose imports are being followed.
    pub closed spec fn in_progress(&self, f: Seq<char>) -> bool {
        strs(self.processing_stack@).contains(f)
    }

    /// Whether the edge `a -> b` is recorded.
    pub closed spec fn dependency_edge(&self, a: Seq<char>, b: Seq<char>) -> bool {
        graph_edge(self.dependency_graph@, a, b)
    }

    /// The recorded edges.
    pub open spec fn dependency_edges(&self) -> Edges {
        |a: Seq<char>, b: Seq<char>| self.dependency_edge(a, b)
    }

    /// The import the walk follows next, if the file whose imports it is
    /// following has any left.
    pub closed spec fn next_import(&self) -> Option<Seq<char>> {
        if !self.awaiting && self.frames@.len() > 0 && self.frames@.last().1
            < self.frames@.last().0@.len() {
            Some(self.frames@.last().0@[self.frames@.last().1 as int]@)
        } else {
            None
        }
    }

    /// Whether all the imports of the file were followed.
    pub closed spec fn is_resolved(&self, f: Seq<char>) -> bool {
        strs(self.resolved_files@).contains(f)
    }

    /// What the next step of the walk gives. It follows the next import: an
    /// import under `node_modules` is passed over; one that leads to a file in
    /// progress is reported as a cycle; one that leads to a resolved file is
    /// passed over; any other asks for the imports of the file it leads to.
    /// With no import left in the current file, the step leaves that file, or
    /// finishes when no file is left in progress.
    pub open spec fn follows_next(&self, step: ResolveStep) -> bool {
        match self.next_import() {
            Some(p) => if ignored_import(p) {
                step is Continue
            } else if self.in_progress(p) {
                step matches ResolveStep::CircularDependency(q) && q@ == p
            } else if self.is_resolved(p) {
                step is Continue
            } else {
                step matches ResolveStep::NeedImports(q) && q@ == p
            },
            None => if self.work_left() == 0 {
                step is Finished
            } else {
                step is Continue
            },
        }
    }

    /// The imports still to be followed in the files in progress, plus one
    /// per such file.
    pub closed spec fn work_left(&self) -> nat {
        pending_work(self.frames@)
    }

    /// The project root.
    pub closed spec fn base_path_view(&self) -> Seq<char> {
        self.base_path@
    }

    /// The aliases of the project's `tsconfig.json`, if they were loaded.
    pub closed spec fn alias_map_view(&self) -> Option<Seq<(Seq<char>, Seq<char>)>> {
        match self.alias_map {
            Some(v) => Some(alias_pairs(v@)),
            None => None,
        }
    }

    /// The invariant of the resolver.
    pub closed spec fn wf(&self) -> bool {
        walk_inv(
            self.supplied@,
            strs(self.resolved_files@),
            strs(self.processing_stack@),
            self.frames@,
            self.dependency_graph@,
            self.entry@,
            self.awaiting,
        )
    }

    /// What a step promises about the resolver after it.
    pub open spec fn step_done(&self, step: ResolveStep) -> bool {
        match step {
            ResolveStep::NeedImports(f) => {
                &&& self.awaiting_file() == Some(f@)
                &&& !self.supplied().dom().contains(f@)
            },
            ResolveStep::CircularDependency(f) => {
                &&& self.awaiting_file() is None
                &&& self.in_progress(f@)
                &&& self.supplied().dom().contains(self.entry_file())
            },
            ResolveStep::Continue => {
                &&& self.awaiting_file() is None
                &&& self.supplied().dom().contains(self.entry_file())
            },
            ResolveStep::Finished(files) => {
                &&& self.awaiting_file() is None
                &&& self.supplied().dom().contains(self.entry_file())
                &&& strs(files@).no_duplicates()
                &&& forall|x: Seq<char>|
                    strs(files@).contains(x) <==> #[trigger] self.supplied().dom().contains(x)
                &&& forall|x: Seq<char>|
                    #[trigger] self.supplied().dom().contains(x) <==> reaches(
                        told_edges(self.supplied()),
                        self.entry_file(),
                        x,
                    )
                &&& forall|a: Seq<char>, b: Seq<char>|
                    #[trigger] self.dependency_edge(a, b) <==> told_edge(self.supplied(), a, b)
            },
        }
    }

    /// The aliases of the project's `tsconfig.json` (`compilerOptions.paths`,
    /// each alias and its first target without trailing `/*`): none when the
    /// file is missing or is not JSON, an error when it could not be read.
    pub fn load_tsconfig_aliases(tsconfig: &TsconfigFile) -> (r: Result<
        Vec<(String, String)>,
        TsconfigUnreadable,
    >)
        ensures
            match r {
                Ok(v) => loaded_aliases(*tsconfig) == Some(alias_pairs(v@)),
                Err(_) => loaded_aliases(*tsconfig) is None,
            },
    {
        match tsconfig {
            TsconfigFile::Missing => {
                let r: Vec<(String, String)> = Vec::new();
                assert(alias_pairs(r@) =~= seq![]);
                Ok(r)
            },
            TsconfigFile::Unreadable => Err(TsconfigUnreadable),
            TsconfigFile::Read(text) => match parse_json(text.as_str()) {
                Some(doc) => Ok(aliases_of_document(&doc)),
                None => {
                    let r: Vec<(String, String)> = Vec::new();
                    assert(alias_pairs(r@) =~= seq![]);
                    Ok(r)
                },
            },
        }
    }

    /// A resolver for the project at `project_root`. With `load_aliases`, the
    /// aliases come from what reading the project's `tsconfig.json` gave, and
    /// there are none when it could not be read.
    pub fn new(project_root: &str, load_aliases: bool, tsconfig: &TsconfigFile) -> (r: std::io::Result<
        Self,
    >)
        ensures
            r matches Ok(d) && {
                &&& d.wf()
                &&& d.base_path_view() == project_root@
                &&& d.alias_map_view() == (if load_aliases {
                    loaded_aliases(*tsconfig)
                } else {
                    None
                })
                &&& d.supplied() == Map::<Seq<char>, Seq<Seq<char>>>::empty()
                &&& d.awaiting_file() is None
                &&& forall|x: Seq<char>, y: Seq<char>| !#[trigger] d.dependency_edge(x, y)
                &&& forall|f: Seq<char>| !#[trigger] d.in_progress(f)
            },
    {
        let alias_map = if load_aliases {
            match Self::load_tsconfig_aliases(tsconfig) {
                Ok(aliases) => Some(aliases),
                Err(_) => None,
            }
        } else {
            None
        };
        Ok(Self::with_aliases(project_root.to_owned(), alias_map))
    }

    /// A resolver for the project at `base_path`, with the given aliases.
    pub fn with_aliases(base_path: String, alias_map: Option<Vec<(String, String)>>) -> (r: Self)
        ensures
            r.wf(),
            r.base_path_view() == base_path@,
            r.alias_map_view() == (match alias_map {
                Some(v) => Some(alias_pairs(v@)),
                None => None,
            }),
            r.supplied() == Map::<Seq<char>, Seq<Seq<char>>>::empty(),
            r.awaiting_file() is None,
            forall|x: Seq<char>, y: Seq<char>| !#[trigger] r.dependency_edge(x, y),
            forall|f: Seq<char>| !#[trigger] r.in_progress(f),
    {
        let r = DependencyResolver {
            base_path,
            alias_map,
            resolved_files: Vec::new(),
            dependency_graph: Vec::new(),
            processing_stack: Vec::new(),
            frames: Vec::new(),
            entry: String::new(),
            awaiting: false,
            supplied: Ghost(Map::empty()),
        };
        proof {
            assert(strs(r.processing_stack@) =~= seq![]);
            assert(strs(r.resolved_files@) =~= seq![]);
            assert(r.supplied@.dom() =~= Set::<Seq<char>>::empty());
        }
        r
    }

    /// Starts resolving the dependencies of `entry_file`: forgets the previous
    /// resolution and asks for the imports of the entry.
    pub fn resolve_deps(&mut self, entry_file: &str) -> (step: ResolveStep)
        ensures
            final(self).wf(),
            final(self).entry_file() == normalized(entry_file@),
            final(self).supplied() == Map::<Seq<char>, Seq<Seq<char>>>::empty(),
            final(self).base_path_view() == old(self).base_path_view(),
            final(self).alias_map_view() == old(self).alias_map_view(),
            step is NeedImports,
            step->NeedImports_0@ == normalized(entry_file@),
            final(self).step_done(step),
    {
        let entry = normalize_path(entry_file);
        self.processing_stack = Vec::new();
        self.dependency_graph = Vec::new();
        self.resolved_files = Vec::new();
        self.frames = Vec::new();
        self.processing_stack.push(entry.clone());
        self.entry = entry.clone();
        self.awaiting = true;
        self.supplied = Ghost(Map::empty());
        proof {
            let s = strs(self.processing_stack@);
            assert(s =~= seq![entry@]);
            assert(strs(self.resolved_files@) =~= seq![]);
            assert(self.supplied@.dom() =~= Set::<Seq<char>>::empty());
            lemma_reaches_refl(edges_of(self.dependency_graph@), entry@);
            assert(s[0] == entry@);
            assert(s.contains(entry@));
        }
        ResolveStep::NeedImports(entry)
    }

    /// One step of the depth-first walk: follows the next import, leaves a
    /// file whose imports were all followed, or finishes.
    fn step(&mut self) -> (res: ResolveStep)
        requires
            old(self).wf(),
            !old(self).awaiting,
            old(self).supplied@.dom().contains(old(self).entry@),
        ensures
            final(self).wf(),
            final(self).supplied@ == old(self).supplied@,
            final(self).entry@ == old(self).entry@,
            final(self).base_path == old(self).base_path,
            final(self).alias_map == old(self).alias_map,
            final(self).step_done(res),
            res is Continue || res is CircularDependency ==> pending_work(final(self).frames@)
                < pending_work(old(self).frames@),
            old(self).follows_next(res),
    {
        let ghost t = self.supplied@;
        let ghost r0 = strs(self.resolved_files@);
        let ghost s0 = strs(self.processing_stack@);
        let ghost f0 = self.frames@;
        let ghost g0 = self.dependency_graph@;
        let ghost entry = self.entry@;
        if self.frames.len() == 0 {
            let files = collect_reachable(&self.dependency_graph, &self.entry);
            proof {
                lemma_walk_finished(t, r0, s0, f0, g0, entry);
            }
            return ResolveStep::Finished(files);
        }
        let top = self.frames.len() - 1;
        let (imports, next) = self.frames.pop().unwrap();
        assert(f0[top as int] == (imports, next));
        assert(f0.last() == f0[top as int]);
        if next >= imports.len() {
            let cur = self.processing_stack.pop().unwrap();
            self.resolved_files.push(cur);
            proof {
                lemma_walk_pop(t, r0, s0, f0, g0, entry);
                assert(strs(self.processing_stack@) =~= s0.drop_last());
                assert(strs(self.resolved_files@) =~= r0.push(s0.last()));
                assert(self.frames@ =~= f0.drop_last());
            }
            return ResolveStep::Continue;
        }
        let p = imports[next].clone();
        self.frames.push((imports, next + 1));
        let ghost f1 = self.frames@;
        proof {
            assert(f1 =~= f0.update(top as int, (f0.last().0, (f0.last().1 + 1) as usize)));
            assert(t.dom().contains(s0[top as int]));
            assert(strs(f0[top as int].0@) == t[s0[top as int]]);
            assert(s0.last() == s0[top as int]);
            assert(strs(imports@)[next as int] == p@);
            lemma_walk_skip(t, r0, s0, f0, g0, entry, p@);
        }
        if should_ignore_file(p.as_str()) {
            return ResolveStep::Continue;
        }
        let cur = self.processing_stack[top].clone();
        add_edge(&mut self.dependency_graph, &cur, &p);
        proof {
            assert(cur@ == s0.last());
            lemma_walk_edge(t, r0, s0, f0, f1, g0, self.dependency_graph@, entry, p@);
        }
        if contains_str(&self.processing_stack, &p) {
            return ResolveStep::CircularDependency(p);
        }
        if contains_str(&self.resolved_files, &p) {
            return ResolveStep::Continue;
        }
        assert(!old(self).in_progress(p@) && !old(self).is_resolved(p@));
        self.processing_stack.push(p.clone());
        self.awaiting = true;
        proof {
            assert(strs(self.processing_stack@) =~= s0.push(p@));
            lemma_push_contains(s0, p@);
        }
        ResolveStep::NeedImports(p)
    }

    /// Hands the resolver the imports of the file it waits for, resolved to
    /// paths, in the order they appear in the file, and takes the first step
    /// through them: the first import decides it, as `follows_next` says.
    pub fn supply_imports(&mut self, imports: Vec<String>) -> (step: ResolveStep)
        requires
            old(self).wf(),
            old(self).awaiting_file() is Some,
        ensures
            final(self).wf(),
            final(self).supplied() == old(self).supplied().insert(
                old(self).awaiting_file()->0,
                strs(imports@).map_values(|p: Seq<char>| normalized(p)),
            ),
            final(self).entry_file() == old(self).entry_file(),
            final(self).base_path_view() == old(self).base_path_view(),
            final(self).alias_map_view() == old(self).alias_map_view(),
            final(self).step_done(step),
            imports@.len() == 0 ==> step is Continue,
            imports@.len() > 0 ==> {
                let p = normalized(imports@[0]@);
                if ignored_import(p) {
                    step is Continue
                } else if old(self).in_progress(p) {
                    step matches ResolveStep::CircularDependency(q) && q@ == p
                } else if old(self).is_resolved(p) {
                    step is Continue
                } else {
                    step matches ResolveStep::NeedImports(q) && q@ == p
                }
            },
    {
        let norm = normalize_paths(&imports);
        assert(strs(norm@).len() == norm@.len() && strs(imports@).len() == imports@.len());
        assert(norm@.len() > 0 ==> strs(norm@)[0] == normalized(strs(imports@)[0]));
        let ghost t = self.supplied@;
        let ghost s0 = strs(self.processing_stack@);
        proof {
            lemma_walk_supply(
                t,
                strs(self.resolved_files@),
                s0,
                self.frames@,
                self.dependency_graph@,
                self.entry@,
                norm,
            );
            assert(s0.last() == self.processing_stack@.last()@);
        }
        self.supplied = Ghost(t.insert(s0.last(), strs(norm@)));
        self.frames.push((norm, 0));
        self.awaiting = false;
        proof {
            let s = strs(self.processing_stack@);
            assert(s.contains(self.entry@) || strs(self.resolved_files@).contains(self.entry@));
            if s.contains(self.entry@) {
                let k = choose|k: int| 0 <= k < s.len() && s[k] == self.entry@;
                assert(self.supplied@.dom().contains(s[k]));
            }
        }
        let ghost mid = *self;
        proof {
            assert(mid.frames@.last() == (norm, 0usize));
            assert(pending_work(mid.frames@) > 0);
            assert(norm@.len() > 0 ==> mid.next_import() == Some(strs(norm@)[0]));
            assert(norm@.len() == 0 ==> mid.next_import() is None);
            assert(forall|f: Seq<char>| mid.in_progress(f) == old(self).in_progress(f));
            assert(forall|f: Seq<char>| mid.is_resolved(f) == old(self).is_resolved(f));
        }
        self.step()
    }

    /// Takes the next step of the walk after a reported cycle or a step that
    /// asked for nothing. Each such step leaves less work, so the walk ends.
    pub fn resume(&mut self) -> (step: ResolveStep)
        requires
            old(self).wf(),
            old(self).awaiting_file() is None,
            old(self).supplied().dom().contains(old(self).entry_file()),
        ensures
            final(self).wf(),
            final(self).supplied() == old(self).supplied(),
            final(self).entry_file() == old(self).entry_file(),
            final(self).base_path_view() == old(self).base_path_view(),
            final(self).alias_map_view() == old(self).alias_map_view(),
            final(self).step_done(step),
            step is CircularDependency || step is Continue ==> final(self).work_left() < old(
                self,
            ).work_left(),
            old(self).follows_next(step),
    {
        proof {
            if self.awaiting {
                assert(strs(self.processing_stack@).len() > 0);
            }
        }
        self.step()
    }

    /// The files that import `file`, directly or through other files, in the
    /// recorded graph, each once; `file` is taken by its components.
    pub fn get_all_importers(&self, file: &str) -> (r: Vec<String>)
        ensures
            strs(r@).no_duplicates(),
            forall|x: Seq<char>|
                strs(r@).contains(x) <==> reaches_plus(self.dependency_edges(), x, normalized(file@)),
    {
        let f = normalize_path(file);
        let r = collect_importers(&self.dependency_graph, &f);
        proof {
            assert forall|x: Seq<char>|
                reaches_plus(edges_of(self.dependency_graph@), x, f@) <==> reaches_plus(
                    self.dependency_edges(),
                    x,
                    f@,
                ) by {
                let e1 = edges_of(self.dependency_graph@);
                let e2 = self.dependency_edges();
                assert(forall|a: Seq<char>, b: Seq<char>| #[trigger] e1(a, b) == e2(a, b));
                assert(e1 =~= e2);
            }
        }
        r
    }

    /// The aliases of the project's `tsconfig.json`, if they were loaded.
    pub fn get_alias_map(&self) -> (r: Option<&Vec<(String, String)>>)
        ensures
            match r {
                Some(v) => self.alias_map_view() == Some(alias_pairs(v@)),
                None => self.alias_map_view() is None,
            },
    {
        self.alias_map.as_ref()
    }

    /// The project root.
    pub fn get_base_path(&self) -> (r: &String)
        ensures
            r@ == self.base_path_view(),
    {
        &self.base_path
    }
}

/// A resolver keeps the project it was made for through any run of calls:
/// each of `resolve_deps`, `supply_imports` and `resume` leaves the project
/// root and the aliases as they were (and `get_all_importers` only reads), so
/// every resolver along the run, the last one included, has the root and the
/// aliases of the first, which `get_base_path` and `get_alias_map` give back.
pub proof fn lemma_project_kept(run: Seq<DependencyResolver>)
    requires
        run.len() > 0,
        forall|i: int|
            0 < i < run.len() ==> #[trigger] run[i].base_path_view() == run[i - 1].base_path_view()
                && run[i].alias_map_view() == run[i - 1].alias_map_view(),
    ensures
        forall|i: int|
            0 <= i < run.len() ==> #[trigger] run[i].base_path_view() == run[0].base_path_view()
                && run[i].alias_map_view() == run[0].alias_map_view(),
    decreases run.len(),
{
    if run.len() > 1 {
        let front = run.drop_last();
        assert forall|i: int|
            0 < i < front.len() implies #[trigger] front[i].base_path_view() == front[
                i - 1
            ].base_path_view() && front[i].alias_map_view() == front[i - 1].alias_map_view() by {
            assert(front[i] == run[i] && front[i - 1] == run[i - 1]);
            assert(run[i].base_path_view() == run[i - 1].base_path_view());
        }
        lemma_project_kept(front);
        assert forall|i: int|
            0 <= i < run.len() implies #[trigger] run[i].base_path_view() == run[0].base_path_view()
                && run[i].alias_map_view() == run[0].alias_map_view() by {
            if i < run.len() - 1 {
                assert(front[i] == run[i]);
                assert(front[i].base_path_view() == front[0].base_path_view());
            } else {
                assert(run[i].base_path_view() == run[i - 1].base_path_view());
                assert(front[i - 1].base_path_view() == front[0].base_path_view());
            }
        }
    }
}

/// A finished resolution leaves out what lies under `node_modules`: every
/// recorded edge leads to a file outside it, and every file handed back but
/// the entry lies outside it.
pub proof fn lemma_finished_skips_node_modules(r: &DependencyResolver, files: Vec<String>)
    requires
        r.step_done(ResolveStep::Finished(files)),
    ensures
        forall|a: Seq<char>, b: Seq<char>| #[trigger] r.dependency_edge(a, b) ==> !ignored_import(b),
        forall|x: Seq<char>|
            #[trigger] strs(files@).contains(x) ==> x == r.entry_file() || !ignored_import(x),
{
    let t = r.supplied();
    assert forall|x: Seq<char>| #[trigger] strs(files@).contains(x) implies x == r.entry_file()
        || !ignored_import(x) by {
        assert(t.dom().contains(x));
        let e = told_edges(t);
        assert(reaches(e, r.entry_file(), x));
        let p = choose|p: Seq<Seq<char>>| #[trigger] is_walk(e, p) && p[0] == r.entry_file() && p.last() == x;
        if p.len() > 1 {
            assert(e(p[p.len() - 2], p[p.len() - 2 + 1]));
            assert(p[p.len() - 2 + 1] == x);
        }
    }
}

/// After a finished resolution, every file handed back but the entry is
/// imported by the entry, directly or not, and every file that imports one of
/// them, directly or not, was handed back too.
pub proof fn lemma_finished_importers(r: &DependencyResolver, files: Vec<String>, f: Seq<char>)
    requires
        r.step_done(ResolveStep::Finished(files)),
        strs(files@).contains(f),
        f != r.entry_file(),
    ensures
        reaches_plus(r.dependency_edges(), r.entry_file(), f),
        forall|x: Seq<char>|
            #[trigger] reaches_plus(r.dependency_edges(), x, f) ==> strs(files@).contains(x),
{
    let t = r.supplied();
    let te = told_edges(t);
    let de = r.dependency_edges();
    assert forall|a: Seq<char>, b: Seq<char>| #[trigger] te(a, b) implies de(a, b) by {
        assert(r.dependency_edge(a, b) <==> told_edge(t, a, b));
    }
    assert(t.dom().contains(f));
    assert(reaches(te, r.entry_file(), f));
    lemma_reaches_mono(te, de, r.entry_file(), f);
    let p = choose|p: Seq<Seq<char>>| #[trigger] is_walk(de, p) && p[0] == r.entry_file() && p.last() == f;
    assert(p.len() >= 2);
    assert(is_walk(de, p) && p.len() >= 2 && p[0] == r.entry_file() && p.last() == f);
    assert forall|x: Seq<char>| #[trigger] reaches_plus(de, x, f) implies strs(files@).contains(x) by {
        lemma_reaches_plus_first(de, x, f);
        let c = choose|c: Seq<char>| #[trigger] de(x, c) && reaches(de, c, f);
        assert(r.dependency_edge(x, c));
        assert(told_edge(t, x, c));
        assert(t.dom().contains(x));
    }
}

/// An alias takes the first of its targets: when the targets are a list
/// whose first element is a string `t`, the alias maps its name to `t`, each
/// without a trailing `/*`, whatever else the list holds.
pub proof fn lemma_alias_takes_first_target(alias: Seq<char>, items: Vec<JsonValue>, t: String)
    requires
        items@.len() > 0,
        items@[0] == JsonValue::Str(t),
    ensures
        alias_entry(alias, JsonValue::Array(items)) == Some(
            (trim_suffix(alias, "/*"@), trim_suffix(t@, "/*"@)),
        ),
{
}

/// A `tsconfig.json` whose `compilerOptions.paths` defines one alias gives
/// that alias, mapped to its first target, each without a trailing `/*`.
pub proof fn lemma_tsconfig_single_alias(
    top: Vec<(String, JsonValue)>,
    options: Vec<(String, JsonValue)>,
    paths: Vec<(String, JsonValue)>,
    alias: String,
    targets: Vec<JsonValue>,
    target: String,
)
    requires
        top@.len() == 1,
        top@[0].0@ == "compilerOptions"@,
        top@[0].1 == JsonValue::Object(options),
        options@.len() == 1,
        options@[0].0@ == "paths"@,
        options@[0].1 == JsonValue::Object(paths),
        paths@.len() == 1,
        paths@[0] == (alias, JsonValue::Array(targets)),
        targets@.len() > 0,
        targets@[0] == JsonValue::Str(target),
    ensures
        tsconfig_aliases(JsonValue::Object(top)) == seq![
            (trim_suffix(alias@, "/*"@), trim_suffix(target@, "/*"@)),
        ],
{
    assert(member(JsonValue::Object(top), "compilerOptions"@) == Some(JsonValue::Object(options)));
    assert(member(JsonValue::Object(options), "paths"@) == Some(JsonValue::Object(paths)));
    assert(paths@.drop_last() =~= Seq::<(String, JsonValue)>::empty());
    assert(aliases_from(paths@.drop_last()) =~= Seq::<(Seq<char>, Seq<char>)>::empty());
    assert(alias_index(Seq::<(Seq<char>, Seq<char>)>::empty(), trim_suffix(alias@, "/*"@)) == -1);
}

/// Where `alias_index` points: at the last entry named `k`, or at none when
/// no entry is named `k`.
proof fn lemma_alias_index(m: Seq<(Seq<char>, Seq<char>)>, k: Seq<char>)
    ensures
        -1 <= alias_index(m, k) < m.len(),
        alias_index(m, k) >= 0 ==> m[alias_index(m, k)].0 == k,
        alias_index(m, k) == -1 ==> forall|j: int| 0 <= j < m.len() ==> (#[trigger] m[j]).0 != k,
    decreases m.len(),
{
    if m.len() > 0 {
        lemma_alias_index(m.drop_last(), k);
        assert forall|j: int| 0 <= j < m.len() - 1 implies #[trigger] m[j] == m.drop_last()[j] by {}
    }
}

/// Each alias name is defined at most once.
proof fn lemma_alias_names_unique(members: Seq<(String, JsonValue)>)
    ensures
        forall|i: int, j: int|
            0 <= i < j < aliases_from(members).len() ==> (#[trigger] aliases_from(members)[i]).0
                != (#[trigger] aliases_from(members)[j]).0,
    decreases members.len(),
{
    if members.len() > 0 {
        let m0 = aliases_from(members.drop_last());
        lemma_alias_names_unique(members.drop_last());
        match alias_entry(members.last().0@, members.last().1) {
            Some(e) => {
                let m = aliases_from(members);
                lemma_alias_index(m0, e.0);
                let x = alias_index(m0, e.0);
                assert forall|i: int, j: int| 0 <= i < j < m.len() implies (#[trigger] m[i]).0
                    != (#[trigger] m[j]).0 by {
                    if x >= 0 {
                        if i != x && j != x {
                            assert(m[i] == m0[i] && m[j] == m0[j]);
                        } else if i == x {
                            assert(m[j] == m0[j]);
                            assert(m0[x].0 != m0[j].0);
                        } else {
                            assert(m[i] == m0[i]);
                            assert(m0[i].0 != m0[x].0);
                        }
                    } else {
                        if j < m.len() - 1 {
                            assert(m[i] == m0[i] && m[j] == m0[j]);
                        } else {
                            assert(m[i] == m0[i]);
                            assert(m0[i].0 != e.0);
                        }
                    }
                }
            },
            None => {},
        }
    }
}

/// Each alias name is defined once, whatever the members of
/// `compilerOptions.paths`; and a member that defines an alias leaves it
/// mapped to its own target, whatever earlier members defined under the same
/// name (as a later `HashMap::insert` of the same key does).
pub proof fn lemma_aliases_once_each(members: Seq<(String, JsonValue)>, k: String, targets: JsonValue)
    ensures
        forall|i: int, j: int|
            0 <= i < j < aliases_from(members).len() ==> (#[trigger] aliases_from(members)[i]).0
                != (#[trigger] aliases_from(members)[j]).0,
        alias_entry(k@, targets) matches Some(e) ==> {
            let m = aliases_from(members.push((k, targets)));
            &&& m.contains(e)
            &&& forall|j: int| 0 <= j < m.len() && (#[trigger] m[j]).0 == e.0 ==> m[j] == e
        },
{
    lemma_alias_names_unique(members);
    let m0 = aliases_from(members);
    let w = members.push((k, targets));
    assert(w.drop_last() =~= members);
    assert(w.last() == (k, targets));
    match alias_entry(k@, targets) {
        Some(e) => {
            let m = aliases_from(w);
            assert(m == insert_alias(m0, e.0, e.1));
            lemma_alias_index(m0, e.0);
            let x = alias_index(m0, e.0);
            if x >= 0 {
                assert(m[x] == e);
                assert forall|j: int| 0 <= j < m.len() && (#[trigger] m[j]).0 == e.0 implies m[j]
                    == e by {
                    if j != x {
                        assert(m[j] == m0[j]);
                        if j < x {
                            assert(m0[j].0 != m0[x].0);
                        } else {
                            assert(m0[x].0 != m0[j].0);
                        }
                    }
                }
            } else {
                assert(m[m.len() - 1] == e);
                assert forall|j: int| 0 <= j < m.len() && (#[trigger] m[j]).0 == e.0 implies m[j]
                    == e by {
                    if j < m.len() - 1 {
                        assert(m[j] == m0[j]);
                    }
                }
            }
            assert(m.contains(e)) by {
                if x >= 0 {
                    assert(m[x] == e);
                } else {
                    assert(m[m.len() - 1] == e);
                }
            }
        },
        None => {},
    }
}

} // verus!
