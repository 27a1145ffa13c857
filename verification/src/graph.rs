//! Dependency graphs between files: walks, reachability, and the two
//! searches the library runs over a graph (what a file depends on, and what
//! depends on a file).
use vstd::prelude::*;
use crate::text::strs;

verus! {

/// A graph as the library stores it: each entry is a file and the files it
/// imports.
pub type Graph = Vec<(String, Vec<String>)>;

/// An edge relation between files.
pub type Edges = spec_fn(Seq<char>, Seq<char>) -> bool;

/// The edges of a stored graph: `a` imports `b`.
pub open spec fn graph_edge(g: Seq<(String, Vec<String>)>, a: Seq<char>, b: Seq<char>) -> bool {
    exists|i: int, j: int|
        0 <= i < g.len() && 0 <= j < g[i].1@.len() && g[i].0@ == a && #[trigger] g[i].1@[j]@
            == b
}

/// The edge relation of a stored graph.
pub open spec fn edges_of(g: Seq<(String, Vec<String>)>) -> Edges {
    |a: Seq<char>, b: Seq<char>| graph_edge(g, a, b)
}

/// A walk: one or more files, each importing the next.
pub open spec fn is_walk(e: Edges, p: Seq<Seq<char>>) -> bool {
    &&& p.len() >= 1
    &&& forall|i: int| 0 <= i < p.len() - 1 ==> #[trigger] e(p[i], p[i + 1])
}

/// `b` can be reached from `a` by following zero or more edges.
pub open spec fn reaches(e: Edges, a: Seq<char>, b: Seq<char>) -> bool {
    exists|p: Seq<Seq<char>>| #[trigger] is_walk(e, p) && p[0] == a && p.last() == b
}

/// `b` can be reached from `a` by following one or more edges.
pub open spec fn reaches_plus(e: Edges, a: Seq<char>, b: Seq<char>) -> bool {
    exists|p: Seq<Seq<char>>| #[trigger] is_walk(e, p) && p.len() >= 2 && p[0] == a && p.last() == b
}

/// Every file reaches itself.
pub proof fn lemma_reaches_refl(e: Edges, a: Seq<char>)
    ensures
        reaches(e, a, a),
{
    let p = seq![a];
    assert(is_walk(e, p));
}

/// A walk can be extended by one more edge.
pub proof fn lemma_reaches_step(e: Edges, a: Seq<char>, b: Seq<char>, c: Seq<char>)
    requires
        reaches(e, a, b),
        e(b, c),
    ensures
        reaches(e, a, c),
        reaches_plus(e, a, c),
{
    let p = choose|p: Seq<Seq<char>>| #[trigger] is_walk(e, p) && p[0] == a && p.last() == b;
    let q = p.push(c);
    assert forall|i: int| 0 <= i < q.len() - 1 implies #[trigger] e(q[i], q[i + 1]) by {
        if i < p.len() - 1 {
            assert(q[i] == p[i] && q[i + 1] == p[i + 1]);
        }
    }
    assert(is_walk(e, q));
}

/// A set that holds `a` and is closed under the edges holds all that `a` reaches.
pub proof fn lemma_closed_holds_reached(e: Edges, s: Set<Seq<char>>, a: Seq<char>, b: Seq<char>)
    requires
        s.contains(a),
        forall|x: Seq<char>, y: Seq<char>| s.contains(x) && #[trigger] e(x, y) ==> s.contains(y),
        reaches(e, a, b),
    ensures
        s.contains(b),
{
    let p = choose|p: Seq<Seq<char>>| #[trigger] is_walk(e, p) && p[0] == a && p.last() == b;
    assert forall|k: int| 0 <= k < p.len() implies s.contains(#[trigger] p[k]) by {
        lemma_walk_prefix_in(e, s, p, k);
    }
}

proof fn lemma_walk_prefix_in(e: Edges, s: Set<Seq<char>>, p: Seq<Seq<char>>, k: int)
    requires
        is_walk(e, p),
        s.contains(p[0]),
        forall|x: Seq<char>, y: Seq<char>| s.contains(x) && #[trigger] e(x, y) ==> s.contains(y),
        0 <= k < p.len(),
    ensures
        s.contains(p[k]),
    decreases k,
{
    if k > 0 {
        lemma_walk_prefix_in(e, s, p, k - 1);
        let j = k - 1;
        assert(e(p[j], p[j + 1]));
    }
}

/// Reaching along fewer edges implies reaching along more.
pub proof fn lemma_reaches_mono(e1: Edges, e2: Edges, a: Seq<char>, b: Seq<char>)
    requires
        forall|x: Seq<char>, y: Seq<char>| #[trigger] e1(x, y) ==> e2(x, y),
        reaches(e1, a, b),
    ensures
        reaches(e2, a, b),
{
    let p = choose|p: Seq<Seq<char>>| #[trigger] is_walk(e1, p) && p[0] == a && p.last() == b;
    assert forall|i: int| 0 <= i < p.len() - 1 implies #[trigger] e2(p[i], p[i + 1]) by {
        assert(e1(p[i], p[i + 1]));
    }
    assert(is_walk(e2, p));
}

/// A walk of one or more edges starts with an edge into a file that reaches the end.
pub proof fn lemma_reaches_plus_first(e: Edges, a: Seq<char>, b: Seq<char>)
    requires
        reaches_plus(e, a, b),
    ensures
        exists|c: Seq<char>| #[trigger] e(a, c) && reaches(e, c, b),
{
    let p = choose|p: Seq<Seq<char>>|
        #[trigger] is_walk(e, p) && p.len() >= 2 && p[0] == a && p.last() == b;
    let q = p.drop_first();
    assert forall|i: int| 0 <= i < q.len() - 1 implies #[trigger] e(q[i], q[i + 1]) by {
        assert(q[i] == p[i + 1] && q[i + 1] == p[i + 2]);
        assert(e(p[i + 1], p[i + 2]));
    }
    assert(is_walk(e, q));
    let z: int = 0;
    assert(e(p[z], p[z + 1]));
    assert(e(a, q[0]) && reaches(e, q[0], b));
}

/// An edge followed by a walk is a walk of one or more edges.
pub proof fn lemma_reaches_plus_prepend(e: Edges, a: Seq<char>, c: Seq<char>, b: Seq<char>)
    requires
        e(a, c),
        reaches(e, c, b),
    ensures
        reaches_plus(e, a, b),
{
    let p = choose|p: Seq<Seq<char>>| #[trigger] is_walk(e, p) && p[0] == c && p.last() == b;
    let q = seq![a] + p;
    assert forall|i: int| 0 <= i < q.len() - 1 implies #[trigger] e(q[i], q[i + 1]) by {
        if i > 0 {
            assert(q[i] == p[i - 1] && q[i + 1] == p[i]);
            let j = i - 1;
            assert(e(p[j], p[j + 1]));
        }
    }
    assert(is_walk(e, q));
}

/// A walk read backwards is a walk of the reversed edges.
pub proof fn lemma_reaches_reverse(e: Edges, r: Edges, a: Seq<char>, b: Seq<char>)
    requires
        forall|x: Seq<char>, y: Seq<char>| #[trigger] e(x, y) ==> r(y, x),
        reaches(e, a, b),
    ensures
        reaches(r, b, a),
{
    let p = choose|p: Seq<Seq<char>>| #[trigger] is_walk(e, p) && p[0] == a && p.last() == b;
    let q = p.reverse();
    assert forall|i: int| 0 <= i < q.len() - 1 implies #[trigger] r(q[i], q[i + 1]) by {
        let n = p.len();
        assert(q[i] == p[n - 1 - i] && q[i + 1] == p[n - 2 - i]);
        let j = n - 2 - i;
        assert(e(p[j], p[j + 1]));
    }
    assert(is_walk(r, q));
}

/// Pushing onto a sequence keeps what it held.
pub proof fn lemma_push_contains(s: Seq<Seq<char>>, x: Seq<char>)
    ensures
        forall|y: Seq<char>| s.push(x).contains(y) <==> (s.contains(y) || y == x),
{
    assert forall|y: Seq<char>| s.push(x).contains(y) <==> (s.contains(y) || y == x) by {
        if s.contains(y) {
            let k = choose|k: int| 0 <= k < s.len() && s[k] == y;
            assert(s.push(x)[k] == y);
        }
        if y == x {
            assert(s.push(x)[s.len() as int] == x);
        }
        if s.push(x).contains(y) && y != x {
            let k = choose|k: int| 0 <= k < s.push(x).len() && s.push(x)[k] == y;
            assert(s[k] == y);
        }
    }
}

/// Whether `v` holds a string equal to `s`.
pub fn contains_str(v: &Vec<String>, s: &String) -> (r: bool)
    ensures
        r == strs(v@).contains(s@),
{
    let n = v.len();
    for i in 0..n
        invariant
            n == v@.len(),
            forall|j: int| 0 <= j < i ==> v@[j]@ != s@,
    {
        if v[i] == *s {
            assert(strs(v@)[i as int] == s@);
            return true;
        }
    }
    proof {
        if strs(v@).contains(s@) {
            let k = choose|k: int| 0 <= k < strs(v@).len() && strs(v@)[k] == s@;
            assert(v@[k]@ == s@);
        }
    }
    false
}

/// All target files of a stored graph, in order, repeats included.
pub open spec fn all_targets(g: Seq<(String, Vec<String>)>) -> Seq<Seq<char>>
    decreases g.len(),
{
    if g.len() == 0 {
        seq![]
    } else {
        all_targets(g.drop_last()) + strs(g.last().1@)
    }
}

proof fn lemma_target_in_all(g: Seq<(String, Vec<String>)>, i: int, j: int)
    requires
        0 <= i < g.len(),
        0 <= j < g[i].1@.len(),
    ensures
        all_targets(g).contains(g[i].1@[j]@),
    decreases g.len(),
{
    let t = g[i].1@[j]@;
    if i == g.len() - 1 {
        let base = all_targets(g.drop_last());
        assert(all_targets(g)[base.len() + j] == strs(g.last().1@)[j]);
    } else {
        lemma_target_in_all(g.drop_last(), i, j);
        let k = choose|k: int| 0 <= k < all_targets(g.drop_last()).len() && all_targets(g.drop_last())[k] == t;
        assert(all_targets(g)[k] == t);
    }
}

/// A repeat-free sequence drawn from another is no longer than it.
proof fn lemma_unique_within(v: Seq<Seq<char>>, u: Seq<Seq<char>>)
    requires
        v.no_duplicates(),
        forall|x: Seq<char>| v.contains(x) ==> u.contains(x),
    ensures
        v.len() <= u.len(),
{
    v.unique_seq_to_set();
    u.lemma_cardinality_of_set();
    assert(v.to_set().subset_of(u.to_set()));
    vstd::set_lib::lemma_len_subset(v.to_set(), u.to_set());
}

/// The files that `start` reaches in the graph, `start` included, each once.
pub fn collect_reachable(g: &Graph, start: &String) -> (r: Vec<String>)
    ensures
        strs(r@).no_duplicates(),
        forall|x: Seq<char>| strs(r@).contains(x) <==> reaches(edges_of(g@), start@, x),
{
    let ghost e = edges_of(g@);
    let ghost u = seq![start@] + all_targets(g@);
    let mut out: Vec<String> = Vec::new();
    out.push(start.clone());
    proof {
        lemma_reaches_refl(e, start@);
        assert(strs(out@) =~= seq![start@]);
        assert(u[0] == start@);
    }
    let mut i: usize = 0;
    while i < out.len()
        invariant
            e == edges_of(g@),
            u == seq![start@] + all_targets(g@),
            i <= out@.len(),
            out@.len() >= 1,
            strs(out@)[0] == start@,
            strs(out@).no_duplicates(),
            forall|x: Seq<char>| strs(out@).contains(x) ==> u.contains(x),
            forall|x: Seq<char>| strs(out@).contains(x) ==> reaches(e, start@, x),
            forall|k: int, y: Seq<char>|
                0 <= k < i && #[trigger] e(strs(out@)[k], y) ==> strs(out@).contains(y),
        decreases u.len() - i,
    {
        let cur = out[i].clone();
        let ghost curv = cur@;
        assert(strs(out@)[i as int] == curv);
        let n = g.len();
        for a in 0..n
            invariant
                e == edges_of(g@),
                u == seq![start@] + all_targets(g@),
                n == g@.len(),
                i < out@.len(),
                strs(out@)[i as int] == curv,
                cur@ == curv,
                strs(out@)[0] == start@,
                strs(out@).no_duplicates(),
                forall|x: Seq<char>| strs(out@).contains(x) ==> u.contains(x),
                forall|x: Seq<char>| strs(out@).contains(x) ==> reaches(e, start@, x),
                forall|k: int, y: Seq<char>|
                    0 <= k < i && #[trigger] e(strs(out@)[k], y) ==> strs(out@).contains(y),
                forall|ai: int, j: int|
                    0 <= ai < a && 0 <= j < g@[ai].1@.len() && g@[ai].0@ == curv ==> strs(
                        out@,
                    ).contains(#[trigger] g@[ai].1@[j]@),
        {
            if g[a].0 == cur {
                let deps = &g[a].1;
                let m = deps.len();
                for d in 0..m
                    invariant
                        e == edges_of(g@),
                        u == seq![start@] + all_targets(g@),
                        n == g@.len(),
                        a < n,
                        deps == g@[a as int].1,
                        m == deps@.len(),
                        g@[a as int].0@ == curv,
                        i < out@.len(),
                        strs(out@)[i as int] == curv,
                        strs(out@)[0] == start@,
                        strs(out@).no_duplicates(),
                        forall|x: Seq<char>| strs(out@).contains(x) ==> u.contains(x),
                        forall|x: Seq<char>| strs(out@).contains(x) ==> reaches(e, start@, x),
                        forall|k: int, y: Seq<char>|
                            0 <= k < i && #[trigger] e(strs(out@)[k], y) ==> strs(
                                out@,
                            ).contains(y),
                        forall|ai: int, j: int|
                            0 <= ai < a && 0 <= j < g@[ai].1@.len() && g@[ai].0@ == curv
                                ==> strs(out@).contains(#[trigger] g@[ai].1@[j]@),
                        forall|j: int| 0 <= j < d ==> strs(out@).contains(#[trigger] deps@[j]@),
                {
                    let t = &deps[d];
                    proof {
                        assert(graph_edge(g@, curv, t@)) by {
                            assert(g@[a as int].1@[d as int]@ == t@);
                        }
                        assert(e(curv, t@));
                        assert(strs(out@).contains(curv));
                        lemma_reaches_step(e, start@, curv, t@);
                        lemma_target_in_all(g@, a as int, d as int);
                        assert(u.contains(t@)) by {
                            let k = choose|k: int|
                                0 <= k < all_targets(g@).len() && all_targets(g@)[k] == t@;
                            assert(u[k + 1] == t@);
                        }
                    }
                    if !contains_str(&out, t) {
                        let ghost old_out = strs(out@);
                        out.push(t.clone());
                        proof {
                            assert(strs(out@) =~= old_out.push(t@));
                            assert forall|x: Seq<char>| strs(out@).contains(x) implies u.contains(
                                x,
                            ) && reaches(e, start@, x) by {
                                if x != t@ {
                                    let k = choose|k: int|
                                        0 <= k < strs(out@).len() && strs(out@)[k] == x;
                                    assert(old_out[k] == x);
                                }
                            }
                            assert forall|k: int, y: Seq<char>|
                                0 <= k < i && #[trigger] e(strs(out@)[k], y) implies strs(
                                out@,
                            ).contains(y) by {
                                assert(strs(out@)[k] == old_out[k]);
                                assert(old_out.contains(y));
                                let q = choose|q: int| 0 <= q < old_out.len() && old_out[q] == y;
                                assert(strs(out@)[q] == y);
                            }
                            assert forall|ai: int, j: int|
                                0 <= ai < a && 0 <= j < g@[ai].1@.len() && g@[ai].0@ == curv
                                    implies strs(out@).contains(#[trigger] g@[ai].1@[j]@) by {
                                let y = g@[ai].1@[j]@;
                                let q = choose|q: int| 0 <= q < old_out.len() && old_out[q] == y;
                                assert(strs(out@)[q] == y);
                            }
                            assert forall|j: int| 0 <= j < d + 1 implies strs(out@).contains(
                                #[trigger] deps@[j]@,
                            ) by {
                                if j < d {
                                    let y = deps@[j]@;
                                    let q = choose|q: int| 0 <= q < old_out.len() && old_out[q] == y;
                                    assert(strs(out@)[q] == y);
                                } else {
                                    assert(strs(out@)[old_out.len() as int] == t@);
                                }
                            }
                        }
                    }
                }
            }
        }
        proof {
            assert forall|k: int, y: Seq<char>|
                0 <= k < i + 1 && #[trigger] e(strs(out@)[k], y) implies strs(out@).contains(y) by {
                if k == i {
                    let (ai, j) = choose|ai: int, j: int|
                        0 <= ai < g@.len() && 0 <= j < g@[ai].1@.len() && g@[ai].0@ == curv
                            && #[trigger] g@[ai].1@[j]@ == y;
                }
            }
            lemma_unique_within(strs(out@), u);
        }
        i = i + 1;
    }
    proof {
        let s = strs(out@).to_set();
        assert forall|x: Seq<char>, y: Seq<char>| s.contains(x) && #[trigger] e(x, y) implies s.contains(
            y,
        ) by {
            let k = choose|k: int| 0 <= k < strs(out@).len() && strs(out@)[k] == x;
            assert(e(strs(out@)[k], y));
        }
        assert forall|x: Seq<char>| reaches(e, start@, x) implies strs(out@).contains(x) by {
            assert(s.contains(start@)) by {
                assert(strs(out@)[0] == start@);
            }
            lemma_closed_holds_reached(e, s, start@, x);
        }
    }
    out
}

/// All files of a stored graph that import something, in order.
pub open spec fn all_sources(g: Seq<(String, Vec<String>)>) -> Seq<Seq<char>> {
    g.map_values(|entry: (String, Vec<String>)| entry.0@)
}

/// A walk of one or more edges is also a walk.
pub proof fn lemma_plus_is_reach(e: Edges, a: Seq<char>, b: Seq<char>)
    requires
        reaches_plus(e, a, b),
    ensures
        reaches(e, a, b),
{
    let p = choose|p: Seq<Seq<char>>|
        #[trigger] is_walk(e, p) && p.len() >= 2 && p[0] == a && p.last() == b;
    assert(is_walk(e, p) && p[0] == a && p.last() == b);
}

/// Whether `deps` holds a string equal to `s`, stated over the graph entry.
fn entry_imports(g: &Graph, a: usize, s: &String) -> (r: bool)
    requires
        a < g@.len(),
    ensures
        r == strs(g@[a as int].1@).contains(s@),
{
    contains_str(&g[a].1, s)
}

/// The files that import `file` directly or through other files, each once.
pub fn collect_importers(g: &Graph, file: &String) -> (r: Vec<String>)
    ensures
        strs(r@).no_duplicates(),
        forall|x: Seq<char>| strs(r@).contains(x) <==> reaches_plus(edges_of(g@), x, file@),
{
    let ghost e = edges_of(g@);
    let ghost u = seq![file@] + all_sources(g@);
    let mut queue: Vec<String> = Vec::new();
    let mut found: Vec<String> = Vec::new();
    queue.push(file.clone());
    proof {
        assert(strs(queue@) =~= seq![file@]);
        assert(strs(found@) =~= seq![]);
        assert(u[0] == file@);
    }
    let mut i: usize = 0;
    while i < queue.len()
        invariant
            e == edges_of(g@),
            u == seq![file@] + all_sources(g@),
            i <= queue@.len(),
            queue@.len() >= 1,
            strs(queue@)[0] == file@,
            strs(queue@).no_duplicates(),
            strs(found@).no_duplicates(),
            forall|x: Seq<char>| strs(queue@).contains(x) ==> u.contains(x),
            forall|x: Seq<char>| strs(found@).contains(x) ==> reaches_plus(e, x, file@),
            forall|x: Seq<char>| strs(found@).contains(x) ==> strs(queue@).contains(x),
            forall|x: Seq<char>|
                strs(queue@).contains(x) ==> x == file@ || strs(found@).contains(x),
            forall|k: int, y: Seq<char>|
                0 <= k < i && #[trigger] e(y, strs(queue@)[k]) ==> strs(found@).contains(y),
        decreases u.len() - i,
    {
        let cur = queue[i].clone();
        let ghost curv = cur@;
        assert(strs(queue@)[i as int] == curv);
        proof {
            assert(strs(queue@).contains(curv));
            if curv == file@ {
                lemma_reaches_refl(e, file@);
            } else {
                lemma_plus_is_reach(e, curv, file@);
            }
        }
        let n = g.len();
        for a in 0..n
            invariant
                e == edges_of(g@),
                u == seq![file@] + all_sources(g@),
                n == g@.len(),
                i < queue@.len(),
                strs(queue@)[i as int] == curv,
                cur@ == curv,
                reaches(e, curv, file@),
                strs(queue@)[0] == file@,
                strs(queue@).no_duplicates(),
                strs(found@).no_duplicates(),
                forall|x: Seq<char>| strs(queue@).contains(x) ==> u.contains(x),
                forall|x: Seq<char>| strs(found@).contains(x) ==> reaches_plus(e, x, file@),
                forall|x: Seq<char>| strs(found@).contains(x) ==> strs(queue@).contains(x),
                forall|x: Seq<char>|
                    strs(queue@).contains(x) ==> x == file@ || strs(found@).contains(x),
                forall|k: int, y: Seq<char>|
                    0 <= k < i && #[trigger] e(y, strs(queue@)[k]) ==> strs(found@).contains(y),
                forall|ai: int|
                    0 <= ai < a && strs(g@[ai].1@).contains(curv) ==> strs(found@).contains(
                        #[trigger] g@[ai].0@,
                    ),
        {
            if entry_imports(g, a, &cur) {
                let src = &g[a].0;
                proof {
                    let j = choose|j: int|
                        0 <= j < strs(g@[a as int].1@).len() && strs(g@[a as int].1@)[j] == curv;
                    assert(g@[a as int].1@[j]@ == curv);
                    assert(graph_edge(g@, src@, curv));
                    assert(e(src@, curv));
                    lemma_reaches_plus_prepend(e, src@, curv, file@);
                    assert(all_sources(g@)[a as int] == src@);
                    assert(u[a + 1] == src@);
                }
                let ghost old_found = strs(found@);
                let ghost old_queue = strs(queue@);
                if !contains_str(&found, src) {
                    found.push(src.clone());
                    assert(strs(found@) =~= old_found.push(src@));
                }
                if !contains_str(&queue, src) {
                    queue.push(src.clone());
                    assert(strs(queue@) =~= old_queue.push(src@));
                }
                proof {
                    assert(strs(found@).contains(src@)) by {
                        if old_found.contains(src@) {
                            assert(strs(found@) == old_found);
                        } else {
                            assert(strs(found@)[old_found.len() as int] == src@);
                        }
                    }
                    assert(strs(queue@).contains(src@)) by {
                        if old_queue.contains(src@) {
                            assert(strs(queue@) == old_queue);
                        } else {
                            assert(strs(queue@)[old_queue.len() as int] == src@);
                        }
                    }
                    assert forall|x: Seq<char>| old_found.contains(x) implies strs(
                        found@,
                    ).contains(x) by {
                        let k = choose|k: int| 0 <= k < old_found.len() && old_found[k] == x;
                        assert(strs(found@)[k] == x);
                    }
                    assert forall|x: Seq<char>| old_queue.contains(x) implies strs(
                        queue@,
                    ).contains(x) by {
                        let k = choose|k: int| 0 <= k < old_queue.len() && old_queue[k] == x;
                        assert(strs(queue@)[k] == x);
                    }
                    assert forall|x: Seq<char>| strs(found@).contains(x) implies strs(
                        queue@,
                    ).contains(x) by {
                        if x != src@ {
                            let k = choose|k: int|
                                0 <= k < strs(found@).len() && strs(found@)[k] == x;
                            assert(old_found[k] == x);
                            assert(old_found.contains(x));
                            assert(old_queue.contains(x));
                            let k2 = choose|k2: int| 0 <= k2 < old_queue.len() && old_queue[k2] == x;
                            assert(strs(queue@)[k2] == x);
                        }
                    }
                    assert forall|x: Seq<char>| strs(queue@).contains(x) implies x == file@
                        || strs(found@).contains(x) by {
                        if x != src@ {
                            let k = choose|k: int|
                                0 <= k < strs(queue@).len() && strs(queue@)[k] == x;
                            assert(old_queue[k] == x);
                            assert(old_queue.contains(x));
                            if x != file@ {
                                assert(old_found.contains(x));
                            }
                        }
                    }
                    assert forall|x: Seq<char>| strs(found@).contains(x) implies reaches_plus(
                        e,
                        x,
                        file@,
                    ) by {
                        if x != src@ {
                            let k = choose|k: int|
                                0 <= k < strs(found@).len() && strs(found@)[k] == x;
                            assert(old_found[k] == x);
                        }
                    }
                    assert forall|x: Seq<char>| strs(queue@).contains(x) implies u.contains(x) by {
                        if x != src@ {
                            let k = choose|k: int|
                                0 <= k < strs(queue@).len() && strs(queue@)[k] == x;
                            assert(old_queue[k] == x);
                        }
                    }
                    assert forall|k: int, y: Seq<char>|
                        0 <= k < i && #[trigger] e(y, strs(queue@)[k]) implies strs(
                        found@,
                    ).contains(y) by {
                        assert(strs(queue@)[k] == old_queue[k]);
                        assert(old_found.contains(y));
                    }
                    assert forall|ai: int|
                        0 <= ai < a + 1 && strs(g@[ai].1@).contains(curv) implies strs(
                        found@,
                    ).contains(#[trigger] g@[ai].0@) by {
                        if ai < a {
                            assert(old_found.contains(g@[ai].0@));
                        }
                    }
                    assert(strs(queue@)[i as int] == curv);
                    assert(strs(queue@)[0] == file@);
                }
            }
        }
        proof {
            assert forall|k: int, y: Seq<char>|
                0 <= k < i + 1 && #[trigger] e(y, strs(queue@)[k]) implies strs(found@).contains(
                y,
            ) by {
                if k == i {
                    let (ai, j) = choose|ai: int, j: int|
                        0 <= ai < g@.len() && 0 <= j < g@[ai].1@.len() && g@[ai].0@ == y
                            && #[trigger] g@[ai].1@[j]@ == curv;
                    assert(strs(g@[ai].1@)[j] == curv);
                }
            }
            lemma_unique_within(strs(queue@), u);
        }
        i = i + 1;
    }
    proof {
        let q = strs(queue@).to_set();
        let rev = |x: Seq<char>, y: Seq<char>| e(y, x);
        assert forall|x: Seq<char>, y: Seq<char>| q.contains(x) && #[trigger] rev(x, y) implies q.contains(
            y,
        ) by {
            let k = choose|k: int| 0 <= k < strs(queue@).len() && strs(queue@)[k] == x;
            assert(e(y, strs(queue@)[k]));
        }
        assert forall|x: Seq<char>| reaches_plus(e, x, file@) implies strs(found@).contains(x) by {
            lemma_reaches_plus_first(e, x, file@);
            let c = choose|c: Seq<char>| #[trigger] e(x, c) && reaches(e, c, file@);
            lemma_reaches_reverse(e, rev, c, file@);
            assert(q.contains(file@)) by {
                assert(strs(queue@)[0] == file@);
            }
            lemma_closed_holds_reached(rev, q, file@, c);
            let k = choose|k: int| 0 <= k < strs(queue@).len() && strs(queue@)[k] == c;
            assert(e(x, strs(queue@)[k]));
        }
    }
    found
}

/// Whether the graph records the edge `a -> b`.
pub fn has_edge(g: &Graph, a: &String, b: &String) -> (r: bool)
    ensures
        r == graph_edge(g@, a@, b@),
{
    let n = g.len();
    for i in 0..n
        invariant
            n == g@.len(),
            forall|ii: int, j: int|
                0 <= ii < i && 0 <= j < g@[ii].1@.len() && g@[ii].0@ == a@ ==> #[trigger] g@[ii].1@[j]@
                    != b@,
    {
        if g[i].0 == *a && contains_str(&g[i].1, b) {
            proof {
                let j = choose|j: int| 0 <= j < strs(g@[i as int].1@).len() && strs(g@[i as int].1@)[j] == b@;
                assert(g@[i as int].1@[j]@ == b@);
            }
            return true;
        }
        proof {
            if g@[i as int].0@ == a@ {
                assert forall|j: int| 0 <= j < g@[i as int].1@.len() implies #[trigger] g@[i as int].1@[j]@ != b@ by {
                    if g@[i as int].1@[j]@ == b@ {
                        assert(strs(g@[i as int].1@)[j] == b@);
                    }
                }
            }
        }
    }
    false
}

/// Records the edge `a -> b`.
pub fn add_edge(g: &mut Graph, a: &String, b: &String)
    ensures
        forall|x: Seq<char>, y: Seq<char>|
            graph_edge(final(g)@, x, y) <==> graph_edge(old(g)@, x, y) || (x == a@ && y == b@),
{
    if has_edge(g, a, b) {
        return;
    }
    let ghost old_g = g@;
    let mut deps: Vec<String> = Vec::new();
    deps.push(b.clone());
    g.push((a.clone(), deps));
    proof {
        let n = old_g.len() as int;
        assert(g@[n].1@[0]@ == b@);
        assert forall|x: Seq<char>, y: Seq<char>|
            graph_edge(g@, x, y) <==> graph_edge(old_g, x, y) || (x == a@ && y == b@) by {
            if graph_edge(g@, x, y) {
                let (i, j) = choose|i: int, j: int|
                    0 <= i < g@.len() && 0 <= j < g@[i].1@.len() && g@[i].0@ == x && #[trigger] g@[i].1@[j]@ == y;
                if i < n {
                    assert(old_g[i] == g@[i]);
                }
            }
            if graph_edge(old_g, x, y) {
                let (i, j) = choose|i: int, j: int|
                    0 <= i < old_g.len() && 0 <= j < old_g[i].1@.len() && old_g[i].0@ == x && #[trigger] old_g[i].1@[j]@ == y;
                assert(g@[i] == old_g[i]);
            }
        }
    }
}

} // verus!
