//! Paths as `std::path` reads them on Unix: a path is a sequence of
//! components. A component is written `/` (the root), `.` (the current
//! directory, only as the first component of a relative path), `..` (the
//! parent directory) or a name; empty parts and inner `.` parts are skipped.
use vstd::prelude::*;
use crate::text::{chars_of, push_chars, string_of, strs};
use crate::graph::lemma_push_contains;

verus! {

/// The state of cutting `s` at each `/`: the parts finished by a `/`, and the
/// characters read since the last `/`.
pub open spec fn slash_split(s: Seq<char>) -> (Seq<Seq<char>>, Seq<char>)
    decreases s.len(),
{
    if s.len() == 0 {
        (seq![], seq![])
    } else {
        let (done, cur) = slash_split(s.drop_last());
        if s.last() == '/' {
            (done.push(cur), seq![])
        } else {
            (done, cur.push(s.last()))
        }
    }
}

/// The parts of `s` between the `/`s, empty ones included.
pub open spec fn pieces(s: Seq<char>) -> Seq<Seq<char>> {
    slash_split(s).0.push(slash_split(s).1)
}

/// The parts that name something: neither empty nor `.`.
pub open spec fn clean(ps: Seq<Seq<char>>) -> Seq<Seq<char>>
    decreases ps.len(),
{
    if ps.len() == 0 {
        seq![]
    } else {
        let r = clean(ps.drop_last());
        let p = ps.last();
        if p.len() == 0 || p == seq!['.'] {
            r
        } else {
            r.push(p)
        }
    }
}

/// Whether `s` starts at the root.
pub open spec fn is_absolute(s: Seq<char>) -> bool {
    s.len() > 0 && s[0] == '/'
}

/// The components of `s`, as `Path::components` yields them.
pub open spec fn components(s: Seq<char>) -> Seq<Seq<char>> {
    if is_absolute(s) {
        seq![seq!['/']] + clean(pieces(s).drop_first())
    } else if pieces(s)[0] == seq!['.'] {
        seq![seq!['.']] + clean(pieces(s).drop_first())
    } else {
        clean(pieces(s))
    }
}

/// `base` with `p` pushed onto it, as `PathBuf::push` does on Unix: an
/// absolute `p` replaces `base`; otherwise a `/` separates them unless `base`
/// is empty or already ends with one.
pub open spec fn path_join(base: Seq<char>, p: Seq<char>) -> Seq<char> {
    if is_absolute(p) {
        p
    } else if base.len() == 0 || base.last() == '/' {
        base + p
    } else {
        base + seq!['/'] + p
    }
}

/// The path built by pushing the components one after the other onto an
/// empty path.
pub open spec fn render(cs: Seq<Seq<char>>) -> Seq<char>
    decreases cs.len(),
{
    if cs.len() == 0 {
        seq![]
    } else {
        path_join(render(cs.drop_last()), cs.last())
    }
}

/// The path that `Path::strip_prefix` gives back: the components of `path`
/// after those of `base`, when those of `base` begin those of `path`.
pub open spec fn strip_prefix(path: Seq<char>, base: Seq<char>) -> Option<Seq<char>> {
    let pc = components(path);
    let bc = components(base);
    if bc.len() <= pc.len() && pc.take(bc.len() as int) == bc {
        Some(render(pc.skip(bc.len() as int)))
    } else {
        None
    }
}

/// `Path::parent`: the path without its last component; none for an empty
/// path or one that ends in the root.
pub open spec fn parent(path: Seq<char>) -> Option<Seq<char>> {
    let pc = components(path);
    if pc.len() == 0 || pc.last() == seq!['/'] {
        None
    } else {
        Some(render(pc.drop_last()))
    }
}

/// `Path::file_name`: the last component, when it is a name.
pub open spec fn file_name(path: Seq<char>) -> Option<Seq<char>> {
    let pc = components(path);
    if pc.len() == 0 || pc.last() == seq!['/'] || pc.last() == seq!['.'] || pc.last() == seq![
        '.',
        '.',
    ] {
        None
    } else {
        Some(pc.last())
    }
}

/// The index of the last `.` in `name`, or -1.
pub open spec fn last_dot(name: Seq<char>) -> int
    decreases name.len(),
{
    if name.len() == 0 {
        -1
    } else if name.last() == '.' {
        name.len() - 1
    } else {
        last_dot(name.drop_last())
    }
}

/// `Path::extension`: what follows the last `.` of the file name, when that
/// `.` is not its first character.
pub open spec fn extension(path: Seq<char>) -> Option<Seq<char>> {
    match file_name(path) {
        Some(name) => if last_dot(name) > 0 {
            Some(name.skip(last_dot(name) + 1))
        } else {
            None
        },
        None => None,
    }
}

/// The views of a vector of character vectors.
pub open spec fn views(v: Seq<Vec<char>>) -> Seq<Seq<char>> {
    v.map_values(|x: Vec<char>| x@)
}

/// Whether two character vectors hold the same characters.
pub fn chars_eq(a: &Vec<char>, b: &Vec<char>) -> (r: bool)
    ensures
        r == (a@ == b@),
{
    if a.len() != b.len() {
        return false;
    }
    let n = a.len();
    for i in 0..n
        invariant
            n == a@.len(),
            n == b@.len(),
            forall|j: int| 0 <= j < i ==> a@[j] == b@[j],
    {
        if a[i] != b[i] {
            return false;
        }
    }
    assert(a@ =~= b@);
    true
}

/// Whether `a` is `.`.
fn is_dot(a: &Vec<char>) -> (r: bool)
    ensures
        r == (a@ == seq!['.']),
{
    if a.len() == 1 && a[0] == '.' {
        assert(a@ =~= seq!['.']);
        true
    } else {
        false
    }
}

/// The parts of `s` between the `/`s.
fn split_pieces(s: &str) -> (r: Vec<Vec<char>>)
    ensures
        views(r@) == pieces(s@),
{
    let mut done: Vec<Vec<char>> = Vec::new();
    let mut cur: Vec<char> = Vec::new();
    for c in it: s.chars()
        invariant
            it.seq() == s@,
            views(done@) == slash_split(s@.take(it.index() as int)).0,
            cur@ == slash_split(s@.take(it.index() as int)).1,
    {
        let ghost i = it.index() as int;
        assert(s@.take(i + 1).drop_last() =~= s@.take(i));
        assert(s@.take(i + 1).last() == c);
        if c == '/' {
            let ghost d = views(done@);
            done.push(cur);
            assert(views(done@) =~= d.push(slash_split(s@.take(i)).1));
            cur = Vec::new();
        } else {
            cur.push(c);
        }
    }
    assert(s@.take(s@.len() as int) =~= s@);
    let ghost d = views(done@);
    done.push(cur);
    assert(views(done@) =~= d.push(slash_split(s@).1));
    done
}

/// The components of `s`, as `Path::components` yields them.
pub fn components_of(s: &str) -> (r: Vec<Vec<char>>)
    ensures
        views(r@) == components(s@),
{
    let ps = split_pieces(s);
    let ghost pv = pieces(s@);
    assert(views(ps@).len() == ps@.len());
    let mut r: Vec<Vec<char>> = Vec::new();
    let mut start: usize = 0;
    let chars = chars_of(s);
    if chars.len() > 0 && chars[0] == '/' {
        let mut root: Vec<char> = Vec::new();
        root.push('/');
        assert(root@ =~= seq!['/']);
        r.push(root);
        start = 1;
    } else if is_dot(&ps[0]) {
        let mut dot: Vec<char> = Vec::new();
        dot.push('.');
        assert(dot@ =~= seq!['.']);
        r.push(dot);
        start = 1;
    }
    let ghost head = views(r@);
    assert(components(s@) == head + clean(if start == 1 {
        pv.drop_first()
    } else {
        pv
    })) by {
        if start == 1 {
            assert(views(r@) =~= seq![r@[0]@]);
        } else {
            assert(views(r@) =~= seq![]);
            assert(head + clean(pv) =~= clean(pv));
        }
    }
    let n = ps.len();
    let mut i = start;
    assert(pv.subrange(start as int, start as int) =~= seq![]);
    while i < n
        invariant
            start <= i <= n,
            n == pv.len(),
            views(ps@) == pv,
            views(r@) == head + clean(pv.subrange(start as int, i as int)),
        decreases n - i,
    {
        assert(pv.subrange(start as int, i + 1).drop_last() =~= pv.subrange(start as int, i as int));
        let ghost before = views(r@);
        if ps[i].len() == 0 || is_dot(&ps[i]) {
        } else {
            r.push(ps[i].clone());
            assert(views(r@) =~= before.push(ps@[i as int]@));
        }
        i = i + 1;
    }
    assert(pv.subrange(start as int, n as int) =~= (if start == 1 {
        pv.drop_first()
    } else {
        pv
    }));
    r
}

/// `base` with `p` pushed onto it (`PathBuf::push` on Unix).
pub fn join_path(base: &str, p: &str) -> (r: String)
    ensures
        r@ == path_join(base@, p@),
{
    let pc = chars_of(p);
    let bc = chars_of(base);
    if pc.len() > 0 && pc[0] == '/' {
        return string_of(&pc);
    }
    let mut r = string_of(&bc);
    if !(bc.len() == 0 || bc[bc.len() - 1] == '/') {
        r.push('/');
    }
    push_chars(&mut r, &pc);
    r
}

/// The path built by pushing `cs[from..to]` one after the other onto an empty path.
pub fn render_range(cs: &Vec<Vec<char>>, from: usize, to: usize) -> (r: String)
    requires
        from <= to <= cs.len(),
    ensures
        r@ == render(views(cs@).subrange(from as int, to as int)),
{
    let mut r = String::new();
    let mut i = from;
    assert(views(cs@).subrange(from as int, from as int) =~= seq![]);
    while i < to
        invariant
            from <= i <= to <= cs@.len(),
            r@ == render(views(cs@).subrange(from as int, i as int)),
        decreases to - i,
    {
        assert(views(cs@).subrange(from as int, i + 1).drop_last() =~= views(cs@).subrange(
            from as int,
            i as int,
        ));
        let part = string_of(&cs[i]);
        r = join_path(r.as_str(), part.as_str());
        i = i + 1;
    }
    r
}

/// The view of an optional string.
pub open spec fn opt_view(o: Option<String>) -> Option<Seq<char>> {
    match o {
        Some(s) => Some(s@),
        None => None,
    }
}

/// `Path::strip_prefix`: the rest of `path` after the components of `base`.
pub fn strip_path_prefix(path: &str, base: &str) -> (r: Option<String>)
    ensures
        opt_view(r) == strip_prefix(path@, base@),
{
    let pc = components_of(path);
    let bc = components_of(base);
    let ghost pv = views(pc@);
    let ghost bv = views(bc@);
    assert(pv.len() == pc@.len() && bv.len() == bc@.len());
    if bc.len() > pc.len() {
        return None;
    }
    let n = bc.len();
    for i in 0..n
        invariant
            n == bc@.len(),
            n <= pc@.len(),
            pv == views(pc@),
            bv == views(bc@),
            pv == components(path@),
            bv == components(base@),
            forall|j: int| 0 <= j < i ==> pv[j] == bv[j],
    {
        assert(bv[i as int] == bc@[i as int]@ && pv[i as int] == pc@[i as int]@);
        if !chars_eq(&bc[i], &pc[i]) {
            assert(pv.take(n as int)[i as int] != bv[i as int]);
            return None;
        }
    }
    assert(pv.take(n as int) =~= bv);
    let r = render_range(&pc, n, pc.len());
    assert(pv.subrange(n as int, pv.len() as int) =~= pv.skip(n as int));
    Some(r)
}

/// `Path::parent`: the path without its last component.
pub fn parent_path(path: &str) -> (r: Option<String>)
    ensures
        opt_view(r) == parent(path@),
{
    let pc = components_of(path);
    let ghost pv = views(pc@);
    assert(pv.len() == pc@.len());
    if pc.len() == 0 {
        return None;
    }
    let last = pc.len() - 1;
    let mut root: Vec<char> = Vec::new();
    root.push('/');
    assert(root@ =~= seq!['/']);
    if chars_eq(&pc[last], &root) {
        return None;
    }
    let r = render_range(&pc, 0, last);
    assert(pv.subrange(0, last as int) =~= pv.drop_last());
    Some(r)
}

/// `Path::extension`: what follows the last `.` of the file name, when that
/// `.` is not its first character.
pub fn extension_of(path: &str) -> (r: Option<Vec<char>>)
    ensures
        match r {
            Some(e) => extension(path@) == Some(e@),
            None => extension(path@) is None,
        },
{
    let pc = components_of(path);
    let ghost pv = views(pc@);
    assert(pv.len() == pc@.len());
    if pc.len() == 0 {
        return None;
    }
    let name = &pc[pc.len() - 1];
    assert(name@ == pv.last());
    let n = name.len();
    if (n == 1 && (name[0] == '/' || name[0] == '.')) || (n == 2 && name[0] == '.' && name[1]
        == '.') {
        proof {
            if n == 1 && name[0] == '/' {
                assert(name@ =~= seq!['/']);
            } else if n == 1 {
                assert(name@ =~= seq!['.']);
            } else {
                assert(name@ =~= seq!['.', '.']);
            }
        }
        return None;
    }
    assert(name@ != seq!['/'] && name@ != seq!['.'] && name@ != seq!['.', '.']) by {
        if n == 1 {
            assert(seq!['/'][0] == '/' && seq!['.'][0] == '.');
        }
        if n == 2 {
            assert(seq!['.', '.'][0] == '.' && seq!['.', '.'][1] == '.');
        }
    }
    let mut k = n;
    assert(name@.take(n as int) =~= name@);
    while k > 0 && name[k - 1] != '.'
        invariant
            k <= n == name@.len(),
            last_dot(name@) == last_dot(name@.take(k as int)),
        decreases k,
    {
        assert(name@.take(k as int).drop_last() =~= name@.take(k - 1));
        k = k - 1;
    }
    assert(name@.take(n as int) =~= name@);
    if k > 0 {
        assert(name@.take(k as int).last() == '.');
    } else {
        assert(name@.take(0) =~= seq![]);
    }
    if k <= 1 {
        return None;
    }
    let mut ext: Vec<char> = Vec::new();
    let mut j = k;
    while j < n
        invariant
            k <= j <= n == name@.len(),
            ext@ == name@.subrange(k as int, j as int),
        decreases n - j,
    {
        ext.push(name[j]);
        assert(ext@ =~= name@.subrange(k as int, j + 1));
        j = j + 1;
    }
    assert(name@.subrange(k as int, n as int) =~= name@.skip(k as int));
    Some(ext)
}

/// Character sequences in lexicographic order of their code points (the
/// order of their UTF-8 bytes).
pub open spec fn chars_lt(a: Seq<char>, b: Seq<char>) -> bool
    decreases a.len(),
{
    if a.len() == 0 {
        b.len() > 0
    } else if b.len() == 0 {
        false
    } else if (a[0] as int) < (b[0] as int) {
        true
    } else if a[0] == b[0] {
        chars_lt(a.drop_first(), b.drop_first())
    } else {
        false
    }
}

/// The rank of a component in `std::path::Component`'s order: the root, then
/// `.`, then `..`, then names.
pub open spec fn comp_rank(c: Seq<char>) -> int {
    if c == seq!['/'] {
        1
    } else if c == seq!['.'] {
        2
    } else if c == seq!['.', '.'] {
        3
    } else {
        4
    }
}

/// The order of components.
pub open spec fn comp_lt(a: Seq<char>, b: Seq<char>) -> bool {
    comp_rank(a) < comp_rank(b) || (comp_rank(a) == 4 && comp_rank(b) == 4 && chars_lt(a, b))
}

/// Component sequences in lexicographic order.
pub open spec fn comps_lt(a: Seq<Seq<char>>, b: Seq<Seq<char>>) -> bool
    decreases a.len(),
{
    if a.len() == 0 {
        b.len() > 0
    } else if b.len() == 0 {
        false
    } else if comp_lt(a[0], b[0]) {
        true
    } else if a[0] == b[0] {
        comps_lt(a.drop_first(), b.drop_first())
    } else {
        false
    }
}

/// The order paths are sorted in: by their components (`Path`'s order), and
/// paths with the same components by their text.
pub open spec fn path_before(a: Seq<char>, b: Seq<char>) -> bool {
    comps_lt(components(a), components(b)) || (components(a) == components(b) && chars_lt(a, b))
}

/// `chars_lt` is a strict total order.
pub proof fn lemma_chars_lt_order(a: Seq<char>, b: Seq<char>, c: Seq<char>)
    ensures
        !chars_lt(a, a),
        chars_lt(a, b) && chars_lt(b, c) ==> chars_lt(a, c),
        a != b ==> chars_lt(a, b) || chars_lt(b, a),
        chars_lt(a, b) ==> !chars_lt(b, a),
    decreases a.len(),
{
    if a.len() > 0 && b.len() > 0 && c.len() > 0 {
        lemma_chars_lt_order(a.drop_first(), b.drop_first(), c.drop_first());
    }
    if a.len() > 0 && b.len() > 0 {
        lemma_chars_lt_order(a.drop_first(), b.drop_first(), b.drop_first());
        if a != b && a[0] == b[0] {
            assert(a.drop_first() != b.drop_first()) by {
                if a.drop_first() == b.drop_first() {
                    assert(a =~= seq![a[0]] + a.drop_first());
                    assert(b =~= seq![b[0]] + b.drop_first());
                }
            }
        }
    }
    if a.len() > 0 {
        lemma_chars_lt_order(a.drop_first(), a.drop_first(), a.drop_first());
    }
    if a.len() == 0 && b.len() == 0 {
        assert(a =~= b);
    }
}

/// `comp_lt` is a strict total order.
pub proof fn lemma_comp_lt_order(a: Seq<char>, b: Seq<char>, c: Seq<char>)
    ensures
        !comp_lt(a, a),
        comp_lt(a, b) && comp_lt(b, c) ==> comp_lt(a, c),
        a != b ==> comp_lt(a, b) || comp_lt(b, a),
        comp_lt(a, b) ==> !comp_lt(b, a),
{
    lemma_chars_lt_order(a, b, c);
    lemma_chars_lt_order(a, a, a);
}

/// `comps_lt` is a strict total order.
pub proof fn lemma_comps_lt_order(a: Seq<Seq<char>>, b: Seq<Seq<char>>, c: Seq<Seq<char>>)
    ensures
        !comps_lt(a, a),
        comps_lt(a, b) && comps_lt(b, c) ==> comps_lt(a, c),
        a != b ==> comps_lt(a, b) || comps_lt(b, a),
        comps_lt(a, b) ==> !comps_lt(b, a),
    decreases a.len(),
{
    if a.len() > 0 && b.len() > 0 && c.len() > 0 {
        lemma_comps_lt_order(a.drop_first(), b.drop_first(), c.drop_first());
        lemma_comp_lt_order(a[0], b[0], c[0]);
    }
    if a.len() > 0 && b.len() > 0 {
        lemma_comps_lt_order(a.drop_first(), b.drop_first(), b.drop_first());
        lemma_comp_lt_order(a[0], b[0], b[0]);
        if a != b && a[0] == b[0] {
            assert(a.drop_first() != b.drop_first()) by {
                if a.drop_first() == b.drop_first() {
                    assert(a =~= seq![a[0]] + a.drop_first());
                    assert(b =~= seq![b[0]] + b.drop_first());
                }
            }
        }
    }
    if a.len() > 0 {
        lemma_comps_lt_order(a.drop_first(), a.drop_first(), a.drop_first());
        lemma_comp_lt_order(a[0], a[0], a[0]);
    }
    if a.len() == 0 && b.len() == 0 {
        assert(a =~= b);
    }
}

/// `path_before` is a strict total order.
pub proof fn lemma_path_before_order(a: Seq<char>, b: Seq<char>, c: Seq<char>)
    ensures
        !path_before(a, a),
        path_before(a, b) && path_before(b, c) ==> path_before(a, c),
        a != b ==> path_before(a, b) || path_before(b, a),
        path_before(a, b) ==> !path_before(b, a),
{
    lemma_comps_lt_order(components(a), components(b), components(c));
    lemma_comps_lt_order(components(a), components(a), components(a));
    lemma_chars_lt_order(a, b, c);
    lemma_chars_lt_order(a, a, a);
}

/// Whether `a` comes before `b` in lexicographic order.
fn chars_lt_exec(a: &Vec<char>, b: &Vec<char>) -> (r: bool)
    ensures
        r == chars_lt(a@, b@),
{
    let mut i: usize = 0;
    assert(a@.skip(0) =~= a@ && b@.skip(0) =~= b@);
    loop
        invariant
            i <= a@.len(),
            i <= b@.len(),
            chars_lt(a@, b@) == chars_lt(a@.skip(i as int), b@.skip(i as int)),
        decreases a@.len() - i,
    {
        let ghost sa = a@.skip(i as int);
        let ghost sb = b@.skip(i as int);
        if i == a.len() {
            return i < b.len();
        }
        if i == b.len() {
            return false;
        }
        assert(sa[0] == a@[i as int] && sb[0] == b@[i as int]);
        if a[i] < b[i] {
            return true;
        }
        if a[i] != b[i] {
            return false;
        }
        assert(sa.drop_first() =~= a@.skip(i + 1));
        assert(sb.drop_first() =~= b@.skip(i + 1));
        i = i + 1;
    }
}

/// The rank of a component.
fn comp_rank_exec(c: &Vec<char>) -> (r: u8)
    ensures
        r as int == comp_rank(c@),
{
    if c.len() == 1 && c[0] == '/' {
        assert(c@ =~= seq!['/']);
        1
    } else if c.len() == 1 && c[0] == '.' {
        assert(c@ =~= seq!['.']);
        2
    } else if c.len() == 2 && c[0] == '.' && c[1] == '.' {
        assert(c@ =~= seq!['.', '.']);
        3
    } else {
        proof {
            if c@ == seq!['/'] {
                assert(seq!['/'][0] == '/');
            }
            if c@ == seq!['.'] {
                assert(seq!['.'][0] == '.');
            }
            if c@ == seq!['.', '.'] {
                assert(seq!['.', '.'][0] == '.' && seq!['.', '.'][1] == '.');
            }
        }
        4
    }
}

/// Whether the component sequence `a` comes before `b`.
fn comps_lt_exec(a: &Vec<Vec<char>>, b: &Vec<Vec<char>>) -> (r: bool)
    ensures
        r == comps_lt(views(a@), views(b@)),
{
    let ghost av = views(a@);
    let ghost bv = views(b@);
    assert(av.len() == a@.len() && bv.len() == b@.len());
    let mut i: usize = 0;
    assert(av.skip(0) =~= av && bv.skip(0) =~= bv);
    loop
        invariant
            i <= a@.len(),
            i <= b@.len(),
            av == views(a@),
            bv == views(b@),
            av.len() == a@.len(),
            bv.len() == b@.len(),
            comps_lt(av, bv) == comps_lt(av.skip(i as int), bv.skip(i as int)),
        decreases a@.len() - i,
    {
        let ghost sa = av.skip(i as int);
        let ghost sb = bv.skip(i as int);
        if i == a.len() {
            return i < b.len();
        }
        if i == b.len() {
            return false;
        }
        assert(sa[0] == a@[i as int]@ && sb[0] == b@[i as int]@);
        let ra = comp_rank_exec(&a[i]);
        let rb = comp_rank_exec(&b[i]);
        if ra < rb || (ra == 4 && rb == 4 && chars_lt_exec(&a[i], &b[i])) {
            return true;
        }
        if !chars_eq(&a[i], &b[i]) {
            return false;
        }
        assert(sa.drop_first() =~= av.skip(i + 1));
        assert(sb.drop_first() =~= bv.skip(i + 1));
        i = i + 1;
    }
}

/// Whether path `a` is sorted before path `b`.
pub fn path_before_exec(a: &String, b: &String) -> (r: bool)
    ensures
        r == path_before(a@, b@),
{
    let ca = components_of(a.as_str());
    let cb = components_of(b.as_str());
    if comps_lt_exec(&ca, &cb) {
        return true;
    }
    if comps_lt_exec(&cb, &ca) {
        proof {
            lemma_comps_lt_order(components(b@), components(a@), components(a@));
        }
        return false;
    }
    proof {
        lemma_comps_lt_order(components(a@), components(b@), components(b@));
    }
    let ac = chars_of(a.as_str());
    let bc = chars_of(b.as_str());
    chars_lt_exec(&ac, &bc)
}


/// Whether the paths are in strictly increasing order.
pub open spec fn sorted_paths(s: Seq<Seq<char>>) -> bool {
    forall|i: int, j: int| 0 <= i < j < s.len() ==> path_before(#[trigger] s[i], #[trigger] s[j])
}

/// Where `x` goes in the sorted `v`: the first place whose path is not
/// before `x`.
fn insertion_point(v: &Vec<String>, x: &String) -> (i: usize)
    requires
        sorted_paths(strs(v@)),
    ensures
        i <= v@.len(),
        forall|k: int| 0 <= k < i ==> path_before(#[trigger] strs(v@)[k], x@),
        i < v@.len() ==> !path_before(strs(v@)[i as int], x@),
{
    let n = v.len();
    let mut i: usize = 0;
    while i < n
        invariant
            n == v@.len(),
            i <= n,
            forall|k: int| 0 <= k < i ==> path_before(#[trigger] strs(v@)[k], x@),
        decreases n - i,
    {
        if !path_before_exec(&v[i], x) {
            return i;
        }
        i = i + 1;
    }
    i
}

/// The paths of `v`, each once, in increasing order.
pub fn sort_paths(v: &Vec<String>) -> (r: Vec<String>)
    ensures
        sorted_paths(strs(r@)),
        forall|x: Seq<char>| #[trigger] strs(r@).contains(x) <==> strs(v@).contains(x),
{
    let mut r: Vec<String> = Vec::new();
    let n = v.len();
    for k in 0..n
        invariant
            n == v@.len(),
            sorted_paths(strs(r@)),
            forall|x: Seq<char>|
                #[trigger] strs(r@).contains(x) <==> strs(v@.take(k as int)).contains(x),
    {
        let x = v[k].clone();
        let ghost old_r = strs(r@);
        assert(strs(v@.take(k + 1)) =~= strs(v@.take(k as int)).push(x@));
        proof {
            lemma_push_contains(strs(v@.take(k as int)), x@);
        }
        let i = insertion_point(&r, &x);
        if i < r.len() && r[i] == x {
            proof {
                assert forall|y: Seq<char>|
                    #[trigger] strs(r@).contains(y) <==> strs(v@.take(k + 1)).contains(y) by {
                    if y == x@ {
                        assert(strs(r@)[i as int] == y);
                    }
                }
            }
        } else {
            r.insert(i, x.clone());
            proof {
                let s = strs(r@);
                assert(s =~= old_r.insert(i as int, x@));
                if i < old_r.len() {
                    lemma_path_before_order(x@, old_r[i as int], x@);
                    lemma_path_before_order(old_r[i as int], x@, x@);
                    assert(path_before(x@, old_r[i as int]));
                }
                assert forall|a: int, b: int| 0 <= a < b < s.len() implies path_before(
                    #[trigger] s[a],
                    #[trigger] s[b],
                ) by {
                    if b == i {
                        assert(s[a] == old_r[a]);
                    } else if a == i {
                        assert(s[b] == old_r[b - 1]);
                        if b - 1 > i {
                            assert(path_before(old_r[i as int], old_r[b - 1]));
                            lemma_path_before_order(x@, old_r[i as int], old_r[b - 1]);
                        }
                    } else if a < i {
                        if b < i {
                            assert(s[a] == old_r[a] && s[b] == old_r[b]);
                        } else {
                            assert(s[a] == old_r[a] && s[b] == old_r[b - 1]);
                            assert(path_before(old_r[a], old_r[b - 1]));
                        }
                    } else {
                        assert(s[a] == old_r[a - 1] && s[b] == old_r[b - 1]);
                        assert(path_before(old_r[a - 1], old_r[b - 1]));
                    }
                }
                assert forall|y: Seq<char>|
                    #[trigger] s.contains(y) <==> strs(v@.take(k + 1)).contains(y) by {
                    if y == x@ {
                        assert(s[i as int] == y);
                    }
                    if s.contains(y) && y != x@ {
                        let j = choose|j: int| 0 <= j < s.len() && s[j] == y;
                        if j < i {
                            assert(old_r[j] == y);
                        } else if j > i {
                            assert(old_r[j - 1] == y);
                        }
                    }
                    if old_r.contains(y) {
                        let j = choose|j: int| 0 <= j < old_r.len() && old_r[j] == y;
                        if j < i {
                            assert(s[j] == y);
                        } else {
                            assert(s[j + 1] == y);
                        }
                    }
                }
            }
        }
    }
    assert(v@.take(n as int) =~= v@);
    r
}

/// Whether two paths are the same path, as `Path`'s `==` decides it: they
/// have the same components.
pub open spec fn same_path(a: Seq<char>, b: Seq<char>) -> bool {
    components(a) == components(b)
}

/// Whether the list holds the same path as `p`.
pub open spec fn lists_path(v: Seq<Seq<char>>, p: Seq<char>) -> bool {
    exists|i: int| 0 <= i < v.len() && #[trigger] same_path(v[i], p)
}

/// Whether two component lists are equal.
fn same_components(a: &Vec<Vec<char>>, b: &Vec<Vec<char>>) -> (r: bool)
    ensures
        r == (views(a@) == views(b@)),
{
    let ghost av = views(a@);
    let ghost bv = views(b@);
    assert(av.len() == a@.len() && bv.len() == b@.len());
    if a.len() != b.len() {
        return false;
    }
    let n = a.len();
    for i in 0..n
        invariant
            n == a@.len(),
            n == b@.len(),
            av == views(a@),
            bv == views(b@),
            forall|j: int| 0 <= j < i ==> av[j] == bv[j],
    {
        assert(av[i as int] == a@[i as int]@ && bv[i as int] == b@[i as int]@);
        if !chars_eq(&a[i], &b[i]) {
            return false;
        }
    }
    assert(av =~= bv);
    true
}

/// Whether the two paths are the same path (`same_path`).
pub fn same_path_exec(a: &str, b: &str) -> (r: bool)
    ensures
        r == same_path(a@, b@),
{
    let ca = components_of(a);
    let cb = components_of(b);
    same_components(&ca, &cb)
}

/// Whether the list holds the same path as `p` (`lists_path`).
pub fn lists_path_exec(v: &Vec<String>, p: &str) -> (r: bool)
    ensures
        r == lists_path(strs(v@), p@),
{
    let n = v.len();
    for i in 0..n
        invariant
            n == v@.len(),
            forall|j: int| 0 <= j < i ==> !same_path(#[trigger] strs(v@)[j], p@),
    {
        assert(strs(v@)[i as int] == v@[i as int]@);
        if same_path_exec(v[i].as_str(), p) {
            assert(same_path(strs(v@)[i as int], p@));
            return true;
        }
    }
    false
}

/// The path rebuilt from its components: one text for all the ways of
/// writing the same path (`a//b`, `a/./b` and `a/b` all give `a/b`).
pub open spec fn normalized(p: Seq<char>) -> Seq<char> {
    render(components(p))
}

/// The path rebuilt from its components (`normalized`).
pub fn normalize_path(p: &str) -> (r: String)
    ensures
        r@ == normalized(p@),
{
    let cs = components_of(p);
    let ghost cv = views(cs@);
    assert(cv.len() == cs@.len());
    let r = render_range(&cs, 0, cs.len());
    assert(cv.subrange(0, cs@.len() as int) =~= cv);
    r
}

/// Each path rebuilt from its components, in order.
pub fn normalize_paths(v: &Vec<String>) -> (r: Vec<String>)
    ensures
        strs(r@) == strs(v@).map_values(|p: Seq<char>| normalized(p)),
{
    let mut r: Vec<String> = Vec::new();
    let ghost sv = strs(v@);
    let n = v.len();
    for i in 0..n
        invariant
            n == v@.len(),
            sv == strs(v@),
            strs(r@) == sv.take(i as int).map_values(|p: Seq<char>| normalized(p)),
    {
        let ghost before = strs(r@);
        let q = normalize_path(v[i].as_str());
        r.push(q);
        assert(strs(r@) =~= before.push(q@));
        assert(sv.take(i + 1) =~= sv.take(i as int).push(sv[i as int]));
        assert(strs(r@) =~= sv.take(i + 1).map_values(|p: Seq<char>| normalized(p)));
    }
    assert(sv.take(n as int) =~= sv);
    r
}

} // verus!
