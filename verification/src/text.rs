//! Character-level text helpers: line splitting as `str::lines` does it,
//! indentation of every line, joining, trimming and searching.
use vstd::prelude::*;

verus! {

/// `String::push` appends one character: the contract claims that the new
/// contents are the old contents followed by `ch`.
pub assume_specification[ String::push ](s: &mut String, ch: char)
    ensures
        final(s)@ == old(s)@.push(ch),
;

/// A line as `str::lines` hands it out: a `\r` that stood just before the
/// terminating `\n` is removed.
pub open spec fn strip_cr(line: Seq<char>) -> Seq<char> {
    if line.len() > 0 && line.last() == '\r' {
        line.drop_last()
    } else {
        line
    }
}

/// The state of splitting `s` into lines: the lines finished by a `\n`, and
/// the characters read since the last `\n`.
pub open spec fn line_split(s: Seq<char>) -> (Seq<Seq<char>>, Seq<char>)
    decreases s.len(),
{
    if s.len() == 0 {
        (seq![], seq![])
    } else {
        let (done, cur) = line_split(s.drop_last());
        if s.last() == '\n' {
            (done.push(strip_cr(cur)), seq![])
        } else {
            (done, cur.push(s.last()))
        }
    }
}

/// The lines of `s`, as `str::lines` yields them: split at each `\n`, a `\r`
/// before the `\n` dropped, and no empty line after a final `\n`.
pub open spec fn lines(s: Seq<char>) -> Seq<Seq<char>> {
    let (done, cur) = line_split(s);
    if cur.len() > 0 {
        done.push(cur)
    } else {
        done
    }
}

/// The parts, with `sep` between each two of them.
pub open spec fn join(parts: Seq<Seq<char>>, sep: Seq<char>) -> Seq<char>
    decreases parts.len(),
{
    if parts.len() == 0 {
        seq![]
    } else if parts.len() == 1 {
        parts[0]
    } else {
        join(parts.drop_last(), sep) + sep + parts.last()
    }
}

/// Each part with `prefix` in front of it.
pub open spec fn prefixed(parts: Seq<Seq<char>>, prefix: Seq<char>) -> Seq<Seq<char>> {
    parts.map_values(|p: Seq<char>| prefix + p)
}

/// The lines of `text`, each with `prefix` in front, joined by `\n`.
pub open spec fn indent_lines(text: Seq<char>, prefix: Seq<char>) -> Seq<char> {
    join(prefixed(lines(text), prefix), seq!['\n'])
}

/// Appending one more part to a join adds the separator and the part.
pub proof fn lemma_join_push(parts: Seq<Seq<char>>, sep: Seq<char>, x: Seq<char>)
    ensures
        join(parts.push(x), sep) == (if parts.len() == 0 {
            x
        } else {
            join(parts, sep) + sep + x
        }),
{
    assert(parts.push(x).drop_last() =~= parts);
    if parts.len() == 0 {
        assert(parts.push(x)[0] == x);
    }
}

/// Prefixing commutes with appending a part.
pub proof fn lemma_prefixed_push(parts: Seq<Seq<char>>, prefix: Seq<char>, x: Seq<char>)
    ensures
        prefixed(parts.push(x), prefix) == prefixed(parts, prefix).push(prefix + x),
{
    assert(prefixed(parts.push(x), prefix) =~= prefixed(parts, prefix).push(prefix + x));
}

/// The characters of `s`, in order.
pub fn chars_of(s: &str) -> (v: Vec<char>)
    ensures
        v@ == s@,
{
    let mut v: Vec<char> = Vec::new();
    for c in it: s.chars()
        invariant
            v@ == it.seq().take(it.index() as int),
    {
        v.push(c);
    }
    v
}

/// Appends the characters of `cs` to `out`.
pub fn push_chars(out: &mut String, cs: &Vec<char>)
    ensures
        final(out)@ == old(out)@ + cs@,
{
    let ghost start = out@;
    let n = cs.len();
    for i in 0..n
        invariant
            n == cs@.len(),
            out@ == start + cs@.take(i as int),
    {
        out.push(cs[i]);
        assert(cs@.take(i + 1) =~= cs@.take(i as int).push(cs@[i as int]));
    }
    assert(cs@.take(n as int) =~= cs@);
}

/// Appends `s` to `out`.
pub fn push_str(out: &mut String, s: &str)
    ensures
        final(out)@ == old(out)@ + s@,
{
    let cs = chars_of(s);
    push_chars(out, &cs);
}

/// A new string holding the characters of `cs`.
pub fn string_of(cs: &Vec<char>) -> (s: String)
    ensures
        s@ == cs@,
{
    let mut s = String::new();
    push_chars(&mut s, cs);
    assert(s@ =~= cs@);
    s
}

/// Appends `prefix + line` to `out`, after a `\n` when a line was appended before.
fn push_one_line(out: &mut String, first: bool, prefix: &Vec<char>, line: &Vec<char>)
    ensures
        final(out)@ == old(out)@ + (if first {
            seq![]
        } else {
            seq!['\n']
        }) + prefix@ + line@,
{
    let ghost start = out@;
    if !first {
        out.push('\n');
    }
    push_chars(out, prefix);
    push_chars(out, line);
    assert(out@ =~= start + (if first {
        seq![]
    } else {
        seq!['\n']
    }) + prefix@ + line@);
}

/// Appends the lines of `text`, each with `prefix` in front, joined by `\n`.
pub fn push_indented_lines(out: &mut String, text: &str, prefix: &str)
    ensures
        final(out)@ == old(out)@ + indent_lines(text@, prefix@),
{
    let ghost start = out@;
    let pre = chars_of(prefix);
    let mut cur: Vec<char> = Vec::new();
    let mut first = true;
    for c in it: text.chars()
        invariant
            it.seq() == text@,
            pre@ == prefix@,
            cur@ == line_split(text@.take(it.index() as int)).1,
            first == (line_split(text@.take(it.index() as int)).0.len() == 0),
            out@ == start + join(
                prefixed(line_split(text@.take(it.index() as int)).0, prefix@),
                seq!['\n'],
            ),
    {
        let ghost i = it.index() as int;
        let ghost done = line_split(text@.take(i)).0;
        assert(text@.take(i + 1).drop_last() =~= text@.take(i));
        assert(text@.take(i + 1).last() == c);
        if c == '\n' {
            if cur.len() > 0 && cur[cur.len() - 1] == '\r' {
                cur.pop();
            }
            proof {
                lemma_prefixed_push(done, prefix@, cur@);
                lemma_join_push(prefixed(done, prefix@), seq!['\n'], prefix@ + cur@);
            }
            push_one_line(out, first, &pre, &cur);
            assert(out@ =~= start + join(prefixed(done.push(cur@), prefix@), seq!['\n']));
            first = false;
            cur = Vec::new();
        } else {
            cur.push(c);
        }
    }
    assert(text@.take(text@.len() as int) =~= text@);
    if cur.len() > 0 {
        let ghost done = line_split(text@).0;
        proof {
            lemma_prefixed_push(done, prefix@, cur@);
            lemma_join_push(prefixed(done, prefix@), seq!['\n'], prefix@ + cur@);
        }
        push_one_line(out, first, &pre, &cur);
        assert(out@ =~= start + join(prefixed(done.push(cur@), prefix@), seq!['\n']));
    }
}

/// Whether `pat` occurs in `s` at position `i`.
pub open spec fn occurs_at(s: Seq<char>, pat: Seq<char>, i: int) -> bool {
    0 <= i && i + pat.len() <= s.len() && s.subrange(i, i + pat.len()) == pat
}

/// Whether `pat` occurs somewhere in `s` (`str::contains`).
pub open spec fn has_substring(s: Seq<char>, pat: Seq<char>) -> bool {
    exists|i: int| occurs_at(s, pat, i)
}

/// Whether `pat` occurs in `s` at position `i`.
fn occurs_at_exec(s: &Vec<char>, pat: &Vec<char>, i: usize) -> (r: bool)
    requires
        i <= s@.len(),
    ensures
        r == occurs_at(s@, pat@, i as int),
{
    if pat.len() > s.len() - i {
        return false;
    }
    let n = pat.len();
    for k in 0..n
        invariant
            n == pat@.len(),
            i + n <= s.len(),
            forall|j: int| 0 <= j < k ==> s@[i + j] == pat@[j],
    {
        if s[i + k] != pat[k] {
            assert(s@.subrange(i as int, i + n)[k as int] != pat@[k as int]);
            return false;
        }
    }
    assert(s@.subrange(i as int, i + n) =~= pat@);
    true
}

/// Whether `pat` occurs somewhere in `s` (`str::contains`).
pub fn contains_substring(s: &str, pat: &str) -> (r: bool)
    ensures
        r == has_substring(s@, pat@),
{
    let sc = chars_of(s);
    let pc = chars_of(pat);
    let n = sc.len();
    for i in 0..n
        invariant
            n == sc@.len(),
            sc@ == s@,
            pc@ == pat@,
            forall|j: int| 0 <= j < i ==> !occurs_at(s@, pat@, j),
    {
        if occurs_at_exec(&sc, &pc, i) {
            return true;
        }
    }
    if occurs_at_exec(&sc, &pc, n) {
        return true;
    }
    assert forall|j: int| !occurs_at(s@, pat@, j) by {
        if 0 <= j && j <= n {
            assert(!occurs_at(s@, pat@, j));
        }
    }
    false
}

/// Whether `s` ends with `pat`.
pub open spec fn ends_with(s: Seq<char>, pat: Seq<char>) -> bool {
    pat.len() <= s.len() && s.skip(s.len() - pat.len()) == pat
}

/// Whether `s` starts with `pat`.
pub open spec fn starts_with(s: Seq<char>, pat: Seq<char>) -> bool {
    pat.len() <= s.len() && s.take(pat.len() as int) == pat
}

/// Whether `s` starts with `pat`.
pub fn starts_with_chars(s: &Vec<char>, pat: &Vec<char>) -> (r: bool)
    ensures
        r == starts_with(s@, pat@),
{
    if pat.len() > s.len() {
        return false;
    }
    let n = pat.len();
    for i in 0..n
        invariant
            n == pat@.len(),
            n <= s@.len(),
            forall|j: int| 0 <= j < i ==> s@[j] == pat@[j],
    {
        if s[i] != pat[i] {
            assert(s@.take(n as int)[i as int] != pat@[i as int]);
            return false;
        }
    }
    assert(s@.take(n as int) =~= pat@);
    true
}

/// The characters of `cs` from index `from` on.
pub fn chars_from(cs: &Vec<char>, from: usize) -> (r: Vec<char>)
    requires
        from <= cs@.len(),
    ensures
        r@ == cs@.skip(from as int),
{
    let mut r: Vec<char> = Vec::new();
    let n = cs.len();
    let mut i = from;
    while i < n
        invariant
            from <= i <= n == cs@.len(),
            r@ == cs@.subrange(from as int, i as int),
        decreases n - i,
    {
        r.push(cs[i]);
        assert(cs@.subrange(from as int, i + 1) =~= cs@.subrange(from as int, i as int).push(
            cs@[i as int],
        ));
        i = i + 1;
    }
    assert(cs@.subrange(from as int, n as int) =~= cs@.skip(from as int));
    r
}

/// Whether `cs` holds `c`.
pub fn has_char(cs: &Vec<char>, c: char) -> (r: bool)
    ensures
        r == cs@.contains(c),
{
    let n = cs.len();
    for i in 0..n
        invariant
            n == cs@.len(),
            forall|j: int| 0 <= j < i ==> cs@[j] != c,
    {
        if cs[i] == c {
            assert(cs@[i as int] == c);
            return true;
        }
    }
    false
}

/// `s` with every trailing repetition of `pat` removed (`str::trim_end_matches`).
pub open spec fn trim_suffix(s: Seq<char>, pat: Seq<char>) -> Seq<char>
    decreases s.len(),
{
    if pat.len() > 0 && ends_with(s, pat) {
        trim_suffix(s.take(s.len() - pat.len()), pat)
    } else {
        s
    }
}

/// `s` with every leading and trailing `c` removed (`str::trim_matches` with a character).
pub open spec fn trim_char(s: Seq<char>, c: char) -> Seq<char>
    decreases s.len(),
{
    if s.len() > 0 && s[0] == c {
        trim_char(s.drop_first(), c)
    } else if s.len() > 0 && s.last() == c {
        trim_char(s.drop_last(), c)
    } else {
        s
    }
}

/// Whether `s` ends with `pat`.
pub fn ends_with_chars(s: &Vec<char>, len: usize, pat: &Vec<char>) -> (r: bool)
    requires
        len <= s@.len(),
    ensures
        r == ends_with(s@.take(len as int), pat@),
{
    if pat.len() > len {
        return false;
    }
    let off = len - pat.len();
    let n = pat.len();
    for k in 0..n
        invariant
            n == pat@.len(),
            off + n == len <= s@.len(),
            forall|j: int| 0 <= j < k ==> s@[off + j] == pat@[j],
    {
        if s[off + k] != pat[k] {
            assert(s@.take(len as int).skip(off as int)[k as int] == s@[off + k]);
            return false;
        }
    }
    assert(s@.take(len as int).skip(off as int) =~= pat@);
    true
}

/// `s` with every trailing repetition of `pat` removed (`str::trim_end_matches`).
pub fn trim_end_matches(s: &str, pat: &str) -> (r: String)
    ensures
        r@ == trim_suffix(s@, pat@),
{
    let sc = chars_of(s);
    let pc = chars_of(pat);
    let mut len = sc.len();
    assert(sc@.take(len as int) =~= sc@);
    while pc.len() > 0 && ends_with_chars(&sc, len, &pc)
        invariant
            len <= sc@.len(),
            sc@ == s@,
            pc@ == pat@,
            trim_suffix(s@, pat@) == trim_suffix(sc@.take(len as int), pat@),
        decreases len,
    {
        assert(sc@.take(len as int).take(len - pc@.len()) =~= sc@.take(len - pc@.len()));
        len = len - pc.len();
    }
    let mut out: Vec<char> = Vec::new();
    for i in 0..len
        invariant
            len <= sc@.len(),
            out@ == sc@.take(i as int),
    {
        out.push(sc[i]);
        assert(sc@.take(i + 1) =~= sc@.take(i as int).push(sc@[i as int]));
    }
    string_of(&out)
}

/// `s` with every leading and trailing `c` removed (`str::trim_matches` with a character).
pub fn trim_matches_char(s: &str, c: char) -> (r: String)
    ensures
        r@ == trim_char(s@, c),
{
    let sc = chars_of(s);
    let mut lo: usize = 0;
    let mut hi: usize = sc.len();
    assert(sc@.subrange(0, hi as int) =~= sc@);
    while lo < hi && sc[lo] == c
        invariant
            lo <= hi == sc@.len(),
            sc@ == s@,
            trim_char(s@, c) == trim_char(sc@.subrange(lo as int, hi as int), c),
        decreases hi - lo,
    {
        assert(sc@.subrange(lo as int, hi as int).drop_first() =~= sc@.subrange(lo + 1, hi as int));
        lo = lo + 1;
    }
    while lo < hi && sc[hi - 1] == c
        invariant
            lo <= hi <= sc@.len(),
            sc@ == s@,
            trim_char(s@, c) == trim_char(sc@.subrange(lo as int, hi as int), c),
            lo < hi ==> sc@[lo as int] != c,
        decreases hi - lo,
    {
        let ghost sub = sc@.subrange(lo as int, hi as int);
        assert(sub.drop_last() =~= sc@.subrange(lo as int, hi - 1));
        assert(sub[0] == sc@[lo as int]);
        hi = hi - 1;
    }
    let ghost sub = sc@.subrange(lo as int, hi as int);
    if lo < hi {
        assert(sub[0] == sc@[lo as int] && sub.last() == sc@[hi - 1]);
    }
    let mut out: Vec<char> = Vec::new();
    let mut i = lo;
    while i < hi
        invariant
            lo <= i <= hi <= sc@.len(),
            out@ == sc@.subrange(lo as int, i as int),
        decreases hi - i,
    {
        out.push(sc[i]);
        assert(out@ =~= sc@.subrange(lo as int, i + 1));
        i = i + 1;
    }
    string_of(&out)
}

/// The views of a vector of strings.
pub open spec fn strs(v: Seq<String>) -> Seq<Seq<char>> {
    v.map_values(|s: String| s@)
}

/// The lines of `text`, as `str::lines` yields them.
pub fn lines_of(text: &str) -> (r: Vec<String>)
    ensures
        strs(r@) == lines(text@),
{
    let mut out: Vec<String> = Vec::new();
    let mut cur: Vec<char> = Vec::new();
    for c in it: text.chars()
        invariant
            it.seq() == text@,
            cur@ == line_split(text@.take(it.index() as int)).1,
            strs(out@) == line_split(text@.take(it.index() as int)).0,
    {
        let ghost i = it.index() as int;
        assert(text@.take(i + 1).drop_last() =~= text@.take(i));
        assert(text@.take(i + 1).last() == c);
        if c == '\n' {
            if cur.len() > 0 && cur[cur.len() - 1] == '\r' {
                cur.pop();
            }
            let ghost before = strs(out@);
            out.push(string_of(&cur));
            assert(strs(out@) =~= before.push(cur@));
            cur = Vec::new();
        } else {
            cur.push(c);
        }
    }
    assert(text@.take(text@.len() as int) =~= text@);
    if cur.len() > 0 {
        let ghost before = strs(out@);
        out.push(string_of(&cur));
        assert(strs(out@) =~= before.push(cur@));
    }
    out
}

/// `char::is_whitespace`: the characters with the Unicode White_Space property.
pub open spec fn is_space(c: char) -> bool {
    ||| c == '\t'
    ||| c == '\n'
    ||| c == '\x0B'
    ||| c == '\x0C'
    ||| c == '\r'
    ||| c == ' '
    ||| c == '\u{85}'
    ||| c == '\u{A0}'
    ||| c == '\u{1680}'
    ||| ('\u{2000}' <= c && c <= '\u{200A}')
    ||| c == '\u{2028}'
    ||| c == '\u{2029}'
    ||| c == '\u{202F}'
    ||| c == '\u{205F}'
    ||| c == '\u{3000}'
}

/// `char::is_whitespace`.
pub fn is_space_char(c: char) -> (r: bool)
    ensures
        r == is_space(c),
{
    c == '\t' || c == '\n' || c == '\x0B' || c == '\x0C' || c == '\r' || c == ' ' || c == '\u{85}'
        || c == '\u{A0}' || c == '\u{1680}' || ('\u{2000}' <= c && c <= '\u{200A}') || c
        == '\u{2028}' || c == '\u{2029}' || c == '\u{202F}' || c == '\u{205F}' || c == '\u{3000}'
}

/// Whether `s` holds only whitespace (`s.trim().is_empty()`).
pub open spec fn is_blank(s: Seq<char>) -> bool {
    forall|i: int| 0 <= i < s.len() ==> is_space(#[trigger] s[i])
}

/// Whether `s` holds only whitespace (`s.trim().is_empty()`).
pub fn is_blank_str(s: &str) -> (r: bool)
    ensures
        r == is_blank(s@),
{
    for c in it: s.chars()
        invariant
            it.seq() == s@,
            forall|i: int| 0 <= i < it.index() ==> is_space(#[trigger] s@[i]),
    {
        if !is_space_char(c) {
            assert(s@[it.index() as int] == c);
            return false;
        }
    }
    true
}

/// Whether the line is a comment: it starts with `#`.
pub open spec fn is_comment(line: Seq<char>) -> bool {
    line.len() > 0 && line[0] == '#'
}

/// Whether the line is a comment: it starts with `#`.
pub fn is_comment_str(line: &str) -> (r: bool)
    ensures
        r == is_comment(line@),
{
    let c = chars_of(line);
    c.len() > 0 && c[0] == '#'
}

/// Splitting `s + b`, where `s` ends a line, splits `b` after the lines of `s`.
pub proof fn lemma_line_split_append(s: Seq<char>, b: Seq<char>)
    requires
        line_split(s).1.len() == 0,
    ensures
        line_split(s + b) == (line_split(s).0 + line_split(b).0, line_split(b).1),
    decreases b.len(),
{
    if b.len() == 0 {
        assert(s + b =~= s);
        assert(line_split(s).0 + line_split(b).0 =~= line_split(s).0);
        assert(line_split(s).1 =~= line_split(b).1);
    } else {
        lemma_line_split_append(s, b.drop_last());
        assert((s + b).drop_last() =~= s + b.drop_last());
        assert((s + b).last() == b.last());
        let (d0, c0) = line_split(b.drop_last());
        if b.last() == '\n' {
            assert((line_split(s).0 + d0).push(strip_cr(c0)) =~= line_split(s).0 + d0.push(
                strip_cr(c0),
            ));
        }
    }
}

/// The lines of `a`, a line break, then `b`: those of `a`, those of `b`, and
/// at most an empty one more, when `a` does not end with `\r`.
pub proof fn lemma_lines_join(a: Seq<char>, b: Seq<char>)
    requires
        !(a.len() > 0 && a.last() == '\r'),
    ensures
        forall|l: Seq<char>|
            #[trigger] lines(a + seq!['\n'] + b).contains(l) ==> l.len() == 0 || lines(a).contains(l)
                || lines(b).contains(l),
        forall|l: Seq<char>|
            lines(a).contains(l) || lines(b).contains(l) ==> #[trigger] lines(
                a + seq!['\n'] + b,
            ).contains(l),
        lines(a + seq!['\n'] + b) == line_split(a).0.push(line_split(a).1) + lines(b),
{
    let s = a + seq!['\n'];
    let (da, ca) = line_split(a);
    assert(s.drop_last() =~= a);
    assert(ca.len() > 0 ==> ca.last() == a.last()) by {
        if a.len() > 0 {
            assert(a.drop_last().push(a.last()) =~= a);
        }
    }
    assert(strip_cr(ca) == ca);
    assert(line_split(s) == (da.push(ca), Seq::<char>::empty()));
    lemma_line_split_append(s, b);
    assert(a + seq!['\n'] + b =~= s + b);
    let (db, cb) = line_split(b);
    if cb.len() > 0 {
        assert((da.push(ca) + db).push(cb) =~= da.push(ca) + db.push(cb));
    }
    let whole = lines(s + b);
    let la = lines(a);
    let lb = lines(b);
    assert forall|l: Seq<char>| #[trigger] whole.contains(l) implies l.len() == 0 || la.contains(l)
        || lb.contains(l) by {
        let k = choose|k: int| 0 <= k < whole.len() && whole[k] == l;
        if k < da.len() {
            assert(la[k] == l);
        } else if k == da.len() {
            if ca.len() > 0 {
                assert(la[k] == l);
            }
        } else if k < da.len() + 1 + db.len() {
            assert(lb[k - da.len() - 1] == l);
        } else {
            assert(lb[db.len() as int] == l);
        }
    }
    assert forall|l: Seq<char>| la.contains(l) || lb.contains(l) implies #[trigger] whole.contains(l) by {
        if la.contains(l) {
            let k = choose|k: int| 0 <= k < la.len() && la[k] == l;
            assert(whole[k] == l);
        } else {
            let k = choose|k: int| 0 <= k < lb.len() && lb[k] == l;
            assert(whole[da.len() + 1 + k] == l);
        }
    }
}

/// Whether the line holds neither `\n` nor `\r`.
pub open spec fn clean_line(l: Seq<char>) -> bool {
    !l.contains('\n') && !l.contains('\r')
}

/// Every line of a text without `\r` is clean.
pub proof fn lemma_lines_clean(s: Seq<char>)
    requires
        !s.contains('\r'),
    ensures
        forall|i: int| 0 <= i < lines(s).len() ==> clean_line(#[trigger] lines(s)[i]),
        forall|i: int| 0 <= i < line_split(s).0.len() ==> clean_line(#[trigger] line_split(s).0[i]),
        clean_line(line_split(s).1),
    decreases s.len(),
{
    if s.len() > 0 {
        let t = s.drop_last();
        assert(!t.contains('\r')) by {
            if t.contains('\r') {
                let k = choose|k: int| 0 <= k < t.len() && t[k] == '\r';
                assert(s[k] == '\r');
            }
        }
        lemma_lines_clean(t);
        let (d, c) = line_split(t);
        let x = s.last();
        assert(x != '\r') by {
            assert(s[s.len() - 1] == x);
        }
        if x == '\n' {
            assert(strip_cr(c) == c);
            assert forall|i: int| 0 <= i < d.push(c).len() implies clean_line(#[trigger] d.push(c)[i]) by {
                if i < d.len() {
                    assert(d.push(c)[i] == d[i]);
                }
            }
        } else {
            assert(clean_line(c.push(x))) by {
                if c.push(x).contains('\n') || c.push(x).contains('\r') {
                    let k = choose|k: int| 0 <= k < c.push(x).len() && (c.push(x)[k] == '\n' || c.push(x)[k] == '\r');
                    if k < c.len() {
                        assert(c[k] == c.push(x)[k]);
                    }
                }
            }
        }
    }
    let (d, c) = line_split(s);
    assert forall|i: int| 0 <= i < lines(s).len() implies clean_line(#[trigger] lines(s)[i]) by {
        if i < d.len() {
            assert(lines(s)[i] == d[i]);
        }
    }
}

/// Whether the text can stand as one line: it holds no `\n` and does not end
/// with `\r`.
pub open spec fn one_line(h: Seq<char>) -> bool {
    !h.contains('\n') && !(h.len() > 0 && h.last() == '\r')
}

/// A text without `\n` is read so far as one unfinished line.
pub proof fn lemma_line_split_no_break(h: Seq<char>)
    requires
        !h.contains('\n'),
    ensures
        line_split(h) == (Seq::<Seq<char>>::empty(), h),
    decreases h.len(),
{
    if h.len() == 0 {
        assert(h =~= Seq::<char>::empty());
    } else {
        let t = h.drop_last();
        assert(!t.contains('\n')) by {
            if t.contains('\n') {
                let k = choose|k: int| 0 <= k < t.len() && t[k] == '\n';
                assert(h[k] == t[k]);
            }
        }
        lemma_line_split_no_break(t);
        assert(h.last() != '\n') by {
            assert(h[h.len() - 1] == h.last());
        }
        assert(t.push(h.last()) =~= h);
    }
}

/// One line followed by a line break is that line.
pub proof fn lemma_line_split_single(h: Seq<char>)
    requires
        one_line(h),
    ensures
        line_split(h + seq!['\n']) == (seq![h], Seq::<char>::empty()),
{
    lemma_line_split_no_break(h);
    let hn = h + seq!['\n'];
    assert(hn.drop_last() =~= h);
    assert(hn.last() == '\n');
    assert(Seq::<Seq<char>>::empty().push(h) =~= seq![h]);
}

/// Lines joined by line breaks, with a line break after the last, are those
/// lines.
pub proof fn lemma_line_split_joined(ps: Seq<Seq<char>>)
    requires
        ps.len() >= 1,
        forall|i: int| 0 <= i < ps.len() ==> one_line(#[trigger] ps[i]),
    ensures
        line_split(join(ps, seq!['\n']) + seq!['\n']) == (ps, Seq::<char>::empty()),
        lines(join(ps, seq!['\n']) + seq!['\n']) == ps,
    decreases ps.len(),
{
    let nl = seq!['\n'];
    if ps.len() == 1 {
        assert(ps[0] == ps.last());
        lemma_line_split_single(ps[0]);
        assert(seq![ps[0]] =~= ps);
    } else {
        let d = ps.drop_last();
        assert forall|i: int| 0 <= i < d.len() implies one_line(#[trigger] d[i]) by {
            assert(d[i] == ps[i]);
        }
        lemma_line_split_joined(d);
        let x = ps.last();
        assert(one_line(x)) by {
            assert(ps[ps.len() - 1] == x);
        }
        lemma_line_split_single(x);
        assert(join(ps, nl) + nl =~= (join(d, nl) + nl) + (x + nl));
        lemma_line_split_append(join(d, nl) + nl, x + nl);
        assert(d + seq![x] =~= ps);
    }
}

} // verus!
