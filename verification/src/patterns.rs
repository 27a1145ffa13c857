//! Ignore patterns in `.gitignore` format: each is turned into a regular
//! expression that matches from the start of a component of the path, so a
//! pattern also covers everything below a directory it names. As in a
//! `.gitignore` file, the last line that matches a path decides, and a line
//! that starts with `!` re-includes what it matches.
use vstd::prelude::*;
use crate::text::{
    chars_of, string_of, lines, lines_of, strs, is_blank, is_blank_str, is_comment, is_comment_str, is_space,
    lemma_lines_join, line_split, lemma_line_split_no_break,
};

verus! {

/// A compiled regular expression (`regex::Regex`).
#[verifier::external_type_specification]
#[verifier::external_body]
pub struct ExRegex(regex::Regex);

/// Whether `regex::Regex::new` accepts the pattern.
pub uninterp spec fn regex_compiles(pattern: Seq<char>) -> bool;

/// What `regex::Regex::is_match` answers for the pattern and the text.
pub uninterp spec fn regex_is_match(pattern: Seq<char>, text: Seq<char>) -> bool;

/// A regular expression together with the pattern it was compiled from.
pub struct CompiledPattern {
    source: String,
    regex: regex::Regex,
}

impl CompiledPattern {
    /// The pattern the expression was compiled from.
    pub closed spec fn source_view(&self) -> Seq<char> {
        self.source@
    }
}

/// Calls `regex::Regex::new`: the contract claims that it succeeds exactly on
/// the patterns that `regex_compiles` names, and keeps the pattern beside the
/// compiled expression.
#[verifier::external_body]
fn compile_pattern(pattern: &str) -> (r: Option<CompiledPattern>)
    ensures
        r is Some <==> regex_compiles(pattern@),
        r matches Some(c) ==> c.source_view() == pattern@,
{
    match regex::Regex::new(pattern) {
        Ok(regex) => Some(CompiledPattern { source: pattern.to_string(), regex }),
        Err(_) => None,
    }
}

/// Calls `regex::Regex::is_match` on the expression compiled from
/// `p.source`: the contract claims that the answer is what
/// `regex_is_match` names for that pattern and the text.
#[verifier::external_body]
fn pattern_is_match(p: &CompiledPattern, text: &str) -> (r: bool)
    ensures
        r == regex_is_match(p.source_view(), text@),
{
    p.regex.is_match(text)
}

/// Whether the character has a meaning of its own in a regular expression
/// (`regex_syntax::is_meta_character`).
pub open spec fn is_regex_meta(c: char) -> bool {
    c == '\\' || c == '.' || c == '+' || c == '*' || c == '?' || c == '(' || c == ')' || c == '|'
        || c == '[' || c == ']' || c == '{' || c == '}' || c == '^' || c == '$' || c == '#' || c
        == '&' || c == '-' || c == '~'
}

/// What one character of an ignore pattern becomes, and whether a `[...]`
/// class is open after it. Outside a class, `*` matches any run of characters
/// but `/`, `?` any one character but `/`, `[` opens a class, and any other
/// character stands for itself (escaped when the regular expression would
/// read it otherwise). Inside, `]` closes the class, `!` negates it, and
/// `\`, `[`, `&` and `~` stand for themselves.
pub open spec fn translate_char(c: char, in_bracket: bool) -> (Seq<char>, bool) {
    if in_bracket {
        if c == ']' {
            (seq![']'], false)
        } else if c == '!' {
            (seq!['^'], true)
        } else if c == '\\' || c == '[' || c == '&' || c == '~' {
            (seq!['\\', c], true)
        } else {
            (seq![c], true)
        }
    } else if c == '*' {
        (seq!['[', '^', '/', ']', '*'], false)
    } else if c == '?' {
        (seq!['[', '^', '/', ']'], false)
    } else if c == '[' {
        (seq!['['], true)
    } else if is_regex_meta(c) {
        (seq!['\\', c], false)
    } else {
        (seq![c], false)
    }
}

/// The translation of the rest `p` of a pattern, a class being open or not:
/// outside a class, `**/` matches any run of directories, none included, and
/// `**` any run of characters; every other character as `translate_char` says.
pub open spec fn translate_from(p: Seq<char>, in_bracket: bool) -> Seq<char>
    decreases p.len(),
{
    if p.len() == 0 {
        seq![]
    } else if !in_bracket && p.len() >= 3 && p[0] == '*' && p[1] == '*' && p[2] == '/' {
        seq!['(', '.', '*', '/', ')', '?'] + translate_from(p.skip(3), false)
    } else if !in_bracket && p.len() >= 2 && p[0] == '*' && p[1] == '*' {
        seq!['.', '*'] + translate_from(p.skip(2), false)
    } else {
        translate_char(p[0], in_bracket).0 + translate_from(
            p.drop_first(),
            translate_char(p[0], in_bracket).1,
        )
    }
}

/// The pattern without a leading `/`.
pub open spec fn unrooted(p: Seq<char>) -> Seq<char> {
    if p.len() > 0 && p[0] == '/' {
        p.drop_first()
    } else {
        p
    }
}

/// Whether the pattern names directories only: it ends with `/`.
pub open spec fn dir_only(p: Seq<char>) -> bool {
    unrooted(p).len() > 0 && unrooted(p).last() == '/'
}

/// The pattern without a leading `/` and without a trailing `/`.
pub open spec fn pattern_body(p: Seq<char>) -> Seq<char> {
    if dir_only(p) {
        unrooted(p).drop_last()
    } else {
        unrooted(p)
    }
}

/// `(^|/)`: the start of the path or of one of its components.
pub open spec fn component_start() -> Seq<char> {
    seq!['(', '^', '|', '/', ')']
}

/// `^(\./)?`: the start of the path, after a leading `./` if there is one.
pub open spec fn path_start() -> Seq<char> {
    seq!['^', '(', '\\', '.', '/', ')', '?']
}

/// Whether the pattern is anchored at the start of the path: it starts with
/// `/`, or holds a `/` before its end.
pub open spec fn anchored(p: Seq<char>) -> bool {
    (p.len() > 0 && p[0] == '/') || pattern_body(p).contains('/')
}

/// `(/|$)`: the end of the path or of one of its components.
pub open spec fn component_end() -> Seq<char> {
    seq!['(', '/', '|', '$', ')']
}

/// The regular expression for an ignore pattern in `.gitignore` format: the
/// pattern's body translated, starting at the start of the path (after a
/// leading `./`) when the pattern is anchored, else at any component of the
/// path; a pattern that ends with `/` must be followed by `/` (it names a
/// directory, and so everything below it), any other by `/` or the end of the
/// path (a file, or a directory and everything below it).
pub open spec fn pattern_regex(p: Seq<char>) -> Seq<char> {
    (if anchored(p) {
        path_start()
    } else {
        component_start()
    }) + translate_from(pattern_body(p), false) + (if dir_only(p) {
        seq!['/']
    } else {
        component_end()
    })
}

/// Whether the character has a meaning of its own in a regular expression.
fn is_regex_meta_char(c: char) -> (r: bool)
    ensures
        r == is_regex_meta(c),
{
    c == '\\' || c == '.' || c == '+' || c == '*' || c == '?' || c == '(' || c == ')' || c == '|'
        || c == '[' || c == ']' || c == '{' || c == '}' || c == '^' || c == '$' || c == '#' || c
        == '&' || c == '-' || c == '~'
}

/// Turns an ignore pattern in `.gitignore` format into a regular expression
/// (`pattern_regex`).
pub fn convert_ignore_pattern_to_regex(pattern: &str) -> (r: String)
    ensures
        r@ == pattern_regex(pattern@),
{
    let pc = chars_of(pattern);
    let mut lo: usize = 0;
    if pc.len() > 0 && pc[0] == '/' {
        lo = 1;
    }
    assert(pc@.skip(lo as int) =~= unrooted(pattern@));
    let mut hi: usize = pc.len();
    let dir = hi > lo && pc[hi - 1] == '/';
    if dir {
        hi = hi - 1;
    }
    let ghost body = pc@.subrange(lo as int, hi as int);
    assert(body =~= pattern_body(pattern@));
    assert(dir == dir_only(pattern@));
    let mut has_slash = false;
    let mut j = lo;
    while j < hi
        invariant
            lo <= j <= hi <= pc@.len(),
            body == pc@.subrange(lo as int, hi as int),
            has_slash == body.take(j - lo).contains('/'),
        decreases hi - j,
    {
        let ghost k = (j - lo) as int;
        assert(body.take(k + 1) =~= body.take(k).push(pc@[j as int]));
        if pc[j] == '/' {
            assert(body.take(k + 1)[k] == '/');
            has_slash = true;
        } else {
            proof {
                if has_slash {
                    let w = choose|w: int| 0 <= w < body.take(k).len() && body.take(k)[w] == '/';
                    assert(body.take(k + 1)[w] == '/');
                } else {
                    let t1 = body.take(k + 1);
                    assert(!t1.contains('/')) by {
                        if t1.contains('/') {
                            let w = choose|w: int| 0 <= w < t1.len() && t1[w] == '/';
                            if w < k {
                                assert(body.take(k)[w] == '/');
                            }
                        }
                    }
                }
            }
        }
        j = j + 1;
    }
    assert(body.take(hi - lo) =~= body);
    let anchor = lo == 1 || has_slash;
    assert(anchor == anchored(pattern@));
    let mut out: Vec<char> = Vec::new();
    if anchor {
        out.push('^');
        out.push('(');
        out.push('\\');
        out.push('.');
        out.push('/');
        out.push(')');
        out.push('?');
    } else {
        out.push('(');
        out.push('^');
        out.push('|');
        out.push('/');
        out.push(')');
    }
    let ghost start = if anchor {
        path_start()
    } else {
        component_start()
    };
    assert(out@ =~= start);
    let mut in_bracket = false;
    let mut i = lo;
    assert(pc@.subrange(lo as int, hi as int) == body);
    while i < hi
        invariant
            lo <= i <= hi <= pc@.len(),
            body == pc@.subrange(lo as int, hi as int),
            out@ + translate_from(pc@.subrange(i as int, hi as int), in_bracket) == start
                + translate_from(body, false),
        decreases hi - i,
    {
        let ghost rest = pc@.subrange(i as int, hi as int);
        let ghost before = out@;
        assert(rest[0] == pc@[i as int]);
        let c = pc[i];
        if !in_bracket && c == '*' && hi - i > 2 && pc[i + 1] == '*' && pc[i + 2] == '/' {
            assert(rest[1] == pc@[i + 1] && rest[2] == pc@[i + 2]);
            assert(rest.skip(3) =~= pc@.subrange(i + 3, hi as int));
            out.push('(');
            out.push('.');
            out.push('*');
            out.push('/');
            out.push(')');
            out.push('?');
            assert(out@ =~= before + seq!['(', '.', '*', '/', ')', '?']);
            assert(out@ + translate_from(pc@.subrange(i + 3, hi as int), false) =~= before
                + translate_from(rest, in_bracket));
            i = i + 3;
        } else if !in_bracket && c == '*' && hi - i > 1 && pc[i + 1] == '*' {
            assert(rest[1] == pc@[i + 1]);
            assert(rest.skip(2) =~= pc@.subrange(i + 2, hi as int));
            out.push('.');
            out.push('*');
            assert(out@ =~= before + seq!['.', '*']);
            assert(out@ + translate_from(pc@.subrange(i + 2, hi as int), false) =~= before
                + translate_from(rest, in_bracket));
            i = i + 2;
        } else {
            assert(!(!in_bracket && rest.len() >= 3 && rest[0] == '*' && rest[1] == '*' && rest[2] == '/'));
            assert(!(!in_bracket && rest.len() >= 2 && rest[0] == '*' && rest[1] == '*'));
            let ghost was = in_bracket;
            if in_bracket {
                if c == ']' {
                    in_bracket = false;
                    out.push(']');
                } else if c == '!' {
                    out.push('^');
                } else if c == '\\' || c == '[' || c == '&' || c == '~' {
                    out.push('\\');
                    out.push(c);
                } else {
                    out.push(c);
                }
            } else if c == '*' {
                out.push('[');
                out.push('^');
                out.push('/');
                out.push(']');
                out.push('*');
            } else if c == '?' {
                out.push('[');
                out.push('^');
                out.push('/');
                out.push(']');
            } else if c == '[' {
                in_bracket = true;
                out.push('[');
            } else if is_regex_meta_char(c) {
                out.push('\\');
                out.push(c);
            } else {
                out.push(c);
            }
            assert(out@ =~= before + translate_char(c, was).0);
            assert(in_bracket == translate_char(c, was).1);
            assert(rest.drop_first() =~= pc@.subrange(i + 1, hi as int));
            assert(out@ + translate_from(pc@.subrange(i + 1, hi as int), in_bracket) =~= before
                + translate_from(rest, was));
            i = i + 1;
        }
    }
    assert(pc@.subrange(hi as int, hi as int) =~= Seq::<char>::empty());
    assert(out@ + Seq::<char>::empty() =~= out@);
    if dir {
        out.push('/');
    } else {
        out.push('(');
        out.push('/');
        out.push('|');
        out.push('$');
        out.push(')');
    }
    let r = string_of(&out);
    assert(r@ =~= pattern_regex(pattern@));
    r
}

/// Whether the line re-includes what its pattern matches: it starts with `!`.
pub open spec fn negated(line: Seq<char>) -> bool {
    line.len() > 0 && line[0] == '!'
}

/// The pattern of a line, without the `!` of a negated line.
pub open spec fn positive(line: Seq<char>) -> Seq<char> {
    if negated(line) {
        line.skip(1)
    } else {
        line
    }
}

/// Whether the pattern of one line of the list matches the path: the line is
/// not a comment, its pattern is not blank, and the pattern's regular
/// expression compiles and matches.
pub open spec fn line_matches(line: Seq<char>, path: Seq<char>) -> bool {
    &&& !is_comment(line)
    &&& !is_blank(positive(line))
    &&& regex_compiles(pattern_regex(positive(line)))
    &&& regex_is_match(pattern_regex(positive(line)), path)
}

/// Whether some line of the list matches the path.
pub open spec fn decides(ls: Seq<Seq<char>>, path: Seq<char>) -> bool {
    exists|i: int| 0 <= i < ls.len() && line_matches(#[trigger] ls[i], path)
}

/// What a list of lines says of the path: the last line whose pattern matches
/// decides; a negated line re-includes the path, any other ignores it; when
/// no line matches, the path is kept.
pub open spec fn verdict(ls: Seq<Seq<char>>, path: Seq<char>) -> bool
    decreases ls.len(),
{
    if ls.len() == 0 {
        false
    } else if line_matches(ls.last(), path) {
        !negated(ls.last())
    } else {
        verdict(ls.drop_last(), path)
    }
}

/// Whether the path is ignored by the pattern list, one pattern per line.
pub open spec fn ignored_by(path: Seq<char>, patterns: Seq<char>) -> bool {
    verdict(lines(patterns), path)
}

/// Whether the pattern of one line matches the path.
fn line_matches_path(line: &str, file_path: &str) -> (r: bool)
    ensures
        r == line_matches(line@, file_path@),
{
    if is_comment_str(line) {
        return false;
    }
    let c = chars_of(line);
    let neg = c.len() > 0 && c[0] == '!';
    let start: usize = if neg { 1 } else { 0 };
    let mut p: Vec<char> = Vec::new();
    let mut k: usize = start;
    while k < c.len()
        invariant
            start <= k <= c@.len(),
            p@ == c@.subrange(start as int, k as int),
        decreases c@.len() - k,
    {
        p.push(c[k]);
        k = k + 1;
        assert(p@ =~= c@.subrange(start as int, k as int));
    }
    let pat = string_of(&p);
    assert(pat@ =~= positive(line@));
    if is_blank_str(pat.as_str()) {
        return false;
    }
    let regex_pattern = convert_ignore_pattern_to_regex(pat.as_str());
    match compile_pattern(regex_pattern.as_str()) {
        Some(re) => pattern_is_match(&re, file_path),
        None => false,
    }
}

/// Whether the path is ignored by the patterns, one per line, as in a
/// `.gitignore` file: the last line whose pattern matches decides, a line
/// that starts with `!` re-including what it matches; blank lines, comments
/// and patterns whose expression does not compile match nothing.
pub fn is_ignored(file_path: &str, ignore_patterns: &str) -> (r: bool)
    ensures
        r == ignored_by(file_path@, ignore_patterns@),
{
    let ls = lines_of(ignore_patterns);
    let n = ls.len();
    let ghost lv = lines(ignore_patterns@);
    let mut i: usize = n;
    assert(lv.take(n as int) =~= lv);
    while i > 0
        invariant
            i <= n,
            n == ls@.len(),
            strs(ls@) == lv,
            lv == lines(ignore_patterns@),
            verdict(lv, file_path@) == verdict(lv.take(i as int), file_path@),
        decreases i,
    {
        i = i - 1;
        assert(lv[i as int] == ls@[i as int]@);
        let ghost t = lv.take(i as int + 1);
        assert(t.drop_last() =~= lv.take(i as int));
        assert(t.last() == lv[i as int]);
        let line = &ls[i];
        if line_matches_path(line.as_str(), file_path) {
            let c = chars_of(line.as_str());
            return !(c.len() > 0 && c[0] == '!');
        }
    }
    assert(lv.take(0) =~= Seq::<Seq<char>>::empty());
    false
}

/// The verdict of two lists one after the other: the second decides where one
/// of its lines matches, the first elsewhere.
pub proof fn lemma_verdict_append(x: Seq<Seq<char>>, y: Seq<Seq<char>>, path: Seq<char>)
    ensures
        verdict(x + y, path) == (if decides(y, path) {
            verdict(y, path)
        } else {
            verdict(x, path)
        }),
    decreases y.len(),
{
    if y.len() == 0 {
        assert(x + y =~= x);
    } else {
        assert((x + y).drop_last() =~= x + y.drop_last());
        assert((x + y).last() == y.last());
        lemma_verdict_append(x, y.drop_last(), path);
        if line_matches(y.last(), path) {
            assert(line_matches(y[y.len() - 1], path));
        } else {
            if decides(y, path) {
                let i = choose|i: int| 0 <= i < y.len() && line_matches(#[trigger] y[i], path);
                assert(i < y.len() - 1);
                assert(y.drop_last()[i] == y[i]);
            }
            if decides(y.drop_last(), path) {
                let i = choose|i: int|
                    0 <= i < y.drop_last().len() && line_matches(#[trigger] y.drop_last()[i], path);
                assert(y[i] == y.drop_last()[i]);
            }
        }
    }
}

/// A pattern list that follows another on the next line overrides it: where
/// one of its lines matches the path, it alone decides, and elsewhere the
/// first list does (when the first does not end with `\r`). An empty list
/// ignores nothing.
pub proof fn lemma_ignored_by_join(path: Seq<char>, a: Seq<char>, b: Seq<char>)
    requires
        !(a.len() > 0 && a.last() == '\r'),
    ensures
        ignored_by(path, a + seq!['\n'] + b) == (if decides(lines(b), path) {
            ignored_by(path, b)
        } else {
            ignored_by(path, a)
        }),
        !ignored_by(path, seq![]),
{
    lemma_lines_join(a, b);
    let (done, cur) = line_split(a);
    let p = done.push(cur);
    lemma_verdict_append(p, lines(b), path);
    // the line after the last break of `a` is blank when empty, so the
    // front part says of the path what `lines(a)` says
    if cur.len() > 0 {
        assert(p == lines(a));
    } else {
        assert(p.drop_last() =~= done);
        assert(lines(a) == done);
        assert(is_blank(p.last()));
        assert(!line_matches(p.last(), path));
    }
    assert(lines(Seq::<char>::empty()) =~= Seq::<Seq<char>>::empty());
}

/// Whether the character stands for itself, in an ignore pattern and in a
/// regular expression alike: an ASCII letter or digit, or `_`.
pub open spec fn plain_char(c: char) -> bool {
    ('a' <= c && c <= 'z') || ('A' <= c && c <= 'Z') || ('0' <= c && c <= '9') || c == '_'
}

/// Letters, digits and `_` stand for themselves, inside a `[...]` class or
/// outside one.
pub proof fn lemma_plain_chars_stand_for_themselves(c: char, in_bracket: bool)
    requires
        plain_char(c),
    ensures
        translate_char(c, in_bracket) == (seq![c], in_bracket),
{
}

/// The translation of a run of letters, digits and `_` is the run itself.
proof fn lemma_plain_run(p: Seq<char>)
    requires
        forall|i: int| 0 <= i < p.len() ==> plain_char(#[trigger] p[i]),
    ensures
        translate_from(p, false) == p,
    decreases p.len(),
{
    if p.len() > 0 {
        lemma_plain_chars_stand_for_themselves(p[0], false);
        assert forall|i: int| 0 <= i < p.drop_first().len() implies plain_char(
            #[trigger] p.drop_first()[i],
        ) by {
            assert(p.drop_first()[i] == p[i + 1]);
        }
        lemma_plain_run(p.drop_first());
        assert(p =~= seq![p[0]] + p.drop_first());
    }
}

/// A pattern made only of letters, digits and `_` names one component of the
/// path: its expression is the pattern itself, between the start of a
/// component, `(^|/)`, and its end, `(/|$)`.
pub proof fn lemma_plain_pattern_regex(p: Seq<char>)
    requires
        forall|i: int| 0 <= i < p.len() ==> plain_char(#[trigger] p[i]),
    ensures
        pattern_regex(p) == component_start() + p + component_end(),
{
    assert(unrooted(p) == p) by {
        if p.len() > 0 {
            assert(plain_char(p[0]));
        }
    }
    assert(!dir_only(p)) by {
        if p.len() > 0 {
            assert(plain_char(p[p.len() - 1]));
        }
    }
    assert(!p.contains('/')) by {
        if p.contains('/') {
            let i = choose|i: int| 0 <= i < p.len() && p[i] == '/';
            assert(plain_char(p[i]));
        }
    }
    assert(!anchored(p));
    lemma_plain_run(p);
}

/// The characters that mean something in a regular expression but nothing in
/// an ignore pattern stand for themselves there: outside a `[...]` class they
/// are escaped with a backslash.
pub proof fn lemma_regex_specials_are_escaped(c: char)
    requires
        c == '.' || c == '+' || c == '(' || c == ')' || c == '|' || c == '{' || c == '}' || c
            == '^' || c == '$' || c == '\\' || c == ']' || c == '#' || c == '&' || c == '-' || c
            == '~',
    ensures
        translate_char(c, false) == (seq!['\\', c], false),
{
}

/// Comments and blank lines decide nothing: a pattern list followed by a
/// comment or a blank line ignores exactly what it ignored before (when the
/// list does not end with `\r`).
pub proof fn lemma_comments_and_blanks_decide_nothing(path: Seq<char>, a: Seq<char>, line: Seq<char>)
    requires
        !(a.len() > 0 && a.last() == '\r'),
        !line.contains('\n'),
        is_comment(line) || is_blank(line),
    ensures
        ignored_by(path, a + seq!['\n'] + line) == ignored_by(path, a),
{
    lemma_ignored_by_join(path, a, line);
    lemma_line_split_no_break(line);
    let ls = lines(line);
    if decides(ls, path) {
        let i = choose|i: int| 0 <= i < ls.len() && line_matches(#[trigger] ls[i], path);
        assert(ls[i] == line);
        if is_blank(line) {
            assert(!negated(line)) by {
                if negated(line) {
                    assert(is_blank(line) ==> !is_space(line[0]));
                }
            }
            assert(positive(line) == line);
        }
        assert(false);
    }
}

/// Where a pattern's expression starts: a pattern that starts with `/` is
/// matched from the start of the path only (after a leading `./`), and one
/// without any `/` from the start of any component of the path, up to the
/// end of that component.
pub proof fn lemma_where_patterns_start(p: Seq<char>)
    ensures
        p.len() > 0 && p[0] == '/' ==> pattern_regex(p).take(7) == path_start(),
        !p.contains('/') ==> pattern_regex(p) == component_start() + translate_from(p, false)
            + component_end(),
{
    if p.len() > 0 && p[0] == '/' {
        assert(anchored(p));
        assert(pattern_regex(p).take(7) =~= path_start());
    }
    if !p.contains('/') {
        assert(unrooted(p) == p) by {
            if p.len() > 0 && p[0] == '/' {
                assert(p.contains('/'));
            }
        }
        assert(!dir_only(p)) by {
            if p.len() > 0 && p.last() == '/' {
                assert(p[p.len() - 1] == '/');
            }
        }
        assert(!anchored(p));
    }
}

/// One pattern line on its own: a path is ignored exactly when the line's
/// pattern matches it and the line does not start with `!`; a matching `!`
/// line keeps the path.
pub proof fn lemma_single_line(path: Seq<char>, line: Seq<char>)
    requires
        !line.contains('\n'),
    ensures
        ignored_by(path, line) == (line_matches(line, path) && !negated(line)),
{
    lemma_line_split_no_break(line);
    let ls = lines(line);
    if line.len() > 0 {
        assert(ls == seq![line]);
        assert(ls.last() == line);
        assert(ls.drop_last() =~= Seq::<Seq<char>>::empty());
        assert(!verdict(Seq::<Seq<char>>::empty(), path));
    } else {
        assert(ls =~= Seq::<Seq<char>>::empty());
        assert(is_blank(positive(line)));
    }
}

} // verus!
