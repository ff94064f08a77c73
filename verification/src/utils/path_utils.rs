//! Path strings: normalization, the component model of Unix paths, prefix
//! matching against mountpoints and relative-path computation.

use vstd::prelude::*;
use crate::text::{chars_eq, chars_of, extend_chars, starts_with_seq, starts_with_str, string_of, sub_chars};

verus! {

/// The pieces of `s` between `/` separators, as `str::split('/')` yields them
/// (always at least one, possibly empty, piece).
pub open spec fn split_slash(s: Seq<char>) -> Seq<Seq<char>>
    decreases s.len(),
{
    if s.len() == 0 {
        seq![Seq::<char>::empty()]
    } else {
        let p = split_slash(s.drop_last());
        if s.last() == '/' {
            p.push(Seq::<char>::empty())
        } else {
            p.update(p.len() - 1, p.last().push(s.last()))
        }
    }
}

/// Whether the `i`-th piece of a split path (`n` pieces before it are
/// counted) is a component: empty pieces (repeated or trailing separators)
/// are dropped and `.` is dropped unless it is the very first piece.
pub open spec fn keeps_piece(piece: Seq<char>, index: int) -> bool {
    piece.len() > 0 && !(piece == seq!['.'] && index > 0)
}

/// The components kept from the pieces `segs`.
pub open spec fn kept_pieces(segs: Seq<Seq<char>>) -> Seq<Seq<char>>
    decreases segs.len(),
{
    if segs.len() == 0 {
        Seq::empty()
    } else {
        let prev = kept_pieces(segs.drop_last());
        if keeps_piece(segs.last(), segs.len() - 1) {
            prev.push(segs.last())
        } else {
            prev
        }
    }
}

/// Whether the path starts at the root (`/`).
pub open spec fn is_rooted(s: Seq<char>) -> bool {
    s.len() > 0 && s[0] == '/'
}

/// The non-root components of a Unix path, as `Path::components` gives them:
/// separators are collapsed, `.` is dropped except at the start of a relative
/// path, and `..` is kept.
pub open spec fn components(s: Seq<char>) -> Seq<Seq<char>> {
    kept_pieces(split_slash(s))
}

/// The last component of the path if it is a normal name (`Path::file_name`).
pub open spec fn file_name_of(s: Seq<char>) -> Option<Seq<char>> {
    let c = components(s);
    if c.len() == 0 || c.last() == seq!['.', '.'] || c.last() == seq!['.'] {
        None
    } else {
        Some(c.last())
    }
}

/// The index of the last `.` in `n`, or -1.
pub open spec fn last_dot(n: Seq<char>) -> int
    decreases n.len(),
{
    if n.len() == 0 {
        -1
    } else if n.last() == '.' {
        n.len() - 1
    } else {
        last_dot(n.drop_last())
    }
}

/// The extension of a file name (`Path::extension`): the text after the last
/// dot, unless there is no dot or the only dot starts the name.
pub open spec fn extension_of_name(n: Seq<char>) -> Option<Seq<char>> {
    if n == seq!['.', '.'] || last_dot(n) <= 0 {
        None
    } else {
        Some(n.subrange(last_dot(n) + 1, n.len() as int))
    }
}

/// The stem of a file name (`Path::file_stem`): the text before the last dot,
/// or the whole name when `extension_of_name` is `None`.
pub open spec fn stem_of_name(n: Seq<char>) -> Seq<char> {
    if n == seq!['.', '.'] || last_dot(n) <= 0 {
        n
    } else {
        n.subrange(0, last_dot(n))
    }
}

/// The extension of the path's file name.
pub open spec fn extension_of(s: Seq<char>) -> Option<Seq<char>> {
    match file_name_of(s) {
        Some(n) => extension_of_name(n),
        None => None,
    }
}

/// `s` without trailing separators and trailing `/.` pieces; a lone root or a
/// leading `.` is kept.
pub open spec fn trim_trailing(s: Seq<char>) -> Seq<char>
    decreases s.len(),
{
    if s.len() > 1 && s.last() == '/' {
        trim_trailing(s.drop_last())
    } else if s.len() >= 2 && s.last() == '.' && s[s.len() - 2] == '/' {
        trim_trailing(s.subrange(0, s.len() - 2))
    } else {
        s
    }
}

/// The index of the last `/` in `s`, or -1.
pub open spec fn last_slash(s: Seq<char>) -> int
    decreases s.len(),
{
    if s.len() == 0 {
        -1
    } else if s.last() == '/' {
        s.len() - 1
    } else {
        last_slash(s.drop_last())
    }
}

/// The parent of a path (`Path::parent`): `None` when the path has no
/// component to remove, else the text before its last component, without
/// trailing separators.
pub open spec fn parent_of(s: Seq<char>) -> Option<Seq<char>> {
    if components(s).len() == 0 {
        None
    } else {
        let t = trim_trailing(s);
        Some(trim_trailing(t.subrange(0, last_slash(t) + 1)))
    }
}

/// `PathBuf::join` on Unix: a rooted `b` replaces `a`; otherwise a separator is
/// inserted unless `a` is empty or already ends with one.
pub open spec fn join_path(a: Seq<char>, b: Seq<char>) -> Seq<char> {
    if is_rooted(b) {
        b
    } else if a.len() == 0 || a.last() == '/' {
        a + b
    } else {
        a + seq!['/'] + b
    }
}

/// The parts joined with single `/` separators.
pub open spec fn join_slash(parts: Seq<Seq<char>>) -> Seq<char>
    decreases parts.len(),
{
    if parts.len() == 0 {
        Seq::empty()
    } else if parts.len() == 1 {
        parts[0]
    } else {
        join_slash(parts.drop_last()) + seq!['/'] + parts.last()
    }
}

/// The Windows verbatim prefix `\\?\`.
pub open spec fn verbatim_prefix() -> Seq<char> {
    seq!['\\', '\\', '?', '\\']
}

/// `normalize_path`: strip a leading `\\?\` and turn every `\` into `/`.
pub open spec fn normalized(s: Seq<char>) -> Seq<char> {
    let t = if starts_with_seq(s, verbatim_prefix()) {
        s.subrange(4, s.len() as int)
    } else {
        s
    };
    t.map_values(|c: char| if c == '\\' { '/' } else { c })
}

/// Normalizing a normalized path changes nothing.
pub proof fn lemma_normalize_idempotent(s: Seq<char>)
    ensures
        normalized(normalized(s)) == normalized(s),
{
    let t = normalized(s);
    assert forall|i: int| 0 <= i < t.len() implies t[i] != '\\' by {}
    if starts_with_seq(t, verbatim_prefix()) {
        assert(t[0] == verbatim_prefix()[0]);
    }
    assert(t.map_values(|c: char| if c == '\\' { '/' } else { c }) =~= t);
}

/// Whether the sequence `p` is a prefix of `q`.
pub open spec fn is_prefix_of<A>(p: Seq<A>, q: Seq<A>) -> bool {
    p.len() <= q.len() && q.subrange(0, p.len() as int) == p
}

/// `Path::starts_with`: compares whole components (and the root).
pub open spec fn path_starts_with(a: Seq<char>, base: Seq<char>) -> bool {
    if !is_rooted(base) && components(base).len() == 0 {
        true
    } else {
        is_rooted(a) == is_rooted(base) && is_prefix_of(components(base), components(a))
    }
}

/// The components of `a` after those of `base`, joined by `/`
/// (`Path::strip_prefix` when `path_starts_with(a, base)`).
pub open spec fn stripped(a: Seq<char>, base: Seq<char>) -> Seq<char> {
    join_slash(components(a).subrange(components(base).len() as int, components(a).len() as int))
}

/// The number of UTF-8 bytes encoding `c`.
pub open spec fn utf8_width(c: char) -> nat {
    if (c as u32) < 0x80 {
        1
    } else if (c as u32) < 0x800 {
        2
    } else if (c as u32) < 0x10000 {
        3
    } else {
        4
    }
}

/// The number of UTF-8 bytes encoding `s` (`str::len`).
pub open spec fn utf8_len(s: Seq<char>) -> nat
    decreases s.len(),
{
    if s.len() == 0 {
        0
    } else {
        utf8_len(s.drop_last()) + utf8_width(s.last())
    }
}

/// The components kept by lexical cleaning: `.` is skipped and `..` removes
/// the previous kept component (if any).
pub open spec fn clean_stack(comps: Seq<Seq<char>>) -> Seq<Seq<char>>
    decreases comps.len(),
{
    if comps.len() == 0 {
        Seq::empty()
    } else {
        let prev = clean_stack(comps.drop_last());
        let c = comps.last();
        if c == seq!['.'] {
            prev
        } else if c == seq!['.', '.'] {
            if prev.len() > 0 {
                prev.drop_last()
            } else {
                prev
            }
        } else {
            prev.push(c)
        }
    }
}

/// The lexically cleaned form of a path: root (if any) followed by the
/// cleaned components joined by `/`.
pub open spec fn cleaned(s: Seq<char>) -> Seq<char> {
    let body = join_slash(clean_stack(components(s)));
    if is_rooted(s) {
        seq!['/'] + body
    } else {
        body
    }
}

proof fn lemma_split_nonempty(s: Seq<char>)
    ensures
        split_slash(s).len() >= 1,
    decreases s.len(),
{
    if s.len() > 0 {
        lemma_split_nonempty(s.drop_last());
    }
}

/// `normalized` on a character vector.
pub fn normalize_chars(cs: &[char]) -> (r: Vec<char>)
    ensures
        r@ == normalized(cs@),
{
    let start: usize = if starts_with_str(cs, "\\\\?\\") {
        4
    } else {
        0
    };
    proof {
        reveal_strlit("\\\\?\\");
        assert("\\\\?\\"@ =~= verbatim_prefix());
    }
    let ghost t = if start == 4 {
        cs@.subrange(4, cs@.len() as int)
    } else {
        cs@
    };
    let mut out: Vec<char> = Vec::new();
    let mut i = start;
    while i < cs.len()
        invariant
            start <= i <= cs@.len(),
            t == cs@.subrange(start as int, cs@.len() as int),
            out@ == t.take(i - start).map_values(|c: char| if c == '\\' { '/' } else { c }),
        decreases cs@.len() - i,
    {
        let c = cs[i];
        out.push(if c == '\\' { '/' } else { c });
        i = i + 1;
        assert(out@ =~= t.take(i - start).map_values(|c: char| if c == '\\' { '/' } else { c }));
    }
    assert(t.take(i - start) =~= t);
    assert(cs@.subrange(0, cs@.len() as int) =~= cs@);
    out
}

/// Normalize a path to forward slashes, stripping a Windows `\\?\` prefix.
pub fn normalize_path(path: &str) -> (r: String)
    ensures
        r@ == normalized(path@),
{
    let cs = chars_of(path);
    let out = normalize_chars(cs.as_slice());
    string_of(out.as_slice())
}

/// The components of `s`, computed left to right.
pub fn components_of(s: &[char]) -> (r: Vec<Vec<char>>)
    ensures
        r@.len() == components(s@).len(),
        forall|i: int| 0 <= i < r@.len() ==> #[trigger] r@[i]@ == components(s@)[i],
{
    let mut done: Vec<Vec<char>> = Vec::new();
    let mut cur: Vec<char> = Vec::new();
    let mut nseg: usize = 0;
    let ghost mut closed: Seq<Seq<char>> = Seq::empty();
    let mut i: usize = 0;
    proof {
        assert(s@.take(0) =~= Seq::<char>::empty());
    }
    while i < s.len()
        invariant
            i <= s@.len(),
            nseg == closed.len(),
            nseg <= i,
            split_slash(s@.take(i as int)) == closed.push(cur@),
            done@.len() == kept_pieces(closed).len(),
            forall|k: int| 0 <= k < done@.len() ==> #[trigger] done@[k]@ == kept_pieces(closed)[k],
        decreases s@.len() - i,
    {
        let c = s[i];
        proof {
            assert(s@.take(i + 1).drop_last() =~= s@.take(i as int));
            assert(s@.take(i + 1).last() == c);
        }
        if c == '/' {
            let keep = cur.len() > 0 && !(cur.len() == 1 && cur[0] == '.' && nseg > 0);
            proof {
                assert(keep == keeps_piece(cur@, nseg as int)) by {
                    if cur@ == seq!['.'] {
                        assert(cur@.len() == 1 && cur@[0] == '.');
                    }
                    if cur@.len() == 1 && cur@[0] == '.' {
                        assert(cur@ =~= seq!['.']);
                    }
                }
                let nc = closed.push(cur@);
                assert(nc.drop_last() =~= closed);
                assert(nc.last() == cur@);
            }
            let ghost old_done = done@;
            if keep {
                let piece = cur;
                done.push(piece);
            }
            proof {
                closed = closed.push(cur@);
            }
            cur = Vec::new();
            nseg = nseg + 1;
            proof {
                assert(split_slash(s@.take(i + 1)) =~= closed.push(cur@));
            }
        } else {
            cur.push(c);
            proof {
                assert(split_slash(s@.take(i + 1)) =~= closed.push(cur@));
            }
        }
        i = i + 1;
    }
    let keep = cur.len() > 0 && !(cur.len() == 1 && cur[0] == '.' && nseg > 0);
    proof {
        assert(keep == keeps_piece(cur@, nseg as int)) by {
            if cur@ == seq!['.'] {
                assert(cur@.len() == 1 && cur@[0] == '.');
            }
            if cur@.len() == 1 && cur@[0] == '.' {
                assert(cur@ =~= seq!['.']);
            }
        }
        assert(s@.take(i as int) =~= s@);
        let nc = closed.push(cur@);
        assert(nc.drop_last() =~= closed);
        assert(nc.last() == cur@);
    }
    if keep {
        done.push(cur);
    }
    done
}

/// The file name of the path, if its last component is a normal name.
pub fn file_name(s: &[char]) -> (r: Option<Vec<char>>)
    ensures
        match r {
            Some(n) => file_name_of(s@) == Some(n@),
            None => file_name_of(s@) is None,
        },
{
    let comps = components_of(s);
    if comps.len() == 0 {
        return None;
    }
    let last = &comps[comps.len() - 1];
    let is_dot = last.len() == 1 && last[0] == '.';
    let is_dotdot = last.len() == 2 && last[0] == '.' && last[1] == '.';
    proof {
        let l = components(s@).last();
        assert(l == last@);
        if l == seq!['.'] {
            assert(l.len() == 1 && l[0] == '.');
        }
        if is_dot {
            assert(l =~= seq!['.']);
        }
        if l == seq!['.', '.'] {
            assert(l.len() == 2 && l[0] == '.' && l[1] == '.');
        }
        if is_dotdot {
            assert(l =~= seq!['.', '.']);
        }
    }
    if is_dot || is_dotdot {
        None
    } else {
        let n = sub_chars(last.as_slice(), 0, last.len());
        proof {
            assert(last@.subrange(0, last@.len() as int) =~= last@);
        }
        Some(n)
    }
}

proof fn lemma_last_dot_props(n: Seq<char>)
    ensures
        -1 <= last_dot(n) < n.len(),
        last_dot(n) >= 0 ==> n[last_dot(n)] == '.',
        forall|j: int| last_dot(n) < j < n.len() ==> n[j] != '.',
    decreases n.len(),
{
    if n.len() > 0 && n.last() != '.' {
        lemma_last_dot_props(n.drop_last());
        assert forall|j: int| last_dot(n) < j < n.len() implies n[j] != '.' by {
            if j < n.len() - 1 {
                assert(n[j] == n.drop_last()[j]);
            }
        }
    }
}

/// The index of the last `.` in `n`, if any.
pub fn find_last_dot(n: &[char]) -> (r: Option<usize>)
    ensures
        match r {
            Some(i) => last_dot(n@) == i,
            None => last_dot(n@) == -1,
        },
{
    proof {
        lemma_last_dot_props(n@);
    }
    let mut i = n.len();
    while i > 0
        invariant
            i <= n@.len(),
            forall|j: int| i <= j < n@.len() ==> n@[j] != '.',
            -1 <= last_dot(n@) < n@.len(),
            last_dot(n@) >= 0 ==> n@[last_dot(n@)] == '.',
            forall|j: int| last_dot(n@) < j < n@.len() ==> n@[j] != '.',
        decreases i,
    {
        if n[i - 1] == '.' {
            return Some(i - 1);
        }
        i = i - 1;
    }
    None
}

/// The extension and stem of a file name.
pub fn split_extension(n: &[char]) -> (r: (Vec<char>, Option<Vec<char>>))
    ensures
        r.0@ == stem_of_name(n@),
        match r.1 {
            Some(e) => extension_of_name(n@) == Some(e@),
            None => extension_of_name(n@) is None,
        },
{
    let is_dotdot = n.len() == 2 && n[0] == '.' && n[1] == '.';
    proof {
        if n@ == seq!['.', '.'] {
            assert(n@.len() == 2 && n@[0] == '.' && n@[1] == '.');
        }
        if is_dotdot {
            assert(n@ =~= seq!['.', '.']);
        }
        assert(n@.subrange(0, n@.len() as int) =~= n@);
    }
    proof {
        lemma_last_dot_props(n@);
    }
    let d = find_last_dot(n);
    match d {
        Some(i) => {
            if is_dotdot || i == 0 {
                (sub_chars(n, 0, n.len()), None)
            } else {
                (sub_chars(n, 0, i), Some(sub_chars(n, i + 1, n.len())))
            }
        },
        None => (sub_chars(n, 0, n.len()), None),
    }
}

/// `s` without trailing separators and trailing `/.` pieces.
pub fn trim_trailing_chars(s: &[char]) -> (r: Vec<char>)
    ensures
        r@ == trim_trailing(s@),
{
    let mut end = s.len();
    proof {
        assert(s@.subrange(0, s@.len() as int) =~= s@);
    }
    while (end > 1 && s[end - 1] == '/') || (end >= 2 && s[end - 1] == '.' && s[end - 2] == '/')
        invariant
            end <= s@.len(),
            trim_trailing(s@.subrange(0, end as int)) == trim_trailing(s@),
        decreases end,
    {
        let ghost t = s@.subrange(0, end as int);
        if end > 1 && s[end - 1] == '/' {
            proof {
                assert(t.drop_last() =~= s@.subrange(0, end - 1));
            }
            end = end - 1;
        } else {
            proof {
                assert(t.subrange(0, t.len() - 2) =~= s@.subrange(0, end - 2));
            }
            end = end - 2;
        }
    }
    proof {
        assert(s@.subrange(0, s@.len() as int) =~= s@);
    }
    sub_chars(s, 0, end)
}

/// The index of the last `/` in `s`, if any.
fn find_last_slash(s: &[char]) -> (r: Option<usize>)
    ensures
        match r {
            Some(i) => last_slash(s@) == i,
            None => last_slash(s@) == -1,
        },
{
    let mut i = s.len();
    proof {
        assert(s@.subrange(0, s@.len() as int) =~= s@);
    }
    while i > 0
        invariant
            i <= s@.len(),
            last_slash(s@.subrange(0, i as int)) == last_slash(s@),
        decreases i,
    {
        let ghost t = s@.subrange(0, i as int);
        if s[i - 1] == '/' {
            return Some(i - 1);
        }
        proof {
            assert(t.drop_last() =~= s@.subrange(0, i - 1));
        }
        i = i - 1;
    }
    None
}

proof fn lemma_last_slash_bounds(s: Seq<char>)
    ensures
        -1 <= last_slash(s) < s.len(),
    decreases s.len(),
{
    if s.len() > 0 {
        lemma_last_slash_bounds(s.drop_last());
    }
}

/// The parent of the path, if it has one (`Path::parent`).
pub fn parent(s: &[char]) -> (r: Option<Vec<char>>)
    ensures
        match r {
            Some(p) => parent_of(s@) == Some(p@),
            None => parent_of(s@) is None,
        },
{
    let comps = components_of(s);
    if comps.len() == 0 {
        return None;
    }
    let t = trim_trailing_chars(s);
    proof {
        lemma_last_slash_bounds(t@);
    }
    let cut = match find_last_slash(t.as_slice()) {
        Some(k) => k + 1,
        None => 0,
    };
    let head = sub_chars(t.as_slice(), 0, cut);
    Some(trim_trailing_chars(head.as_slice()))
}

/// `PathBuf::join` on Unix.
pub fn join(a: &[char], b: &[char]) -> (r: Vec<char>)
    ensures
        r@ == join_path(a@, b@),
{
    let mut out = sub_chars(a, 0, a.len());
    proof {
        assert(a@.subrange(0, a@.len() as int) =~= a@);
    }
    if b.len() > 0 && b[0] == '/' {
        let r = sub_chars(b, 0, b.len());
        proof {
            assert(b@.subrange(0, b@.len() as int) =~= b@);
        }
        return r;
    }
    if !(a.len() == 0 || a[a.len() - 1] == '/') {
        out.push('/');
    }
    extend_chars(&mut out, b);
    out
}

/// The parts joined by single `/` separators.
pub fn join_with_slash(parts: &[Vec<char>]) -> (r: Vec<char>)
    ensures
        r@ == join_slash(parts@.map_values(|p: Vec<char>| p@)),
{
    let ghost ps = parts@.map_values(|p: Vec<char>| p@);
    let mut out: Vec<char> = Vec::new();
    let mut i: usize = 0;
    while i < parts.len()
        invariant
            i <= parts@.len(),
            ps == parts@.map_values(|p: Vec<char>| p@),
            out@ == join_slash(ps.take(i as int)),
        decreases parts@.len() - i,
    {
        proof {
            assert(ps.take(i + 1).drop_last() =~= ps.take(i as int));
        }
        if i > 0 {
            out.push('/');
        }
        extend_chars(&mut out, parts[i].as_slice());
        i = i + 1;
        proof {
            if i == 1 {
                assert(out@ =~= ps.take(1)[0]);
            } else {
                assert(out@ =~= join_slash(ps.take(i - 1)) + seq!['/'] + ps.take(i as int).last());
            }
        }
    }
    assert(ps.take(parts@.len() as int) =~= ps);
    out
}

/// Whether the component lists `base` is a prefix of `full`.
fn comps_prefix(base: &Vec<Vec<char>>, full: &Vec<Vec<char>>, sb: Ghost<Seq<Seq<char>>>, sf: Ghost<Seq<Seq<char>>>) -> (r: bool)
    requires
        base@.len() == sb@.len(),
        forall|i: int| 0 <= i < base@.len() ==> #[trigger] base@[i]@ == sb@[i],
        full@.len() == sf@.len(),
        forall|i: int| 0 <= i < full@.len() ==> #[trigger] full@[i]@ == sf@[i],
    ensures
        r == is_prefix_of(sb@, sf@),
{
    if base.len() > full.len() {
        return false;
    }
    let mut i: usize = 0;
    while i < base.len()
        invariant
            i <= base@.len() <= full@.len(),
            base@.len() == sb@.len(),
            forall|k: int| 0 <= k < base@.len() ==> #[trigger] base@[k]@ == sb@[k],
            full@.len() == sf@.len(),
            forall|k: int| 0 <= k < full@.len() ==> #[trigger] full@[k]@ == sf@[k],
            forall|k: int| 0 <= k < i ==> sb@[k] == sf@[k],
        decreases base@.len() - i,
    {
        if !chars_eq(base[i].as_slice(), full[i].as_slice()) {
            proof {
                assert(sf@.subrange(0, sb@.len() as int)[i as int] == sf@[i as int]);
            }
            return false;
        }
        i = i + 1;
    }
    proof {
        assert(sf@.subrange(0, sb@.len() as int) =~= sb@);
    }
    true
}

/// `Path::starts_with` on path strings.
pub fn starts_with_path(a: &[char], base: &[char]) -> (r: bool)
    ensures
        r == path_starts_with(a@, base@),
{
    let cb = components_of(base);
    let rooted_b = base.len() > 0 && base[0] == '/';
    if !rooted_b && cb.len() == 0 {
        return true;
    }
    let rooted_a = a.len() > 0 && a[0] == '/';
    if rooted_a != rooted_b {
        return false;
    }
    let ca = components_of(a);
    comps_prefix(&cb, &ca, Ghost(components(base@)), Ghost(components(a@)))
}

/// The UTF-8 byte length of the characters `s`.
pub fn utf8_length(s: &[char]) -> (r: u64)
    requires
        s@.len() < 0x1000_0000_0000,
    ensures
        r == utf8_len(s@),
{
    let mut total: u64 = 0;
    let mut i: usize = 0;
    while i < s.len()
        invariant
            i <= s@.len() < 0x1000_0000_0000,
            total == utf8_len(s@.take(i as int)),
            total <= 4 * i,
        decreases s@.len() - i,
    {
        let c = s[i];
        let w: u64 = if (c as u32) < 0x80 {
            1
        } else if (c as u32) < 0x800 {
            2
        } else if (c as u32) < 0x10000 {
            3
        } else {
            4
        };
        proof {
            assert(s@.take(i + 1).drop_last() =~= s@.take(i as int));
        }
        total = total + w;
        i = i + 1;
    }
    assert(s@.take(s@.len() as int) =~= s@);
    total
}

/// The path of `file` relative to `base`, or `file` itself when `base` is
/// not a component-wise prefix of it.
pub open spec fn relative_of(file: Seq<char>, base: Seq<char>) -> Seq<char> {
    if path_starts_with(file, base) {
        stripped(file, base)
    } else {
        file
    }
}

/// Whether `canons[i]` is the mountpoint that `find_matching_mountpoint`
/// picks for `file`: a component-wise prefix of it with the longest byte
/// length, the last such one on ties.
pub open spec fn best_match(file: Seq<char>, canons: Seq<String>, i: int) -> bool {
    &&& 0 <= i < canons.len()
    &&& path_starts_with(file, canons[i]@)
    &&& forall|j: int| 0 <= j < canons.len() && path_starts_with(file, #[trigger] canons[j]@)
        ==> utf8_len(canons[j]@) <= utf8_len(canons[i]@)
    &&& forall|j: int| i < j < canons.len() && path_starts_with(file, #[trigger] canons[j]@)
        ==> utf8_len(canons[j]@) < utf8_len(canons[i]@)
}

/// Among the mountpoints (canonical path strings) that are component-wise
/// prefixes of `file_canon`, the index of one with the longest byte length;
/// on ties the later one wins. `None` when no mountpoint matches.
pub fn find_matching_mountpoint(file_canon: &str, mountpoint_canons: &[String]) -> (r: Option<usize>)
    requires
        forall|i: int| 0 <= i < mountpoint_canons@.len() ==> #[trigger] mountpoint_canons@[i]@.len() < 0x1000_0000_0000,
    ensures
        match r {
            Some(i) => best_match(file_canon@, mountpoint_canons@, i as int),
            None => forall|j: int| 0 <= j < mountpoint_canons@.len() ==> !path_starts_with(file_canon@, #[trigger] mountpoint_canons@[j]@),
        },
{
    let f = chars_of(file_canon);
    let mut best: Option<usize> = None;
    let mut best_len: u64 = 0;
    let mut i: usize = 0;
    while i < mountpoint_canons.len()
        invariant
            i <= mountpoint_canons@.len(),
            f@ == file_canon@,
            forall|k: int| 0 <= k < mountpoint_canons@.len() ==> #[trigger] mountpoint_canons@[k]@.len() < 0x1000_0000_0000,
            match best {
                Some(b) => {
                    &&& b < i
                    &&& best_len == utf8_len(mountpoint_canons@[b as int]@)
                    &&& path_starts_with(file_canon@, mountpoint_canons@[b as int]@)
                    &&& forall|j: int| 0 <= j < i && path_starts_with(file_canon@, #[trigger] mountpoint_canons@[j]@)
                        ==> utf8_len(mountpoint_canons@[j]@) <= best_len
                    &&& forall|j: int| b < j < i && path_starts_with(file_canon@, #[trigger] mountpoint_canons@[j]@)
                        ==> utf8_len(mountpoint_canons@[j]@) < best_len
                },
                None => best_len == 0 && forall|j: int| 0 <= j < i ==> !path_starts_with(file_canon@, #[trigger] mountpoint_canons@[j]@),
            },
        decreases mountpoint_canons@.len() - i,
    {
        let m = chars_of(mountpoint_canons[i].as_str());
        if starts_with_path(f.as_slice(), m.as_slice()) {
            let len = utf8_length(m.as_slice());
            if len >= best_len {
                best = Some(i);
                best_len = len;
            }
        }
        i = i + 1;
    }
    best
}

/// The path of `file_canon` relative to `mountpoint_canon` (its components
/// after the mountpoint's, joined by `/`), or `file_canon` itself when the
/// mountpoint is not a component-wise prefix of it.
pub fn get_relative_path(file_canon: &str, mountpoint_canon: &str) -> (r: String)
    ensures
        r@ == relative_of(file_canon@, mountpoint_canon@),
{
    let f = chars_of(file_canon);
    let m = chars_of(mountpoint_canon);
    if starts_with_path(f.as_slice(), m.as_slice()) {
        let cf = components_of(f.as_slice());
        let cm = components_of(m.as_slice());
        let ghost sf = components(file_canon@);
        proof {
            if !(cm@.len() <= cf@.len()) {
                assert(components(mountpoint_canon@).len() == 0);
            }
        }
        let mut rest: Vec<Vec<char>> = Vec::new();
        let mut k = cm.len();
        while k < cf.len()
            invariant
                cm@.len() <= k <= cf@.len(),
                cf@.len() == sf.len(),
                forall|j: int| 0 <= j < cf@.len() ==> #[trigger] cf@[j]@ == sf[j],
                rest@.map_values(|p: Vec<char>| p@) == sf.subrange(cm@.len() as int, k as int),
            decreases cf@.len() - k,
        {
            let piece = sub_chars(cf[k].as_slice(), 0, cf[k].len());
            proof {
                assert(cf@[k as int]@.subrange(0, cf@[k as int]@.len() as int) =~= cf@[k as int]@);
            }
            let ghost before = rest@;
            rest.push(piece);
            assert(rest@.map_values(|p: Vec<char>| p@) =~= before.map_values(|p: Vec<char>| p@).push(sf[k as int]));
            k = k + 1;
            assert(rest@.map_values(|p: Vec<char>| p@) =~= sf.subrange(cm@.len() as int, k as int));
        }
        let joined = join_with_slash(rest.as_slice());
        string_of(joined.as_slice())
    } else {
        string_of(f.as_slice())
    }
}

/// A path cleaned without touching the filesystem: `.` components are
/// dropped and each `..` removes the component before it (never the root).
pub fn lexical_clean(path: &str) -> (r: String)
    ensures
        r@ == cleaned(path@),
{
    let s = chars_of(path);
    let comps = components_of(s.as_slice());
    let ghost sc = components(path@);
    let mut stack: Vec<Vec<char>> = Vec::new();
    let mut i: usize = 0;
    while i < comps.len()
        invariant
            i <= comps@.len(),
            comps@.len() == sc.len(),
            forall|j: int| 0 <= j < comps@.len() ==> #[trigger] comps@[j]@ == sc[j],
            stack@.map_values(|p: Vec<char>| p@) == clean_stack(sc.take(i as int)),
        decreases comps@.len() - i,
    {
        let c = &comps[i];
        let is_dot = c.len() == 1 && c[0] == '.';
        let is_dotdot = c.len() == 2 && c[0] == '.' && c[1] == '.';
        proof {
            assert(sc.take(i + 1).drop_last() =~= sc.take(i as int));
            assert(sc.take(i + 1).last() == c@);
            if c@ == seq!['.'] {
                assert(c@.len() == 1 && c@[0] == '.');
            }
            if is_dot {
                assert(c@ =~= seq!['.']);
            }
            if c@ == seq!['.', '.'] {
                assert(c@.len() == 2 && c@[0] == '.' && c@[1] == '.');
            }
            if is_dotdot {
                assert(c@ =~= seq!['.', '.']);
            }
        }
        if is_dot {
        } else if is_dotdot {
            if stack.len() > 0 {
                stack.pop();
                assert(stack@.map_values(|p: Vec<char>| p@) =~= clean_stack(sc.take(i as int)).drop_last());
            }
        } else {
            stack.push(sub_chars(c.as_slice(), 0, c.len()));
            proof {
                assert(c@.subrange(0, c@.len() as int) =~= c@);
            }
            assert(stack@.map_values(|p: Vec<char>| p@) =~= clean_stack(sc.take(i as int)).push(c@));
        }
        i = i + 1;
    }
    assert(sc.take(comps@.len() as int) =~= sc);
    let body = join_with_slash(stack.as_slice());
    if s.len() > 0 && s[0] == '/' {
        let mut out: Vec<char> = Vec::new();
        out.push('/');
        extend_chars(&mut out, body.as_slice());
        string_of(out.as_slice())
    } else {
        string_of(body.as_slice())
    }
}

} // verus!
