//! The per-user directory layout, and the path operations it needs: joining
//! by the rules of each platform, and reading components the POSIX way.
use vstd::prelude::*;

use crate::platform::Platform;
use crate::text::{
    append_str, chars_eq, chars_of, concat, is_lower, is_upper, lemma_split_on_nonempty, owned,
    push_char, replace_char, replace_chars, slice_chars, split_on, split_on_chars, string_of, views,
};

verus! {

/// `PathBuf::join` on a POSIX system: an absolute `rel` replaces `base`;
/// otherwise one `/` separates them unless `base` is empty or ends in `/`.
pub open spec fn posix_join(base: Seq<char>, rel: Seq<char>) -> Seq<char> {
    if rel.len() > 0 && rel[0] == '/' {
        rel
    } else if base.len() == 0 || base.last() == '/' {
        base + rel
    } else {
        base.push('/') + rel
    }
}

/// `PathBuf::join` on `platform`.
pub open spec fn join_path(base: Seq<char>, rel: Seq<char>, platform: Platform) -> Seq<char> {
    match platform {
        Platform::Unix => posix_join(base, rel),
        Platform::Windows => win_join(base, rel),
    }
}

pub fn join(base: &str, rel: &str, platform: Platform) -> (r: String)
    ensures
        r@ == join_path(base@, rel@, platform),
{
    match platform {
        Platform::Unix => posix_join_of(base, rel),
        Platform::Windows => {
            let b = chars_of(base);
            let q = chars_of(rel);
            string_of(&win_join_of(&b, &q))
        },
    }
}

fn posix_join_of(base: &str, rel: &str) -> (r: String)
    ensures
        r@ == posix_join(base@, rel@),
{
    let b = chars_of(base);
    let q = chars_of(rel);
    if q.len() > 0 && q[0] == '/' {
        return owned(rel);
    }
    let mut r = owned(base);
    if b.len() > 0 && b[b.len() - 1] != '/' {
        push_char(&mut r, '/');
    }
    append_str(&mut r, rel);
    r
}

// ---------------------------------------------------------------------------
// Windows paths
// ---------------------------------------------------------------------------
/// A Windows path separator.
pub open spec fn win_sep(c: char) -> bool {
    c == '/' || c == '\\'
}

/// `X:` at the start: a drive prefix.
pub open spec fn win_disk(v: Seq<char>) -> bool {
    v.len() >= 2 && (is_lower(v[0]) || crate::text::is_upper(v[0])) && v[1] == ':'
}

/// Two separators at the start.
pub open spec fn win_double_sep(v: Seq<char>) -> bool {
    v.len() >= 2 && win_sep(v[0]) && win_sep(v[1])
}

/// `\\?\` or `\\.\` at the start: a verbatim or device prefix.
pub open spec fn win_verbatim(v: Seq<char>) -> bool {
    v.len() >= 4 && win_double_sep(v) && (v[2] == '?' || v[2] == '.') && win_sep(v[3])
}

/// Where the first separator of `v` is, or `v.len()`.
pub open spec fn first_sep(v: Seq<char>) -> int
    decreases v.len(),
{
    if v.len() == 0 {
        0
    } else if win_sep(v[0]) {
        0
    } else {
        1 + first_sep(v.drop_first())
    }
}

/// `\\server\share` at the start: a network prefix, with a server and a
/// share that are not empty.
pub open spec fn win_unc(v: Seq<char>) -> bool {
    let rest = v.skip(2);
    let i = first_sep(rest);
    &&& win_double_sep(v)
    &&& !win_verbatim(v)
    &&& i > 0
    &&& i + 1 < rest.len()
    &&& !win_sep(rest[i + 1])
}

/// `\\?\` exactly, with no `/`: the start of a verbatim path.
pub open spec fn verbatim_start(v: Seq<char>) -> bool {
    v.len() >= 4 && v[0] == '\\' && v[1] == '\\' && v[2] == '?' && v[3] == '\\'
}

/// Where the first `\` of `v` is, or `v.len()`.
pub open spec fn first_backslash(v: Seq<char>) -> int
    decreases v.len(),
{
    if v.len() == 0 {
        0
    } else if v[0] == '\\' {
        0
    } else {
        1 + first_backslash(v.drop_first())
    }
}

/// How long the prefix is that Windows reads at the start of `v`, 0 when
/// there is none: a verbatim `\\?\UNC\server\share`, `\\?\X:` or
/// `\\?\name` (whose parts end at `\` only), a device `\\.\name`, a
/// network share `\\server\share` with both parts named, or a drive `X:`.
pub open spec fn win_prefix_len(v: Seq<char>) -> int {
    if verbatim_start(v) {
        let r = v.skip(4);
        if r.len() >= 4 && r[0] == 'U' && r[1] == 'N' && r[2] == 'C' && r[3] == '\\' {
            let s = r.skip(4);
            let a = first_backslash(s);
            if a < s.len() {
                8 + a + 1 + first_backslash(s.skip(a + 1))
            } else {
                8 + a
            }
        } else if win_disk(r) && (r.len() == 2 || win_sep(r[2])) {
            6
        } else {
            4 + first_backslash(r)
        }
    } else if win_double_sep(v) && v.len() >= 4 && v[2] == '.' && win_sep(v[3]) {
        4 + first_sep(v.skip(4))
    } else if win_double_sep(v) {
        let s = v.skip(2);
        let a = first_sep(s);
        if 0 < a < s.len() && first_sep(s.skip(a + 1)) > 0 {
            2 + a + 1 + first_sep(s.skip(a + 1))
        } else {
            0
        }
    } else if win_disk(v) {
        2
    } else {
        0
    }
}

/// The parts that are not empty, in order.
pub open spec fn nonempty_parts(parts: Seq<Seq<char>>) -> Seq<Seq<char>>
    decreases parts.len(),
{
    if parts.len() == 0 {
        seq![]
    } else if parts.last().len() == 0 {
        nonempty_parts(parts.drop_last())
    } else {
        nonempty_parts(parts.drop_last()).push(parts.last())
    }
}

/// The parts of a relative path taken one by one after `tail`: empty parts
/// and `.` change nothing, `..` drops a last part that names something, any
/// other part is added.
pub open spec fn apply_parts(tail: Seq<Seq<char>>, parts: Seq<Seq<char>>) -> Seq<Seq<char>>
    decreases parts.len(),
{
    if parts.len() == 0 {
        tail
    } else {
        let t = apply_parts(tail, parts.drop_last());
        let c = parts.last();
        if c.len() == 0 || c == seq!['.'] {
            t
        } else if c == seq!['.', '.'] {
            if t.len() > 0 && t.last() != seq!['.'] && t.last() != seq!['.', '.'] {
                t.drop_last()
            } else {
                t
            }
        } else {
            t.push(c)
        }
    }
}

/// Each part after a `\`.
pub open spec fn render_parts(tail: Seq<Seq<char>>) -> Seq<char>
    decreases tail.len(),
{
    if tail.len() == 0 {
        seq![]
    } else {
        render_parts(tail.drop_last()) + seq!['\\'] + tail.last()
    }
}

/// Joining a path that is not empty onto a verbatim `base`: the result is
/// built again from the parts, with `.` and `..` of `rel` worked out.
pub open spec fn verbatim_join(base: Seq<char>, rel: Seq<char>) -> Seq<char> {
    let l = win_prefix_len(base);
    let r = base.skip(l);
    let root = r.len() > 0 && win_sep(r[0]);
    let body = if root {
        r.skip(1)
    } else {
        r
    };
    let rel_root = win_sep(rel[0]);
    let start = if rel_root {
        seq![]
    } else {
        nonempty_parts(split_on(body, '\\'))
    };
    let out = apply_parts(start, split_on(replace_char(rel, '\\', seq!['/']), '/'));
    base.take(l) + if (root || rel_root) && out.len() == 0 {
        seq!['\\']
    } else {
        render_parts(out)
    }
}

/// `PathBuf::join` on Windows. A `rel` with a prefix replaces `base`; onto
/// a verbatim `base` the parts are worked out again; a `rel` that starts at
/// a root keeps only the prefix of `base`; otherwise one `\` separates them
/// unless `base` is empty, ends in a separator, or is a bare drive `X:`.
pub open spec fn win_join(base: Seq<char>, rel: Seq<char>) -> Seq<char> {
    if win_prefix_len(rel) > 0 {
        rel
    } else if verbatim_start(base) && rel.len() > 0 {
        verbatim_join(base, rel)
    } else if rel.len() > 0 && win_sep(rel[0]) {
        base.take(win_prefix_len(base)) + rel
    } else if base.len() == 0 || win_sep(base.last()) || (win_disk(base) && base.len() == 2) {
        base + rel
    } else {
        base.push('\\') + rel
    }
}

fn first_backslash_of(v: &Vec<char>, from: usize) -> (r: usize)
    requires
        from <= v.len(),
    ensures
        r == from + first_backslash(v@.skip(from as int)),
        from <= r <= v.len(),
{
    let mut i = from;
    while i < v.len() && v[i] != '\\'
        invariant
            from <= i <= v.len(),
            first_backslash(v@.skip(from as int)) == (i - from) + first_backslash(v@.skip(i as int)),
        decreases v.len() - i,
    {
        assert(v@.skip(i as int).drop_first() =~= v@.skip(i + 1));
        assert(v@.skip(i as int)[0] == v@[i as int]);
        i = i + 1;
    }
    proof {
        if i < v.len() {
            assert(v@.skip(i as int)[0] == v@[i as int]);
        } else {
            assert(v@.skip(i as int).len() == 0);
        }
    }
    i
}

fn char_is_letter(c: char) -> (r: bool)
    ensures
        r == (is_lower(c) || is_upper(c)),
{
    ('a' <= c && c <= 'z') || ('A' <= c && c <= 'Z')
}

fn win_prefix_len_of(v: &Vec<char>) -> (r: usize)
    ensures
        r == win_prefix_len(v@),
        r <= v.len(),
{
    let n = v.len();
    if n >= 4 && v[0] == '\\' && v[1] == '\\' && v[2] == '?' && v[3] == '\\' {
        let ghost rr = v@.skip(4);
        if n >= 8 && v[4] == 'U' && v[5] == 'N' && v[6] == 'C' && v[7] == '\\' {
            let a = first_backslash_of(v, 8);
            assert(v@.skip(4).skip(4) =~= v@.skip(8));
            if a < n {
                let b = first_backslash_of(v, a + 1);
                assert(v@.skip(8).skip(a - 8 + 1) =~= v@.skip(a + 1));
                return b;
            }
            return a;
        }
        if n >= 6 && char_is_letter(v[4]) && v[5] == ':' && (n == 6 || char_win_sep(v[6])) {
            return 6;
        }
        assert(rr.len() >= 2 ==> rr[0] == v@[4] && rr[1] == v@[5]);
        assert(rr.len() > 2 ==> rr[2] == v@[6]);
        return first_backslash_of(v, 4);
    }
    let double = n >= 2 && char_win_sep(v[0]) && char_win_sep(v[1]);
    if double && n >= 4 && v[2] == '.' && char_win_sep(v[3]) {
        return first_sep_of(v, 4);
    }
    if double {
        let a = first_sep_of(v, 2);
        if a > 2 && a < n {
            let b = first_sep_of(v, a + 1);
            assert(v@.skip(2).skip(a - 2 + 1) =~= v@.skip(a + 1));
            if b > a + 1 {
                return b;
            }
        }
        return 0;
    }
    if n >= 2 && char_is_letter(v[0]) && v[1] == ':' {
        2
    } else {
        0
    }
}

fn nonempty_parts_of(body: &Vec<char>) -> (r: Vec<String>)
    ensures
        views(r@) == nonempty_parts(split_on(body@, '\\')),
{
    let parts = split_on_chars(body, '\\');
    let ghost ps = split_on(body@, '\\');
    let mut r: Vec<String> = Vec::new();
    let mut i: usize = 0;
    while i < parts.len()
        invariant
            i <= parts@.len(),
            parts@.len() == ps.len(),
            forall|k: int| 0 <= k < parts@.len() ==> #[trigger] parts@[k]@ == ps[k],
            views(r@) == nonempty_parts(ps.take(i as int)),
        decreases parts.len() - i,
    {
        assert(ps.take(i + 1).drop_last() =~= ps.take(i as int));
        assert(ps.take(i + 1).last() == parts@[i as int]@);
        if parts[i].len() > 0 {
            let ghost before = r@;
            r.push(string_of(&parts[i]));
            assert(views(r@) =~= views(before).push(parts@[i as int]@));
        }
        i = i + 1;
    }
    assert(ps.take(parts.len() as int) =~= ps);
    r
}

fn is_dot(c: &Vec<char>) -> (r: bool)
    ensures
        r == (c@ == seq!['.']),
{
    if c.len() == 1 && c[0] == '.' {
        assert(c@ =~= seq!['.']);
        true
    } else {
        false
    }
}

fn is_dot_dot(c: &Vec<char>) -> (r: bool)
    ensures
        r == (c@ == seq!['.', '.']),
{
    if c.len() == 2 && c[0] == '.' && c[1] == '.' {
        assert(c@ =~= seq!['.', '.']);
        true
    } else {
        false
    }
}

fn apply_parts_of(tail: Vec<String>, rel: &Vec<char>) -> (r: Vec<String>)
    ensures
        views(r@) == apply_parts(
            views(tail@),
            split_on(replace_char(rel@, '\\', seq!['/']), '/'),
        ),
{
    let slash = vec!['/'];
    assert(slash@ =~= seq!['/']);
    let mapped = replace_chars(rel, '\\', &slash);
    let parts = split_on_chars(&mapped, '/');
    let ghost ps = split_on(replace_char(rel@, '\\', seq!['/']), '/');
    let ghost t0 = views(tail@);
    let mut r = tail;
    let mut i: usize = 0;
    while i < parts.len()
        invariant
            i <= parts@.len(),
            parts@.len() == ps.len(),
            forall|k: int| 0 <= k < parts@.len() ==> #[trigger] parts@[k]@ == ps[k],
            views(r@) == apply_parts(t0, ps.take(i as int)),
        decreases parts.len() - i,
    {
        assert(ps.take(i + 1).drop_last() =~= ps.take(i as int));
        assert(ps.take(i + 1).last() == parts@[i as int]@);
        let c = &parts[i];
        if c.len() == 0 || is_dot(c) {
        } else if is_dot_dot(c) {
            if r.len() > 0 {
                let last = chars_of(r[r.len() - 1].as_str());
                assert(views(r@).last() == last@);
                if !is_dot(&last) && !is_dot_dot(&last) {
                    let ghost before = r@;
                    r.pop();
                    assert(views(r@) =~= views(before).drop_last());
                }
            }
        } else {
            let ghost before = r@;
            r.push(string_of(c));
            assert(views(r@) =~= views(before).push(c@));
        }
        i = i + 1;
    }
    assert(ps.take(parts.len() as int) =~= ps);
    r
}

fn render_parts_of(out: &Vec<String>) -> (r: Vec<char>)
    ensures
        r@ == render_parts(views(out@)),
{
    let ghost os = views(out@);
    let mut r: Vec<char> = Vec::new();
    let mut i: usize = 0;
    while i < out.len()
        invariant
            i <= out@.len(),
            os == views(out@),
            r@ == render_parts(os.take(i as int)),
        decreases out.len() - i,
    {
        assert(os.take(i + 1).drop_last() =~= os.take(i as int));
        let part = chars_of(out[i].as_str());
        assert(os.take(i + 1).last() == part@);
        let ghost before = r@;
        r.push('\\');
        let mut k: usize = 0;
        while k < part.len()
            invariant
                k <= part@.len(),
                r@ == before + seq!['\\'] + part@.take(k as int),
            decreases part.len() - k,
        {
            r.push(part[k]);
            assert(part@.take(k + 1) =~= part@.take(k as int).push(part@[k as int]));
            k = k + 1;
        }
        assert(part@.take(part.len() as int) =~= part@);
        i = i + 1;
    }
    assert(os.take(out.len() as int) =~= os);
    r
}

fn verbatim_join_of(b: &Vec<char>, q: &Vec<char>) -> (r: Vec<char>)
    requires
        verbatim_start(b@),
        q@.len() > 0,
    ensures
        r@ == verbatim_join(b@, q@),
{
    let n = b.len();
    let l = win_prefix_len_of(b);
    let root = l < n && char_win_sep(b[l]);
    let body = if root {
        slice_chars(b, l + 1, n)
    } else {
        slice_chars(b, l, n)
    };
    proof {
        let r = b@.skip(l as int);
        if root {
            assert(r.skip(1) =~= body@);
        } else {
            assert(r =~= body@);
        }
        assert(r.len() > 0 ==> r[0] == b@[l as int]);
    }
    let rel_root = char_win_sep(q[0]);
    let start = if rel_root {
        let e: Vec<String> = Vec::new();
        assert(views(e@) =~= Seq::<Seq<char>>::empty());
        e
    } else {
        nonempty_parts_of(&body)
    };
    let out = apply_parts_of(start, q);
    let mut r = slice_chars(b, 0, l);
    assert(r@ =~= b@.take(l as int));
    if (root || rel_root) && out.len() == 0 {
        r.push('\\');
        assert(r@ =~= b@.take(l as int) + seq!['\\']);
    } else {
        let tail = render_parts_of(&out);
        let ghost before = r@;
        let mut k: usize = 0;
        while k < tail.len()
            invariant
                k <= tail@.len(),
                r@ == before + tail@.take(k as int),
            decreases tail.len() - k,
        {
            r.push(tail[k]);
            assert(tail@.take(k + 1) =~= tail@.take(k as int).push(tail@[k as int]));
            k = k + 1;
        }
        assert(tail@.take(tail.len() as int) =~= tail@);
    }
    r
}

fn win_join_of(b: &Vec<char>, q: &Vec<char>) -> (r: Vec<char>)
    ensures
        r@ == win_join(b@, q@),
{
    if win_prefix_len_of(q) > 0 {
        return slice_chars(q, 0, q.len());
    }
    let n = b.len();
    if n >= 4 && b[0] == '\\' && b[1] == '\\' && b[2] == '?' && b[3] == '\\' && q.len() > 0 {
        return verbatim_join_of(b, q);
    }
    let mut r: Vec<char>;
    if q.len() > 0 && char_win_sep(q[0]) {
        let l = win_prefix_len_of(b);
        r = slice_chars(b, 0, l);
        assert(r@ =~= b@.take(l as int));
    } else {
        r = slice_chars(b, 0, n);
        assert(r@ =~= b@);
        let bare_drive = n == 2 && char_is_letter(b[0]) && b[1] == ':';
        if !(n == 0 || char_win_sep(b[n - 1]) || bare_drive) {
            r.push('\\');
        }
    }
    let ghost before = r@;
    let mut k: usize = 0;
    while k < q.len()
        invariant
            k <= q@.len(),
            r@ == before + q@.take(k as int),
        decreases q.len() - k,
    {
        r.push(q[k]);
        assert(q@.take(k + 1) =~= q@.take(k as int).push(q@[k as int]));
        k = k + 1;
    }
    assert(q@.take(q.len() as int) =~= q@);
    r
}

pub fn char_win_sep(c: char) -> (r: bool)
    ensures
        r == win_sep(c),
{
    c == '/' || c == '\\'
}

pub fn first_sep_of(v: &Vec<char>, from: usize) -> (r: usize)
    requires
        from <= v.len(),
    ensures
        r == from + first_sep(v@.skip(from as int)),
        from <= r <= v.len(),
{
    let mut i = from;
    while i < v.len() && !char_win_sep(v[i])
        invariant
            from <= i <= v.len(),
            first_sep(v@.skip(from as int)) == (i - from) + first_sep(v@.skip(i as int)),
        decreases v.len() - i,
    {
        assert(v@.skip(i as int).drop_first() =~= v@.skip(i + 1));
        assert(v@.skip(i as int)[0] == v@[i as int]);
        i = i + 1;
    }
    proof {
        if i < v.len() {
            assert(v@.skip(i as int)[0] == v@[i as int]);
        } else {
            assert(v@.skip(i as int).len() == 0);
        }
    }
    i
}


/// The parts of a path between separators that name something: not empty,
/// not `.`.
pub open spec fn normal_parts(parts: Seq<Seq<char>>) -> Seq<Seq<char>>
    decreases parts.len(),
{
    if parts.len() == 0 {
        seq![]
    } else {
        let p = normal_parts(parts.drop_last());
        let last = parts.last();
        if last.len() == 0 || last == seq!['.'] {
            p
        } else {
            p.push(last)
        }
    }
}

/// `Path::components` on a POSIX system. The root directory is written `/`
/// and a leading current directory `.`; no other component can be either.
pub open spec fn components(p: Seq<char>) -> Seq<Seq<char>> {
    let parts = split_on(p, '/');
    if p.len() > 0 && p[0] == '/' {
        seq![seq!['/']] + normal_parts(parts)
    } else if parts[0] == seq!['.'] {
        seq![seq!['.']] + normal_parts(parts.drop_first())
    } else {
        normal_parts(parts)
    }
}

/// `Path::starts_with`: the components of `base` begin the components of `p`.
pub open spec fn path_starts_with(p: Seq<char>, base: Seq<char>) -> bool {
    let a = components(p);
    let b = components(base);
    b.len() <= a.len() && a.take(b.len() as int) == b
}

fn normal_parts_of(parts: &Vec<Vec<char>>, from: usize) -> (r: Vec<Vec<char>>)
    requires
        from <= parts.len(),
    ensures
        r@.len() == normal_parts(parts@.map_values(|v: Vec<char>| v@).skip(from as int)).len(),
        forall|k: int|
            0 <= k < r@.len() ==> #[trigger] r@[k]@ == normal_parts(
                parts@.map_values(|v: Vec<char>| v@).skip(from as int),
            )[k],
{
    let ghost pv = parts@.map_values(|v: Vec<char>| v@).skip(from as int);
    let dot = vec!['.'];
    assert(dot@ =~= seq!['.']);
    let mut r: Vec<Vec<char>> = Vec::new();
    let mut i: usize = from;
    while i < parts.len()
        invariant
            from <= i <= parts.len(),
            dot@ == seq!['.'],
            pv == parts@.map_values(|v: Vec<char>| v@).skip(from as int),
            r@.len() == normal_parts(pv.take(i - from)).len(),
            forall|k: int| 0 <= k < r@.len() ==> #[trigger] r@[k]@ == normal_parts(pv.take(i - from))[k],
        decreases parts.len() - i,
    {
        assert(pv.take(i + 1 - from).drop_last() =~= pv.take(i - from));
        assert(pv.take(i + 1 - from).last() == parts@[i as int]@);
        let part = &parts[i];
        if part.len() > 0 && !chars_eq(part, &dot) {
            r.push(part.clone());
        }
        i = i + 1;
    }
    assert(pv.take(parts.len() - from) =~= pv);
    r
}

/// `Path::components` on a POSIX system, each component as its text.
pub fn components_of(p: &str) -> (r: Vec<Vec<char>>)
    ensures
        r@.len() == components(p@).len(),
        forall|k: int| 0 <= k < r@.len() ==> #[trigger] r@[k]@ == components(p@)[k],
{
    let v = chars_of(p);
    let parts = split_on_chars(&v, '/');
    let ghost pv = parts@.map_values(|x: Vec<char>| x@);
    assert(pv =~= split_on(p@, '/'));
    proof {
        crate::text::lemma_split_on_nonempty(p@, '/');
    }
    let dot = vec!['.'];
    assert(dot@ =~= seq!['.']);
    if v.len() > 0 && v[0] == '/' {
        let rest = normal_parts_of(&parts, 0);
        assert(pv.skip(0) =~= pv);
        let mut r: Vec<Vec<char>> = Vec::new();
        r.push(vec!['/']);
        let mut k: usize = 0;
        while k < rest.len()
            invariant
                k <= rest.len(),
                r@.len() == k + 1,
                r@[0]@ == seq!['/'],
                forall|j: int| 0 < j <= k ==> #[trigger] r@[j]@ == rest@[j - 1]@,
            decreases rest.len() - k,
        {
            r.push(rest[k].clone());
            k = k + 1;
        }
        assert forall|j: int| 0 <= j < r@.len() implies #[trigger] r@[j]@ == components(p@)[j] by {
            if j > 0 {
                assert(r@[j]@ == rest@[j - 1]@);
            }
        }
        r
    } else if chars_eq(&parts[0], &dot) {
        let rest = normal_parts_of(&parts, 1);
        assert(pv.skip(1) =~= pv.drop_first());
        let mut r: Vec<Vec<char>> = Vec::new();
        r.push(vec!['.']);
        let mut k: usize = 0;
        while k < rest.len()
            invariant
                k <= rest.len(),
                r@.len() == k + 1,
                r@[0]@ == seq!['.'],
                forall|j: int| 0 < j <= k ==> #[trigger] r@[j]@ == rest@[j - 1]@,
            decreases rest.len() - k,
        {
            r.push(rest[k].clone());
            k = k + 1;
        }
        assert forall|j: int| 0 <= j < r@.len() implies #[trigger] r@[j]@ == components(p@)[j] by {
            if j > 0 {
                assert(r@[j]@ == rest@[j - 1]@);
            }
        }
        r
    } else {
        assert(pv.skip(0) =~= pv);
        normal_parts_of(&parts, 0)
    }
}

/// `Path::starts_with` on a POSIX system.
pub fn starts_with_path(p: &str, base: &str) -> (r: bool)
    ensures
        r == path_starts_with(p@, base@),
{
    let a = components_of(p);
    let b = components_of(base);
    let ghost av = components(p@);
    let ghost bv = components(base@);
    if b.len() > a.len() {
        return false;
    }
    let mut k: usize = 0;
    while k < b.len()
        invariant
            b.len() <= a.len(),
            k <= b.len(),
            av == components(p@),
            bv == components(base@),
            a@.len() == av.len(),
            b@.len() == bv.len(),
            forall|j: int| 0 <= j < a@.len() ==> #[trigger] a@[j]@ == av[j],
            forall|j: int| 0 <= j < b@.len() ==> #[trigger] b@[j]@ == bv[j],
            forall|j: int| 0 <= j < k ==> av[j] == bv[j],
        decreases b.len() - k,
    {
        if !chars_eq(&a[k], &b[k]) {
            assert(av.take(bv.len() as int)[k as int] != bv[k as int]);
            return false;
        }
        k = k + 1;
    }
    assert(av.take(bv.len() as int) =~= bv);
    true
}

// ---------------------------------------------------------------------------
// Joining one plain name
// ---------------------------------------------------------------------------
/// A name that `join` appends as one component: not empty, not `.`, no `/`.
pub open spec fn plain_name(name: Seq<char>) -> bool {
    &&& name.len() > 0
    &&& name != seq!['.']
    &&& forall|i: int| 0 <= i < name.len() ==> name[i] != '/'
}

/// Splitting text that has a separator after `s` splits `s` and the rest
/// apart.
pub proof fn lemma_split_on_after_sep(s: Seq<char>, t: Seq<char>, sep: char)
    ensures
        split_on(s.push(sep) + t, sep) == split_on(s, sep) + split_on(t, sep),
    decreases t.len(),
{
    let u = s.push(sep) + t;
    if t.len() == 0 {
        assert(u =~= s.push(sep));
        assert(s.push(sep).drop_last() =~= s);
        assert(split_on(s, sep).push(Seq::<char>::empty()) =~= split_on(s, sep) + split_on(t, sep));
    } else {
        assert(u.drop_last() =~= s.push(sep) + t.drop_last());
        assert(u.last() == t.last());
        lemma_split_on_after_sep(s, t.drop_last(), sep);
        lemma_split_on_nonempty(t.drop_last(), sep);
        let a = split_on(s, sep);
        let b = split_on(t.drop_last(), sep);
        if t.last() == sep {
            assert((a + b).push(Seq::<char>::empty()) =~= a + b.push(Seq::<char>::empty()));
        } else {
            assert((a + b).last() == b.last());
            assert((a + b).update((a + b).len() - 1, (a + b).last().push(t.last())) =~= a
                + b.update(b.len() - 1, b.last().push(t.last())));
        }
    }
}

/// Text without the separator is one part.
pub proof fn lemma_split_on_plain(t: Seq<char>, sep: char)
    requires
        forall|i: int| 0 <= i < t.len() ==> t[i] != sep,
    ensures
        split_on(t, sep) == seq![t],
    decreases t.len(),
{
    if t.len() > 0 {
        lemma_split_on_plain(t.drop_last(), sep);
        assert(t.drop_last().push(t.last()) =~= t);
        assert(seq![t.drop_last()].update(0, t.drop_last().push(t.last())) =~= seq![t]);
    } else {
        assert(t =~= Seq::<char>::empty());
    }
}

proof fn lemma_normal_parts_push(p: Seq<Seq<char>>, name: Seq<char>)
    requires
        plain_name(name),
    ensures
        normal_parts(p.push(name)) == normal_parts(p).push(name),
{
    assert(p.push(name).drop_last() =~= p);
}

/// On a POSIX system, joining a plain name adds exactly that name as the
/// last component.
pub proof fn lemma_join_plain_name(base: Seq<char>, name: Seq<char>)
    requires
        plain_name(name),
    ensures
        components(join_path(base, name, Platform::Unix)) == components(base).push(name),
        path_starts_with(join_path(base, name, Platform::Unix), base),
{
    let j = join_path(base, name, Platform::Unix);
    lemma_split_on_plain(name, '/');
    lemma_split_on_nonempty(base, '/');
    if base.len() == 0 {
        assert(j =~= name);
        assert(split_on(base, '/') =~= seq![Seq::<char>::empty()]);
        assert(seq![Seq::<char>::empty()].drop_last() =~= Seq::<Seq<char>>::empty());
        assert(normal_parts(Seq::<Seq<char>>::empty()) =~= Seq::<Seq<char>>::empty());
        assert(normal_parts(seq![Seq::<char>::empty()]) =~= Seq::<Seq<char>>::empty());
        assert(normal_parts(seq![name]) =~= seq![name]) by {
            assert(seq![name] =~= Seq::<Seq<char>>::empty().push(name));
            lemma_normal_parts_push(Seq::<Seq<char>>::empty(), name);
        }
        assert(components(base) =~= Seq::<Seq<char>>::empty());
        assert(components(j) =~= seq![name]);
    } else {
        // The parts of the join: the parts of `base` up to its last
        // separator, then `name`.
        let x = if base.last() == '/' {
            split_on(base.drop_last(), '/')
        } else {
            split_on(base, '/')
        };
        if base.last() == '/' {
            assert(base.drop_last().push('/') =~= base);
            assert(j =~= base.drop_last().push('/') + name);
            lemma_split_on_after_sep(base.drop_last(), name, '/');
            lemma_split_on_nonempty(base.drop_last(), '/');
            assert(split_on(base, '/') == x.push(Seq::<char>::empty()));
            assert(x.push(Seq::<char>::empty()).drop_last() =~= x);
        } else {
            assert(j =~= base.push('/') + name);
            lemma_split_on_after_sep(base, name, '/');
        }
        assert(split_on(j, '/') =~= x.push(name));
        assert(j[0] == base[0]);
        lemma_normal_parts_push(x, name);
        if base[0] == '/' {
            assert(components(j) =~= components(base).push(name));
        } else {
            assert(x.len() >= 1);
            assert(split_on(j, '/')[0] == x[0]);
            assert(split_on(base, '/')[0] == x[0]);
            if x[0] == seq!['.'] {
                assert(x.push(name).drop_first() =~= x.drop_first().push(name));
                lemma_normal_parts_push(x.drop_first(), name);
                if base.last() == '/' {
                    assert(x.push(Seq::<char>::empty()).drop_first() =~= x.drop_first().push(
                        Seq::<char>::empty(),
                    ));
                    assert(x.drop_first().push(Seq::<char>::empty()).drop_last() =~= x.drop_first());
                }
                assert(components(j) =~= components(base).push(name));
            } else {
                assert(components(j) =~= components(base).push(name));
            }
        }
    }
    let a = components(j);
    let b = components(base);
    assert(a.take(b.len() as int) =~= b);
}

/// Where GitSama keeps its files for one user, and the platform whose path
/// rules its paths follow.
#[derive(Clone, Debug)]
pub struct AppPaths {
    pub root: String,
    pub config: String,
    pub packs: String,
    pub state: String,
    pub logs: String,
    pub log: String,
    pub bin: String,
    pub platform: Platform,
}

pub const APP_DIR_NAME: &'static str = ".gitsama";

/// On a POSIX system every file and directory of the layout lies under its
/// root, so removing the root removes all of GitSama's files.
pub proof fn lemma_layout_under_root(root: Seq<char>)
    ensures
        path_starts_with(join_path(root, "config.toml"@, Platform::Unix), root),
        path_starts_with(join_path(root, "packs"@, Platform::Unix), root),
        path_starts_with(join_path(root, "state"@, Platform::Unix), root),
        path_starts_with(join_path(root, "logs"@, Platform::Unix), root),
        path_starts_with(join_path(join_path(root, "logs"@, Platform::Unix), "gitsama.log"@, Platform::Unix), root),
        path_starts_with(join_path(root, "bin"@, Platform::Unix), root),
{
    reveal_strlit("config.toml");
    reveal_strlit("packs");
    reveal_strlit("state");
    reveal_strlit("logs");
    reveal_strlit("gitsama.log");
    reveal_strlit("bin");
    assert(plain_name("config.toml"@)) by {
        assert("config.toml"@.len() == 11);
        assert("config.toml"@ != seq!['.']);
    }
    lemma_join_plain_name(root, "config.toml"@);
    assert(plain_name("packs"@)) by {
        assert("packs"@.len() == 5);
        assert("packs"@ != seq!['.']);
    }
    lemma_join_plain_name(root, "packs"@);
    assert(plain_name("state"@)) by {
        assert("state"@.len() == 5);
        assert("state"@ != seq!['.']);
    }
    lemma_join_plain_name(root, "state"@);
    assert(plain_name("logs"@)) by {
        assert("logs"@.len() == 4);
        assert("logs"@ != seq!['.']);
    }
    lemma_join_plain_name(root, "logs"@);
    assert(plain_name("bin"@)) by {
        assert("bin"@.len() == 3);
        assert("bin"@ != seq!['.']);
    }
    lemma_join_plain_name(root, "bin"@);
    let logs = join_path(root, "logs"@, Platform::Unix);
    assert(plain_name("gitsama.log"@)) by {
        assert("gitsama.log"@.len() == 11);
        assert("gitsama.log"@ != seq!['.']);
    }
    lemma_join_plain_name(logs, "gitsama.log"@);
    let a = components(join_path(logs, "gitsama.log"@, Platform::Unix));
    let b = components(root);
    assert(a =~= b.push("logs"@).push("gitsama.log"@));
    assert(a.take(b.len() as int) =~= b);
}

impl AppPaths {
    /// The layout under one root directory.
    pub fn from_root(root: String, platform: Platform) -> (r: AppPaths)
        ensures
            r.root@ == root@,
            r.config@ == join_path(root@, "config.toml"@, platform),
            r.packs@ == join_path(root@, "packs"@, platform),
            r.state@ == join_path(root@, "state"@, platform),
            r.logs@ == join_path(root@, "logs"@, platform),
            r.log@ == join_path(join_path(root@, "logs"@, platform), "gitsama.log"@, platform),
            r.bin@ == join_path(root@, "bin"@, platform),
            r.platform == platform,
    {
        let logs = join(root.as_str(), "logs", platform);
        AppPaths {
            config: join(root.as_str(), "config.toml", platform),
            packs: join(root.as_str(), "packs", platform),
            state: join(root.as_str(), "state", platform),
            log: join(logs.as_str(), "gitsama.log", platform),
            logs,
            bin: join(root.as_str(), "bin", platform),
            root,
            platform,
        }
    }

    /// Whether `path` lies under the root directory.
    pub fn contains(&self, path: &str) -> (r: bool)
        ensures
            r == path_starts_with(path@, self.root@),
    {
        starts_with_path(path, self.root.as_str())
    }
}

} // verus!
