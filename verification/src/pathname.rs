//! Arithmetic on `/`-separated path names, held as character sequences.
//!
//! The rules are those of `std::path` on Unix: repeated separators collapse,
//! `.` components other than a leading one are ignored, the file name is the
//! last component when it is an ordinary name, and the extension is what
//! follows the last dot of the file name unless that dot is its first
//! character.
use vstd::prelude::*;
use crate::text::{chars_of, lower, lower_char, push_all, slice_chars, string_of};

verus! {

/// Index of the last occurrence of `c`, or -1.
pub open spec fn last_index_of(s: Seq<char>, c: char) -> int
    decreases s.len(),
{
    if s.len() == 0 {
        -1
    } else if s.last() == c {
        s.len() - 1
    } else {
        last_index_of(s.drop_last(), c)
    }
}

pub proof fn lemma_last_index_of(s: Seq<char>, c: char)
    ensures
        -1 <= last_index_of(s, c) < s.len(),
        last_index_of(s, c) >= 0 ==> s[last_index_of(s, c)] == c,
        forall|j: int| last_index_of(s, c) < j < s.len() ==> s[j] != c,
    decreases s.len(),
{
    if s.len() > 0 && s.last() != c {
        lemma_last_index_of(s.drop_last(), c);
        assert forall|j: int| last_index_of(s, c) < j < s.len() implies s[j] != c by {
            if j < s.len() - 1 {
                assert(s.drop_last()[j] == s[j]);
            }
        }
    }
}

/// Lower-casing keeps every separator and dot where it was.
pub(crate) proof fn lemma_last_index_of_lower(s: Seq<char>, c: char)
    requires
        c == '/' || c == '.',
    ensures
        last_index_of(lower(s), c) == last_index_of(s, c),
    decreases s.len(),
{
    if s.len() > 0 {
        assert(lower(s).drop_last() =~= lower(s.drop_last()));
        assert(lower(s).last() == lower_char(s.last()));
        lemma_last_index_of_lower(s.drop_last(), c);
    }
}

pub(crate) proof fn lemma_lower_subrange(s: Seq<char>, a: int, b: int)
    requires
        0 <= a <= b <= s.len(),
    ensures
        lower(s).subrange(a, b) == lower(s.subrange(a, b)),
{
    assert(lower(s).subrange(a, b) =~= lower(s.subrange(a, b)));
}

/// The file name of a lower-cased path is the lower-cased file name.
pub(crate) proof fn lemma_file_name_lower(p: Seq<char>)
    ensures
        file_name(lower(p)) == (match file_name(p) {
            Some(n) => Some(lower(n)),
            None => None::<Seq<char>>,
        }),
    decreases p.len(),
{
    let lp = lower(p);
    lemma_last_index_of_lower(p, '/');
    lemma_last_index_of(p, '/');
    let k = last_index_of(p, '/') + 1;
    let seg = p.subrange(k, p.len() as int);
    lemma_lower_subrange(p, k, p.len() as int);
    let lseg = lp.subrange(k, lp.len() as int);
    assert(lseg == lower(seg));
    assert((lseg == seq!['.']) == (seg == seq!['.'])) by {
        if lseg == seq!['.'] {
            assert(lseg[0] == '.');
            assert(lower(seg)[0] == lower_char(seg[0]));
            assert(seg =~= seq!['.']);
        }
        if seg == seq!['.'] {
            assert(lseg =~= seq!['.']);
        }
    }
    assert((lseg == seq!['.', '.']) == (seg == seq!['.', '.'])) by {
        if lseg == seq!['.', '.'] {
            assert(lseg[0] == '.' && lseg[1] == '.');
            assert(lower(seg)[0] == lower_char(seg[0]));
            assert(lower(seg)[1] == lower_char(seg[1]));
            assert(seg =~= seq!['.', '.']);
        }
        if seg == seq!['.', '.'] {
            assert(lseg =~= seq!['.', '.']);
        }
    }
    if (seg.len() == 0 || seg == seq!['.']) && 0 < k <= p.len() {
        lemma_lower_subrange(p, 0, k - 1);
        lemma_file_name_lower(p.subrange(0, k - 1));
    }
}

/// The extension of a lower-cased file name is the lower-cased extension.
pub(crate) proof fn lemma_extension_of_lower(n: Seq<char>)
    ensures
        extension_of(lower(n)) == (match extension_of(n) {
            Some(e) => Some(lower(e)),
            None => None::<Seq<char>>,
        }),
{
    lemma_last_index_of_lower(n, '.');
    lemma_last_index_of(n, '.');
    let d = last_index_of(n, '.');
    if d > 0 {
        lemma_lower_subrange(n, d + 1, n.len() as int);
    }
}

/// The file name: the last component of the path when it is an ordinary
/// name (neither empty, `.` nor `..`).
pub open spec fn file_name(p: Seq<char>) -> Option<Seq<char>>
    decreases p.len(),
{
    let k = last_index_of(p, '/') + 1;
    let seg = p.subrange(k, p.len() as int);
    if seg.len() == 0 || seg == seq!['.'] {
        if k <= 0 || k > p.len() {
            None
        } else {
            file_name(p.subrange(0, k - 1))
        }
    } else if seg == seq!['.', '.'] {
        None
    } else {
        Some(seg)
    }
}

/// The part of a file name before its extension.
pub open spec fn stem_of(name: Seq<char>) -> Seq<char> {
    let d = last_index_of(name, '.');
    if d <= 0 {
        name
    } else {
        name.subrange(0, d)
    }
}

/// The extension of a file name, without its dot.
pub open spec fn extension_of(name: Seq<char>) -> Option<Seq<char>> {
    let d = last_index_of(name, '.');
    if d <= 0 {
        None
    } else {
        Some(name.subrange(d + 1, name.len() as int))
    }
}

pub open spec fn file_stem(p: Seq<char>) -> Option<Seq<char>> {
    match file_name(p) {
        Some(n) => Some(stem_of(n)),
        None => None,
    }
}

pub open spec fn extension(p: Seq<char>) -> Option<Seq<char>> {
    match file_name(p) {
        Some(n) => extension_of(n),
        None => None,
    }
}

/// `dir` joined with `name`: an absolute `name` replaces `dir`, otherwise a
/// separator is inserted unless `dir` is empty or already ends in one.
pub open spec fn join(dir: Seq<char>, name: Seq<char>) -> Seq<char> {
    if name.len() > 0 && name[0] == '/' {
        name
    } else if dir.len() > 0 && dir.last() != '/' {
        dir + seq!['/'] + name
    } else {
        dir + name
    }
}

pub(crate) proof fn lemma_last_index_past(s: Seq<char>, t: Seq<char>, c: char)
    requires
        forall|i: int| 0 <= i < t.len() ==> t[i] != c,
    ensures
        last_index_of(s + t, c) == last_index_of(s, c),
    decreases t.len(),
{
    if t.len() > 0 {
        assert((s + t).drop_last() =~= s + t.drop_last());
        lemma_last_index_past(s, t.drop_last(), c);
    } else {
        assert(s + t =~= s);
    }
}

/// A plain file name joined to any folder is the file name of the result:
/// it does not depend on the folder.
pub proof fn lemma_file_name_of_join(dir: Seq<char>, name: Seq<char>)
    requires
        name.len() > 0,
        forall|i: int| 0 <= i < name.len() ==> name[i] != '/',
        name != seq!['.'],
        name != seq!['.', '.'],
    ensures
        file_name(join(dir, name)) == Some(name),
{
    let pre = if dir.len() > 0 && dir.last() != '/' { dir + seq!['/'] } else { dir };
    assert(join(dir, name) =~= pre + name);
    lemma_last_index_past(pre, name, '/');
    if pre.len() > 0 {
        assert(pre.last() == '/');
    }
    assert((pre + name).subrange(pre.len() as int, (pre + name).len() as int) =~= name);
}

/// Position of the last `c` in `v`, or `None`.
pub fn find_last(v: &Vec<char>, c: char) -> (r: Option<usize>)
    ensures
        match r {
            Some(i) => i as int == last_index_of(v@, c),
            None => last_index_of(v@, c) == -1,
        },
{
    proof { lemma_last_index_of(v@, c); }
    let mut i = v.len();
    assert(v@.subrange(0, i as int) =~= v@);
    while i > 0
        invariant
            0 <= i <= v.len(),
            last_index_of(v@, c) == last_index_of(v@.subrange(0, i as int), c),
        decreases i,
    {
        if v[i - 1] == c {
            assert(v@.subrange(0, i as int).last() == c);
            return Some(i - 1);
        }
        assert(v@.subrange(0, i as int).drop_last() =~= v@.subrange(0, i - 1));
        i -= 1;
    }
    assert(v@.subrange(0, 0) =~= Seq::<char>::empty());
    None
}

/// The file name of a path, character-wise.
pub fn file_name_chars(p: &Vec<char>) -> (r: Option<Vec<char>>)
    ensures
        match r {
            Some(n) => file_name(p@) == Some(n@),
            None => file_name(p@) is None,
        },
{
    let mut end = p.len();
    assert(p@.subrange(0, end as int) =~= p@);
    loop
        invariant
            end <= p.len(),
            file_name(p@) == file_name(p@.subrange(0, end as int)),
        decreases end,
    {
        let prefix = slice_chars(p, 0, end);
        proof { lemma_last_index_of(prefix@, '/'); }
        let k = match find_last(&prefix, '/') {
            Some(i) => i + 1,
            None => 0,
        };
        let seg = slice_chars(&prefix, k, end);
        let ghost dot = seq!['.'];
        let ghost dotdot = seq!['.', '.'];
        if seg.len() == 0 || (seg.len() == 1 && seg[0] == '.') {
            assert(seg.len() == 1 && seg[0] == '.' ==> seg@ =~= dot);
            if k == 0 {
                return None;
            }
            assert(prefix@.subrange(0, k - 1) =~= p@.subrange(0, k - 1));
            end = k - 1;
        } else if seg.len() == 2 && seg[0] == '.' && seg[1] == '.' {
            assert(seg@ =~= dotdot);
            return None;
        } else {
            assert(seg@ != dot);
            assert(seg@ != dotdot);
            return Some(seg);
        }
    }
}

/// The file stem of a file name.
pub fn stem_chars(name: &Vec<char>) -> (r: Vec<char>)
    ensures
        r@ == stem_of(name@),
{
    match find_last(name, '.') {
        Some(d) => {
            if d == 0 {
                slice_chars(name, 0, name.len())
            } else {
                proof { lemma_last_index_of(name@, '.'); }
                slice_chars(name, 0, d)
            }
        },
        None => slice_chars(name, 0, name.len()),
    }
}

/// The extension of a file name.
pub fn extension_chars(name: &Vec<char>) -> (r: Option<Vec<char>>)
    ensures
        match r {
            Some(e) => extension_of(name@) == Some(e@),
            None => extension_of(name@) is None,
        },
{
    proof { lemma_last_index_of(name@, '.'); }
    match find_last(name, '.') {
        Some(d) => {
            if d == 0 {
                None
            } else {
                assert(d < name.len());
                Some(slice_chars(name, d + 1, name.len()))
            }
        },
        None => None,
    }
}

/// `dir` joined with `name`.
pub fn join_chars(dir: &Vec<char>, name: &Vec<char>) -> (r: Vec<char>)
    ensures
        r@ == join(dir@, name@),
{
    if name.len() > 0 && name[0] == '/' {
        slice_chars(name, 0, name.len())
    } else {
        let mut out = slice_chars(dir, 0, dir.len());
        if dir.len() > 0 && dir[dir.len() - 1] != '/' {
            out.push('/');
        }
        push_all(&mut out, name);
        out
    }
}

/// `dir` joined with `name`, as strings.
pub fn join_str(dir: &str, name: &str) -> (r: String)
    ensures
        r@ == join(dir@, name@),
{
    let d = chars_of(dir);
    let n = chars_of(name);
    let j = join_chars(&d, &n);
    string_of(&j)
}

// ---------------------------------------------------------------------------
// Path equality
// ---------------------------------------------------------------------------

/// Index of the first occurrence of `c`, or the length.
pub open spec fn first_index_of(s: Seq<char>, c: char) -> int
    decreases s.len(),
{
    if s.len() == 0 {
        0
    } else if s[0] == c {
        0
    } else {
        1 + first_index_of(s.drop_first(), c)
    }
}

pub proof fn lemma_first_index_of(s: Seq<char>, c: char)
    ensures
        0 <= first_index_of(s, c) <= s.len(),
        first_index_of(s, c) < s.len() ==> s[first_index_of(s, c)] == c,
        forall|j: int| 0 <= j < first_index_of(s, c) ==> s[j] != c,
    decreases s.len(),
{
    if s.len() > 0 && s[0] != c {
        lemma_first_index_of(s.drop_first(), c);
        assert forall|j: int| 0 <= j < first_index_of(s, c) implies s[j] != c by {
            if j > 0 {
                assert(s[j] == s.drop_first()[j - 1]);
            }
        }
    }
}

/// The separator-delimited segments of a path that are neither empty nor
/// `.`, in order.
pub open spec fn named_segments(p: Seq<char>) -> Seq<Seq<char>>
    decreases p.len(),
{
    let i = first_index_of(p, '/');
    let seg = p.subrange(0, i);
    let head: Seq<Seq<char>> = if seg.len() == 0 || seg == seq!['.'] { Seq::empty() } else { seq![seg] };
    if i < 0 || i >= p.len() {
        head
    } else {
        head + named_segments(p.subrange(i + 1, p.len() as int))
    }
}

/// A path starts at the root.
pub open spec fn is_rooted(p: Seq<char>) -> bool {
    p.len() > 0 && p[0] == '/'
}

/// A relative path that starts with a `.` component.
pub open spec fn starts_at_cur_dir(p: Seq<char>) -> bool {
    p.len() > 0 && p[0] == '.' && (p.len() == 1 || p[1] == '/')
}

/// Two paths name the same components: same rootedness, same leading `.`
/// for relative paths, same named segments.
pub open spec fn same_path(a: Seq<char>, b: Seq<char>) -> bool {
    is_rooted(a) == is_rooted(b) && starts_at_cur_dir(a) == starts_at_cur_dir(b)
        && named_segments(a) == named_segments(b)
}

/// The named segments of `p`.
pub fn segments_of(p: &Vec<char>) -> (r: Vec<Vec<char>>)
    ensures
        r@.map_values(|v: Vec<char>| v@) == named_segments(p@),
{
    let mut out: Vec<Vec<char>> = Vec::new();
    let mut start: usize = 0;
    assert(p@.subrange(0, p.len() as int) =~= p@);
    loop
        invariant
            start <= p.len(),
            out@.map_values(|v: Vec<char>| v@) + named_segments(p@.subrange(start as int, p.len() as int))
                == named_segments(p@),
        decreases p.len() - start,
    {
        let ghost rest = p@.subrange(start as int, p.len() as int);
        proof { lemma_first_index_of(rest, '/'); }
        let mut i = start;
        while i < p.len() && p[i] != '/'
            invariant
                start <= i <= p.len(),
                forall|j: int| start <= j < i ==> p@[j] != '/',
            decreases p.len() - i,
        {
            i += 1;
        }
        proof {
            assert(i - start == first_index_of(rest, '/')) by {
                if i - start < first_index_of(rest, '/') {
                    assert(rest[i - start] != '/');
                    assert(p@[i as int] == rest[i - start]);
                } else if i - start > first_index_of(rest, '/') {
                    let f = first_index_of(rest, '/');
                    assert(rest[f] == p@[start + f]);
                }
            }
        }
        let seg = slice_chars(p, start, i);
        assert(seg@ =~= rest.subrange(0, i - start));
        let ghost before = out@.map_values(|v: Vec<char>| v@);
        let is_named = !(seg.len() == 0 || (seg.len() == 1 && seg[0] == '.'));
        assert(is_named == !(seg@.len() == 0 || seg@ == seq!['.'])) by {
            if seg.len() == 1 && seg[0] == '.' { assert(seg@ =~= seq!['.']); }
        }
        if is_named {
            out.push(seg);
        }
        let ghost after = out@.map_values(|v: Vec<char>| v@);
        if i >= p.len() {
            assert(after =~= named_segments(p@)) by {
                if is_named {
                    assert(after =~= before.push(rest.subrange(0, i - start)));
                } else {
                    assert(after =~= before);
                }
                assert(before + named_segments(rest) == named_segments(p@));
            }
            return out;
        }
        proof {
            assert(rest.subrange(i - start + 1, rest.len() as int) =~= p@.subrange(i + 1, p.len() as int));
            if is_named {
                assert(after =~= before.push(rest.subrange(0, i - start)));
            } else {
                assert(after =~= before);
            }
            assert(after + named_segments(p@.subrange(i + 1, p.len() as int)) =~= before + named_segments(rest));
        }
        start = i + 1;
    }
}

/// Whether two paths name the same components.
pub fn same_path_str(a: &str, b: &str) -> (r: bool)
    ensures
        r == same_path(a@, b@),
{
    let x = chars_of(a);
    let y = chars_of(b);
    let rx = x.len() > 0 && x[0] == '/';
    let ry = y.len() > 0 && y[0] == '/';
    let cx = x.len() > 0 && x[0] == '.' && (x.len() == 1 || x[1] == '/');
    let cy = y.len() > 0 && y[0] == '.' && (y.len() == 1 || y[1] == '/');
    if rx != ry || cx != cy {
        return false;
    }
    let sx = segments_of(&x);
    let sy = segments_of(&y);
    let ghost vx = sx@.map_values(|v: Vec<char>| v@);
    let ghost vy = sy@.map_values(|v: Vec<char>| v@);
    if sx.len() != sy.len() {
        assert(vx.len() != vy.len());
        return false;
    }
    let mut i: usize = 0;
    while i < sx.len()
        invariant
            sx.len() == sy.len(),
            0 <= i <= sx.len(),
            vx == sx@.map_values(|v: Vec<char>| v@),
            vy == sy@.map_values(|v: Vec<char>| v@),
            vx == named_segments(a@),
            vy == named_segments(b@),
            forall|j: int| 0 <= j < i ==> vx[j] == vy[j],
        decreases sx.len() - i,
    {
        if !crate::text::chars_eq(&sx[i], &sy[i]) {
            assert(vx[i as int] != vy[i as int]);
            return false;
        }
        i += 1;
    }
    assert(vx =~= vy);
    true
}

} // verus!
