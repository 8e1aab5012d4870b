//! File names and extensions of paths written with `/` separators, as
//! `std::path::Path::file_name` and `Path::extension` find them on Unix.
//! Paths are read as on Unix: `/` is the only separator, and there are no
//! drive prefixes (on Windows, `Path` also splits at `\`).

use vstd::prelude::*;

verus! {

/// The position of the last `c` in `s`, or -1 where `s` holds none.
pub open spec fn last_index_of(s: Seq<char>, c: char) -> int
    decreases s.len(),
{
    if s.len() == 0 {
        -1
    } else if s.last() == c {
        s.len() - 1
    } else {
        last_index_of(s.drop_last(), c)
    }
}

/// `last_index_of` is -1 or the position of a `c`, after which no `c` comes.
pub proof fn lemma_last_index_of(s: Seq<char>, c: char)
    ensures
        -1 <= last_index_of(s, c) < s.len(),
        last_index_of(s, c) >= 0 ==> s[last_index_of(s, c)] == c,
        forall|j: int| last_index_of(s, c) < j < s.len() ==> s[j] != c,
    decreases s.len(),
{
    if s.len() > 0 && s.last() != c {
        lemma_last_index_of(s.drop_last(), c);
        assert forall|j: int| last_index_of(s, c) < j < s.len() implies s[j] != c by {
            if j < s.len() - 1 {
                assert(s.drop_last()[j] == s[j]);
            }
        }
    }
}

/// The last component of path `p`, where it is a name: components are the
/// pieces between `/` separators; empty pieces and `.` are skipped; a path
/// whose last component is `..`, or that has none, has no file name.
pub open spec fn file_name(p: Seq<char>) -> Option<Seq<char>>
    decreases p.len(),
{
    let k = last_index_of(p, '/');
    let seg = p.subrange(k + 1, p.len() as int);
    if seg.len() == 0 || seg == seq!['.'] {
        if k < 0 || k >= p.len() {
            None
        } else {
            file_name(p.subrange(0, k))
        }
    } else if seg == seq!['.', '.'] {
        None
    } else {
        Some(seg)
    }
}

/// The extension of a file name: what follows its last `.`, where that dot
/// is not the name's first character.
pub open spec fn name_extension(name: Seq<char>) -> Option<Seq<char>> {
    let d = last_index_of(name, '.');
    if d <= 0 {
        None
    } else {
        Some(name.subrange(d + 1, name.len() as int))
    }
}

/// The extension of the file name of `p`, if it has both.
pub open spec fn extension(p: Seq<char>) -> Option<Seq<char>> {
    match file_name(p) {
        Some(name) => name_extension(name),
        None => None,
    }
}

/// The position of the last `c` among the first `end` characters.
fn last_index(chars: &Vec<char>, end: usize, c: char) -> (k: Option<usize>)
    requires
        end <= chars@.len(),
    ensures
        match k {
            Some(k) => k < end && last_index_of(chars@.take(end as int), c) == k,
            None => last_index_of(chars@.take(end as int), c) == -1,
        },
{
    let mut i = end;
    while i > 0
        invariant
            i <= end <= chars@.len(),
            last_index_of(chars@.take(end as int), c) == last_index_of(chars@.take(i as int), c),
        decreases i,
    {
        assert(chars@.take(i as int).drop_last() =~= chars@.take(i - 1));
        if chars[i - 1] == c {
            return Some(i - 1);
        }
        i = i - 1;
    }
    None
}

/// The characters `chars[from..to]` as a string.
pub fn string_of(chars: &Vec<char>, from: usize, to: usize) -> (s: String)
    requires
        from <= to <= chars@.len(),
    ensures
        s@ == chars@.subrange(from as int, to as int),
{
    let mut s = String::new();
    let mut i = from;
    while i < to
        invariant
            from <= i <= to <= chars@.len(),
            s@ == chars@.subrange(from as int, i as int),
        decreases to - i,
    {
        crate::text::push_char(&mut s, chars[i]);
        assert(chars@.subrange(from as int, i + 1) =~= chars@.subrange(from as int, i as int).push(
            chars@[i as int],
        ));
        i = i + 1;
    }
    s
}

/// The bounds of the file name of `chars` within it, if it has one.
fn file_name_bounds(chars: &Vec<char>) -> (b: Option<(usize, usize)>)
    ensures
        match b {
            Some((from, to)) => from <= to <= chars@.len() && file_name(chars@) == Some(
                chars@.subrange(from as int, to as int),
            ),
            None => file_name(chars@) is None,
        },
{
    let mut end = chars.len();
    assert(chars@.take(end as int) =~= chars@);
    loop
        invariant
            end <= chars@.len(),
            file_name(chars@) == file_name(chars@.take(end as int)),
        decreases end,
    {
        let ghost p = chars@.take(end as int);
        let k = last_index(chars, end, '/');
        let start = match k {
            Some(k) => k + 1,
            None => 0,
        };
        proof {
            lemma_last_index_of(p, '/');
        }
        let ghost seg = p.subrange(start as int, end as int);
        assert(seg =~= chars@.subrange(start as int, end as int));
        let len = end - start;
        if len == 0 || (len == 1 && chars[start] == '.') {
            assert(len == 1 ==> seg =~= seq!['.']);
            match k {
                Some(k) => {
                    assert(p.subrange(0, k as int) =~= chars@.take(k as int));
                    end = k;
                },
                None => {
                    return None;
                },
            }
        } else if len == 2 && chars[start] == '.' && chars[start + 1] == '.' {
            assert(seg =~= seq!['.', '.']);
            return None;
        } else {
            assert(len == 1 ==> seg != seq!['.']) by {
                if len == 1 {
                    assert(seg[0] != '.');
                }
            }
            assert(len == 2 ==> seg != seq!['.', '.']) by {
                if len == 2 && seg == seq!['.', '.'] {
                    assert(seg[0] == '.' && seg[1] == '.');
                }
            }
            return Some((start, end));
        }
    }
}

/// The extension of the file name of `path`, as `Path::extension` gives it
/// on Unix.
pub fn path_extension(path: &str) -> (ext: Option<String>)
    ensures
        match ext {
            Some(e) => extension(path@) == Some(e@),
            None => extension(path@) is None,
        },
{
    let chars = crate::text::char_vec(path);
    match file_name_bounds(&chars) {
        None => None,
        Some((from, to)) => {
            let ghost name = chars@.subrange(from as int, to as int);
            let name_chars_end = to;
            let mut i = to;
            let mut dot: Option<usize> = None;
            while i > from
                invariant_except_break
                    dot is None,
                invariant
                    from <= i <= to <= chars@.len(),
                    dot is None ==> last_index_of(name, '.') == last_index_of(
                        chars@.subrange(from as int, i as int),
                        '.',
                    ),
                ensures
                    dot is None ==> i == from,
                    dot is None ==> last_index_of(name, '.') == -1,
                    dot matches Some(d) ==> from <= d < to && last_index_of(name, '.') == d - from,
                decreases i,
            {
                assert(chars@.subrange(from as int, i as int).drop_last() =~= chars@.subrange(
                    from as int,
                    i - 1,
                ));
                if chars[i - 1] == '.' {
                    assert(chars@.subrange(from as int, i as int).last() == chars@[i - 1]);
                    assert(last_index_of(chars@.subrange(from as int, i as int), '.') == i - 1 - from);
                    dot = Some(i - 1);
                    break;
                }
                i = i - 1;
            }
            match dot {
                Some(d) => {
                    if d == from {
                        None
                    } else {
                        assert(name.subrange(d - from + 1, name.len() as int) =~= chars@.subrange(
                            d + 1,
                            to as int,
                        ));
                        Some(string_of(&chars, d + 1, name_chars_end))
                    }
                },
                None => None,
            }
        },
    }
}

/// Trailing separators, and a trailing `.` component, do not change a
/// path's file name, nor so its extension.
pub proof fn law_trailing_separator(p: Seq<char>)
    ensures
        file_name(p.push('/')) == file_name(p),
        file_name(p.push('/').push('.')) == file_name(p),
        extension(p.push('/')) == extension(p),
        extension(p.push('/').push('.')) == extension(p),
{
    let q = p.push('/');
    assert(last_index_of(q, '/') == p.len());
    assert(q.subrange(p.len() as int + 1, q.len() as int) =~= Seq::<char>::empty());
    assert(q.subrange(0, p.len() as int) =~= p);
    let r = q.push('.');
    assert(r.drop_last() =~= q);
    assert(last_index_of(r, '/') == p.len());
    assert(r.subrange(p.len() as int + 1, r.len() as int) =~= seq!['.']);
    assert(r.subrange(0, p.len() as int) =~= p);
}

proof fn lemma_last_mark(b: Seq<char>, c: char, e: Seq<char>)
    requires
        forall|i: int| 0 <= i < e.len() ==> #[trigger] e[i] != c,
    ensures
        last_index_of(b.push(c) + e, c) == b.len(),
    decreases e.len(),
{
    let s = b.push(c) + e;
    if e.len() == 0 {
        assert(s =~= b.push(c));
    } else {
        let e1 = e.drop_last();
        assert forall|i: int| 0 <= i < e1.len() implies #[trigger] e1[i] != c by {
            assert(e1[i] == e[i]);
        }
        lemma_last_mark(b, c, e1);
        assert(s.drop_last() =~= b.push(c) + e1);
        assert(s.last() == e[e.len() - 1]);
    }
}

/// The file name of a path is its last component, where that is a name
/// (not empty, `.` or `..`).
pub proof fn law_file_name_last_component(dir: Seq<char>, name: Seq<char>)
    requires
        forall|i: int| 0 <= i < name.len() ==> #[trigger] name[i] != '/',
        name.len() > 0,
        name != seq!['.'],
        name != seq!['.', '.'],
    ensures
        file_name(dir.push('/') + name) == Some(name),
        file_name(name) == Some(name),
{
    lemma_last_mark(dir, '/', name);
    let p = dir.push('/') + name;
    assert(p.subrange(dir.len() as int + 1, p.len() as int) =~= name);
    lemma_last_index_of(name, '/');
    assert(name.subrange(0, name.len() as int) =~= name);
}

/// The extension of a name is what follows its last dot, when something
/// comes before that dot; a name with no dot, or whose only dot comes
/// first, has none.
pub proof fn law_name_extension(b: Seq<char>, e: Seq<char>)
    requires
        forall|i: int| 0 <= i < e.len() ==> #[trigger] e[i] != '.',
    ensures
        b.len() > 0 ==> name_extension(b.push('.') + e) == Some(e),
        b.len() == 0 ==> name_extension(b.push('.') + e) is None,
        name_extension(e) is None,
{
    lemma_last_mark(b, '.', e);
    let s = b.push('.') + e;
    assert(s.subrange(b.len() as int + 1, s.len() as int) =~= e);
    lemma_last_index_of(e, '.');
}

} // verus!
