use vstd::prelude::*;

verus! {

/// Whether `p` ends in a path separator, or in a `.` component after one.
pub open spec fn ends_in_no_name(p: Seq<char>) -> bool {
    p.len() > 0 && (p.last() == '/' || (p.last() == '.' && p.len() >= 2 && p[p.len() - 2]
        == '/'))
}

/// `p` without the separators and `.` components at its end, which name no
/// entry of their own.
pub open spec fn trim_tail(p: Seq<char>) -> Seq<char>
    decreases p.len(),
{
    if ends_in_no_name(p) {
        trim_tail(p.drop_last())
    } else {
        p
    }
}

/// The characters of `p` after its last path separator (all of `p` if it has none).
pub open spec fn after_last_sep(p: Seq<char>) -> Seq<char>
    decreases p.len(),
{
    if p.len() == 0 {
        p
    } else if p.last() == '/' {
        Seq::empty()
    } else {
        after_last_sep(p.drop_last()).push(p.last())
    }
}

/// The last component of a path, trailing separators and `.` components
/// ignored. A path that ends in no name (empty, the root, `.` or `..`) has none.
pub open spec fn final_component(p: Seq<char>) -> Option<Seq<char>> {
    let c = after_last_sep(trim_tail(p));
    if c.len() == 0 || c == seq!['.'] || c == seq!['.', '.'] {
        None
    } else {
        Some(c)
    }
}

/// How an entry is shown in a plain or wide listing: its last component,
/// in square brackets for a directory.
pub open spec fn display_name(p: Seq<char>, is_dir: bool) -> Option<Seq<char>> {
    match final_component(p) {
        None => None,
        Some(c) => Some(
            if is_dir {
                seq!['['] + c + seq![']']
            } else {
                c
            },
        ),
    }
}

/// The character sequence inside an optional string.
pub open spec fn opt_view(s: Option<String>) -> Option<Seq<char>> {
    match s {
        None => None,
        Some(t) => Some(t@),
    }
}

/// The last component of `path`, or `None` where the path ends in no name.
pub fn file_name(path: &str) -> (r: Option<String>)
    ensures
        opt_view(r) == final_component(path@),
{
    let p = Ghost(path@);
    let len = path.unicode_len();
    let mut end: usize = len;
    assert(p@.subrange(0, len as int) =~= p@);
    while end > 0 && (path.get_char(end - 1) == '/' || (end >= 2 && path.get_char(end - 1) == '.'
        && path.get_char(end - 2) == '/'))
        invariant
            end <= len,
            len == p@.len(),
            p@ == path@,
            trim_tail(p@) == trim_tail(p@.subrange(0, end as int)),
        decreases end,
    {
        assert(p@.subrange(0, end as int).drop_last() =~= p@.subrange(0, end - 1));
        end = end - 1;
    }
    let mut start: usize = end;
    assert(p@.subrange(end as int, end as int) =~= Seq::<char>::empty());
    assert(after_last_sep(p@.subrange(0, end as int)) =~= after_last_sep(
        p@.subrange(0, start as int),
    ) + p@.subrange(start as int, end as int));
    while start > 0 && path.get_char(start - 1) != '/'
        invariant
            start <= end <= len,
            len == p@.len(),
            p@ == path@,
            after_last_sep(p@.subrange(0, end as int)) == after_last_sep(
                p@.subrange(0, start as int),
            ) + p@.subrange(start as int, end as int),
        decreases start,
    {
        let ghost pre = p@.subrange(0, start as int);
        assert(pre.drop_last() =~= p@.subrange(0, start - 1));
        assert(after_last_sep(pre) == after_last_sep(pre.drop_last()).push(pre.last()));
        assert(p@.subrange(start - 1, end as int) =~= seq![pre.last()] + p@.subrange(
            start as int,
            end as int,
        ));
        assert(after_last_sep(pre.drop_last()).push(pre.last()) + p@.subrange(
            start as int,
            end as int,
        ) =~= after_last_sep(pre.drop_last()) + p@.subrange(start - 1, end as int));
        start = start - 1;
    }
    assert(after_last_sep(p@.subrange(0, start as int)) =~= Seq::<char>::empty());
    assert(!ends_in_no_name(p@.subrange(0, end as int)));
    assert(trim_tail(p@.subrange(0, end as int)) == p@.subrange(0, end as int));
    assert(p@.subrange(start as int, end as int) =~= after_last_sep(trim_tail(p@)));
    let n = end - start;
    if n == 0 {
        return None;
    }
    if path.get_char(start) == '.' && (n == 1 || (n == 2 && path.get_char(start + 1) == '.')) {
        assert(p@.subrange(start as int, end as int) =~= seq!['.'] || p@.subrange(
            start as int,
            end as int,
        ) =~= seq!['.', '.']);
        return None;
    }
    let part = path.substring_char(start, end);
    proof {
        let c = part@;
        if c == seq!['.'] {
            assert(c[0] == '.');
        }
        if c == seq!['.', '.'] {
            assert(c[0] == '.' && c[1] == '.');
        }
    }
    Some(String::from_str(part))
}

/// The name under which `path` is shown: its last component, bracketed for
/// a directory; `None` where the path ends in no name.
pub fn ceil_path(path: &str, is_dir: bool) -> (r: Option<String>)
    ensures
        opt_view(r) == display_name(path@, is_dir),
{
    match file_name(path) {
        None => None,
        Some(name) => {
            if is_dir {
                let mut shown = String::from_str("[");
                shown.append(name.as_str());
                shown.append("]");
                proof {
                    reveal_strlit("[");
                    reveal_strlit("]");
                }
                assert(shown@ =~= seq!['['] + name@ + seq![']']);
                Some(shown)
            } else {
                Some(name)
            }
        },
    }
}

/// The extended-length marker `\\?\` that canonical paths may start with on some platforms.
pub open spec fn verbatim_marker() -> Seq<char> {
    seq!['\\', '\\', '?', '\\']
}

/// Whether `s` starts with the extended-length marker.
pub open spec fn has_marker(s: Seq<char>) -> bool {
    s.len() >= 4 && s.subrange(0, 4) == verbatim_marker()
}

/// `s` with every extended-length marker at its start removed.
pub open spec fn strip_markers(s: Seq<char>) -> Seq<char>
    decreases s.len(),
{
    if has_marker(s) {
        strip_markers(s.skip(4))
    } else {
        s
    }
}

/// Whether the characters of `path` from position `i` on start with the
/// extended-length marker.
fn marker_at(path: &str, i: usize, len: usize) -> (r: bool)
    requires
        len == path@.len(),
        i <= len,
    ensures
        r == has_marker(path@.skip(i as int)),
{
    if len - i < 4 {
        return false;
    }
    let ghost rest = path@.skip(i as int);
    let r = path.get_char(i) == '\\' && path.get_char(i + 1) == '\\' && path.get_char(i + 2)
        == '?' && path.get_char(i + 3) == '\\';
    assert(rest[0] == path@[i as int] && rest[1] == path@[i + 1] && rest[2] == path@[i + 2]
        && rest[3] == path@[i + 3]);
    if r {
        assert(rest.subrange(0, 4) =~= verbatim_marker());
    } else {
        proof {
            if has_marker(rest) {
                assert(rest[0] == rest.subrange(0, 4)[0]);
                assert(rest[1] == rest.subrange(0, 4)[1]);
                assert(rest[2] == rest.subrange(0, 4)[2]);
                assert(rest[3] == rest.subrange(0, 4)[3]);
            }
        }
    }
    r
}

/// `path` without the extended-length markers at its start, so that it reads
/// as a plain path.
pub fn strip_verbatim_prefix(path: &str) -> (r: String)
    ensures
        r@ == strip_markers(path@),
        !has_marker(r@),
{
    let len = path.unicode_len();
    let mut i: usize = 0;
    assert(path@.skip(0) =~= path@);
    while marker_at(path, i, len)
        invariant
            len == path@.len(),
            i <= len,
            strip_markers(path@) == strip_markers(path@.skip(i as int)),
        decreases len - i,
    {
        assert(path@.skip(i as int).skip(4) =~= path@.skip(i + 4));
        i = i + 4;
    }
    let tail = path.substring_char(i, len);
    assert(tail@ =~= path@.skip(i as int));
    String::from_str(tail)
}

} // verus!
