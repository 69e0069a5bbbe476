use vstd::prelude::*;
use vstd::utf8::{encode_scalar, encode_utf8};
use crate::layout::{byte_len, wide_lines, wide_text, max_len, COLUMN_PADDING};
use crate::name::{after_last_sep, ceil_path, display_name, ends_in_no_name, trim_tail, strip_verbatim_prefix, strip_markers, has_marker};
use crate::order::{is_sorted, sort_strings, views, lex_order, lemma_lex_total};

verus! {

/// One direct child of the searched directory: its full path, and whether it
/// is a directory.
#[derive(Clone, Debug)]
pub struct Child {
    pub path: String,
    pub is_dir: bool,
}

/// The four ways of listing a directory.
#[derive(Clone, Copy, Debug, PartialEq, Eq, Structural)]
pub enum Mode {
    /// Display names of the direct children, sorted.
    Names,
    /// Full paths of the direct children, in the order read.
    Full,
    /// Full paths of every file below the directory, as they are found.
    Recursive,
    /// Display names of the direct children in columns.
    Wide,
}

/// What an invocation does, once its flags are known and the search path
/// has been looked up.
#[derive(Clone, Copy, Debug, PartialEq, Eq, Structural)]
pub enum Action {
    /// The search path does not exist: report it and list nothing.
    PathMissing,
    /// More than one listing flag was given: report it and list nothing.
    ConflictingFlags,
    /// List in the given mode.
    List(Mode),
}

/// Failures of a listing that leave nothing to print.
#[derive(Clone, Copy, Debug, PartialEq, Eq, Structural)]
pub enum ListError {
    /// The width of the terminal could not be read.
    NoTerminalWidth,
    /// A child's path ends in no name.
    NoFileName,
}

/// How many of the three listing flags are set.
pub open spec fn flag_count(recursive: bool, full: bool, wide: bool) -> int {
    (if recursive { 1int } else { 0 }) + (if full { 1int } else { 0 }) + (if wide { 1int } else { 0 })
}

/// Decides what to do from whether the search path exists and which of the
/// flags `--recursive`, `--full` and `--wide` are set. Two or more flags are
/// a usage error, reported before anything else; a missing path comes next.
pub fn select_action(path_exists: bool, is_recursive: bool, is_full: bool, is_wide: bool) -> (r:
    Action)
    ensures
        flag_count(is_recursive, is_full, is_wide) >= 2 ==> r == Action::ConflictingFlags,
        flag_count(is_recursive, is_full, is_wide) <= 1 && !path_exists ==> r
            == Action::PathMissing,
        path_exists && flag_count(is_recursive, is_full, is_wide) == 0 ==> r == Action::List(
            Mode::Names,
        ),
        path_exists && flag_count(is_recursive, is_full, is_wide) == 1 ==> r == Action::List(
            if is_recursive {
                Mode::Recursive
            } else if is_full {
                Mode::Full
            } else {
                Mode::Wide
            },
        ),
{
    let mode = match (is_recursive, is_full, is_wide) {
        (true, false, false) => Mode::Recursive,
        (false, true, false) => Mode::Full,
        (false, false, true) => Mode::Wide,
        (false, false, false) => Mode::Names,
        _ => {
            return Action::ConflictingFlags;
        },
    };
    if path_exists {
        Action::List(mode)
    } else {
        Action::PathMissing
    }
}

/// The directory to search: the one given, else the current one.
pub fn search_dir(given: Option<String>, current: String) -> (r: String)
    ensures
        r == (match given {
            Some(p) => p,
            None => current,
        }),
{
    match given {
        Some(p) => p,
        None => current,
    }
}

/// The full paths of the children, in the order given.
pub open spec fn child_paths(children: Seq<Child>) -> Seq<Seq<char>> {
    children.map_values(|c: Child| c.path@)
}

/// Whether every child's path ends in a name.
pub open spec fn all_named(children: Seq<Child>) -> bool {
    forall|i: int| 0 <= i < children.len() ==> #[trigger] display_name(children[i].path@, children[i].is_dir) is Some
}

/// The display names of the children, in the order given.
pub open spec fn shown_names(children: Seq<Child>) -> Seq<Seq<char>> {
    children.map_values(|c: Child| display_name(c.path@, c.is_dir).unwrap())
}

/// Whether `out` is a plain listing of `children`: their display names in
/// ascending lexicographic order.
pub open spec fn is_name_listing(children: Seq<Child>, out: Seq<String>) -> bool {
    &&& all_named(children)
    &&& is_sorted(out)
    &&& views(out).to_multiset() == shown_names(children).to_multiset()
}

/// The full paths of the children, one per line, in the order read.
pub fn full_listing(children: &Vec<Child>) -> (r: Vec<String>)
    ensures
        views(r@) == child_paths(children@),
{
    let mut out: Vec<String> = Vec::new();
    let mut i: usize = 0;
    while i < children.len()
        invariant
            i <= children.len(),
            views(out@) =~= child_paths(children@.take(i as int)),
        decreases children.len() - i,
    {
        out.push(children[i].path.clone());
        assert(child_paths(children@.take(i + 1)) =~= child_paths(children@.take(i as int)).push(
            children@[i as int].path@,
        ));
        i = i + 1;
    }
    assert(children@.take(children.len() as int) =~= children@);
    out
}

/// The display names of the children in the order given, or `None` where
/// some child's path ends in no name.
pub fn display_names(children: &Vec<Child>) -> (r: Option<Vec<String>>)
    ensures
        r is Some <==> all_named(children@),
        r matches Some(v) ==> views(v@) == shown_names(children@),
{
    let mut out: Vec<String> = Vec::new();
    let mut i: usize = 0;
    while i < children.len()
        invariant
            i <= children.len(),
            all_named(children@.take(i as int)),
            views(out@) =~= shown_names(children@.take(i as int)),
        decreases children.len() - i,
    {
        let shown = ceil_path(children[i].path.as_str(), children[i].is_dir);
        match shown {
            None => {
                assert(!all_named(children@));
                return None;
            },
            Some(name) => {
                out.push(name);
                assert(children@.take(i + 1) =~= children@.take(i as int).push(children@[i as int]));
                assert(shown_names(children@.take(i + 1)) =~= shown_names(children@.take(i as int)).push(
                    display_name(children@[i as int].path@, children@[i as int].is_dir).unwrap(),
                ));
                assert(all_named(children@.take(i + 1)));
            },
        }
        i = i + 1;
    }
    assert(children@.take(children.len() as int) =~= children@);
    Some(out)
}

/// The plain listing: the display names of the children, sorted in
/// ascending lexicographic order. Fails where a path ends in no name.
pub fn name_listing(children: &Vec<Child>) -> (r: Result<Vec<String>, ListError>)
    ensures
        r is Ok <==> all_named(children@),
        r matches Ok(v) ==> is_name_listing(children@, v@),
        r matches Err(e) ==> e == ListError::NoFileName,
{
    match display_names(children) {
        None => Err(ListError::NoFileName),
        Some(names) => Ok(sort_strings(&names)),
    }
}

proof fn lemma_encode_concat(a: Seq<char>, b: Seq<char>)
    ensures
        byte_len(a + b) == byte_len(a) + byte_len(b),
    decreases a.len(),
{
    if a.len() > 0 {
        assert((a + b).drop_first() =~= a.drop_first() + b);
        assert((a + b)[0] == a[0]);
        lemma_encode_concat(a.drop_first(), b);
    } else {
        assert(a + b =~= b);
    }
}

proof fn lemma_trim_prefix(p: Seq<char>)
    ensures
        trim_tail(p).len() <= p.len(),
        trim_tail(p) == p.subrange(0, trim_tail(p).len() as int),
    decreases p.len(),
{
    if ends_in_no_name(p) {
        lemma_trim_prefix(p.drop_last());
        assert(p.drop_last().subrange(0, trim_tail(p).len() as int) =~= p.subrange(
            0,
            trim_tail(p).len() as int,
        ));
    } else {
        assert(p.subrange(0, p.len() as int) =~= p);
    }
}

proof fn lemma_after_sep_suffix(q: Seq<char>)
    ensures
        after_last_sep(q).len() <= q.len(),
        after_last_sep(q) == q.subrange(q.len() - after_last_sep(q).len(), q.len() as int),
    decreases q.len(),
{
    if q.len() > 0 && q.last() != '/' {
        lemma_after_sep_suffix(q.drop_last());
        let n = after_last_sep(q).len();
        assert(q.subrange(q.len() - n, q.len() as int) =~= q.drop_last().subrange(
            q.drop_last().len() - (n - 1),
            q.drop_last().len() as int,
        ).push(q.last()));
    } else if q.len() > 0 {
        assert(q.subrange(q.len() as int, q.len() as int) =~= Seq::<char>::empty());
    }
}

proof fn lemma_display_name_bytes(p: Seq<char>, is_dir: bool)
    requires
        display_name(p, is_dir) is Some,
    ensures
        byte_len(display_name(p, is_dir).unwrap()) <= byte_len(p) + 2,
{
    let t = trim_tail(p);
    lemma_trim_prefix(p);
    assert(p =~= t + p.subrange(t.len() as int, p.len() as int));
    lemma_encode_concat(t, p.subrange(t.len() as int, p.len() as int));
    let c = after_last_sep(t);
    lemma_after_sep_suffix(t);
    assert(t =~= t.subrange(0, t.len() - c.len()) + c);
    lemma_encode_concat(t.subrange(0, t.len() - c.len()), c);
    if is_dir {
        let open = seq!['['];
        let close = seq![']'];
        assert(open.drop_first() =~= Seq::<char>::empty());
        assert(close.drop_first() =~= Seq::<char>::empty());
        assert(('[' as u32) == 91);
        assert((']' as u32) == 93);
        assert(encode_utf8(Seq::<char>::empty()).len() == 0);
        assert(encode_scalar('[' as u32).len() == 1);
        assert(encode_scalar(']' as u32).len() == 1);
        assert(encode_utf8(open) == encode_scalar(open[0] as u32) + encode_utf8(open.drop_first()));
        assert(encode_utf8(close) == encode_scalar(close[0] as u32) + encode_utf8(
            close.drop_first(),
        ));
        assert(byte_len(open) == 1);
        assert(byte_len(close) == 1);
        lemma_encode_concat(open, c);
        lemma_encode_concat(open + c, close);
    }
}

proof fn lemma_max_len_bound(s: Seq<Seq<char>>, bound: nat)
    requires
        forall|i: int| 0 <= i < s.len() ==> #[trigger] byte_len(s[i]) <= bound,
    ensures
        max_len(s) <= bound,
    decreases s.len(),
{
    if s.len() > 0 {
        lemma_max_len_bound(s.drop_last(), bound);
    }
}

/// The wide listing: the display names of the children laid out in columns
/// on a terminal `term_width` cells wide, one string per line. Fails where
/// the terminal's width is unknown, or else where a path ends in no name.
pub fn wide_listing(children: &Vec<Child>, term_width: Option<usize>) -> (r: Result<
    Vec<String>,
    ListError,
>)
    requires
        forall|i: int|
            0 <= i < children@.len() ==> #[trigger] byte_len(children@[i].path@) + 2
                + COLUMN_PADDING <= usize::MAX,
    ensures
        term_width is None ==> r == Err::<Vec<String>, ListError>(ListError::NoTerminalWidth),
        term_width is Some && !all_named(children@) ==> r == Err::<Vec<String>, ListError>(
            ListError::NoFileName,
        ),
        term_width is Some && all_named(children@) ==> (r matches Ok(v) && views(v@)
            == wide_text(shown_names(children@), term_width.unwrap() as nat)),
{
    let width = match term_width {
        None => {
            return Err(ListError::NoTerminalWidth);
        },
        Some(w) => w,
    };
    match display_names(children) {
        None => Err(ListError::NoFileName),
        Some(names) => {
            proof {
                let s = shown_names(children@);
                assert(all_named(children@));
                assert forall|i: int| 0 <= i < s.len() implies #[trigger] byte_len(s[i])
                    <= usize::MAX - COLUMN_PADDING by {
                    assert(display_name(children@[i].path@, children@[i].is_dir) is Some);
                    lemma_display_name_bytes(children@[i].path@, children@[i].is_dir);
                }
                lemma_max_len_bound(s, (usize::MAX - COLUMN_PADDING) as nat);
            }
            Ok(wide_lines(&names, width))
        },
    }
}

/// What the recursive walk reports of one entry: its canonical path, without
/// the extended-length marker, where the path could be made canonical and
/// names a file; nothing otherwise.
pub open spec fn walk_report(canonical: Option<Seq<char>>, is_file: bool) -> Option<Seq<char>> {
    match canonical {
        Some(p) if is_file => Some(strip_markers(p)),
        _ => None,
    }
}

/// Decides what the recursive walk prints for one entry, from its canonical
/// path (`None` where that could not be had) and whether it names a file.
/// Directories and entries that failed are skipped.
pub fn walk_output(canonical: Option<String>, is_file: bool) -> (r: Option<String>)
    ensures
        crate::name::opt_view(r) == walk_report(crate::name::opt_view(canonical), is_file),
        r matches Some(p) ==> !has_marker(p@),
{
    match canonical {
        Some(p) => {
            if is_file {
                Some(strip_verbatim_prefix(p.as_str()))
            } else {
                None
            }
        },
        None => None,
    }
}

proof fn lemma_map_multiset(a: Seq<Child>, b: Seq<Child>)
    requires
        a.to_multiset() == b.to_multiset(),
    ensures
        shown_names(a).to_multiset() == shown_names(b).to_multiset(),
    decreases a.len(),
{
    broadcast use vstd::seq_lib::group_to_multiset_ensures;
    broadcast use vstd::multiset::group_multiset_axioms;

    if a.len() == 0 {
        assert(b.to_multiset().len() == 0);
        assert(shown_names(a) =~= Seq::<Seq<char>>::empty());
        assert(shown_names(b) =~= Seq::<Seq<char>>::empty());
    } else {
        let x = a[0];
        assert(a.to_multiset().count(x) > 0);
        assert(b.contains(x));
        let i = choose|i: int| 0 <= i < b.len() && b[i] == x;
        let b2 = b.remove(i);
        assert(a.drop_first() =~= a.remove(0));
        assert(a.drop_first().to_multiset() =~= b2.to_multiset());
        lemma_map_multiset(a.drop_first(), b2);
        assert(shown_names(a).remove(0) =~= shown_names(a.drop_first()));
        assert(shown_names(b).remove(i) =~= shown_names(b2));
        assert(shown_names(a).to_multiset() =~= shown_names(a.drop_first()).to_multiset().insert(
            shown_names(a)[0],
        )) by {
            assert(shown_names(a).remove(0).to_multiset() == shown_names(a).to_multiset().remove(
                shown_names(a)[0],
            ));
        }
        assert(shown_names(b).to_multiset() =~= shown_names(b2).to_multiset().insert(
            shown_names(b)[i],
        )) by {
            assert(shown_names(b).remove(i).to_multiset() == shown_names(b).to_multiset().remove(
                shown_names(b)[i],
            ));
        }
    }
}

/// The plain listing depends on the directory's contents alone: two reads of
/// the same children, in any order, give the same lines.
pub proof fn lemma_name_listing_repeatable(
    first: Seq<Child>,
    second: Seq<Child>,
    out1: Seq<String>,
    out2: Seq<String>,
)
    requires
        first.to_multiset() == second.to_multiset(),
        is_name_listing(first, out1),
        is_name_listing(second, out2),
    ensures
        views(out1) == views(out2),
{
    lemma_map_multiset(first, second);
    lemma_lex_total();
    vstd::seq_lib::lemma_sorted_unique(views(out1), views(out2), lex_order());
}

/// A plain listing is exactly the children's display names sorted in
/// ascending lexicographic order.
pub proof fn lemma_name_listing_is_sorted_names(children: Seq<Child>, out: Seq<String>)
    requires
        is_name_listing(children, out),
    ensures
        views(out) == shown_names(children).sort_by(lex_order()),
{
    lemma_lex_total();
    shown_names(children).lemma_sort_by_ensures(lex_order());
    vstd::seq_lib::lemma_sorted_unique(
        views(out),
        shown_names(children).sort_by(lex_order()),
        lex_order(),
    );
}

} // verus!
