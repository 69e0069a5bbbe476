use vstd::prelude::*;
use crate::order::views;
use vstd::utf8::encode_utf8;

verus! {

/// Blank cells written after the longest name of a wide listing.
pub const COLUMN_PADDING: usize = 3;

/// Length in bytes of the UTF-8 encoding of `s`, which is what `str::len` counts.
pub open spec fn byte_len(s: Seq<char>) -> nat {
    encode_utf8(s).len()
}

/// Length in bytes of the longest string in `s`; 0 for none.
pub open spec fn max_len(s: Seq<Seq<char>>) -> nat
    decreases s.len(),
{
    if s.len() == 0 {
        0
    } else {
        let m = max_len(s.drop_last());
        if byte_len(s.last()) > m {
            byte_len(s.last())
        } else {
            m
        }
    }
}

/// Width of one column of a wide listing whose longest name has `longest` bytes.
pub open spec fn column_width(longest: nat) -> nat {
    (longest + COLUMN_PADDING) as nat
}

/// Number of names on each line of a wide listing: as many columns as fit in
/// the terminal, and one where not even one fits.
pub open spec fn columns_per_line(term_width: nat, longest: nat) -> nat {
    let fit = term_width / column_width(longest);
    if fit == 0 {
        1
    } else {
        fit
    }
}

/// `s` filled up with blanks on the right to `width` characters.
pub open spec fn padded(s: Seq<char>, width: nat) -> Seq<char> {
    if s.len() >= width {
        s
    } else {
        s + Seq::new((width - s.len()) as nat, |i: int| ' ')
    }
}

/// The lines of `s` from position `start` on, `per_line` entries to a line.
pub open spec fn rows_from(s: Seq<Seq<char>>, start: int, per_line: int) -> Seq<
    Seq<Seq<char>>,
>
    decreases s.len() - start,
{
    if per_line <= 0 || start < 0 || start >= s.len() {
        Seq::empty()
    } else {
        let end = if start + per_line < s.len() {
            start + per_line
        } else {
            s.len() as int
        };
        seq![s.subrange(start, end)] + rows_from(s, end, per_line)
    }
}

/// `s` cut into lines of `per_line` entries, the last one possibly shorter.
pub open spec fn rows(s: Seq<Seq<char>>, per_line: int) -> Seq<Seq<Seq<char>>> {
    rows_from(s, 0, per_line)
}

/// The text of one line: each entry padded to the column width.
pub open spec fn render_row(row: Seq<Seq<char>>, width: nat) -> Seq<char>
    decreases row.len(),
{
    if row.len() == 0 {
        Seq::empty()
    } else {
        render_row(row.drop_last(), width) + padded(row.last(), width)
    }
}

/// The lines of the wide listing of `names` on a terminal `term_width` cells wide.
pub open spec fn wide_text(names: Seq<Seq<char>>, term_width: nat) -> Seq<Seq<char>> {
    let longest = max_len(names);
    let lines = rows(names, columns_per_line(term_width, longest) as int);
    Seq::new(lines.len(), |k: int| render_row(lines[k], column_width(longest)))
}

proof fn lemma_rows_from_shape(s: Seq<Seq<char>>, start: int, per_line: int)
    requires
        0 <= start <= s.len(),
        per_line >= 1,
    ensures
        rows_from(s, start, per_line).flatten() == s.subrange(start, s.len() as int),
        forall|k: int|
            0 <= k < rows_from(s, start, per_line).len() - 1 ==> #[trigger] rows_from(
                s,
                start,
                per_line,
            )[k].len() == per_line,
        rows_from(s, start, per_line).len() > 0 ==> 1 <= rows_from(
            s,
            start,
            per_line,
        ).last().len() <= per_line,
    decreases s.len() - start,
{
    if start < s.len() {
        let end = if start + per_line < s.len() {
            start + per_line
        } else {
            s.len() as int
        };
        lemma_rows_from_shape(s, end, per_line);
        let rest = rows_from(s, end, per_line);
        let all = rows_from(s, start, per_line);
        assert(all.drop_first() =~= rest);
        assert(s.subrange(start, end) + s.subrange(end, s.len() as int) =~= s.subrange(
            start,
            s.len() as int,
        ));
        if rest.len() > 0 {
            assert(end == start + per_line);
            assert(all.last() == rest.last());
        }
    } else {
        assert(s.subrange(start, s.len() as int) =~= Seq::<Seq<char>>::empty());
    }
}

/// Shape of a wide listing: the names appear in order, `columns_per_line` to a
/// line; every line but the last is full and the last holds at least one name.
/// Where one column fits in the terminal, the number per line is the terminal
/// width divided by the column width, rounded down; otherwise it is one.
pub proof fn lemma_wide_rows_shape(names: Seq<Seq<char>>, term_width: nat)
    ensures
        ({
            let w = column_width(max_len(names));
            let c = columns_per_line(term_width, max_len(names));
            let lines = rows(names, c as int);
            &&& c >= 1
            &&& term_width >= w ==> c == term_width / w
            &&& term_width < w ==> c == 1
            &&& lines.flatten() == names
            &&& forall|k: int| 0 <= k < lines.len() - 1 ==> #[trigger] lines[k].len() == c
            &&& lines.len() > 0 ==> 1 <= lines.last().len() <= c
        }),
{
    let w = column_width(max_len(names));
    let c = columns_per_line(term_width, max_len(names));
    assert(term_width >= w ==> term_width / w >= 1) by (nonlinear_arith)
        requires
            w >= 1,
    ;
    assert(term_width < w ==> term_width / w == 0) by (nonlinear_arith)
        requires
            w >= 1,
    ;
    lemma_rows_from_shape(names, 0, c as int);
    assert(names.subrange(0, names.len() as int) =~= names);
}

/// Number of names per line of a wide listing, for a terminal `term_width` cells wide.
pub fn line_capacity(term_width: usize, longest: usize) -> (r: usize)
    requires
        longest + COLUMN_PADDING <= usize::MAX,
    ensures
        r as nat == columns_per_line(term_width as nat, longest as nat),
        r >= 1,
{
    let fit = term_width / (longest + COLUMN_PADDING);
    if fit == 0 {
        1
    } else {
        fit
    }
}

/// Length in bytes of the longest of `strings`; 0 for none.
pub fn get_string_max_length(strings: &Vec<String>) -> (r: usize)
    ensures
        r as nat == max_len(views(strings@)),
{
    let mut best: usize = 0;
    let mut i: usize = 0;
    assert(views(strings@.take(0)) =~= Seq::<Seq<char>>::empty());
    while i < strings.len()
        invariant
            i <= strings.len(),
            best as nat == max_len(views(strings@.take(i as int))),
        decreases strings.len() - i,
    {
        let n = strings[i].as_str().as_bytes().len();
        assert(views(strings@.take(i + 1)).drop_last() =~= views(strings@.take(i as int)));
        if n > best {
            best = n;
        }
        i = i + 1;
    }
    assert(strings@.take(strings.len() as int) =~= strings@);
    best
}

/// `s` filled up with blanks on the right to `width` characters.
pub fn pad_right(s: &str, width: usize) -> (r: String)
    ensures
        r@ == padded(s@, width as nat),
{
    let mut out = String::from_str(s);
    let mut n = s.unicode_len();
    let len = n;
    proof {
        reveal_strlit(" ");
    }
    assert(out@ =~= s@ + Seq::new(0, |i: int| ' '));
    while n < width
        invariant
            len == s@.len(),
            len <= n,
            n <= width || n == len,
            out@ == s@ + Seq::new((n - len) as nat, |i: int| ' '),
        decreases width - n,
    {
        out.append(" ");
        proof {
            reveal_strlit(" ");
        }
        assert(s@ + Seq::new((n + 1 - len) as nat, |i: int| ' ') =~= s@ + Seq::new(
            (n - len) as nat,
            |i: int| ' ',
        ) + seq![' ']);
        n = n + 1;
    }
    assert(out@ =~= padded(s@, width as nat));
    out
}

/// The lines of a wide listing of `names` on a terminal `term_width` cells
/// wide: each line holds as many names as fit (at least one), each padded to
/// the longest name's length in bytes plus `COLUMN_PADDING` characters.
pub fn wide_lines(names: &Vec<String>, term_width: usize) -> (r: Vec<String>)
    requires
        max_len(views(names@)) + COLUMN_PADDING <= usize::MAX,
    ensures
        views(r@) == wide_text(views(names@), term_width as nat),
{
    let ghost v = views(names@);
    let longest = get_string_max_length(names);
    let width = longest + COLUMN_PADDING;
    let per_line = line_capacity(term_width, longest);
    let ghost all = rows(v, per_line as int);
    let ghost target = wide_text(v, term_width as nat);
    let mut out: Vec<String> = Vec::new();
    let mut start: usize = 0;
    let len = names.len();
    while start < len
        invariant
            len == names@.len(),
            v == views(names@),
            start <= len,
            per_line >= 1,
            width as nat == column_width(max_len(v)),
            all == rows(v, per_line as int),
            all =~= Seq::new(out@.len() as nat, |k: int| all[k]) + rows_from(
                v,
                start as int,
                per_line as int,
            ),
            target.len() == all.len(),
            forall|k: int| 0 <= k < all.len() ==> #[trigger] target[k] == render_row(all[k], width as nat),
            forall|k: int| 0 <= k < out@.len() ==> #[trigger] out@[k]@ == target[k],
        decreases len - start,
    {
        let end: usize = if per_line < len - start {
            start + per_line
        } else {
            len
        };
        let mut line = String::new();
        let mut j: usize = start;
        assert(v.subrange(start as int, start as int) =~= Seq::<Seq<char>>::empty());
        while j < end
            invariant
                start <= j <= end <= len,
                len == names@.len(),
                v == views(names@),
                line@ == render_row(v.subrange(start as int, j as int), width as nat),
            decreases end - j,
        {
            let cell = pad_right(names[j].as_str(), width);
            line.append(cell.as_str());
            assert(v.subrange(start as int, j + 1).drop_last() =~= v.subrange(
                start as int,
                j as int,
            ));
            j = j + 1;
        }
        let ghost k = out@.len() as int;
        assert(rows_from(v, start as int, per_line as int)[0] == v.subrange(
            start as int,
            end as int,
        ));
        out.push(line);
        assert(all =~= Seq::new(out@.len() as nat, |i: int| all[i]) + rows_from(
            v,
            end as int,
            per_line as int,
        ));
        start = end;
    }
    assert(views(out@) =~= target);
    out
}

} // verus!
