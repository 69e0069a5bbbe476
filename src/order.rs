use vstd::prelude::*;
use vstd::relations::{sorted_by, total_ordering};

verus! {

/// Lexicographic order on character sequences, comparing code points; a
/// proper prefix comes first. This is the order of `String`'s `Ord`.
pub open spec fn lex_le(a: Seq<char>, b: Seq<char>) -> bool
    decreases a.len(),
{
    if a.len() == 0 {
        true
    } else if b.len() == 0 {
        false
    } else if a[0] != b[0] {
        a[0] < b[0]
    } else {
        lex_le(a.drop_first(), b.drop_first())
    }
}

/// `lex_le` as a relation value, for the ordering predicates of vstd.
pub open spec fn lex_order() -> spec_fn(Seq<char>, Seq<char>) -> bool {
    |a: Seq<char>, b: Seq<char>| lex_le(a, b)
}

/// The character sequences of a list of strings.
pub open spec fn views(s: Seq<String>) -> Seq<Seq<char>> {
    s.map_values(|x: String| x@)
}

/// A list of strings in ascending lexicographic order.
pub open spec fn is_sorted(s: Seq<String>) -> bool {
    sorted_by(views(s), lex_order())
}

proof fn lemma_lex_reflexive(a: Seq<char>)
    ensures
        lex_le(a, a),
    decreases a.len(),
{
    if a.len() > 0 {
        lemma_lex_reflexive(a.drop_first());
    }
}

proof fn lemma_lex_antisymmetric(a: Seq<char>, b: Seq<char>)
    requires
        lex_le(a, b),
        lex_le(b, a),
    ensures
        a == b,
    decreases a.len(),
{
    if a.len() > 0 && b.len() > 0 {
        if a[0] == b[0] {
            lemma_lex_antisymmetric(a.drop_first(), b.drop_first());
            assert(a =~= seq![a[0]] + a.drop_first());
            assert(b =~= seq![b[0]] + b.drop_first());
        }
    }
}

proof fn lemma_lex_transitive(a: Seq<char>, b: Seq<char>, c: Seq<char>)
    requires
        lex_le(a, b),
        lex_le(b, c),
    ensures
        lex_le(a, c),
    decreases a.len(),
{
    if a.len() > 0 && b.len() > 0 && c.len() > 0 {
        if a[0] == b[0] && b[0] == c[0] {
            lemma_lex_transitive(a.drop_first(), b.drop_first(), c.drop_first());
        }
    }
}

proof fn lemma_lex_connected(a: Seq<char>, b: Seq<char>)
    ensures
        lex_le(a, b) || lex_le(b, a),
    decreases a.len(),
{
    if a.len() > 0 && b.len() > 0 {
        if a[0] == b[0] {
            lemma_lex_connected(a.drop_first(), b.drop_first());
        }
    }
}

/// Lexicographic order is a total ordering of character sequences.
pub proof fn lemma_lex_total()
    ensures
        total_ordering(lex_order()),
{
    assert forall|a: Seq<char>| #[trigger] lex_order()(a, a) by {
        lemma_lex_reflexive(a);
    }
    assert forall|a: Seq<char>, b: Seq<char>|
        #[trigger] lex_order()(a, b) && #[trigger] lex_order()(b, a) implies a == b by {
        lemma_lex_antisymmetric(a, b);
    }
    assert forall|a: Seq<char>, b: Seq<char>, c: Seq<char>|
        #[trigger] lex_order()(a, b) && #[trigger] lex_order()(b, c) implies lex_order()(a, c) by {
        lemma_lex_transitive(a, b, c);
    }
    assert forall|a: Seq<char>, b: Seq<char>|
        #[trigger] lex_order()(a, b) || #[trigger] lex_order()(b, a) by {
        lemma_lex_connected(a, b);
    }
}

/// Whether `a` comes before `b` or equals it in lexicographic order.
pub fn str_le(a: &str, b: &str) -> (r: bool)
    ensures
        r == lex_le(a@, b@),
{
    let la = a.unicode_len();
    let lb = b.unicode_len();
    let mut i: usize = 0;
    assert(a@.skip(0) =~= a@);
    assert(b@.skip(0) =~= b@);
    while i < la && i < lb
        invariant
            la == a@.len(),
            lb == b@.len(),
            i <= la,
            i <= lb,
            lex_le(a@, b@) == lex_le(a@.skip(i as int), b@.skip(i as int)),
        decreases la - i,
    {
        let ca = a.get_char(i);
        let cb = b.get_char(i);
        if ca != cb {
            return ca < cb;
        }
        assert(a@.skip(i as int).drop_first() =~= a@.skip(i + 1));
        assert(b@.skip(i as int).drop_first() =~= b@.skip(i + 1));
        i = i + 1;
    }
    i == la
}

/// The strings of `names`, in ascending lexicographic order.
pub fn sort_strings(names: &Vec<String>) -> (r: Vec<String>)
    ensures
        is_sorted(r@),
        views(r@).to_multiset() == views(names@).to_multiset(),
{
    broadcast use vstd::seq_lib::group_to_multiset_ensures;

    proof {
        lemma_lex_total();
    }
    let mut out: Vec<String> = Vec::new();
    let mut k: usize = 0;
    while k < names.len()
        invariant
            k <= names.len(),
            is_sorted(out@),
            views(out@).to_multiset() == views(names@.take(k as int)).to_multiset(),
            total_ordering(lex_order()),
        decreases names.len() - k,
    {
        let x = names[k].clone();
        let mut pos: usize = 0;
        while pos < out.len() && str_le(out[pos].as_str(), x.as_str())
            invariant
                pos <= out.len(),
                forall|j: int| 0 <= j < pos ==> lex_le(#[trigger] out@[j]@, x@),
            decreases out.len() - pos,
        {
            pos = pos + 1;
        }
        let ghost before = out@;
        out.insert(pos, x);
        proof {
            assert(views(out@) =~= views(before).insert(pos as int, x@));
            vstd::seq_lib::to_multiset_insert(views(before), pos as int, x@);
            vstd::seq_lib::to_multiset_build(views(names@.take(k as int)), x@);
            assert(names@.take(k + 1) =~= names@.take(k as int).push(names@[k as int]));
            assert(views(names@.take(k + 1)) =~= views(names@.take(k as int)).push(x@));
            assert forall|i: int, j: int| 0 <= i < j < out@.len() implies
                #[trigger] lex_order()(views(out@)[i], views(out@)[j]) by {
                if pos < before.len() {
                    assert(!lex_order()(views(before)[pos as int], x@));
                    assert(lex_order()(x@, views(before)[pos as int]));
                }
                if j < pos {
                    assert(lex_order()(views(before)[i], views(before)[j]));
                } else if j == pos {
                    assert(lex_le(before[i]@, x@));
                } else if i < pos {
                    assert(lex_le(before[i]@, x@));
                    if j - 1 > pos {
                        assert(lex_order()(views(before)[pos as int], views(before)[j - 1]));
                    }
                } else if i == pos {
                    if j - 1 > pos {
                        assert(lex_order()(views(before)[pos as int], views(before)[j - 1]));
                    }
                } else {
                    assert(lex_order()(views(before)[i - 1], views(before)[j - 1]));
                }
            }
        }
        k = k + 1;
    }
    assert(names@.take(names.len() as int) =~= names@);
    out
}

} // verus!
