//! What counts as nesting in CSS text, and how much of it is borne.
use crate::runtime::nesting::{
    after_url, anew, closed_by, newline, one_more, partner, shallow, shallow_from, two_at, Inside,
};
use vstd::prelude::*;

verus! {

proof fn lemma_braces(s: Seq<char>, i: int, open: Seq<(char, usize)>)
    requires
        0 <= i <= s.len(),
        forall|k: int| 0 <= k < s.len() ==> #[trigger] s[k] == '{',
        open.len() == i + 1,
        i <= 12,
    ensures
        shallow_from(s, i, Inside::Code, open, false) <==> s.len() <= 12,
    decreases s.len() - i,
{
    if i < s.len() {
        assert(s[i] == '{');
        if i < 12 {
            lemma_braces(s, i + 1, anew(open).push(('{', 0)));
        }
    }
}

/// Twelve blocks may stand in one another, and no more.
pub proof fn law_blocks_nest_twelve_deep(s: Seq<char>)
    requires
        forall|k: int| 0 <= k < s.len() ==> #[trigger] s[k] == '{',
    ensures
        shallow(s) <==> s.len() <= 12,
{
    lemma_braces(s, 0, seq![(' ', 0usize)]);
}

proof fn lemma_pairs(s: Seq<char>, i: int, n: usize)
    requires
        0 <= i <= s.len(),
        s.len() % 2 == 0,
        i % 2 == 0,
        i == 2 * n,
        n <= 64,
        forall|k: int|
            0 <= k < s.len() ==> #[trigger] s[k] == (if k % 2 == 0 {
                '('
            } else {
                ')'
            }),
    ensures
        shallow_from(s, i, Inside::Code, seq![(' ', n)], false) <==> s.len() <= 128,
    decreases s.len() - i,
{
    if i < s.len() {
        let open = seq![(' ', n)];
        assert(s[i] == '(');
        assert(s[i + 1] == ')');
        if n < 64 {
            let m = (n + 1) as usize;
            let inner = one_more(open).push(('(', 0usize));
            assert(one_more(open) =~= seq![(' ', m)]);
            assert(inner.drop_last() =~= seq![(' ', m)]);
            assert(inner.last() == ('(', 0usize));
            assert(partner(')') == Some('('));
            assert(closed_by(inner, ')') == seq![(' ', m)]);
            lemma_pairs(s, i + 2, m);
            assert(shallow_from(s, i + 1, Inside::Code, inner, false) == shallow_from(
                s,
                i + 2,
                Inside::Code,
                seq![(' ', m)],
                false,
            ));
            if i >= 3 {
                assert(s[i - 1] == ')');
            }
            assert(!after_url(s, i));
        }
    }
}

/// Sixty-four functions may stand side by side in one place, and no more.
pub proof fn law_terms_are_bounded(s: Seq<char>)
    requires
        s.len() % 2 == 0,
        forall|k: int|
            0 <= k < s.len() ==> #[trigger] s[k] == (if k % 2 == 0 {
                '('
            } else {
                ')'
            }),
    ensures
        shallow(s) <==> s.len() <= 128,
{
    lemma_pairs(s, 0, 0);
}

proof fn lemma_quoted(s: Seq<char>, i: int, q: char)
    requires
        1 <= i < s.len(),
        q == '"' || q == '\'',
        s.last() == q,
        forall|k: int|
            1 <= k < s.len() - 1 ==> #[trigger] s[k] != q && s[k] != '\\' && !newline(s[k]),
    ensures
        shallow_from(s, i, Inside::Quotes(q), seq![(' ', 0usize)], false),
    decreases s.len() - i,
{
    if i + 1 < s.len() {
        assert(s[i] != q);
        lemma_quoted(s, i + 1, q);
    } else {
        assert(s[i] == q);
        assert(shallow_from(s, i + 1, Inside::Code, seq![(' ', 0usize)], false));
    }
}

/// Brackets in quotes do not nest, however many there are.
pub proof fn law_quotes_hide_brackets(t: Seq<char>, q: char)
    requires
        q == '"' || q == '\'',
        forall|k: int| 0 <= k < t.len() ==> #[trigger] t[k] != q && t[k] != '\\' && !newline(t[k]),
    ensures
        shallow(seq![q] + t + seq![q]),
{
    let s = seq![q] + t + seq![q];
    assert(s[0] == q);
    assert(s.last() == q);
    assert forall|k: int| 1 <= k < s.len() - 1 implies #[trigger] s[k] != q && s[k] != '\\' && !newline(
        s[k],
    ) by {
        assert(s[k] == t[k - 1]);
    }
    lemma_quoted(s, 1, q);
}

proof fn lemma_comment(s: Seq<char>, i: int)
    requires
        2 <= i <= s.len() - 2,
        s[s.len() - 2] == '*',
        s[s.len() - 1] == '/',
        forall|k: int| 2 <= k < s.len() - 2 ==> #[trigger] s[k] != '*',
    ensures
        shallow_from(s, i, Inside::Comment, seq![(' ', 0usize)], false),
    decreases s.len() - i,
{
    if i < s.len() - 2 {
        assert(s[i] != '*');
        lemma_comment(s, i + 1);
    } else {
        assert(two_at(s, i, '*', '/'));
        assert(shallow_from(s, i + 2, Inside::Code, seq![(' ', 0usize)], false));
    }
}

/// Brackets in a comment do not nest either.
pub proof fn law_comments_hide_brackets(t: Seq<char>)
    requires
        !t.contains('*'),
    ensures
        shallow(seq!['/', '*'] + t + seq!['*', '/']),
{
    let s = seq!['/', '*'] + t + seq!['*', '/'];
    assert(s[0] == '/' && s[1] == '*');
    assert(two_at(s, 0, '/', '*'));
    assert forall|k: int| 2 <= k < s.len() - 2 implies #[trigger] s[k] != '*' by {
        assert(s[k] == t[k - 2]);
        assert(t.contains(t[k - 2]));
    }
    lemma_comment(s, 2);
}

} // verus!
