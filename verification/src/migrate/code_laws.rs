//! Where declarations end: reading passes over quoted text, comments and brackets as a whole, and
//! stops at the brace or the semicolon that ends the declaration.
use crate::migrate::declarations::{
    comment_end, declaration_end, declares_at, end_from, gap_end, line_end, names_at, over_at,
    quote_end,
};
use crate::migrate::html_laws::{lemma_inside, lemma_part};
use crate::runtime::stream_laws::free_of;
use crate::string_laws::{all_white, lemma_find_mark, lemma_find_moves, lemma_run_reaches};
use crate::strings::{lemma_run_end, occurs, run_end, white_space, Class};
use vstd::prelude::*;

verus! {

/// A piece of code.
pub enum Piece {
    /// Text without quotes, slashes and brackets.
    Plain(Seq<char>),
    /// Text in quotes.
    Quoted(char, Seq<char>),
    /// A template without expressions.
    Template(Seq<char>),
    /// A comment to the end of its line.
    Line(Seq<char>),
    /// A comment with an end of its own.
    Block(Seq<char>),
    /// Code in brackets.
    Group(char, Seq<Piece>),
}

/// The bracket that closes another.
pub open spec fn closes(open: char) -> char {
    if open == '(' {
        ')'
    } else if open == '[' {
        ']'
    } else {
        '}'
    }
}

/// A piece, written out.
pub open spec fn written(p: Piece) -> Seq<char>
    decreases p, 0nat,
{
    match p {
        Piece::Plain(t) => t,
        Piece::Quoted(q, t) => seq![q] + t + seq![q],
        Piece::Template(t) => seq!['`'] + t + seq!['`'],
        Piece::Line(t) => seq!['/', '/'] + t + seq!['\n'],
        Piece::Block(t) => seq!['/', '*'] + t + seq!['*', '/'],
        Piece::Group(open, ps) => seq![open] + all_written(ps) + seq![closes(open)],
    }
}

/// Pieces, written out one behind the other.
pub open spec fn all_written(ps: Seq<Piece>) -> Seq<char>
    decreases ps, 1nat,
{
    if ps.len() == 0 {
        Seq::empty()
    } else {
        written(ps[0]) + all_written(ps.skip(1))
    }
}

/// Whether a character is plain: no quote, no slash, no bracket.
pub open spec fn plain_char(c: char) -> bool {
    c != '/' && c != '"' && c != '\'' && c != '`' && c != '(' && c != '[' && c != '{' && c != ')' && c
        != ']' && c != '}'
}

/// Whether a text is plain.
pub open spec fn is_plain(t: Seq<char>) -> bool {
    forall|i: int| 0 <= i < t.len() ==> plain_char(#[trigger] t[i])
}

/// Whether a piece is what it says.
pub open spec fn fits(p: Piece) -> bool
    decreases p, 0nat,
{
    match p {
        Piece::Plain(t) => is_plain(t),
        Piece::Quoted(q, t) => (q == '"' || q == '\'') && forall|i: int|
            0 <= i < t.len() ==> #[trigger] t[i] != q && t[i] != '\\' && t[i] != '\n',
        Piece::Template(t) => forall|i: int|
            0 <= i < t.len() ==> #[trigger] t[i] != '`' && t[i] != '\\' && t[i] != '$',
        Piece::Line(t) => !t.contains('\n'),
        Piece::Block(t) => free_of(t, "*/"@),
        Piece::Group(open, ps) => (open == '(' || open == '[' || open == '{') && all_fit(ps),
    }
}

/// Whether pieces are what they say.
pub open spec fn all_fit(ps: Seq<Piece>) -> bool
    decreases ps, 1nat,
{
    ps.len() > 0 ==> fits(ps[0]) && all_fit(ps.skip(1))
}

proof fn lemma_plain(s: Seq<char>, i: int, t: Seq<char>, open: Seq<char>, near: bool)
    requires
        occurs(s, t, i),
        is_plain(t),
        open.len() == 0 ==> !t.contains(';'),
        open.len() > 0 ==> open.last() != '`',
    ensures
        end_from(s, i, open, near) == end_from(s, (i + t.len()) as int, open, near),
    decreases t.len(),
{
    if t.len() > 0 {
        lemma_inside(s, t, i, 0);
        assert(plain_char(t[0]));
        assert(t.contains(t[0]));
        let rest = t.skip(1);
        assert(t =~= seq![t[0]] + rest);
        lemma_part(s, seq![t[0]], rest, i);
        assert forall|k: int| 0 <= k < rest.len() implies plain_char(#[trigger] rest[k]) by {
            assert(rest[k] == t[k + 1]);
        }
        if open.len() == 0 {
            assert(!rest.contains(';')) by {
                if rest.contains(';') {
                    let k = choose|k: int| 0 <= k < rest.len() && rest[k] == ';';
                    assert(t[k + 1] == ';');
                }
            }
        }
        lemma_plain(s, i + 1, rest, open, near);
        assert(end_from(s, i, open, near) == end_from(s, i + 1, open, near));
    }
}

proof fn lemma_quote(s: Seq<char>, i: int, t: Seq<char>, q: char)
    requires
        occurs(s, t + seq![q], i),
        q != '\n',
        q != '\\',
        forall|k: int| 0 <= k < t.len() ==> #[trigger] t[k] != q && t[k] != '\\' && t[k] != '\n',
    ensures
        quote_end(s, i, q) == Some((i + t.len() + 1) as int),
    decreases t.len(),
{
    let w = t + seq![q];
    lemma_inside(s, w, i, 0);
    if t.len() > 0 {
        assert(w[0] == t[0]);
        let rest = t.skip(1);
        assert(w =~= seq![t[0]] + (rest + seq![q]));
        lemma_part(s, seq![t[0]], rest + seq![q], i);
        assert forall|k: int| 0 <= k < rest.len() implies #[trigger] rest[k] != q && rest[k] != '\\'
            && rest[k] != '\n' by {
            assert(rest[k] == t[k + 1]);
        }
        lemma_quote(s, i + 1, rest, q);
    }
}

proof fn lemma_template(s: Seq<char>, i: int, t: Seq<char>, open: Seq<char>, near: bool)
    requires
        occurs(s, t + seq!['`'], i),
        open.len() > 0,
        open.last() == '`',
        forall|k: int| 0 <= k < t.len() ==> #[trigger] t[k] != '`' && t[k] != '\\' && t[k] != '$',
    ensures
        end_from(s, i, open, near) == end_from(s, (i + t.len() + 1) as int, open.drop_last(), near),
    decreases t.len(),
{
    let w = t + seq!['`'];
    lemma_inside(s, w, i, 0);
    if t.len() > 0 {
        assert(w[0] == t[0]);
        assert(t[0] != '`');
        let rest = t.skip(1);
        assert(w =~= seq![t[0]] + (rest + seq!['`']));
        lemma_part(s, seq![t[0]], rest + seq!['`'], i);
        assert forall|k: int| 0 <= k < rest.len() implies #[trigger] rest[k] != '`' && rest[k] != '\\'
            && rest[k] != '$' by {
            assert(rest[k] == t[k + 1]);
        }
        lemma_template(s, i + 1, rest, open, near);
        assert(end_from(s, i, open, near) == end_from(s, i + 1, open, near));
    }
}

proof fn lemma_line_end(s: Seq<char>, i: int, t: Seq<char>)
    requires
        occurs(s, t + seq!['\n'], i),
        !t.contains('\n'),
    ensures
        line_end(s, i) == i + t.len(),
    decreases t.len(),
{
    let w = t + seq!['\n'];
    lemma_inside(s, w, i, 0);
    if t.len() > 0 {
        assert(w[0] == t[0]);
        assert(t.contains(t[0]));
        let rest = t.skip(1);
        assert(w =~= seq![t[0]] + (rest + seq!['\n']));
        lemma_part(s, seq![t[0]], rest + seq!['\n'], i);
        assert(!rest.contains('\n')) by {
            if rest.contains('\n') {
                let k = choose|k: int| 0 <= k < rest.len() && rest[k] == '\n';
                assert(t[k + 1] == '\n');
            }
        }
        lemma_line_end(s, i + 1, rest);
    }
}

/// Reading passes over a piece of code as a whole.
#[verifier::rlimit(40)]
proof fn lemma_piece(s: Seq<char>, i: int, p: Piece, open: Seq<char>, near: bool)
    requires
        fits(p),
        occurs(s, written(p), i),
        open.len() > 0,
        open.last() != '`',
    ensures
        end_from(s, i, open, near) == end_from(s, (i + written(p).len()) as int, open, near),
    decreases p, 0nat,
{
    let w = written(p);
    match p {
        Piece::Plain(t) => {
            lemma_plain(s, i, t, open, near);
        },
        Piece::Quoted(q, t) => {
            assert(w =~= seq![q] + (t + seq![q]));
            lemma_part(s, seq![q], t + seq![q], i);
            lemma_inside(s, w, i, 0);
            lemma_quote(s, i + 1, t, q);
        },
        Piece::Template(t) => {
            assert(w =~= seq!['`'] + (t + seq!['`']));
            lemma_part(s, seq!['`'], t + seq!['`'], i);
            lemma_inside(s, w, i, 0);
            let inner = open.push('`');
            lemma_template(s, i + 1, t, inner, near);
            assert(inner.drop_last() =~= open);
        },
        Piece::Line(t) => {
            assert(w =~= seq!['/', '/'] + (t + seq!['\n']));
            lemma_part(s, seq!['/', '/'], t + seq!['\n'], i);
            lemma_inside(s, w, i, 0);
            lemma_inside(s, w, i, 1);
            assert(w[0] == '/' && w[1] == '/');
            lemma_line_end(s, i + 2, t);
            assert(line_end(s, i) == line_end(s, i + 1));
            assert(line_end(s, i + 1) == line_end(s, i + 2));
            let e = i + 2 + t.len();
            lemma_inside(s, t + seq!['\n'], i + 2, t.len() as int);
            assert(s[e] == '\n');
            assert(comment_end(s, i) == Some(e));
            assert(end_from(s, e, open, near) == end_from(s, e + 1, open, near));
        },
        Piece::Block(t) => {
            reveal_strlit("*/");
            assert("*/"@ =~= seq!['*', '/']);
            assert(w =~= seq!['/', '*'] + (t + seq!['*', '/']));
            lemma_part(s, seq!['/', '*'], t + seq!['*', '/'], i);
            lemma_inside(s, w, i, 0);
            lemma_inside(s, w, i, 1);
            assert(w[0] == '/' && w[1] == '*');
            let head = s.take(i + 2);
            let tail = s.skip(i + 2 + t.len() + 2);
            let rest = t + "*/"@ + tail;
            assert(s =~= head + rest) by {
                assert forall|k: int| i + 2 <= k < i + 4 + t.len() implies s[k] == (head + rest)[k] by {
                    lemma_inside(s, t + seq!['*', '/'], i + 2, k - i - 2);
                }
            }
            lemma_find_mark(t, "*/"@, tail);
            lemma_find_moves(head, rest, "*/"@, 0);
            assert(comment_end(s, i) == Some((i + 2 + t.len() + 2) as int));
        },
        Piece::Group(b, ps) => {
            let c = closes(b);
            let body = all_written(ps);
            assert(w =~= seq![b] + (body + seq![c]));
            lemma_part(s, seq![b], body + seq![c], i);
            lemma_part(s, body, seq![c], i + 1);
            lemma_inside(s, w, i, 0);
            let inner = open.push(b);
            lemma_pieces(s, i + 1, ps, inner, near);
            let e = i + 1 + body.len();
            lemma_inside(s, seq![c], e, 0);
            assert(inner.drop_last() =~= open);
            assert(inner.last() == b);
            assert(end_from(s, e, inner, near) == end_from(s, e + 1, open, near));
        },
    }
}

proof fn lemma_pieces(s: Seq<char>, i: int, ps: Seq<Piece>, open: Seq<char>, near: bool)
    requires
        0 <= i,
        all_fit(ps),
        occurs(s, all_written(ps), i),
        open.len() > 0,
        open.last() != '`',
    ensures
        end_from(s, i, open, near) == end_from(s, (i + all_written(ps).len()) as int, open, near),
    decreases ps, 1nat,
{
    if ps.len() > 0 {
        lemma_part(s, written(ps[0]), all_written(ps.skip(1)), i);
        lemma_piece(s, i, ps[0], open, near);
        lemma_pieces(s, (i + written(ps[0]).len()) as int, ps.skip(1), open, near);
    }
}

/// Reading passes over brackets outside of any other.
proof fn lemma_group(s: Seq<char>, j: int, b: char, ps: Seq<Piece>, near: bool)
    requires
        0 <= j,
        b == '(' || b == '[',
        all_fit(ps),
        occurs(s, seq![b] + all_written(ps) + seq![closes(b)], j),
    ensures
        end_from(s, j, Seq::empty(), near) == end_from(
            s,
            (j + all_written(ps).len() + 2) as int,
            Seq::empty(),
            near,
        ),
{
    let none = Seq::<char>::empty();
    let a = all_written(ps);
    let c = closes(b);
    assert(seq![b] + a + seq![c] =~= seq![b] + (a + seq![c]));
    lemma_part(s, seq![b], a + seq![c], j);
    lemma_part(s, a, seq![c], j + 1);
    lemma_inside(s, seq![b], j, 0);
    let inner = none.push(b);
    assert(inner.drop_last() =~= none);
    assert(inner.last() == b);
    assert(end_from(s, j, none, near) == end_from(s, j + 1, inner, near));
    lemma_pieces(s, j + 1, ps, inner, near);
    let e = (j + 1 + a.len()) as int;
    lemma_inside(s, seq![c], e, 0);
    assert(end_from(s, e, inner, near) == end_from(s, e + 1, none, near));
}

/// Reading ends behind the braces outside of any other bracket where the declaration is over there.
proof fn lemma_closed_body(s: Seq<char>, j: int, ps: Seq<Piece>)
    requires
        0 <= j,
        all_fit(ps),
        occurs(s, seq!['{'] + all_written(ps) + seq!['}'], j),
        over_at(s, (j + all_written(ps).len() + 2) as int),
    ensures
        end_from(s, j, Seq::empty(), false) == Some((j + all_written(ps).len() + 2) as int),
{
    let none = Seq::<char>::empty();
    let a = all_written(ps);
    assert(seq!['{'] + a + seq!['}'] =~= seq!['{'] + (a + seq!['}']));
    lemma_part(s, seq!['{'], a + seq!['}'], j);
    lemma_part(s, a, seq!['}'], j + 1);
    lemma_inside(s, seq!['{'], j, 0);
    let inner = none.push('{');
    assert(inner.last() == '{');
    assert(end_from(s, j, none, false) == end_from(s, j + 1, inner, false));
    lemma_pieces(s, j + 1, ps, inner, false);
    let e = (j + 1 + a.len()) as int;
    lemma_inside(s, seq!['}'], e, 0);
    assert(end_from(s, e, inner, false) == Some(e + 1));
}

/// Reading ends behind the braces outside of any other bracket.
proof fn lemma_body(s: Seq<char>, j: int, ps: Seq<Piece>)
    requires
        0 <= j,
        all_fit(ps),
        occurs(s, seq!['{'] + all_written(ps) + seq!['}'], j),
    ensures
        end_from(s, j, Seq::empty(), true) == Some((j + all_written(ps).len() + 2) as int),
{
    let none = Seq::<char>::empty();
    let a = all_written(ps);
    assert(seq!['{'] + a + seq!['}'] =~= seq!['{'] + (a + seq!['}']));
    lemma_part(s, seq!['{'], a + seq!['}'], j);
    lemma_part(s, a, seq!['}'], j + 1);
    lemma_inside(s, seq!['{'], j, 0);
    let inner = none.push('{');
    assert(inner.last() == '{');
    assert(end_from(s, j, none, true) == end_from(s, j + 1, inner, true));
    lemma_pieces(s, j + 1, ps, inner, true);
    let e = (j + 1 + a.len()) as int;
    lemma_inside(s, seq!['}'], e, 0);
    assert(end_from(s, e, inner, true) == Some(e + 1));
}

/// The parts of a function stand one behind the other.
proof fn lemma_parts(
    s: Seq<char>,
    i: int,
    head: Seq<char>,
    round: Seq<char>,
    gap: Seq<char>,
    curly: Seq<char>,
)
    requires
        0 <= i,
        occurs(s, head + round + gap + curly, i),
    ensures
        occurs(s, head, i),
        occurs(s, round, (i + head.len()) as int),
        occurs(s, gap, (i + head.len() + round.len()) as int),
        occurs(s, curly, (i + head.len() + round.len() + gap.len()) as int),
{
    assert(head + round + gap + curly =~= head + (round + (gap + curly)));
    lemma_part(s, head, round + (gap + curly), i);
    let j = (i + head.len()) as int;
    lemma_part(s, round, gap + curly, j);
    lemma_part(s, gap, curly, (j + round.len()) as int);
}

/// Reading passes over a function's head, its parameters and what stands before its body.
proof fn lemma_up_to_body(
    s: Seq<char>,
    i: int,
    head: Seq<char>,
    params: Seq<Piece>,
    gap: Seq<char>,
    body: Seq<Piece>,
    near: bool,
)
    requires
        0 <= i,
        is_plain(head),
        !head.contains(';'),
        all_fit(params),
        is_plain(gap),
        !gap.contains(';'),
        occurs(
            s,
            head + written(Piece::Group('(', params)) + gap + written(Piece::Group('{', body)),
            i,
        ),
    ensures
        ({
            let l = (i + head.len() + written(Piece::Group('(', params)).len() + gap.len()) as int;
            &&& occurs(s, seq!['{'] + all_written(body) + seq!['}'], l)
            &&& end_from(s, i, Seq::empty(), near) == end_from(s, l, Seq::empty(), near)
        }),
{
    let round = written(Piece::Group('(', params));
    let curly = written(Piece::Group('{', body));
    let none = Seq::<char>::empty();
    lemma_parts(s, i, head, round, gap, curly);
    let j = (i + head.len()) as int;
    let k = (j + round.len()) as int;
    lemma_plain(s, i, head, none, near);
    lemma_group(s, j, '(', params, near);
    lemma_plain(s, k, gap, none, near);
}

/// A function ends with the brace that closes its body, whatever quotes, comments, templates and
/// brackets stand in its parameters and its body.
pub proof fn law_functions_end_with_their_body(
    pre: Seq<char>,
    head: Seq<char>,
    params: Seq<Piece>,
    gap: Seq<char>,
    body: Seq<Piece>,
    rest: Seq<char>,
)
    requires
        is_plain(head),
        !head.contains(';'),
        all_fit(params),
        is_plain(gap),
        !gap.contains(';'),
        all_fit(body),
    ensures
        ({
            let text = head + written(Piece::Group('(', params)) + gap + written(Piece::Group('{', body));
            end_from(pre + text + rest, pre.len() as int, Seq::empty(), true) == Some(
                (pre.len() + text.len()) as int,
            )
        }),
{
    let round = written(Piece::Group('(', params));
    let curly = written(Piece::Group('{', body));
    let text = head + round + gap + curly;
    let s = pre + text + rest;
    let i = pre.len() as int;
    assert(s.subrange(i, i + text.len()) =~= text);
    lemma_up_to_body(s, i, head, params, gap, body, true);
    lemma_body(s, (i + head.len() + round.len() + gap.len()) as int, body);
}

/// A declaration without a body ends with its semicolon.
pub proof fn law_declarations_end_with_their_semicolon(
    pre: Seq<char>,
    head: Seq<char>,
    group: Piece,
    gap: Seq<char>,
    rest: Seq<char>,
    near: bool,
)
    requires
        is_plain(head),
        !head.contains(';'),
        group matches Piece::Group(b, ps) && b != '{',
        fits(group),
        is_plain(gap),
        !gap.contains(';'),
    ensures
        ({
            let text = head + written(group) + gap + seq![';'];
            end_from(pre + text + rest, pre.len() as int, Seq::empty(), near) == Some(
                (pre.len() + text.len()) as int,
            )
        }),
{
    let w = written(group);
    let text = head + w + gap + seq![';'];
    let s = pre + text + rest;
    let none = Seq::<char>::empty();
    let i = pre.len() as int;
    assert(s.subrange(i, i + text.len()) =~= text);
    lemma_parts(s, i, head, w, gap, seq![';']);
    let j = (i + head.len()) as int;
    let k = (j + w.len()) as int;
    lemma_plain(s, i, head, none, near);
    if let Piece::Group(b, ps) = group {
        lemma_group(s, j, b, ps, near);
    }
    lemma_plain(s, k, gap, none, near);
    lemma_inside(s, seq![';'], (k + gap.len()) as int, 0);
}

/// A name is declared where one of the words that declare stands before it, each as a whole word.
pub proof fn law_declaring_words(
    pre: Seq<char>,
    word: Seq<char>,
    gap: Seq<char>,
    f: Seq<char>,
    rest: Seq<char>,
)
    requires
        word == "function"@ || word == "const"@ || word == "let"@ || word == "var"@ || word == "class"@,
        pre.len() == 0 || !Class::Ident.holds(pre.last()),
        gap.len() > 0,
        forall|i: int| 0 <= i < gap.len() ==> white_space(#[trigger] gap[i]),
        f.len() > 0,
        !white_space(f[0]),
        rest.len() == 0 || !Class::Ident.holds(rest[0]),
    ensures
        declares_at(pre + word + gap + f + rest, f, pre.len() as int),
{
    let s = pre + word + gap + f + rest;
    let i = pre.len() as int;
    let w = i + word.len();
    let n = w + gap.len();
    assert(s.subrange(i, w) =~= word);
    assert(s.subrange(n, n + f.len()) =~= f);
    if pre.len() > 0 {
        assert(s[i - 1] == pre.last());
    }
    assert forall|k: int| w <= k < n implies Class::White.holds(#[trigger] s[k]) by {
        assert(s[k] == gap[k - w]);
    }
    assert(s[n] == f[0]);
    lemma_run_reaches(s, w, n, Class::White);
    if rest.len() > 0 {
        assert(s[n + f.len()] == rest[0]);
    }
    assert(names_at(s, word, f, i));
}

/// Whether a word joins what stands behind a brace to what stands before it.
pub open spec fn joins(word: Seq<char>) -> bool {
    word == "as"@ || word == "satisfies"@ || word == "in"@ || word == "instanceof"@ || word == "is"@
        || word == "extends"@ || word == "implements"@
}

/// Whether a text is one name and what follows it.
pub open spec fn starts_with_name(t: Seq<char>, word: Seq<char>, more: Seq<char>) -> bool {
    &&& t == word + more
    &&& word.len() > 0
    &&& forall|i: int| 0 <= i < word.len() ==> Class::Ident.holds(#[trigger] word[i])
    &&& more.len() == 0 || !Class::Ident.holds(more[0])
}

/// Whether a text begins a statement of its own, or nothing is left.
pub open spec fn begins_anew(t: Seq<char>) -> bool {
    ||| t.len() == 0
    ||| t[0] == '}' || t[0] == ';' || t[0] == '$' || t[0] == '@'
    ||| exists|word: Seq<char>, more: Seq<char>|
        #[trigger] starts_with_name(t, word, more) && !joins(word)
}

proof fn lemma_gap(s: Seq<char>, i: int, gap: Seq<char>)
    requires
        0 <= i,
        occurs(s, gap, i),
        all_white(gap),
        i + gap.len() < s.len() ==> !white_space(s[(i + gap.len()) as int]) && s[(i + gap.len()) as int]
            != '/',
    ensures
        gap_end(s, i) == i + gap.len(),
    decreases gap.len(),
{
    if gap.len() > 0 {
        lemma_inside(s, gap, i, 0);
        assert(white_space(gap[0]));
        let rest = gap.skip(1);
        assert(gap =~= seq![gap[0]] + rest);
        lemma_part(s, seq![gap[0]], rest, i);
        assert forall|k: int| 0 <= k < rest.len() implies white_space(#[trigger] rest[k]) by {
            assert(rest[k] == gap[k + 1]);
        }
        lemma_gap(s, i + 1, rest);
    }
}

/// Behind a brace a declaration is over where a statement of its own begins, white space aside; it
/// goes on where a word joins what follows, or where anything follows that begins no statement.
#[verifier::rlimit(40)]
pub proof fn law_over_behind_a_brace(pre: Seq<char>, gap: Seq<char>, t: Seq<char>)
    requires
        all_white(gap),
        t.len() > 0 ==> !white_space(t[0]) && t[0] != '/',
    ensures
        over_at(pre + gap + t, pre.len() as int) <==> begins_anew(t),
{
    let s = pre + gap + t;
    let i = pre.len() as int;
    let j = (i + gap.len()) as int;
    assert(s.subrange(i, j) =~= gap);
    assert forall|k: int| 0 <= k < t.len() implies s[j + k] == #[trigger] t[k] by {}
    if t.len() > 0 {
        assert(s[j + 0] == t[0]);
    }
    lemma_gap(s, i, gap);
    if t.len() > 0 {
        let e = run_end(s, j, Class::Ident);
        lemma_run_end(s, j, Class::Ident);
        let word = s.subrange(j, e);
        let more = s.skip(e);
        if e > j {
            assert(t =~= word + more);
            assert forall|k: int| 0 <= k < word.len() implies Class::Ident.holds(#[trigger] word[k]) by {
                assert(word[k] == s[j + k]);
            }
            if more.len() > 0 {
                assert(more[0] == s[e]);
            }
            assert(starts_with_name(t, word, more));
        }
        if exists|w: Seq<char>, m: Seq<char>| #[trigger] starts_with_name(t, w, m) && !joins(w) {
            let (w, m) = choose|w: Seq<char>, m: Seq<char>|
                #[trigger] starts_with_name(t, w, m) && !joins(w);
            assert forall|k: int| j <= k < j + w.len() implies Class::Ident.holds(#[trigger] s[k]) by {
                assert(s[j + (k - j)] == t[k - j]);
                assert(t[k - j] == w[k - j]);
            }
            if m.len() > 0 {
                assert(t[w.len() as int] == m[0]);
                assert(s[j + w.len()] == t[w.len() as int]);
            }
            lemma_run_reaches(s, j, (j + w.len()) as int, Class::Ident);
            assert(word =~= w) by {
                assert forall|k: int| 0 <= k < w.len() implies word[k] == #[trigger] w[k] by {
                    assert(t[k] == w[k]);
                    assert(s[j + k] == t[k]);
                }
            }
        }
    }
}

/// A function's declaration ends with the brace that closes its body where a statement of its own
/// begins behind it.
pub proof fn law_declared_functions_end(
    head: Seq<char>,
    params: Seq<Piece>,
    gap: Seq<char>,
    body: Seq<Piece>,
    white: Seq<char>,
    rest: Seq<char>,
)
    requires
        is_plain(head),
        !head.contains(';'),
        all_fit(params),
        is_plain(gap),
        !gap.contains(';'),
        all_fit(body),
        all_white(white),
        rest.len() > 0 ==> !white_space(rest[0]) && rest[0] != '/',
        begins_anew(rest),
    ensures
        ({
            let text = head + written(Piece::Group('(', params)) + gap + written(Piece::Group('{', body));
            declaration_end(text + white + rest, 0) == text.len()
        }),
{
    let round = written(Piece::Group('(', params));
    let curly = written(Piece::Group('{', body));
    let text = head + round + gap + curly;
    let s = text + white + rest;
    assert(s.subrange(0, text.len() as int) =~= text);
    lemma_up_to_body(s, 0, head, params, gap, body, false);
    law_over_behind_a_brace(text, white, rest);
    lemma_closed_body(s, (head.len() + round.len() + gap.len()) as int, body);
}

} // verus!
