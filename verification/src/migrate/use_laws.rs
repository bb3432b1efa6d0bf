//! What counts as a use of a function: a call or a mention of its name, but no declaration.
use crate::migrate::code_laws::{all_fit, is_plain, law_functions_end_with_their_body, written, Piece};
use crate::migrate::declarations::{
    declares_at, in_function, in_functions, is_declared, line_start, loose_text, names_at,
    run_white,
};
use crate::migrate::optimize::{
    call_text, count, count_from, declaration_text, distinct, net_calls, net_words, refers, word_at,
};
use crate::string_laws::lemma_run_reaches;
use crate::strings::{holds_text, lemma_find_from, occurs, white_space, Class};
use vstd::prelude::*;

verus! {

proof fn lemma_count_none(s: Seq<char>, p: Seq<char>, from: int)
    requires
        0 <= from <= s.len(),
        p.len() > 0,
        forall|i: int| from <= i ==> !#[trigger] occurs(s, p, i),
    ensures
        count_from(s, p, from) == 0,
{
    lemma_find_from(s, p, from);
}

proof fn lemma_count_one(s: Seq<char>, p: Seq<char>, at: int)
    requires
        p.len() > 0,
        forall|i: int| #[trigger] occurs(s, p, i) <==> i == at,
    ensures
        count(s, p) == 1,
{
    lemma_find_from(s, p, 0);
    assert(occurs(s, p, at));
    lemma_count_none(s, p, (at + p.len()) as int);
}

/// A name with an opening bracket behind it is one call; with the word `function` before it, it is
/// the declaration and no call.
#[verifier::rlimit(40)]
pub proof fn law_calls_are_counted(a: Seq<char>, g: Seq<char>, b: Seq<char>)
    requires
        forall|i: int|
            #[trigger] occurs(a + g + seq!['('] + b, g + seq!['('], i) ==> i == a.len(),
    ensures
        ({
            let s = a + g + seq!['('] + b;
            let declared = a.len() >= 9 && a.skip(a.len() - 9) == "function "@;
            net_calls(s, g) == (if declared {
                0nat
            } else {
                1nat
            })
        }),
{
    reveal_strlit("(");
    reveal_strlit("function ");
    let s = a + g + seq!['('] + b;
    let c = call_text(g);
    assert(c =~= g + seq!['(']);
    let n = a.len() as int;
    assert(s.subrange(n, n + c.len()) =~= c);
    lemma_count_one(s, c, n);
    let d = declaration_text(g);
    assert(d =~= "function "@ + c);
    assert forall|i: int| #[trigger] occurs(s, d, i) implies i == n - 9 by {
        assert(s.subrange(i + 9, i + 9 + c.len()) =~= c) by {
            assert forall|k: int| 0 <= k < c.len() implies s[i + 9 + k] == #[trigger] c[k] by {
                assert(s.subrange(i, i + d.len())[k + 9] == s[i + 9 + k]);
                assert(d[k + 9] == c[k]);
            }
        }
        assert(occurs(s, c, i + 9));
    }
    if a.len() >= 9 && a.skip(n - 9) == "function "@ {
        assert(s.subrange(n - 9, n - 9 + d.len()) =~= d) by {
            assert forall|k: int| 0 <= k < d.len() implies s[n - 9 + k] == #[trigger] d[k] by {
                if k < 9 {
                    assert(a.skip(n - 9)[k] == a[n - 9 + k]);
                } else {
                    assert(d[k] == c[k - 9]);
                }
            }
        }
        assert(occurs(s, d, n - 9));
        lemma_count_one(s, d, n - 9);
    } else {
        assert forall|i: int| 0 <= i implies !#[trigger] occurs(s, d, i) by {
            if occurs(s, d, i) {
                assert(i == n - 9);
                assert(a.skip(n - 9) =~= "function "@) by {
                    assert forall|k: int| 0 <= k < 9 implies a[n - 9 + k] == #[trigger] "function "@[k] by {
                        assert(s.subrange(i, i + d.len())[k] == s[i + k]);
                        assert(d[k] == "function "@[k]);
                    }
                }
            }
        }
        lemma_count_none(s, d, 0);
    }
}

proof fn lemma_words_undeclared(s: Seq<char>, g: Seq<char>, to: int, at: int)
    requires
        to <= s.len(),
        forall|i: int| 0 <= i < s.len() ==> !#[trigger] declares_at(s, g, i),
    ensures
        net_words(s, g, to) >= 0,
        0 <= at < to && word_at(s, g, at) ==> net_words(s, g, to) > 0,
    decreases to,
{
    if to > 0 {
        lemma_words_undeclared(s, g, to - 1, at);
        assert(!declares_at(s, g, to - 1));
    }
}

proof fn lemma_words_absent(s: Seq<char>, g: Seq<char>, to: int)
    requires
        g.len() > 0,
        g != "default"@,
        forall|i: int| !#[trigger] occurs(s, g, i),
    ensures
        net_words(s, g, to) == 0,
    decreases to,
{
    if to > 0 {
        lemma_words_absent(s, g, to - 1);
        let i = to - 1;
        assert(!occurs(s, g, i));
        assert(!occurs(s, g, run_white(s, i + "function"@.len())));
        assert(!occurs(s, g, run_white(s, i + "const"@.len())));
        assert(!occurs(s, g, run_white(s, i + "let"@.len())));
        assert(!occurs(s, g, run_white(s, i + "var"@.len())));
        assert(!occurs(s, g, run_white(s, i + "class"@.len())));
    }
}

/// A text that names something as a whole word, and does not declare it, refers to it; a text that
/// does not hold the name does not.
#[verifier::rlimit(40)]
pub proof fn law_mentions_refer(a: Seq<char>, g: Seq<char>, b: Seq<char>, s: Seq<char>)
    requires
        g.len() > 0,
        g != "default"@,
        a.len() == 0 || !Class::Ident.holds(a.last()),
        b.len() == 0 || !Class::Ident.holds(b[0]),
    ensures
        !is_declared(a + g + b, g) ==> refers(a + g + b, g),
        !holds_text(s, g) ==> !refers(s, g),
{
    let t = a + g + b;
    let n = a.len() as int;
    assert(t.subrange(n, n + g.len()) =~= g);
    if a.len() > 0 {
        assert(t[n - 1] == a.last());
    }
    if b.len() > 0 {
        assert(t[n + g.len()] == b[0]);
    }
    assert(word_at(t, g, n));
    if !is_declared(t, g) {
        lemma_words_undeclared(t, g, t.len() as int, n);
    }
    if !holds_text(s, g) {
        assert forall|i: int| !#[trigger] occurs(s, g, i) by {}
        lemma_words_absent(s, g, s.len() as int);
        reveal_strlit("(");
        let c = call_text(g);
        assert forall|i: int| 0 <= i implies !#[trigger] occurs(s, c, i) by {
            if occurs(s, c, i) {
                assert(s.subrange(i, i + g.len()) =~= g) by {
                    assert forall|k: int| 0 <= k < g.len() implies s[i + k] == #[trigger] g[k] by {
                        assert(s.subrange(i, i + c.len())[k] == s[i + k]);
                        assert(c[k] == g[k]);
                    }
                }
                assert(occurs(s, g, i));
            }
        }
        lemma_count_none(s, c, 0);
    }
}

/// Names are told apart once each, in the order in which they first come, and none is lost.
pub proof fn law_distinct_names(names: Seq<Seq<char>>, x: Seq<char>)
    ensures
        distinct(names).no_duplicates(),
        distinct(names).contains(x) <==> names.contains(x),
        distinct(names.push(x)) == (if names.contains(x) {
            distinct(names)
        } else {
            distinct(names).push(x)
        }),
    decreases names.len(),
{
    lemma_distinct(names, x);
    assert(names.push(x).drop_last() =~= names);
}

#[verifier::rlimit(40)]
proof fn lemma_distinct(names: Seq<Seq<char>>, x: Seq<char>)
    ensures
        distinct(names).no_duplicates(),
        distinct(names).contains(x) <==> names.contains(x),
    decreases names.len(),
{
    if names.len() > 0 {
        let f = names.drop_last();
        let d = distinct(f);
        lemma_distinct(f, x);
        lemma_distinct(f, names.last());
        assert(names =~= f.push(names.last()));
        if f.contains(x) {
            let i = choose|i: int| 0 <= i < f.len() && f[i] == x;
            assert(names[i] == x);
        }
        assert(names[names.len() - 1] == names.last());
        if names.contains(x) {
            let i = choose|i: int| 0 <= i < names.len() && names[i] == x;
            if i < f.len() {
                assert(f[i] == x);
            }
        }
        if !d.contains(names.last()) {
            let e = d.push(names.last());
            assert(e[d.len() as int] == names.last());
            if d.contains(x) {
                let i = choose|i: int| 0 <= i < d.len() && d[i] == x;
                assert(e[i] == x);
            }
            if e.contains(x) {
                let i = choose|i: int| 0 <= i < e.len() && e[i] == x;
                if i < d.len() {
                    assert(d[i] == x);
                }
            }
            assert forall|i: int, j: int| 0 <= i < j < e.len() implies e[i] != e[j] by {
                if j == d.len() {
                    assert(d.contains(d[i]));
                }
            }
        }
    }
}

/// A function's word stands before its name.
#[verifier::rlimit(40)]
proof fn lemma_named(pre: Seq<char>, gap: Seq<char>, f: Seq<char>, rest: Seq<char>)
    requires
        pre.len() == 0 || pre.last() == '\n',
        !Class::Ident.holds('\n'),
        !Class::Ident.holds('('),
        gap.len() > 0,
        forall|i: int| 0 <= i < gap.len() ==> white_space(#[trigger] gap[i]),
        f.len() > 0,
        !white_space(f[0]),
    ensures
        names_at(
            pre + (("function"@ + gap + f) + seq!['(']) + rest,
            "function"@,
            f,
            pre.len() as int,
        ),
{
    reveal_strlit("function");
    let s = pre + (("function"@ + gap + f) + seq!['(']) + rest;
    let i = pre.len() as int;
    let w = i + 8;
    let n = (w + gap.len()) as int;
    assert(s.subrange(i, w) =~= "function"@);
    assert(s.subrange(n, n + f.len()) =~= f);
    assert forall|k: int| w <= k < n implies Class::White.holds(#[trigger] s[k]) by {
        assert(s[k] == gap[k - w]);
    }
    assert(s[n] == f[0]);
    lemma_run_reaches(s, w, n, Class::White);
    assert(s[n + f.len()] == '(');
    if i > 0 {
        assert(s[i - 1] == pre.last());
    }
}

/// The text outside of functions is the source with each named function blank that starts a line,
/// from its word to the brace that closes its body.
#[verifier::rlimit(40)]
pub proof fn law_functions_are_taken_out(
    pre: Seq<char>,
    gap: Seq<char>,
    f: Seq<char>,
    params: Seq<Piece>,
    between: Seq<char>,
    body: Seq<Piece>,
    rest: Seq<char>,
    fs: Seq<Seq<char>>,
    p: int,
)
    requires
        pre.len() == 0 || pre.last() == '\n',
        !Class::Ident.holds('\n'),
        !Class::Ident.holds('('),
        gap.len() > 0,
        forall|i: int| 0 <= i < gap.len() ==> white_space(#[trigger] gap[i]),
        f.len() > 0,
        !white_space(f[0]),
        is_plain(f),
        !f.contains(';'),
        fs.contains(f),
        all_fit(params),
        is_plain(between),
        !between.contains(';'),
        all_fit(body),
        pre.len() <= p < pre.len() + ("function"@ + gap + f + written(Piece::Group('(', params)) + between
            + written(Piece::Group('{', body))).len(),
    ensures
        loose_text(
            pre + ("function"@ + gap + f + written(Piece::Group('(', params)) + between + written(
                Piece::Group('{', body),
            )) + rest,
            fs,
        )[p] == ' ',
{
    reveal_strlit("function");
    let round = written(Piece::Group('(', params));
    let curly = written(Piece::Group('{', body));
    let head = "function"@ + gap + f;
    let text = head + round + between + curly;
    let s = pre + text + rest;
    let i = pre.len() as int;
    assert forall|k: int|
        0 <= k < head.len() implies crate::migrate::code_laws::plain_char(#[trigger] head[k]) && head[k]
        != ';' by {
        if k < 8 {
            assert(head[k] == "function"@[k]);
        } else if k < 8 + gap.len() {
            assert(head[k] == gap[k - 8]);
        } else {
            assert(head[k] == f[k - 8 - gap.len()]);
            assert(f.contains(f[k - 8 - gap.len()]));
        }
    }
    assert(!head.contains(';'));
    law_functions_end_with_their_body(pre, head, params, between, body, rest);
    assert(s =~= pre + (head + seq!['(']) + (round.skip(1) + between + curly + rest)) by {
        assert(round[0] == '(');
        assert(round =~= seq!['('] + round.skip(1));
    }
    lemma_named(pre, gap, f, round.skip(1) + between + curly + rest);
    if i > 0 {
        assert(s[i - 1] == pre.last());
    }
    assert(names_at(s, "function"@, f, i));
    assert(line_start(s, i));
    assert(in_function(s, f, p));
    let k = choose|k: int| 0 <= k < fs.len() && fs[k] == f;
    assert(in_function(s, fs[k], p));
    assert(in_functions(s, fs, p));
}

/// Text without the word `function` has nothing to take out.
pub proof fn law_nothing_is_taken_out(s: Seq<char>, fs: Seq<Seq<char>>)
    requires
        !holds_text(s, "function"@),
    ensures
        loose_text(s, fs) == s,
{
    assert forall|p: int| 0 <= p < s.len() implies !#[trigger] in_functions(s, fs, p) by {
        if in_functions(s, fs, p) {
            let k = choose|k: int| 0 <= k < fs.len() && in_function(s, #[trigger] fs[k], p);
            let i = choose|i: int| 0 <= i <= p && #[trigger] names_at(s, "function"@, fs[k], i);
            assert(occurs(s, "function"@, i));
        }
    }
    assert(loose_text(s, fs) =~= s);
}

} // verus!
