//! What holds of texts and of the numbers that are written in them.
use crate::strings::{
    after_prefix, all_digits, before, char_index, chars_within, dec, dec_value, digit, find_from,
    is_digit, lemma_dec_nonempty, lemma_find_from, lemma_run_end, lines, lines_from, lower,
    lower_seq, occurs, pieces, pieces_from, run_end, replaced, same_ignoring_case, trim, trim_end,
    trim_start, unsigned_value, utf8_len, utf8_size, white_space, words, words_from, Class,
};
use vstd::arithmetic::power::{lemma_pow0, lemma_pow_positive, pow};
use vstd::prelude::*;
use vstd::utf8::{char_is_scalar, encode_utf8};

verus! {

/// Whether a text is white space alone.
pub open spec fn all_white(s: Seq<char>) -> bool {
    forall|i: int| 0 <= i < s.len() ==> white_space(#[trigger] s[i])
}

/// Whether a text neither starts nor ends with white space.
pub open spec fn tight(s: Seq<char>) -> bool {
    s.len() == 0 || (!white_space(s[0]) && !white_space(s.last()))
}

/// A power of ten.
pub open spec fn ten_to(k: nat) -> nat {
    pow(10, k) as nat
}

/// A run of a class reaches to where the class ends.
pub proof fn lemma_run_reaches(s: Seq<char>, from: int, to: int, k: Class)
    requires
        0 <= from <= to <= s.len(),
        forall|i: int| from <= i < to ==> k.holds(#[trigger] s[i]),
        to < s.len() ==> !k.holds(s[to]),
    ensures
        run_end(s, from, k) == to,
    decreases to - from,
{
    if from < to {
        assert(k.holds(s[from]));
        lemma_run_reaches(s, from + 1, to, k);
    }
}

/// Powers of ten grow tenfold.
pub proof fn lemma_ten_to(k: nat)
    ensures
        ten_to(0) == 1,
        ten_to(k + 1) == 10 * ten_to(k),
        ten_to(k) > 0,
        ten_to(k) == pow(10, k),
{
    lemma_pow0(10);
    lemma_pow_positive(10, k);
    reveal(pow);
}

/// A number written in decimal reads back as itself. It has no sign and no leading zero.
#[verifier::rlimit(40)]
pub proof fn law_decimal_reads_back(n: nat)
    ensures
        dec_value(dec(n)) == n,
        all_digits(dec(n)),
        dec(n).len() > 0,
        n > 0 ==> dec(n)[0] != '0',
    decreases n,
{
    lemma_dec_nonempty(n);
    if n < 10 {
        let s = dec(n);
        assert(s == seq![digit(n)]);
        assert(digit(n) as nat == 48 + n);
        assert(s.drop_last() =~= Seq::<char>::empty());
        assert(dec_value(s.drop_last()) == 0);
        assert(s.last() as nat == 48 + n);
        assert forall|i: int| 0 <= i < s.len() implies is_digit(#[trigger] s[i]) by {
            assert(s[i] == digit(n));
        }
    } else {
        law_decimal_reads_back(n / 10);
        let f = dec(n / 10);
        let d = digit(n % 10);
        let s = dec(n);
        assert(s == f.push(d));
        assert(d as nat == 48 + n % 10);
        assert(s.drop_last() =~= f);
        assert(s.last() == d);
        assert forall|i: int| 0 <= i < s.len() implies is_digit(#[trigger] s[i]) by {
            if i < f.len() {
                assert(s[i] == f[i]);
            }
        }
        assert(s[0] == f[0]);
    }
}

/// A run of digits is worth its first part shifted by as many places as follow, and the rest.
pub proof fn law_digits_join(a: Seq<char>, b: Seq<char>)
    requires
        all_digits(b),
    ensures
        dec_value(a + b) == dec_value(a) * ten_to(b.len()) + dec_value(b),
    decreases b.len(),
{
    lemma_ten_to(0);
    if b.len() == 0 {
        assert(a + b =~= a);
        assert(dec_value(a) * 1 == dec_value(a));
    } else {
        let c = b.drop_last();
        law_digits_join(a, c);
        lemma_ten_to(c.len());
        assert((a + b).drop_last() =~= a + c);
        assert((a + b).last() == b.last());
        assert(is_digit(b[b.len() - 1]));
        let x = dec_value(a);
        let t = ten_to(c.len());
        assert((x * t) * 10 == x * (10 * t)) by (nonlinear_arith);
    }
}

/// Trimming takes away the white space around a text, all of it and nothing else.
pub proof fn law_trim_takes_white_space(a: Seq<char>, t: Seq<char>, b: Seq<char>)
    requires
        all_white(a),
        tight(t),
        all_white(b),
    ensures
        trim(a + t + b) == t,
    decreases b.len(),
{
    let s = a + t + b;
    if t.len() > 0 {
        assert forall|i: int| 0 <= i < a.len() implies Class::White.holds(#[trigger] s[i]) by {
            assert(s[i] == a[i]);
        }
        assert(s[a.len() as int] == t[0]);
        lemma_run_reaches(s, 0, a.len() as int, Class::White);
        assert(trim_start(s) =~= t + b);
        lemma_trim_end(t, b);
    } else {
        assert forall|i: int| 0 <= i < s.len() implies Class::White.holds(#[trigger] s[i]) by {
            if i < a.len() {
                assert(s[i] == a[i]);
            } else {
                assert(s[i] == b[i - a.len()]);
            }
        }
        lemma_run_reaches(s, 0, s.len() as int, Class::White);
        assert(trim_start(s) =~= Seq::<char>::empty());
        assert(t =~= Seq::<char>::empty());
    }
}

/// What trimming leaves neither starts nor ends with white space.
pub proof fn law_trimmed_is_tight(s: Seq<char>)
    ensures
        tight(trim(s)),
        exists|a: Seq<char>, b: Seq<char>|
            s == #[trigger] (a + trim(s) + b) && all_white(a) && all_white(b),
{
    lemma_run_end(s, 0, Class::White);
    let k = run_end(s, 0, Class::White);
    let a = s.take(k);
    let u = s.skip(k);
    lemma_trim_end_splits(u);
    let t = trim_end(u);
    let b = u.skip(t.len() as int);
    assert(all_white(a)) by {
        assert forall|i: int| 0 <= i < a.len() implies white_space(#[trigger] a[i]) by {
            assert(Class::White.holds(s[i]));
        }
    }
    if t.len() > 0 {
        assert(t[0] == u[0]);
        assert(u[0] == s[k]);
    }
    assert(s =~= a + t + b);
    assert(trim(s) == t);
}

proof fn lemma_trim_end_splits(u: Seq<char>)
    ensures
        trim_end(u).len() <= u.len(),
        trim_end(u) == u.take(trim_end(u).len() as int),
        all_white(u.skip(trim_end(u).len() as int)),
        trim_end(u).len() > 0 ==> !white_space(trim_end(u).last()),
    decreases u.len(),
{
    if u.len() > 0 && white_space(u.last()) {
        let f = u.drop_last();
        lemma_trim_end_splits(f);
        let n = trim_end(f).len() as int;
        assert(u.take(n) =~= f.take(n));
        assert forall|i: int| 0 <= i < u.skip(n).len() implies white_space(
            #[trigger] u.skip(n)[i],
        ) by {
            if i < f.skip(n).len() {
                assert(u.skip(n)[i] == f.skip(n)[i]);
            } else {
                assert(u.skip(n)[i] == u.last());
            }
        }
    } else {
        assert(u.take(u.len() as int) =~= u);
    }
}

proof fn lemma_trim_end(t: Seq<char>, b: Seq<char>)
    requires
        t.len() > 0,
        !white_space(t.last()),
        all_white(b),
    ensures
        trim_end(t + b) == t,
    decreases b.len(),
{
    if b.len() == 0 {
        assert(t + b =~= t);
    } else {
        let c = b.drop_last();
        assert((t + b).last() == b[b.len() - 1]);
        assert((t + b).drop_last() =~= t + c);
        assert forall|i: int| 0 <= i < c.len() implies white_space(#[trigger] c[i]) by {
            assert(c[i] == b[i]);
        }
        lemma_trim_end(t, c);
    }
}

/// What stands before a text only moves where its runs end.
pub proof fn lemma_run_moves(p: Seq<char>, s: Seq<char>, i: int, k: Class)
    requires
        0 <= i <= s.len(),
    ensures
        run_end(p + s, p.len() + i, k) == p.len() + run_end(s, i, k),
    decreases s.len() - i,
{
    if i < s.len() {
        assert((p + s)[p.len() + i] == s[i]);
        if k.holds(s[i]) {
            lemma_run_moves(p, s, i + 1, k);
        }
    }
}

proof fn lemma_pieces_move(p: Seq<char>, s: Seq<char>, i: int, c: char)
    requires
        0 <= i <= s.len(),
    ensures
        pieces_from(p + s, p.len() + i, c) == pieces_from(s, i, c),
    decreases s.len() - i,
{
    let k = Class::Not(c);
    lemma_run_moves(p, s, i, k);
    lemma_run_end(s, i, k);
    let e = run_end(s, i, k);
    assert((p + s).subrange(p.len() + i, p.len() + e) =~= s.subrange(i, e));
    if e < s.len() {
        lemma_pieces_move(p, s, e + 1, c);
    }
}

/// Cutting a text at a separator gives what stands before the first one, then the pieces of what
/// stands behind it. A text without a separator is one piece.
pub proof fn law_pieces_are_between_separators(a: Seq<char>, c: char, rest: Seq<char>)
    requires
        !a.contains(c),
    ensures
        pieces(a, c) == seq![a],
        pieces(a + seq![c] + rest, c) == seq![a] + pieces(rest, c),
{
    crate::strings::lemma_one_piece(a, c);
    let s = a + seq![c] + rest;
    let k = Class::Not(c);
    assert forall|i: int| 0 <= i < a.len() implies k.holds(#[trigger] s[i]) by {
        assert(s[i] == a[i]);
        assert(a.contains(a[i]));
    }
    assert(s[a.len() as int] == c);
    lemma_run_reaches(s, 0, a.len() as int, k);
    assert(s.subrange(0, a.len() as int) =~= a);
    let p = a + seq![c];
    assert(s =~= p + rest);
    lemma_pieces_move(p, rest, 0, c);
}

#[verifier::rlimit(40)]
proof fn lemma_pieces_end(s: Seq<char>, i: int, c: char, last: Seq<char>)
    requires
        0 <= i <= s.len(),
        !last.contains(c),
    ensures
        pieces_from(s + seq![c] + last, i, c) == pieces_from(s, i, c).push(last),
    decreases s.len() - i,
{
    let k = Class::Not(c);
    let t = s + seq![c] + last;
    lemma_run_end(s, i, k);
    let e = run_end(s, i, k);
    assert forall|j: int| i <= j < e implies k.holds(#[trigger] t[j]) by {
        assert(t[j] == s[j]);
    }
    if e < s.len() {
        assert(t[e] == s[e]);
    } else {
        assert(t[e] == c);
    }
    lemma_run_reaches(t, i, e, k);
    assert(t.subrange(i, e) =~= s.subrange(i, e));
    if e < s.len() {
        lemma_pieces_end(s, e + 1, c, last);
        assert(seq![s.subrange(i, e)] + pieces_from(s, e + 1, c).push(last) =~= (seq![
            s.subrange(i, e),
        ] + pieces_from(s, e + 1, c)).push(last));
    } else {
        let p = s + seq![c];
        assert(t =~= p + last);
        lemma_pieces_move(p, last, 0, c);
        crate::strings::lemma_one_piece(last, c);
        assert(seq![s.subrange(i, e)] + seq![last] =~= seq![s.subrange(i, e)].push(last));
    }
}

/// What stands behind the last separator of a text is its last piece.
pub proof fn law_last_piece(s: Seq<char>, c: char, last: Seq<char>)
    requires
        !last.contains(c),
    ensures
        pieces(s + seq![c] + last, c) == pieces(s, c).push(last),
{
    lemma_pieces_end(s, 0, c, last);
}

/// What stands before a text only moves what a search finds in it.
pub proof fn lemma_find_moves(p: Seq<char>, s: Seq<char>, q: Seq<char>, i: int)
    requires
        0 <= i,
    ensures
        find_from(p + s, q, p.len() + i) == (match find_from(s, q, i) {
            Some(j) => Some(p.len() + j),
            None => None,
        }),
    decreases s.len() - i + 1,
{
    if i + q.len() <= s.len() {
        assert((p + s).subrange(p.len() + i, p.len() + i + q.len()) =~= s.subrange(i, i + q.len()));
        if !occurs(s, q, i) {
            lemma_find_moves(p, s, q, i + 1);
        }
    }
}

/// A mark whose first character stands nowhere else in it is found right behind a text that does not
/// hold it.
pub proof fn lemma_find_mark(a: Seq<char>, p: Seq<char>, b: Seq<char>)
    requires
        p.len() > 0,
        forall|k: int| 0 < k < p.len() ==> #[trigger] p[k] != p[0],
        forall|i: int| !#[trigger] occurs(a, p, i),
    ensures
        find_from(a + p + b, p, 0) == Some(a.len() as int),
{
    let s = a + p + b;
    let n = a.len() as int;
    assert(s.subrange(n, n + p.len()) =~= p);
    assert forall|i: int| 0 <= i < n implies !#[trigger] occurs(s, p, i) by {
        if occurs(s, p, i) {
            let t = s.subrange(i, i + p.len());
            if i + p.len() <= n {
                assert(a.subrange(i, i + p.len()) =~= t);
                assert(occurs(a, p, i));
            } else {
                assert(t[n - i] == s[n]);
                assert(s[n] == p[0]);
            }
        }
    }
    lemma_find_stops(s, p, 0, n);
}

/// A search stops at the first occurrence.
pub proof fn lemma_find_stops(s: Seq<char>, p: Seq<char>, from: int, at: int)
    requires
        0 <= from <= at,
        occurs(s, p, at),
        forall|i: int| from <= i < at ==> !#[trigger] occurs(s, p, i),
    ensures
        find_from(s, p, from) == Some(at),
    decreases at - from,
{
    if from < at {
        assert(!occurs(s, p, from));
        lemma_find_stops(s, p, from + 1, at);
    }
}

/// The first place of a character is behind all that does not hold it.
pub proof fn lemma_find_char(a: Seq<char>, p: Seq<char>, b: Seq<char>)
    requires
        p.len() == 1,
        !a.contains(p[0]),
    ensures
        find_from(a + p + b, p, 0) == Some(a.len() as int),
{
    let s = a + p + b;
    let n = a.len() as int;
    assert(s.subrange(n, n + 1) =~= p);
    assert forall|i: int| 0 <= i < n implies !#[trigger] occurs(s, p, i) by {
        if occurs(s, p, i) {
            assert(s.subrange(i, i + 1)[0] == s[i]);
            assert(s[i] == a[i]);
            assert(a.contains(p[0]));
        }
    }
    lemma_find_stops(s, p, 0, n);
}

/// Whether a text is a word: not empty, and without white space.
pub open spec fn is_one_word(w: Seq<char>) -> bool {
    w.len() > 0 && forall|i: int| 0 <= i < w.len() ==> !white_space(#[trigger] w[i])
}

proof fn lemma_words_move(p: Seq<char>, s: Seq<char>, i: int)
    requires
        0 <= i <= s.len(),
    ensures
        words_from(p + s, p.len() + i) == words_from(s, i),
    decreases s.len() - i,
{
    lemma_run_moves(p, s, i, Class::White);
    lemma_run_end(s, i, Class::White);
    let from = run_end(s, i, Class::White);
    if from < s.len() {
        lemma_run_moves(p, s, from, Class::Dark);
        lemma_run_end(s, from, Class::Dark);
        let to = run_end(s, from, Class::Dark);
        assert(!Class::White.holds(s[from]));
        assert(Class::Dark.holds(s[from]));
        lemma_run_end(s, from + 1, Class::Dark);
        assert(from < to);
        assert((p + s).subrange(p.len() + from, p.len() + to) =~= s.subrange(from, to));
        lemma_words_move(p, s, to);
    }
}

/// The words of a text are those between its white space: after white space comes the first word,
/// then the words of what follows it. White space alone has none.
pub proof fn law_words_are_between_white_space(a: Seq<char>, w: Seq<char>, rest: Seq<char>)
    requires
        all_white(a),
        is_one_word(w),
        rest.len() == 0 || white_space(rest[0]),
    ensures
        words(a) == Seq::<Seq<char>>::empty(),
        words(a + w + rest) == seq![w] + words(rest),
{
    let s = a + w + rest;
    assert forall|i: int| 0 <= i < a.len() implies Class::White.holds(#[trigger] s[i]) by {
        assert(s[i] == a[i]);
    }
    assert forall|i: int| 0 <= i < a.len() implies Class::White.holds(#[trigger] a[i]) by {}
    lemma_run_reaches(a, 0, a.len() as int, Class::White);
    assert(s[a.len() as int] == w[0]);
    lemma_run_reaches(s, 0, a.len() as int, Class::White);
    let from = a.len() as int;
    let to = (a.len() + w.len()) as int;
    assert forall|i: int| from <= i < to implies Class::Dark.holds(#[trigger] s[i]) by {
        assert(s[i] == w[i - from]);
    }
    if to < s.len() {
        assert(s[to] == rest[0]);
    }
    lemma_run_reaches(s, from, to, Class::Dark);
    assert(s.subrange(from, to) =~= w);
    assert(s =~= (a + w) + rest);
    lemma_words_move(a + w, rest, 0);
}

proof fn lemma_lines_move(p: Seq<char>, s: Seq<char>, i: int)
    requires
        0 <= i <= s.len(),
    ensures
        lines_from(p + s, p.len() + i) == lines_from(s, i),
    decreases s.len() - i,
{
    let k = Class::Not('\n');
    lemma_run_moves(p, s, i, k);
    lemma_run_end(s, i, k);
    let e = run_end(s, i, k);
    assert((p + s).subrange(p.len() + i, p.len() + e) =~= s.subrange(i, e));
    if e > i {
        assert((p + s)[p.len() + e - 1] == s[e - 1]);
        assert((p + s).subrange(p.len() + i, p.len() + e - 1) =~= s.subrange(i, e - 1));
    }
    if e < s.len() {
        lemma_lines_move(p, s, e + 1);
    }
}

/// A line feed ends a line, and so does a carriage return with a line feed: the lines of a text are
/// what stands before the first of them, then the lines of what stands behind it. What no line feed
/// ends is a line, unless it is empty.
#[verifier::rlimit(40)]
pub proof fn law_lines_end_at_line_feeds(a: Seq<char>, rest: Seq<char>)
    requires
        !a.contains('\n'),
        a.len() == 0 || a.last() != '\r',
    ensures
        lines(a + seq!['\n'] + rest) == seq![a] + lines(rest),
        lines(a + seq!['\r', '\n'] + rest) == seq![a] + lines(rest),
        a.len() > 0 ==> lines(a) == seq![a],
        lines(Seq::<char>::empty()) == Seq::<Seq<char>>::empty(),
{
    let k = Class::Not('\n');
    lemma_no_line_feed(a, a, Seq::<char>::empty());
    assert(a + Seq::<char>::empty() =~= a);
    let s = a + seq!['\n'] + rest;
    assert(s =~= a + (seq!['\n'] + rest));
    lemma_no_line_feed(s, a, seq!['\n'] + rest);
    assert(s[a.len() as int] == '\n');
    assert(a.len() > 0 ==> s[a.len() - 1] == a.last());
    assert(s.subrange(0, a.len() as int) =~= a);
    let p = a + seq!['\n'];
    assert(s =~= p + rest);
    lemma_lines_move(p, rest, 0);
    let b = a + seq!['\r'];
    assert forall|i: int| 0 <= i < b.len() implies #[trigger] b[i] != '\n' by {
        if i < a.len() {
            assert(a.contains(a[i]));
        }
    }
    let t = a + seq!['\r', '\n'] + rest;
    assert(t =~= b + (seq!['\n'] + rest));
    lemma_no_line_feed(t, b, seq!['\n'] + rest);
    assert(t[b.len() as int] == '\n');
    assert(t[b.len() - 1] == '\r');
    assert(t.subrange(0, a.len() as int) =~= a);
    let q = a + seq!['\r', '\n'];
    assert(t =~= q + rest);
    lemma_lines_move(q, rest, 0);
    if a.len() > 0 {
        assert(a.subrange(0, a.len() as int) =~= a);
        assert(seq![a] + Seq::<Seq<char>>::empty() =~= seq![a]);
    }
}

proof fn lemma_no_line_feed(s: Seq<char>, a: Seq<char>, rest: Seq<char>)
    requires
        s == a + rest,
        !a.contains('\n'),
        rest.len() == 0 || rest[0] == '\n',
    ensures
        run_end(s, 0, Class::Not('\n')) == a.len(),
{
    let k = Class::Not('\n');
    assert forall|i: int| 0 <= i < a.len() implies k.holds(#[trigger] s[i]) by {
        assert(s[i] == a[i]);
        assert(a.contains(a[i]));
    }
    if rest.len() > 0 {
        assert(s[a.len() as int] == rest[0]);
    }
    lemma_run_reaches(s, 0, a.len() as int, k);
}

/// Letters of ASCII become small, everything else stays; what is small stays as it is.
pub proof fn law_lower_case(s: Seq<char>)
    ensures
        lower_seq(s).len() == s.len(),
        lower_seq(lower_seq(s)) == lower_seq(s),
        forall|i: int|
            0 <= i < s.len() ==> {
                let c = s[i];
                let d = #[trigger] lower_seq(s)[i];
                &&& 'A' <= c <= 'Z' ==> d as int == c as int + ('a' as int - 'A' as int)
                &&& !('A' <= c <= 'Z') ==> d == c
            },
{
    assert forall|i: int| 0 <= i < s.len() implies #[trigger] lower_seq(lower_seq(s))[i] == lower_seq(
        s,
    )[i] by {
        assert(lower_seq(s)[i] == lower(s[i]));
    }
    assert(lower_seq(lower_seq(s)) =~= lower_seq(s));
}

/// The size of a text is the length of its encoding.
pub proof fn law_sizes_are_encoded_lengths(s: Seq<char>)
    ensures
        utf8_size(s) == encode_utf8(s).len(),
    decreases s.len(),
{
    if s.len() > 0 {
        let rest = s.drop_first();
        law_sizes_are_encoded_lengths(rest);
        lemma_size_front(s);
        char_is_scalar(s[0]);
    }
}

proof fn lemma_size_front(s: Seq<char>)
    requires
        s.len() > 0,
    ensures
        utf8_size(s) == utf8_len(s[0]) + utf8_size(s.drop_first()),
    decreases s.len(),
{
    if s.len() == 1 {
        assert(s.drop_last() =~= Seq::<char>::empty());
        assert(s.drop_first() =~= Seq::<char>::empty());
        assert(utf8_size(Seq::<char>::empty()) == 0);
    } else {
        lemma_size_front(s.drop_last());
        assert(s.drop_last().drop_first() =~= s.drop_first().drop_last());
        assert(s.drop_first().last() == s.last());
    }
}

/// The character at a byte offset is the one that the offset falls into: what stands before it ends
/// at or before the offset, and the character itself ends after it.
pub proof fn law_offsets_fall_into_characters(s: Seq<char>, b: nat)
    ensures
        char_index(s, b) <= s.len(),
        utf8_size(s.take(char_index(s, b) as int)) <= b,
        char_index(s, b) < s.len() ==> b < utf8_size(s.take((char_index(s, b) + 1) as int)),
{
    assert(s.take(0) =~= Seq::<char>::empty());
    assert(utf8_size(s.take(0)) == 0);
    lemma_within(s, 0, b);
}

proof fn lemma_within(s: Seq<char>, k: int, b: nat)
    requires
        0 <= k <= s.len(),
    ensures
        ({
            let n = k + chars_within(s, k, b);
            let base = utf8_size(s.take(k));
            &&& n <= s.len()
            &&& utf8_size(s.take(n)) <= base + b
            &&& n < s.len() ==> base + b < utf8_size(s.take(n + 1))
        }),
    decreases s.len() - k,
{
    if k < s.len() {
        assert(s.take(k + 1).drop_last() =~= s.take(k));
        assert(s.take(k + 1).last() == s[k]);
        if utf8_len(s[k]) <= b {
            lemma_within(s, k + 1, (b - utf8_len(s[k])) as nat);
        }
    }
}

/// A number in decimal is read as itself up to the bound, with a plus sign and leading zeros as
/// without; what holds anything but digits is no number, and neither is nothing.
#[verifier::rlimit(40)]
pub proof fn law_unsigned_numbers(n: nat, s: Seq<char>, max: nat)
    ensures
        unsigned_value(dec(n), max) == (if n <= max {
            Some(n)
        } else {
            None
        }),
        unsigned_value(seq!['+'] + dec(n), max) == unsigned_value(dec(n), max),
        unsigned_value(seq!['0'] + dec(n), max) == unsigned_value(dec(n), max),
        unsigned_value(Seq::empty(), max) is None,
        (exists|i: int| 0 < i < s.len() && !is_digit(#[trigger] s[i])) ==> unsigned_value(s, max) is None,
        s.len() > 0 && s[0] != '+' && !is_digit(s[0]) ==> unsigned_value(s, max) is None,
        s.len() == 1 && s[0] == '+' ==> unsigned_value(s, max) is None,
{
    law_decimal_reads_back(n);
    let d = dec(n);
    assert(is_digit(d[0]));
    assert((seq!['+'] + d).skip(1) =~= d);
    let z = seq!['0'];
    law_digits_join(z, d);
    assert(z.drop_last() =~= Seq::<char>::empty());
    assert(dec_value(z.drop_last()) == 0);
    assert(dec_value(z) == 0);
    assert(0 * ten_to(d.len()) == 0);
    let zd = z + d;
    assert forall|i: int| 0 <= i < zd.len() implies is_digit(#[trigger] zd[i]) by {
        if i > 0 {
            assert(zd[i] == d[i - 1]);
        }
    }
    if exists|i: int| 0 < i < s.len() && !is_digit(#[trigger] s[i]) {
        let i = choose|i: int| 0 < i < s.len() && !is_digit(#[trigger] s[i]);
        assert(s.skip(1)[i - 1] == s[i]);
    }
    if s.len() == 1 && s[0] == '+' {
        assert(s.skip(1).len() == 0);
    }
}

/// Replacing works from left to right: what stands before the first occurrence stays, the occurrence
/// gives way, and what follows is worked on alike. Text without an occurrence stays as it is, and so
/// does text in which a pattern is replaced by itself.
pub proof fn law_replacing(a: Seq<char>, p: Seq<char>, b: Seq<char>, w: Seq<char>)
    requires
        p.len() > 0,
        forall|i: int| 0 <= i < a.len() ==> !#[trigger] occurs(a + p + b, p, i),
    ensures
        replaced(a + p + b, p, w) == a + w + replaced(b, p, w),
{
    let s = a + p + b;
    assert(s.subrange(a.len() as int, (a.len() + p.len()) as int) =~= p);
    lemma_find_stops(s, p, 0, a.len() as int);
    assert(s.take(a.len() as int) =~= a);
    assert(s.skip((a.len() + p.len()) as int) =~= b);
}

/// Text without an occurrence stays as it is, and so does text in which a pattern is replaced by
/// itself.
pub proof fn law_replacing_nothing(s: Seq<char>, p: Seq<char>, w: Seq<char>)
    ensures
        (forall|i: int| 0 <= i <= s.len() ==> !#[trigger] occurs(s, p, i)) ==> replaced(s, p, w) == s,
        replaced(s, p, p) == s,
    decreases s.len(),
{
    lemma_find_from(s, p, 0);
    if let Some(i) = find_from(s, p, 0) {
        if p.len() > 0 && 0 <= i && i + p.len() <= s.len() {
            assert(occurs(s, p, i));
            law_replacing_nothing(s.skip(i + p.len()), p, w);
            assert(s.take(i) + p + s.skip(i + p.len()) =~= s);
        }
    }
}

/// A prefix comes off the text that it starts, and only of such; before a mark stands what leads up
/// to its first occurrence.
pub proof fn law_prefixes_come_off(p: Seq<char>, rest: Seq<char>, s: Seq<char>)
    ensures
        after_prefix(p + rest, p) == Some(rest),
        after_prefix(s, p) matches Some(r) ==> s == p + r,
        before(s, p).len() <= s.len(),
        before(s, p) == s.take(before(s, p).len() as int),
        forall|i: int| 0 <= i < before(s, p).len() ==> !#[trigger] occurs(s, p, i),
        before(s, p).len() < s.len() ==> occurs(s, p, before(s, p).len() as int),
{
    let t = p + rest;
    assert(t.subrange(0, p.len() as int) =~= p);
    assert(t.skip(p.len() as int) =~= rest);
    lemma_find_from(s, p, 0);
    if let Some(r) = after_prefix(s, p) {
        assert(s =~= p + r);
    }
}

/// Case does not tell texts apart, and nothing else joins them: texts that differ in length, or by
/// more than the case of a letter, are told apart.
pub proof fn law_case_is_ignored(a: Seq<char>, b: Seq<char>)
    ensures
        same_ignoring_case(a, b) == same_ignoring_case(b, a),
        same_ignoring_case(a, lower_seq(a)),
        same_ignoring_case(a, b) <==> a.len() == b.len() && (forall|i: int|
            0 <= i < a.len() ==> #[trigger] a[i] == b[i] || (('a' <= a[i] <= 'z') && b[i] as int
                == a[i] as int - 32) || (('a' <= b[i] <= 'z') && a[i] as int == b[i] as int - 32)),
{
    law_lower_case(a);
    let same = a.len() == b.len() && (forall|i: int|
        0 <= i < a.len() ==> #[trigger] a[i] == b[i] || (('a' <= a[i] <= 'z') && b[i] as int == a[i] as int
            - 32) || (('a' <= b[i] <= 'z') && a[i] as int == b[i] as int - 32));
    if same_ignoring_case(a, b) {
        assert(lower_seq(a).len() == a.len() && lower_seq(b).len() == b.len());
        assert forall|i: int| 0 <= i < a.len() implies #[trigger] a[i] == b[i] || (('a' <= a[i] <= 'z')
            && b[i] as int == a[i] as int - 32) || (('a' <= b[i] <= 'z') && a[i] as int == b[i] as int
            - 32) by {
            assert(lower_seq(a)[i] == lower(a[i]));
            assert(lower_seq(b)[i] == lower(b[i]));
        }
    }
    if same {
        assert forall|i: int| 0 <= i < a.len() implies lower(#[trigger] a[i]) == lower(b[i]) by {}
        assert(lower_seq(a) =~= lower_seq(b));
    }
}

} // verus!
