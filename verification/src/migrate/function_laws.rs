//! What type inference finds of functions: the type that they are annotated with, or that of the
//! literal that they return.
use crate::migrate::code_laws::{
    all_fit, all_written, begins_anew, fits, is_plain, law_declared_functions_end, plain_char, written, Piece,
};
use crate::migrate::type_infer::{
    after_functions, annotation_ty, before_bracket, declared_lines, first_return, function_type,
    joined_lines, literal_ty, name_pos, params_end, return_annotation, returned, value_end,
    value_text, BindingKind, BindingView, InferredType,
};
use crate::migrate::type_laws::{is_name, lemma_leading, lemma_no_comment, space};
use crate::string_laws::{all_white, law_trim_takes_white_space, lemma_find_stops, tight};
use crate::strings::{
    after_prefix, before, find_from, lemma_find_from, occurs, pieces, trim, white_space, Class,
};
use vstd::prelude::*;

verus! {

/// The head of a function: its word, its name and its parameters.
pub open spec fn function_head(name: Seq<char>, params: Seq<char>) -> Seq<char> {
    name + seq!['('] + params + seq![')']
}

proof fn lemma_params(s: Seq<char>, i: int, t: Seq<char>, depth: nat)
    requires
        0 <= i,
        i + t.len() <= s.len(),
        s.subrange(i, i + t.len()) == t,
        is_plain(t),
    ensures
        params_end(s, i, depth) == params_end(s, (i + t.len()) as int, depth),
    decreases t.len(),
{
    if t.len() > 0 {
        assert(s.subrange(i, i + t.len())[0] == s[i]);
        assert(plain_char(t[0]));
        let u = t.skip(1);
        assert(s.subrange(i + 1, i + 1 + u.len()) =~= u) by {
            assert forall|k: int| 0 <= k < u.len() implies s[i + 1 + k] == #[trigger] u[k] by {
                assert(u[k] == t[k + 1]);
                assert(s.subrange(i, i + t.len())[k + 1] == s[i + k + 1]);
            }
        }
        assert forall|k: int| 0 <= k < u.len() implies plain_char(#[trigger] u[k]) by {
            assert(u[k] == t[k + 1]);
        }
        lemma_params(s, i + 1, u, depth);
    }
}

/// A parameter list ends with its bracket.
proof fn lemma_head(name: Seq<char>, params: Seq<char>, tail: Seq<char>)
    requires
        is_plain(name),
        is_plain(params),
    ensures
        params_end(function_head(name, params) + tail, 0, 0) == Some(
            function_head(name, params).len() as int,
        ),
        (function_head(name, params) + tail).skip(function_head(name, params).len() as int) == tail,
{
    let h = function_head(name, params);
    let s = h + tail;
    let n = name.len() as int;
    assert(s.subrange(0, n) =~= name);
    lemma_params(s, 0, name, 0);
    assert(s[n] == '(');
    assert(s.subrange(n + 1, n + 1 + params.len()) =~= params);
    lemma_params(s, n + 1, params, 1);
    assert(s[n + 1 + params.len()] == ')');
    assert(s.skip(h.len() as int) =~= tail);
}

/// The code of a line that declares a function.
proof fn lemma_code(a: Seq<char>, rest: Seq<char>)
    requires
        all_white(a),
        rest.len() > 0,
        !white_space(rest.last()),
        forall|i: int| 0 <= i < a.len() ==> #[trigger] a[i] != '/',
        forall|i: int| 0 <= i < rest.len() ==> #[trigger] rest[i] != '/',
    ensures
        after_prefix(trim(before(a + "function "@ + rest, "//"@)), "function "@) == Some(rest),
{
    reveal_strlit("function ");
    let w = "function "@;
    let line = a + w + rest;
    assert forall|i: int| 0 <= i < line.len() implies #[trigger] line[i] != '/' by {
        if i < a.len() {
            assert(line[i] == a[i]);
        } else if i < a.len() + w.len() {
            assert(line[i] == w[i - a.len()]);
        } else {
            assert(line[i] == rest[i - a.len() - w.len()]);
        }
    }
    lemma_no_comment(line);
    let t = w + rest;
    let e = Seq::<char>::empty();
    assert(t[0] == 'f');
    assert(t.last() == rest.last());
    law_trim_takes_white_space(a, t, e);
    assert(a + t + e =~= line);
    assert(t.subrange(0, 9) =~= w);
    assert(t.skip(9) =~= rest);
}

/// A function with an annotation has the type that the annotation names.
#[verifier::rlimit(50)]
pub proof fn law_function_annotations(
    ls: Seq<Seq<char>>,
    i: int,
    a: Seq<char>,
    name: Seq<char>,
    params: Seq<char>,
    b: Seq<char>,
    c: Seq<char>,
    ann: Seq<char>,
    d: Seq<char>,
    body: Seq<char>,
)
    requires
        0 <= i < ls.len(),
        ls[i] == a + "function "@ + (function_head(name, params) + b + seq![':'] + c + ann + d + seq!['{']
            + body),
        space(a),
        is_name(name),
        is_plain(name),
        !Class::Ident.holds('('),
        is_plain(params),
        space(b),
        space(c),
        tight(ann),
        ann.len() > 0,
        is_plain(ann),
        space(d),
        body.len() > 0 ==> !white_space(body.last()),
        forall|k: int| 0 <= k < body.len() ==> #[trigger] body[k] != '/',
    ensures
        function_type(ls, i) == Some((name, annotation_ty(ann))),
{
    let h = function_head(name, params);
    let inner = c + ann + d;
    let tail = b + seq![':'] + (inner + seq!['{'] + body);
    let rest = h + b + seq![':'] + c + ann + d + seq!['{'] + body;
    assert(rest =~= h + tail);
    assert(rest.last() == (if body.len() > 0 {
        body.last()
    } else {
        '{'
    }));
    assert forall|k: int| 0 <= k < rest.len() implies #[trigger] rest[k] != '/' by {
        lemma_slash_free(name, params, b, c, ann, d, body, k);
    }
    lemma_code(a, rest);
    let q = seq!['('] + params + seq![')'] + tail;
    assert(rest =~= name + q);
    lemma_leading(name, q);
    lemma_annotation(name, params, b, c, ann, d, body);
}

#[verifier::rlimit(40)]
proof fn lemma_annotation(
    name: Seq<char>,
    params: Seq<char>,
    b: Seq<char>,
    c: Seq<char>,
    ann: Seq<char>,
    d: Seq<char>,
    body: Seq<char>,
)
    requires
        is_plain(name),
        is_plain(params),
        space(b),
        space(c),
        tight(ann),
        ann.len() > 0,
        is_plain(ann),
        space(d),
        body.len() > 0 ==> !white_space(body.last()),
    ensures
        return_annotation(
            function_head(name, params) + (b + seq![':'] + ((c + ann + d) + seq!['{'] + body)),
        ) == ann,
{
    reveal_strlit(":");
    let inner = c + ann + d;
    let after = inner + seq!['{'] + body;
    let tail = b + seq![':'] + after;
    lemma_head(name, params, tail);
    let e = Seq::<char>::empty();
    let t = seq![':'] + after;
    assert(t.last() == (if body.len() > 0 {
        body.last()
    } else {
        '{'
    }));
    law_trim_takes_white_space(b, t, e);
    assert(b + t + e =~= tail);
    assert(t.subrange(0, 1) =~= ":"@);
    assert(t.skip(1) =~= after);
    assert forall|k: int| 0 <= k < inner.len() implies #[trigger] inner[k] != '{' && inner[k] != '(' by {
        if k < c.len() {
            assert(inner[k] == c[k]);
        } else if k < c.len() + ann.len() {
            assert(inner[k] == ann[k - c.len()]);
            assert(plain_char(ann[k - c.len()]));
        } else {
            assert(inner[k] == d[k - c.len() - ann.len()]);
        }
    }
    assert(!inner.contains('{') && !inner.contains('('));
    lemma_before(inner, '{', body);
    lemma_none_before(inner, '(');
    assert(before_bracket(after) == inner);
    law_trim_takes_white_space(c, ann, d);
}

proof fn lemma_slash_free(
    name: Seq<char>,
    params: Seq<char>,
    b: Seq<char>,
    c: Seq<char>,
    ann: Seq<char>,
    d: Seq<char>,
    body: Seq<char>,
    k: int,
)
    requires
        is_plain(name),
        is_plain(params),
        space(b),
        space(c),
        is_plain(ann),
        space(d),
        forall|k: int| 0 <= k < body.len() ==> #[trigger] body[k] != '/',
        0 <= k < (function_head(name, params) + b + seq![':'] + c + ann + d + seq!['{'] + body).len(),
    ensures
        (function_head(name, params) + b + seq![':'] + c + ann + d + seq!['{'] + body)[k] != '/',
{
    let n1 = name.len();
    let n2 = n1 + 1 + params.len();
    let n3 = n2 + 1 + b.len();
    let n4 = n3 + 1 + c.len();
    let n5 = n4 + ann.len();
    let n6 = n5 + d.len();
    let s = function_head(name, params) + b + seq![':'] + c + ann + d + seq!['{'] + body;
    if k < n1 {
        assert(s[k] == name[k] && plain_char(name[k]));
    } else if n1 < k < n2 {
        assert(s[k] == params[k - n1 - 1] && plain_char(params[k - n1 - 1]));
    } else if n2 < k < n3 {
        assert(s[k] == b[k - n2 - 1]);
    } else if n3 < k < n4 {
        assert(s[k] == c[k - n3 - 1]);
    } else if n4 <= k < n5 {
        assert(s[k] == ann[k - n4] && plain_char(ann[k - n4]));
    } else if n5 <= k < n6 {
        assert(s[k] == d[k - n5]);
    } else if n6 < k {
        assert(s[k] == body[k - n6 - 1]);
    }
}

/// What stands before a bracket that nothing before it holds.
proof fn lemma_before(inner: Seq<char>, c: char, body: Seq<char>)
    requires
        c == '{',
        !inner.contains(c),
    ensures
        before(inner + seq![c] + body, "{"@) == inner,
{
    reveal_strlit("{");
    assert("{"@ =~= seq![c]);
    let s = inner + seq![c] + body;
    assert forall|i: int| 0 <= i < inner.len() implies !#[trigger] occurs(s, "{"@, i) by {
        if occurs(s, "{"@, i) {
            assert(s.subrange(i, i + 1)[0] == s[i]);
            assert(s[i] == inner[i]);
            assert(inner.contains(inner[i]));
        }
    }
    assert(s.subrange(inner.len() as int, inner.len() as int + 1) =~= "{"@);
    lemma_find_stops(s, "{"@, 0, inner.len() as int);
    assert(s.take(inner.len() as int) =~= inner);
}

proof fn lemma_none_before(inner: Seq<char>, c: char)
    requires
        c == '(',
        !inner.contains(c),
    ensures
        before(inner, "("@) == inner,
{
    reveal_strlit("(");
    lemma_find_from(inner, "("@, 0);
    if let Some(i) = find_from(inner, "("@, 0) {
        assert(inner.subrange(i, i + 1)[0] == inner[i]);
        assert(inner.contains(inner[i]));
    }
}

/// Whether a text is a plain value: quoted text, or text without quotes, brackets and semicolons.
pub open spec fn is_value(lit: Seq<char>) -> bool {
    ||| is_plain(lit) && !lit.contains(';')
    ||| exists|q: char, t: Seq<char>| #[trigger] is_quoted(lit, q, t)
}

/// Whether a text is another in quotes.
pub open spec fn is_quoted(lit: Seq<char>, q: char, t: Seq<char>) -> bool {
    &&& q == '"' || q == '\'' || q == '`'
    &&& lit == seq![q] + t + seq![q]
    &&& !t.contains(q)
    &&& !t.contains('\\')
}

proof fn lemma_value_plain(s: Seq<char>, i: int, e: int)
    requires
        0 <= i <= e < s.len(),
        forall|k: int| i <= k < e ==> plain_char(#[trigger] s[k]) && s[k] != ';',
        s[e] == ';',
    ensures
        value_end(s, i, 0, None) == e,
    decreases e - i,
{
    if i < e {
        assert(plain_char(s[i]));
        lemma_value_plain(s, i + 1, e);
    }
}

proof fn lemma_value_quoted(s: Seq<char>, i: int, e: int, q: char)
    requires
        0 <= i <= e < s.len(),
        forall|k: int| i <= k < e ==> #[trigger] s[k] != q && s[k] != '\\',
        s[e] == q,
        q != '\\',
    ensures
        value_end(s, i, 0, Some(q)) == value_end(s, e + 1, 0, None),
    decreases e - i,
{
    if i < e {
        lemma_value_quoted(s, i + 1, e, q);
    }
}

/// A returned value ends before its semicolon, whatever stands in its quotes.
pub proof fn law_returned_values(lit: Seq<char>, rest: Seq<char>)
    requires
        is_value(lit),
    ensures
        value_text(lit + seq![';'] + rest) == lit,
{
    let s = lit + seq![';'] + rest;
    let n = lit.len() as int;
    assert(s[n] == ';');
    if is_plain(lit) && !lit.contains(';') {
        assert forall|k: int| 0 <= k < n implies plain_char(#[trigger] s[k]) && s[k] != ';' by {
            assert(s[k] == lit[k]);
            assert(lit.contains(lit[k]));
        }
        lemma_value_plain(s, 0, n);
    } else {
        let (q, t) = choose|q: char, t: Seq<char>| #[trigger] is_quoted(lit, q, t);
        assert(s[0] == q);
        assert forall|k: int| 1 <= k < n - 1 implies #[trigger] s[k] != q && s[k] != '\\' by {
            assert(s[k] == t[k - 1]);
            assert(t.contains(t[k - 1]));
        }
        assert(s[n - 1] == q);
        lemma_value_quoted(s, 1, n - 1, q);
        assert(value_end(s, n, 0, None) == n);
    }
    assert(s.take(n) =~= lit);
}

proof fn lemma_joined_front(ls: Seq<Seq<char>>)
    requires
        ls.len() > 0,
    ensures
        joined_lines(ls) == ls[0] + "\n"@ + joined_lines(ls.skip(1)),
    decreases ls.len(),
{
    let none = Seq::<Seq<char>>::empty();
    assert(joined_lines(none) == Seq::<char>::empty());
    if ls.len() == 1 {
        assert(ls.drop_last() =~= none);
        assert(ls.skip(1) =~= none);
        assert(joined_lines(ls) =~= ls[0] + "\n"@ + joined_lines(ls.skip(1)));
    } else {
        lemma_joined_front(ls.drop_last());
        assert(ls.drop_last().skip(1) =~= ls.skip(1).drop_last());
        assert(ls.skip(1).last() == ls.last());
        assert(joined_lines(ls) =~= ls[0] + "\n"@ + joined_lines(ls.skip(1)));
    }
}

/// A function on one line without an annotation has the type of the literal that it returns first.
#[verifier::rlimit(50)]
pub proof fn law_functions_return_literals(
    ls: Seq<Seq<char>>,
    i: int,
    a: Seq<char>,
    name: Seq<char>,
    params: Seq<char>,
    b: Seq<char>,
    c: Seq<char>,
    lit: Seq<char>,
    d: Seq<char>,
    body: Seq<Piece>,
    white: Seq<char>,
    rest: Seq<char>,
)
    requires
        0 <= i < ls.len(),
        ls[i] == a + "function "@ + (function_head(name, params) + b + seq!['{'] + all_written(body)
            + seq!['}']),
        all_written(body) == c + "return "@ + lit + seq![';'] + d,
        all_fit(body),
        space(a),
        is_name(name),
        is_plain(name),
        !Class::Ident.holds('('),
        is_plain(params),
        space(b),
        is_value(lit),
        literal_ty(lit) != InferredType::Unknown,
        forall|k: int| 0 <= k < ls[i].len() ==> #[trigger] ls[i][k] != '/' && ls[i][k] != '\n',
        forall|k: int|
            0 <= k < ls[i].len() - (lit + seq![';'] + d + seq!['}']).len() - 7 ==> !#[trigger] occurs(
                ls[i],
                "return "@,
                k,
            ),
        joined_lines(ls.skip(i + 1)) == white + rest,
        all_white(white),
        rest.len() > 0 ==> !white_space(rest[0]) && rest[0] != '/',
        begins_anew(rest),
    ensures
        function_type(ls, i) == Some((name, literal_ty(lit))),
{
    let line = ls[i];
    let h = function_head(name, params);
    let w = "function "@;
    let tail = b + seq!['{'] + all_written(body) + seq!['}'];
    let code = h + tail;
    assert(h + b + seq!['{'] + all_written(body) + seq!['}'] =~= code);
    reveal_strlit("function ");
    assert forall|k: int| 0 <= k < code.len() implies #[trigger] code[k] != '/' by {
        assert(line[a.len() + 9 + k] == code[k]);
    }
    assert forall|k: int| 0 <= k < a.len() implies #[trigger] a[k] != '/' by {
        assert(line[k] == a[k]);
    }
    lemma_code(a, code);
    let q = seq!['('] + params + seq![')'] + tail;
    assert(code =~= name + q);
    lemma_leading(name, q);
    lemma_head(name, params, tail);
    assert(tail =~= b + (seq!['{'] + all_written(body) + seq!['}']));
    lemma_no_annotation(b, seq!['{'] + all_written(body) + seq!['}'], tail);
    assert(return_annotation(code).len() == 0);
    lemma_own_line(ls, i, a, name, params, b, body, white, rest);
    reveal_strlit("return ");
    assert(line =~= (a + w + h + b + seq!['{'] + c) + "return "@ + (lit + seq![';'] + d + seq!['}']));
    lemma_line_returns(line, lit, d, a + w + h + b + seq!['{'] + c);
    assert(lit + seq![';'] + d + seq!['}'] =~= lit + seq![';'] + (d + seq!['}']));
    law_returned_values(lit, d + seq!['}']);
    assert(first_return(seq![line], 0) == returned(line));
}

proof fn lemma_no_annotation(b: Seq<char>, t: Seq<char>, tail: Seq<char>)
    requires
        space(b),
        tail == b + t,
        t.len() > 0,
        t[0] == '{',
        t.last() == '}',
    ensures
        after_prefix(trim(tail), ":"@) is None,
{
    reveal_strlit(":");
    let e = Seq::<char>::empty();
    law_trim_takes_white_space(b, t, e);
    assert(b + t + e =~= tail);
    if occurs(t, ":"@, 0) {
        assert(t.subrange(0, 1)[0] == t[0]);
    }
}

proof fn lemma_line_returns(line: Seq<char>, lit: Seq<char>, d: Seq<char>, front: Seq<char>)
    requires
        line == front + "return "@ + (lit + seq![';'] + d + seq!['}']),
        forall|k: int| 0 <= k < line.len() ==> #[trigger] line[k] != '/',
        forall|k: int| 0 <= k < front.len() ==> !#[trigger] occurs(line, "return "@, k),
    ensures
        returned(line) == Some(lit + seq![';'] + d + seq!['}']),
{
    reveal_strlit("return ");
    let v = lit + seq![';'] + d + seq!['}'];
    lemma_no_comment(line);
    let n = front.len() as int;
    assert(line.subrange(n, n + 7) =~= "return "@);
    lemma_find_stops(line, "return "@, 0, n);
    assert(line.skip(n + 7) =~= v);
}

#[verifier::rlimit(40)]
proof fn lemma_own_line(
    ls: Seq<Seq<char>>,
    i: int,
    a: Seq<char>,
    name: Seq<char>,
    params: Seq<char>,
    b: Seq<char>,
    body: Seq<Piece>,
    white: Seq<char>,
    rest: Seq<char>,
)
    requires
        0 <= i < ls.len(),
        ls[i] == a + "function "@ + (function_head(name, params) + b + seq!['{'] + all_written(body)
            + seq!['}']),
        all_fit(body),
        space(a),
        is_name(name),
        is_plain(name),
        is_plain(params),
        space(b),
        forall|k: int| 0 <= k < ls[i].len() ==> #[trigger] ls[i][k] != '/' && ls[i][k] != '\n',
        joined_lines(ls.skip(i + 1)) == white + rest,
        all_white(white),
        rest.len() > 0 ==> !white_space(rest[0]) && rest[0] != '/',
        begins_anew(rest),
    ensures
        declared_lines(ls, i) == seq![ls[i]],
{
    reveal_strlit("function ");
    reveal_strlit("\n");
    let line = ls[i];
    let head = a + "function "@ + name;
    let ps = seq![Piece::Plain(params)];
    assert(ps.skip(1) =~= Seq::<Piece>::empty());
    assert(all_written(ps.skip(1)) =~= Seq::<char>::empty());
    assert(written(ps[0]) == params);
    assert(all_written(ps) =~= params);
    assert(all_fit(ps.skip(1)));
    assert(fits(ps[0]));
    assert(all_fit(ps));
    let round = written(Piece::Group('(', ps));
    assert(round =~= seq!['('] + params + seq![')']);
    let curly = written(Piece::Group('{', body));
    assert(head + round + b + curly =~= line);
    assert forall|k: int| 0 <= k < head.len() implies plain_char(#[trigger] head[k]) && head[k] != ';' by {
        if k < a.len() {
            assert(head[k] == a[k]);
        } else if k < a.len() + 9 {
            assert(head[k] == "function "@[k - a.len()]);
        } else {
            assert(head[k] == name[k - a.len() - 9]);
            assert(plain_char(name[k - a.len() - 9]));
        }
    }
    let space_on = "\n"@ + white;
    assert forall|k: int| 0 <= k < space_on.len() implies white_space(#[trigger] space_on[k]) by {
        if k > 0 {
            assert(space_on[k] == white[k - 1]);
        }
    }
    law_declared_functions_end(head, ps, b, body, space_on, rest);
    let t = ls.skip(i);
    lemma_joined_front(t);
    assert(t[0] == line);
    assert(t.skip(1) =~= ls.skip(i + 1));
    let text = joined_lines(t);
    assert(text =~= line + space_on + rest);
    assert(text.take(line.len() as int) =~= line);
    assert(!line.contains('\n'));
    lemma_one_piece(line);
}

proof fn lemma_one_piece(line: Seq<char>)
    requires
        !line.contains('\n'),
    ensures
        pieces(line, '\n') == seq![line],
{
    let k = Class::Not('\n');
    assert forall|i: int| 0 <= i < line.len() implies k.holds(#[trigger] line[i]) by {
        assert(line.contains(line[i]));
    }
    crate::string_laws::lemma_run_reaches(line, 0, line.len() as int, k);
    assert(line.subrange(0, line.len() as int) =~= line);
    assert(pieces(line, '\n') =~= seq![line]);
}

/// A function's name is bound once its line has been read, with its type: where it was bound before
/// it keeps its place and its kind, else it stands behind what was bound before, as a return.
pub proof fn law_functions_are_bound(
    bs: Seq<BindingView>,
    ls: Seq<Seq<char>>,
    k: nat,
    name: Seq<char>,
    ty: InferredType,
    j: int,
)
    requires
        function_type(ls, k as int) == Some((name, ty)),
    ensures
        ({
            let was = after_functions(bs, ls, k);
            let now = after_functions(bs, ls, k + 1);
            &&& (forall|i: int| 0 <= i < was.len() ==> (#[trigger] was[i]).name != name) ==> now
                == was.push(BindingView { name, ty, kind: BindingKind::Return })
            &&& 0 <= j < was.len() && was[j].name == name && (forall|i: int|
                0 <= i < was.len() && i != j ==> (#[trigger] was[i]).name != name) ==> now == was.update(
                j,
                BindingView { name, ty, kind: was[j].kind },
            )
        }),
{
    let was = after_functions(bs, ls, k);
    lemma_position(was, name);
}

proof fn lemma_position(bs: Seq<BindingView>, name: Seq<char>)
    ensures
        match name_pos(bs, name) {
            Some(i) => 0 <= i < bs.len() && bs[i].name == name,
            None => forall|i: int| 0 <= i < bs.len() ==> (#[trigger] bs[i]).name != name,
        },
    decreases bs.len(),
{
    if bs.len() > 0 {
        let f = bs.drop_last();
        lemma_position(f, name);
        assert forall|i: int| 0 <= i < f.len() implies #[trigger] bs[i] == f[i] by {}
    }
}

} // verus!
