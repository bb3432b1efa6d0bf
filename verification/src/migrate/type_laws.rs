//! What type inference finds: the type of a binding by its initializer or its annotation.
use crate::migrate::type_infer::{
    after_char, after_functions, after_statements, annotation_ty, declaration_lines, dark_end,
    declaration_binding, declarations, last_pos, last_word, without_marks, function_type, inferred,
    int_char, literal_ty, name_pos, number_char, statement_binding, statements, wrapped,
    BindingKind, BindingView, InferredType,
};
use crate::string_laws::{
    all_white, law_decimal_reads_back, law_lines_end_at_line_feeds, law_pieces_are_between_separators,
    law_trim_takes_white_space, lemma_find_char, lemma_run_reaches, tight,
};
use crate::strings::{
    after_prefix, before, dec, find_from, is_digit, leading_ident, lemma_find_from, lines, occurs,
    trim, white_space, Class,
};
use vstd::prelude::*;

verus! {

/// Whether a text is free of the marks that take statements apart.
pub open spec fn plain(s: Seq<char>) -> bool {
    forall|i: int|
        #![trigger s[i]]
        0 <= i < s.len() ==> s[i] != '/' && s[i] != ';' && s[i] != ':' && s[i] != '=' && s[i]
            != '\n' && s[i] != '\r'
}

/// Whether a text is a name: not empty, of characters that identifiers are made of, and free of
/// marks.
pub open spec fn is_name(x: Seq<char>) -> bool {
    x.len() > 0 && plain(x) && forall|i: int|
        0 <= i < x.len() ==> Class::Ident.holds(#[trigger] x[i])
}

/// A line that declares a name with an initializer, with white space around its parts.
pub open spec fn initialized(
    a: Seq<char>,
    word: Seq<char>,
    x: Seq<char>,
    b: Seq<char>,
    c: Seq<char>,
    lit: Seq<char>,
) -> Seq<char> {
    a + (word + x + b + seq!['='] + c + lit) + seq![';']
}

/// The words that start a declaration.
pub open spec fn declares(word: Seq<char>, kind: BindingKind) -> bool {
    ||| word == "let "@ && kind == BindingKind::Let
    ||| word == "const "@ && kind == BindingKind::Const
    ||| word == "var "@ && kind == BindingKind::Var
}

/// White space without line ends.
pub open spec fn space(s: Seq<char>) -> bool {
    all_white(s) && plain(s)
}

/// The type of a literal: of `true` and of `false` a boolean, of `null` and `undefined` null, of what
/// stands between like quotes a string, of what opens with a bracket an array, of what opens with a
/// brace an object, of digits an integer, and of digits around a point a float; white space around
/// it aside.
#[verifier::rlimit(40)]
pub proof fn law_literal_types(
    a: Seq<char>,
    t: Seq<char>,
    b: Seq<char>,
    body: Seq<char>,
    q: char,
    n: nat,
    m: nat,
)
    requires
        all_white(a),
        tight(t),
        all_white(b),
    ensures
        ({
            let ty = literal_ty(a + t + b);
            &&& t == "true"@ || t == "false"@ ==> ty == InferredType::Bool
            &&& t == "null"@ || t == "undefined"@ ==> ty == InferredType::Null
            &&& (q == '"' || q == '\'' || q == '`') && t == seq![q] + body + seq![q] ==> ty
                == InferredType::Str
            &&& t == seq!['['] + body ==> ty == InferredType::Array
            &&& t == seq!['{'] + body ==> ty == InferredType::Object
            &&& t == dec(n) || t == seq!['-'] + dec(n) ==> ty == InferredType::Int
            &&& t == dec(n) + seq!['.'] + dec(m) || t == seq!['-'] + dec(n) + seq!['.'] + dec(m) ==> ty
                == InferredType::Float
            &&& t == Seq::<char>::empty() ==> ty == InferredType::Unknown
        }),
{
    law_trim_takes_white_space(a, t, b);
    reveal_strlit("true");
    reveal_strlit("false");
    reveal_strlit("null");
    reveal_strlit("undefined");
    assert("true"@[0] == 't' && "false"@[0] == 'f' && "null"@[0] == 'n' && "undefined"@[0] == 'u');
    law_decimal_reads_back(n);
    law_decimal_reads_back(m);
    if t == seq![q] + body + seq![q] {
        assert(t[0] == q && t.last() == q);
    }
    if t == seq!['['] + body {
        assert(t[0] == '[');
    }
    if t == seq!['{'] + body {
        assert(t[0] == '{');
    }
    if t == dec(n) {
        assert(is_digit(dec(n)[0]));
        assert forall|i: int| 0 <= i < t.len() implies int_char(#[trigger] t[i]) by {
            assert(is_digit(dec(n)[i]));
        }
        assert(!is_quoted(t));
    }
    if t == seq!['-'] + dec(n) {
        assert(t[0] == '-');
        assert forall|i: int| 0 <= i < t.len() implies int_char(#[trigger] t[i]) by {
            if i > 0 {
                assert(is_digit(dec(n)[i - 1]));
            }
        }
    }
    let f = dec(n) + seq!['.'] + dec(m);
    assert forall|i: int| 0 <= i < f.len() implies number_char(#[trigger] f[i]) by {
        if i < dec(n).len() {
            assert(is_digit(dec(n)[i]));
        } else if i > dec(n).len() {
            assert(is_digit(dec(m)[i - dec(n).len() - 1]));
        }
    }
    if t == f {
        assert(is_digit(dec(n)[0]));
        assert(t[0] == dec(n)[0]);
        assert(t[dec(n).len() as int] == '.');
        assert(!int_char(t[dec(n).len() as int]));
    }
    if t == seq!['-'] + dec(n) + seq!['.'] + dec(m) {
        assert(t[0] == '-');
        assert forall|i: int| 0 <= i < t.len() implies number_char(#[trigger] t[i]) by {
            if i > 0 {
                assert(t[i] == f[i - 1]);
            }
        }
        assert(t[dec(n).len() as int + 1] == '.');
        assert(!int_char(t[dec(n).len() as int + 1]));
    }
}

/// Whether a text stands between like quotes.
spec fn is_quoted(t: Seq<char>) -> bool {
    wrapped(t, '"') || wrapped(t, '\'') || wrapped(t, '`')
}

/// The type that an annotation names, white space around it aside.
#[verifier::rlimit(40)]
pub proof fn law_annotation_types(a: Seq<char>, t: Seq<char>, b: Seq<char>, body: Seq<char>)
    requires
        all_white(a),
        tight(t),
        all_white(b),
    ensures
        ({
            let ty = annotation_ty(a + t + b);
            &&& t == "string"@ ==> ty == InferredType::Str
            &&& t == "number"@ ==> ty == InferredType::Float
            &&& t == "boolean"@ || t == "bool"@ ==> ty == InferredType::Bool
            &&& t == "null"@ || t == "undefined"@ ==> ty == InferredType::Null
            &&& t == "any"@ || t == "unknown"@ || t == "object"@ ==> ty == InferredType::Unknown
            &&& t == body + "[]"@ ==> ty == InferredType::Array
            &&& t == seq!['{'] + body + seq!['}'] ==> ty == InferredType::Object
            &&& t == "Record<"@ + body + seq!['>'] ==> ty == InferredType::Object
            &&& t == "Partial<"@ + body + seq!['>'] ==> ty == InferredType::Object
        }),
{
    law_trim_takes_white_space(a, t, b);
    reveal_strlit("string");
    reveal_strlit("number");
    reveal_strlit("boolean");
    reveal_strlit("bool");
    reveal_strlit("any");
    reveal_strlit("unknown");
    reveal_strlit("object");
    reveal_strlit("null");
    reveal_strlit("undefined");
    reveal_strlit("Record<");
    reveal_strlit("Partial<");
    reveal_strlit("[]");
    assert("string"@[0] == 's' && "string"@.last() == 'g');
    assert("number"@[0] == 'n' && "number"@.last() == 'r');
    assert("boolean"@[0] == 'b' && "boolean"@.last() == 'n');
    assert("bool"@[0] == 'b' && "bool"@.last() == 'l');
    assert("any"@[0] == 'a' && "any"@.last() == 'y');
    assert("unknown"@[0] == 'u' && "unknown"@.last() == 'n' && "unknown"@[2] == 'k');
    assert("object"@[0] == 'o' && "object"@.last() == 't');
    assert("null"@[0] == 'n' && "null"@.last() == 'l');
    assert("undefined"@[0] == 'u' && "undefined"@.last() == 'd');
    if t == body + "[]"@ {
        assert(t[t.len() - 1] == ']');
        assert(t[t.len() - 2] == '[');
    }
    if t == seq!['{'] + body + seq!['}'] {
        assert(t[0] == '{' && t.last() == '}');
    }
    if t == "Record<"@ + body + seq!['>'] {
        assert(t[0] == 'R' && t.last() == '>');
        assert(t.subrange(0, 7) =~= "Record<"@);
    }
    if t == "Partial<"@ + body + seq!['>'] {
        assert(t[0] == 'P' && t.last() == '>');
        assert(t.subrange(0, 8) =~= "Partial<"@);
    }
}

/// A text without a slash holds no comment.
pub proof fn lemma_no_comment(s: Seq<char>)
    requires
        forall|i: int| 0 <= i < s.len() ==> #[trigger] s[i] != '/',
    ensures
        before(s, "//"@) == s,
{
    reveal_strlit("//");
    lemma_find_from(s, "//"@, 0);
    if let Some(i) = find_from(s, "//"@, 0) {
        assert(s.subrange(i, i + 2)[0] == s[i]);
    }
}

proof fn lemma_after_char(l: Seq<char>, c: char, r: Seq<char>)
    requires
        !l.contains(c),
    ensures
        after_char(l + seq![c] + r, c) == Some(r),
        after_char(l, c) is None,
{
    let s = l + seq![c] + r;
    let k = Class::Not(c);
    assert forall|i: int| 0 <= i < l.len() implies k.holds(#[trigger] s[i]) by {
        assert(s[i] == l[i]);
        assert(l.contains(l[i]));
    }
    assert forall|i: int| 0 <= i < l.len() implies k.holds(#[trigger] l[i]) by {
        assert(l.contains(l[i]));
    }
    assert(s[l.len() as int] == c);
    lemma_run_reaches(s, 0, l.len() as int, k);
    lemma_run_reaches(l, 0, l.len() as int, k);
    assert(s.skip(l.len() as int + 1) =~= r);
}

/// The name that a text starts with.
pub proof fn lemma_leading(x: Seq<char>, rest: Seq<char>)
    requires
        is_name(x),
        rest.len() > 0,
        !Class::Ident.holds(rest[0]),
    ensures
        leading_ident(x + rest) == x,
{
    let s = x + rest;
    assert forall|i: int| 0 <= i < x.len() implies Class::Ident.holds(#[trigger] s[i]) by {
        assert(s[i] == x[i]);
    }
    assert(s[x.len() as int] == rest[0]);
    lemma_run_reaches(s, 0, x.len() as int, Class::Ident);
    assert(s.take(x.len() as int) =~= x);
}

/// The words that start declarations, as texts.
proof fn lemma_word(word: Seq<char>, kind: BindingKind, rest: Seq<char>)
    requires
        declares(word, kind),
    ensures
        plain(word),
        word.len() > 0,
        !white_space(word[0]),
        after_prefix(word + rest, "function "@) is None,
        kind == BindingKind::Let ==> after_prefix(word + rest, "let "@) == Some(rest) && after_prefix(
            word + rest,
            "const "@,
        ) is None,
        kind == BindingKind::Const ==> after_prefix(word + rest, "const "@) == Some(rest),
        kind == BindingKind::Var ==> after_prefix(word + rest, "var "@) == Some(rest) && after_prefix(
            word + rest,
            "const "@,
        ) is None && after_prefix(word + rest, "let "@) is None,
{
    reveal_strlit("let ");
    reveal_strlit("const ");
    reveal_strlit("var ");
    reveal_strlit("function ");
    let s = word + rest;
    assert(s[0] == word[0]);
    assert(s.subrange(0, word.len() as int) =~= word);
    assert(s.skip(word.len() as int) =~= rest);
    if occurs(s, "function "@, 0) {
        assert(s.subrange(0, 9)[0] == 'f');
    }
    if occurs(s, "const "@, 0) {
        assert(s.subrange(0, 6)[0] == 'c');
    }
    if occurs(s, "let "@, 0) {
        assert(s.subrange(0, 4)[0] == 'l');
    }
}

/// The statement of a declaration with an initializer.
#[verifier::rlimit(40)]
proof fn lemma_initialized_statement(
    a: Seq<char>,
    word: Seq<char>,
    kind: BindingKind,
    x: Seq<char>,
    b: Seq<char>,
    c: Seq<char>,
    lit: Seq<char>,
)
    requires
        declares(word, kind),
        space(a),
        is_name(x),
        space(b),
        !Class::Ident.holds((b + seq!['='])[0]),
        space(c),
        plain(lit),
        lit.len() > 0,
        tight(lit),
    ensures
        ({
            let s = a + (word + x + b + seq!['='] + c + lit);
            &&& statement_binding(s) == Some(BindingView { name: x, ty: literal_ty(c + lit), kind })
            &&& statements(initialized(a, word, x, b, c, lit)) == seq![s, Seq::empty()]
            &&& trim(before(initialized(a, word, x, b, c, lit), "//"@))[0] == word[0]
            &&& lines(initialized(a, word, x, b, c, lit)) == seq![
                initialized(a, word, x, b, c, lit),
            ]
        }),
{
    let l = x + b;
    let r = c + lit;
    let rest = l + seq!['='] + r;
    lemma_word(word, kind, rest);
    let t = word + x + b + seq!['='] + c + lit;
    assert(t =~= word + rest);
    let e = Seq::<char>::empty();
    assert(t[0] == word[0]);
    assert(t.last() == lit.last());
    law_trim_takes_white_space(a, t, e);
    let s = a + t;
    assert(a + t + e =~= s);
    assert(plain(l)) by {
        assert forall|i: int|
            #![trigger l[i]]
            0 <= i < l.len() implies l[i] != '/' && l[i] != ';' && l[i] != ':' && l[i] != '=' && l[i]
            != '\n' && l[i] != '\r' by {
            if i < x.len() {
                assert(l[i] == x[i]);
            } else {
                assert(l[i] == b[i - x.len()]);
            }
        }
    }
    assert(!l.contains('='));
    lemma_after_char(l, '=', r);
    assert(!rest.contains(':')) by {
        if rest.contains(':') {
            let i = choose|i: int| 0 <= i < rest.len() && rest[i] == ':';
            if i < l.len() {
                assert(rest[i] == l[i]);
            } else if i > l.len() {
                let j = i - l.len() - 1;
                assert(rest[i] == r[j]);
                if j < c.len() {
                    assert(r[j] == c[j]);
                } else {
                    assert(r[j] == lit[j - c.len()]);
                }
            }
        }
    }
    lemma_after_char(rest, ':', e);
    let tail = (b + seq!['=']) + r;
    assert(rest =~= x + tail);
    assert(tail[0] == (b + seq!['='])[0]);
    lemma_leading(x, tail);
    let line = initialized(a, word, x, b, c, lit);
    assert forall|i: int| 0 <= i < s.len() implies #[trigger] s[i] != '/' && s[i] != ';' && s[i] != '\n'
        && s[i] != '\r' by {
        if i < a.len() {
            assert(s[i] == a[i]);
        } else if i < a.len() + word.len() {
            assert(s[i] == word[i - a.len()]);
        } else {
            let k = i - a.len() - word.len();
            assert(s[i] == rest[k]);
            if k < l.len() {
                assert(rest[k] == l[k]);
            } else if k > l.len() {
                let j = k - l.len() - 1;
                assert(rest[k] == r[j]);
                if j < c.len() {
                    assert(r[j] == c[j]);
                } else {
                    assert(r[j] == lit[j - c.len()]);
                }
            }
        }
    }
    assert(line =~= s + seq![';']);
    assert forall|i: int| 0 <= i < line.len() implies #[trigger] line[i] != '/' && line[i] != '\n' by {
        if i < s.len() {
            assert(line[i] == s[i]);
        }
    }
    lemma_no_comment(line);
    assert(!s.contains(';'));
    law_pieces_are_between_separators(s, ';', e);
    assert(s + seq![';'] + e =~= line);
    law_pieces_are_between_separators(e, ';', e);
    assert(seq![s] + seq![e] =~= seq![s, e]);
    assert(!line.contains('\n'));
    law_lines_end_at_line_feeds(line, e);
    let u = t + seq![';'];
    assert(u[0] == t[0]);
    assert(u.last() == ';');
    law_trim_takes_white_space(a, u, e);
    assert(a + u + e =~= line);
}

/// A line `let x = ...;` without annotation, or one with `const` or `var`, binds a name that is not
/// bound before: by its own name, with the type of its initializer, behind the bindings before it.
/// Where it is the whole source, that is all there is.
#[verifier::rlimit(40)]
pub proof fn law_initializer_gives_the_type(
    ls: Seq<Seq<char>>,
    a: Seq<char>,
    word: Seq<char>,
    kind: BindingKind,
    x: Seq<char>,
    b: Seq<char>,
    c: Seq<char>,
    lit: Seq<char>,
)
    requires
        declares(word, kind),
        space(a),
        is_name(x),
        space(b),
        !Class::Ident.holds((b + seq!['='])[0]),
        space(c),
        plain(lit),
        lit.len() > 0,
        tight(lit),
        forall|i: int|
            0 <= i < declarations(ls).len() ==> (#[trigger] declarations(ls)[i]).name != x,
    ensures
        ({
            let line = initialized(a, word, x, b, c, lit);
            let own = BindingView { name: x, ty: literal_ty(c + lit), kind };
            &&& declarations(ls.push(line)) == declarations(ls).push(own)
            &&& inferred(line) == seq![own]
        }),
{
    lemma_initialized_statement(a, word, kind, x, b, c, lit);
    let line = initialized(a, word, x, b, c, lit);
    let s = a + (word + x + b + seq!['='] + c + lit);
    let e = Seq::<char>::empty();
    let own = BindingView { name: x, ty: literal_ty(c + lit), kind };
    assert(statement_binding(e) is None) by {
        law_trim_takes_white_space(e, e, e);
        assert(e + e + e =~= e);
        reveal_strlit("const ");
        reveal_strlit("let ");
        reveal_strlit("var ");
    }
    let stmts = seq![s, e];
    assert(stmts.drop_last() =~= seq![s]);
    assert(seq![s].drop_last() =~= Seq::<Seq<char>>::empty());
    assert(seq![s].last() == s);
    assert(stmts.last() == e);
    let was = declarations(ls);
    lemma_unbound(was, x);
    assert(after_statements(was, seq![s].drop_last()) == was);
    assert(after_statements(was, seq![s]) == was.push(own));
    assert(after_statements(was, stmts) == was.push(own));
    assert(ls.push(line).drop_last() =~= ls);
    let none = Seq::<Seq<char>>::empty();
    let nil = Seq::<BindingView>::empty();
    lemma_unbound(nil, x);
    assert(declarations(none) == nil);
    assert(after_statements(nil, seq![s].drop_last()) == nil);
    assert(after_statements(nil, seq![s]) == nil.push(own));
    let one = seq![line];
    assert(one.drop_last() =~= none);
    assert(one.last() == line);
    assert(declarations(one) == nil.push(own));
    reveal_strlit("function ");
    let code = trim(before(line, "//"@));
    if occurs(code, "function "@, 0) {
        assert(code.subrange(0, 9)[0] == 'f');
        reveal_strlit("let ");
        reveal_strlit("const ");
        reveal_strlit("var ");
    }
    assert(function_type(one, 0) is None);
    assert(after_functions(nil.push(own), one, 0) == nil.push(own));
    assert(after_functions(nil.push(own), one, 1) == nil.push(own));
    assert(nil.push(own) =~= seq![own]);
}

proof fn lemma_unbound(bs: Seq<BindingView>, x: Seq<char>)
    requires
        forall|i: int| 0 <= i < bs.len() ==> (#[trigger] bs[i]).name != x,
    ensures
        name_pos(bs, x) is None,
    decreases bs.len(),
{
    if bs.len() > 0 {
        let f = bs.drop_last();
        assert forall|i: int| 0 <= i < f.len() implies (#[trigger] f[i]).name != x by {
            assert(f[i] == bs[i]);
        }
        lemma_unbound(f, x);
        assert(bs.last() == bs[bs.len() - 1]);
    }
}

/// A binding that is initialized with `true` or with `false` is a boolean, whatever its name, its
/// word and the white space around its parts.
pub proof fn law_true_and_false_are_booleans(
    ls: Seq<Seq<char>>,
    a: Seq<char>,
    word: Seq<char>,
    kind: BindingKind,
    x: Seq<char>,
    b: Seq<char>,
    c: Seq<char>,
)
    requires
        declares(word, kind),
        space(a),
        is_name(x),
        space(b),
        !Class::Ident.holds((b + seq!['='])[0]),
        space(c),
        forall|i: int|
            0 <= i < declarations(ls).len() ==> (#[trigger] declarations(ls)[i]).name != x,
    ensures
        ({
            let own = BindingView { name: x, ty: InferredType::Bool, kind };
            let yes = initialized(a, word, x, b, c, "true"@);
            let no = initialized(a, word, x, b, c, "false"@);
            &&& declarations(ls.push(yes)) == declarations(ls).push(own)
            &&& declarations(ls.push(no)) == declarations(ls).push(own)
            &&& inferred(yes) == seq![own]
            &&& inferred(no) == seq![own]
        }),
{
    reveal_strlit("true");
    reveal_strlit("false");
    let e = Seq::<char>::empty();
    law_literal_types(c, "true"@, e, e, '"', 0, 0);
    law_literal_types(c, "false"@, e, e, '"', 0, 0);
    assert(c + "true"@ + e =~= c + "true"@);
    assert(c + "false"@ + e =~= c + "false"@);
    law_initializer_gives_the_type(ls, a, word, kind, x, b, c, "true"@);
    law_initializer_gives_the_type(ls, a, word, kind, x, b, c, "false"@);
}

/// What functions tell changes no binding of another name.
pub proof fn law_functions_keep_other_names(
    bs: Seq<BindingView>,
    ls: Seq<Seq<char>>,
    k: nat,
    i: int,
)
    requires
        0 <= i < bs.len(),
        forall|j: int|
            0 <= j < k ==> (#[trigger] function_type(ls, j) matches Some(f) ==> f.0 != bs[i].name),
    ensures
        after_functions(bs, ls, k).len() >= bs.len(),
        after_functions(bs, ls, k)[i] == bs[i],
    decreases k,
{
    if k > 0 {
        law_functions_keep_other_names(bs, ls, (k - 1) as nat, i);
        let front = after_functions(bs, ls, (k - 1) as nat);
        if let Some((name, ty)) = function_type(ls, k - 1) {
            if let Some(p) = name_pos(front, name) {
                lemma_found(front, name);
                assert(p != i);
            }
        }
    }
}

proof fn lemma_found(bs: Seq<BindingView>, name: Seq<char>)
    ensures
        name_pos(bs, name) matches Some(i) ==> 0 <= i < bs.len() && bs[i].name == name,
    decreases bs.len(),
{
    if bs.len() > 0 {
        lemma_found(bs.drop_last(), name);
    }
}

/// The alias of a binding names the Rust type that holds its values.
pub proof fn law_aliases(bs: Seq<BindingView>, x: Seq<char>, kind: BindingKind)
    ensures
        ({
            let line = |t: Seq<char>| "    pub type "@ + x + "_t = "@ + t + ";\n"@;
            let with = |ty: InferredType| declaration_lines(bs.push(BindingView { name: x, ty, kind }));
            let front = declaration_lines(bs);
            &&& with(InferredType::Str) == front + line("String"@)
            &&& with(InferredType::Int) == front + line("i64"@)
            &&& with(InferredType::Float) == front + line("f64"@)
            &&& with(InferredType::Bool) == front + line("bool"@)
            &&& with(InferredType::Null) == front + line("()"@)
            &&& with(InferredType::Array) == front + line("Vec<serde_json::Value>"@)
            &&& with(InferredType::Object) == front + line("serde_json::Value"@)
            &&& with(InferredType::Unknown) == front + line("_"@)
        }),
{
    assert forall|b: BindingView| #[trigger] bs.push(b).drop_last() == bs by {
        assert(bs.push(b).drop_last() =~= bs);
    }
}

/// What a declaration is annotated with tells its type, and its initializer only where the annotation
/// tells nothing.
#[verifier::rlimit(40)]
pub proof fn law_annotations_come_first(
    a: Seq<char>,
    word: Seq<char>,
    kind: BindingKind,
    x: Seq<char>,
    b: Seq<char>,
    ann: Seq<char>,
    lit: Seq<char>,
)
    requires
        declares(word, kind),
        all_white(a),
        is_name(x),
        space(b),
        !Class::Ident.holds((b + seq![':'])[0]),
        !ann.contains('='),
        ann.len() > 0 && !white_space(ann.last()),
        lit.len() > 0 && !white_space(lit.last()),
    ensures
        statement_binding(a + word + (x + b + seq![':'] + ann)) == Some(
            BindingView { name: x, ty: annotation_ty(ann), kind },
        ),
        statement_binding(a + word + (x + b + seq![':'] + ann + seq!['='] + lit)) == Some(
            BindingView {
                name: x,
                ty: if annotation_ty(ann) == InferredType::Unknown {
                    literal_ty(lit)
                } else {
                    annotation_ty(ann)
                },
                kind,
            },
        ),
{
    let l = x + b;
    assert forall|i: int| 0 <= i < l.len() implies #[trigger] l[i] != ':' && l[i] != '=' by {
        if i < x.len() {
            assert(l[i] == x[i]);
        } else {
            assert(l[i] == b[i - x.len()]);
        }
    }
    assert(!l.contains(':') && !l.contains('='));
    let one = x + b + seq![':'] + ann;
    let two = x + b + seq![':'] + ann + seq!['='] + lit;
    let m = ann + seq!['='] + lit;
    assert(two =~= l + seq![':'] + m);
    lemma_after_char(l, ':', ann);
    lemma_after_char(l, ':', m);
    reveal_strlit("=");
    assert("="@ =~= seq!['=']);
    lemma_find_char(ann, "="@, lit);
    assert(m.take(ann.len() as int) =~= ann);
    lemma_find_from(ann, "="@, 0);
    if let Some(i) = find_from(ann, "="@, 0) {
        assert(ann.subrange(i, i + 1)[0] == ann[i]);
        assert(ann.contains(ann[i]));
    }
    assert(!one.contains('=')) by {
        if one.contains('=') {
            let i = choose|i: int| 0 <= i < one.len() && one[i] == '=';
            if i < l.len() {
                assert(one[i] == l[i]);
            } else if i > l.len() {
                assert(one[i] == ann[i - l.len() - 1]);
                assert(ann.contains(ann[i - l.len() - 1]));
            }
        }
    }
    lemma_after_char(one, '=', lit);
    assert(two =~= one + seq!['='] + lit);
    let p = (b + seq![':']) + ann;
    let q = (b + seq![':']) + m;
    assert(one =~= x + p);
    assert(two =~= x + q);
    assert(p[0] == (b + seq![':'])[0] && q[0] == (b + seq![':'])[0]);
    lemma_leading(x, p);
    lemma_leading(x, q);
    lemma_word(word, kind, one);
    lemma_word(word, kind, two);
    let e = Seq::<char>::empty();
    assert((word + one).last() == ann.last() && (word + two).last() == lit.last());
    assert((word + one)[0] == word[0] && (word + two)[0] == word[0]);
    law_trim_takes_white_space(a, word + one, e);
    law_trim_takes_white_space(a, word + two, e);
    assert(a + (word + one) + e =~= a + word + one);
    assert(a + (word + two) + e =~= a + word + two);
}

proof fn lemma_last_colon(s: Seq<char>, ann: Seq<char>)
    requires
        !ann.contains(':'),
    ensures
        last_pos(s + seq![':'] + ann, ':') == Some(s.len() as int),
    decreases ann.len(),
{
    let t = s + seq![':'] + ann;
    if ann.len() > 0 {
        let f = ann.drop_last();
        assert(ann.contains(ann[ann.len() - 1]));
        assert(t.last() == ann.last());
        assert(!f.contains(':')) by {
            if f.contains(':') {
                let i = choose|i: int| 0 <= i < f.len() && f[i] == ':';
                assert(ann[i] == ':');
            }
        }
        lemma_last_colon(s, f);
        assert(t.drop_last() =~= s + seq![':'] + f);
    } else {
        assert(t.last() == ':');
    }
}

proof fn lemma_dark(pre: Seq<char>, w: Seq<char>)
    requires
        pre.len() == 0 || white_space(pre.last()),
        forall|i: int| 0 <= i < w.len() ==> !white_space(#[trigger] w[i]),
    ensures
        dark_end(pre + w) == w,
    decreases w.len(),
{
    let s = pre + w;
    if w.len() > 0 {
        let v = w.drop_last();
        assert forall|i: int| 0 <= i < v.len() implies !white_space(#[trigger] v[i]) by {
            assert(v[i] == w[i]);
        }
        lemma_dark(pre, v);
        assert(s.drop_last() =~= pre + v);
        assert(s.last() == w.last());
        assert(!white_space(w[w.len() - 1]));
        assert(v.push(w.last()) =~= w);
    } else {
        assert(s =~= pre);
        assert(dark_end(s) =~= w);
    }
}

proof fn lemma_marks(x: Seq<char>, n: nat)
    requires
        x.len() > 0,
        x.last() != '?',
    ensures
        without_marks(x + Seq::new(n, |i: int| '?')) == x,
    decreases n,
{
    let m = Seq::new(n, |i: int| '?');
    if n > 0 {
        let k = Seq::new((n - 1) as nat, |i: int| '?');
        lemma_marks(x, (n - 1) as nat);
        assert((x + m).drop_last() =~= x + k);
        assert((x + m).last() == '?');
    } else {
        assert(x + m =~= x);
    }
}

/// A line of a declaration file binds the last word before its last colon, without question marks,
/// to the type that stands behind the colon.
#[verifier::rlimit(40)]
pub proof fn law_declaration_files(pre: Seq<char>, x: Seq<char>, n: nat, ann: Seq<char>)
    requires
        pre.len() == 0 || (!white_space(pre[0]) && white_space(pre.last())),
        x.len() > 0,
        forall|i: int| 0 <= i < x.len() ==> !white_space(#[trigger] x[i]),
        x.last() != '?',
        n == 0 ==> !occurs(pre + x, "export"@, (pre + x).len() - 6) && !occurs(
            pre + x,
            "declare"@,
            (pre + x).len() - 7,
        ),
        !ann.contains(':'),
        ann.len() > 0,
        tight(ann),
        !(pre + x + ann).contains('/'),
    ensures
        declaration_binding(pre + x + Seq::new(n, |i: int| '?') + seq![':'] + ann) == Some(
            BindingView { name: x, ty: annotation_ty(ann), kind: BindingKind::Let },
        ),
{
    let m = Seq::new(n, |i: int| '?');
    let front = pre + x + m;
    let line = front + seq![':'] + ann;
    let e = Seq::<char>::empty();
    assert forall|i: int| 0 <= i < line.len() implies #[trigger] line[i] != '/' by {
        let all = pre + x + ann;
        let k = (pre.len() + x.len()) as int;
        if i < k {
            assert(line[i] == all[i]);
            assert(all.contains(all[i]));
        } else if i > front.len() {
            let j = i - front.len() - 1;
            assert(line[i] == ann[j]);
            assert(all[k + j] == ann[j]);
            assert(all.contains(all[k + j]));
        }
    }
    lemma_no_comment(line);
    assert(!white_space(x[0]));
    assert(line[0] == (if pre.len() > 0 {
        pre[0]
    } else {
        x[0]
    }));
    assert(line.last() == ann.last());
    law_trim_takes_white_space(e, line, e);
    assert(e + line + e =~= line);
    lemma_last_colon(front, ann);
    assert(line.take(front.len() as int) =~= front);
    assert(line.skip(front.len() as int + 1) =~= ann);
    reveal_strlit("export");
    reveal_strlit("declare");
    if n > 0 {
        assert(front.last() == '?');
        if occurs(front, "export"@, front.len() - 6) {
            assert(front.subrange(front.len() - 6, front.len() as int)[5] == front.last());
        }
        if occurs(front, "declare"@, front.len() - 7) {
            assert(front.subrange(front.len() - 7, front.len() as int)[6] == front.last());
        }
    } else {
        assert(front =~= pre + x);
    }
    let w = x + m;
    assert forall|i: int| 0 <= i < w.len() implies !white_space(#[trigger] w[i]) by {
        if i < x.len() {
            assert(w[i] == x[i]);
        }
    }
    assert(front =~= pre + w);
    lemma_dark(pre, w);
    assert(front.last() == w[w.len() - 1]);
    assert(last_word(front) == w);
    lemma_marks(x, n);
    law_trim_takes_white_space(e, ann, e);
    assert(e + ann + e =~= ann);
}

} // verus!
