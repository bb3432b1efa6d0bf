//! What discovery finds: which modules and names a line imports, what it exports, and which functions
//! a script declares.
use crate::migrate::discovery::{
    bracketed, closing, code_of, export_of, first_bracket, first_words, import_head, import_names,
    import_of, line_surface, lines_surface, quoted, reexport_of, unquoted, without_commas,
    ExportKind, ExportView, ImportView, Surface,
};
use crate::migrate::html_laws::lemma_inside;
use crate::migrate::syntax::{field_child, span, SyntaxView};
use crate::migrate::tree_sitter_discovery::{
    clause_read, clauses_read, declaration_surface, declarator_pos, has_kind, named_surface,
    node_surface, specifier_names,
};
use crate::runtime::stream_laws::free_of;
use crate::string_laws::{
    all_white, is_one_word, law_pieces_are_between_separators, law_trim_takes_white_space,
    lemma_find_char, lemma_run_reaches, tight,
};
use crate::strings::{
    after_prefix, before, find_from, first_word, holds_text, leading_ident, lemma_find_from, occurs,
    pieces, trim, trim_start, white_space, Class,
};
use vstd::prelude::*;

verus! {

/// Whether a text holds none of the marks that imports are made of.
pub open spec fn unmarked(s: Seq<char>) -> bool {
    forall|i: int|
        #![trigger s[i]]
        0 <= i < s.len() ==> s[i] != '"' && s[i] != '\'' && s[i] != '{' && s[i] != '}' && s[i] != '*'
}

/// Whether a character quotes.
pub open spec fn is_quote(q: char) -> bool {
    q == '"' || q == '\''
}

/// A module name between quotes.
pub open spec fn module_text(q: char, m: Seq<char>) -> Seq<char> {
    seq![q] + m + seq![q]
}

/// A line that starts and ends with something, and holds no comment, is code.
proof fn lemma_code(line: Seq<char>)
    requires
        tight(line),
        free_of(line, "//"@),
    ensures
        code_of(line) == line,
{
    lemma_find_from(line, "//"@, 0);
    if let Some(i) = find_from(line, "//"@, 0) {
        assert(occurs(line, "//"@, i));
    }
    let e = Seq::<char>::empty();
    law_trim_takes_white_space(e, line, e);
    assert(e + line + e =~= line);
}

proof fn lemma_first_bracket(s: Seq<char>, i: int, at: int, open: char, close: char)
    requires
        0 <= i <= at < s.len(),
        s[at] == open,
        forall|k: int| i <= k < at ==> #[trigger] s[k] != open && s[k] != close,
    ensures
        first_bracket(s, i, open, close) == Some(at),
    decreases at - i,
{
    if i < at {
        assert(s[i] != open);
        lemma_first_bracket(s, i + 1, at, open, close);
    }
}

proof fn lemma_no_bracket(s: Seq<char>, i: int, open: char, close: char)
    requires
        0 <= i,
        forall|k: int| i <= k < s.len() ==> #[trigger] s[k] != open && s[k] != close,
    ensures
        first_bracket(s, i, open, close) is None,
    decreases s.len() - i,
{
    if i < s.len() {
        assert(s[i] != open);
        lemma_no_bracket(s, i + 1, open, close);
    }
}

proof fn lemma_closing(s: Seq<char>, i: int, at: int, open: char, close: char)
    requires
        0 <= i <= at < s.len(),
        s[at] == close,
        forall|k: int| i <= k < at ==> #[trigger] s[k] != open && s[k] != close,
    ensures
        closing(s, i, open, close, 1) == Some(at),
    decreases at - i,
{
    if i < at {
        assert(s[i] != open);
        lemma_closing(s, i + 1, at, open, close);
    }
}

/// What stands between brackets.
proof fn lemma_bracketed(a: Seq<char>, open: char, m: Seq<char>, close: char, b: Seq<char>)
    requires
        forall|i: int| 0 <= i < a.len() ==> #[trigger] a[i] != open && a[i] != close,
        forall|i: int| 0 <= i < m.len() ==> #[trigger] m[i] != open && m[i] != close,
    ensures
        bracketed(a + seq![open] + m + seq![close] + b, open, close) == Some(m),
{
    let s = a + seq![open] + m + seq![close] + b;
    let n = a.len() as int;
    let e = n + 1 + m.len();
    assert(s[n] == open);
    assert(s[e] == close);
    assert forall|k: int| 0 <= k < n implies #[trigger] s[k] != open && s[k] != close by {
        assert(s[k] == a[k]);
    }
    assert forall|k: int| n + 1 <= k < e implies #[trigger] s[k] != open && s[k] != close by {
        assert(s[k] == m[k - n - 1]);
    }
    lemma_first_bracket(s, 0, n, open, close);
    lemma_closing(s, n + 1, e, open, close);
    assert(s.subrange(n + 1, e) =~= m);
}

/// The module that a text names between quotes.
proof fn lemma_quoted(a: Seq<char>, q: char, m: Seq<char>, b: Seq<char>)
    requires
        is_quote(q),
        unquotable(a),
        unquotable(m),
        unquotable(b),
    ensures
        quoted(a + module_text(q, m) + b) == Some(m),
{
    let s = a + module_text(q, m) + b;
    assert(s =~= a + seq![q] + m + seq![q] + b);
    if q == '"' {
        lemma_bracketed(a, '"', m, '"', b);
    } else {
        assert forall|k: int| 0 <= k < s.len() implies #[trigger] s[k] != '"' by {
            if k < a.len() {
                assert(s[k] == a[k]);
            } else if a.len() < k < a.len() + 1 + m.len() {
                assert(s[k] == m[k - a.len() - 1]);
            } else if k > a.len() + 1 + m.len() {
                assert(s[k] == b[k - a.len() - 2 - m.len()]);
            }
        }
        lemma_no_bracket(s, 0, '"', '"');
        lemma_bracketed(a, '\'', m, '\'', b);
    }
}

/// Whether a text holds no quotes.
pub open spec fn unquotable(s: Seq<char>) -> bool {
    forall|i: int| #![trigger s[i]] 0 <= i < s.len() ==> s[i] != '"' && s[i] != '\''
}

proof fn lemma_unquoted(m: Seq<char>)
    requires
        tight(m),
        unquotable(m),
    ensures
        unquoted(m) == m,
{
    let e = Seq::<char>::empty();
    law_trim_takes_white_space(e, m, e);
    assert(e + m + e =~= m);
}

proof fn lemma_no_star(s: Seq<char>)
    requires
        forall|i: int| 0 <= i < s.len() ==> #[trigger] s[i] != '*',
    ensures
        !holds_text(s, "* as"@),
{
    reveal_strlit("* as");
    assert forall|i: int| !occurs(s, "* as"@, i) by {
        if occurs(s, "* as"@, i) {
            lemma_inside(s, "* as"@, i, 0);
        }
    }
}

/// `import { a, b } from "m"` imports the names in its braces from that module, and neither a default
/// nor a namespace.
#[verifier::rlimit(40)]
pub proof fn law_named_imports(inside: Seq<char>, q: char, m: Seq<char>, tail: Seq<char>)
    requires
        unmarked(inside),
        is_quote(q),
        tight(m),
        unmarked(m),
        unmarked(tail),
        tail.len() == 0 || !white_space(tail.last()),
        free_of("import "@ + (seq!['{'] + inside + "} from "@ + module_text(q, m) + tail), "//"@),
    ensures
        line_surface("import "@ + (seq!['{'] + inside + "} from "@ + module_text(q, m) + tail)) == (
        Surface {
            imports: seq![
                ImportView {
                    module: m,
                    names: import_names(inside),
                    namespace: false,
                    default: false,
                },
            ],
            exports: Seq::empty(),
            functions: Seq::empty(),
        }),
{
    reveal_strlit("import ");
    reveal_strlit("} from ");
    reveal_strlit("{");
    let a = seq!['{'] + inside + "} from "@;
    let rest = a + module_text(q, m) + tail;
    let line = "import "@ + (seq!['{'] + inside + "} from "@ + module_text(q, m) + tail);
    assert(line =~= "import "@ + rest);
    assert(line[0] == 'i');
    if tail.len() > 0 {
        assert(line.last() == tail.last());
    } else {
        assert(line.last() == q);
    }
    lemma_code(line);
    lemma_after("import "@, rest);
    assert(unquotable(a)) by {
        assert forall|i: int| #![trigger a[i]] 0 <= i < a.len() implies a[i] != '"' && a[i] != '\'' by {
            if 1 <= i < 1 + inside.len() {
                assert(a[i] == inside[i - 1]);
            } else if i > inside.len() {
                assert(a[i] == "} from "@[i - 1 - inside.len()]);
            }
        }
    }
    lemma_quoted(a, q, m, tail);
    lemma_unquoted(m);
    let e = Seq::<char>::empty();
    let b = " from "@ + module_text(q, m) + tail;
    reveal_strlit(" from ");
    assert(rest =~= e + seq!['{'] + inside + seq!['}'] + b);
    lemma_bracketed(e, '{', inside, '}', b);
    assert forall|i: int| 0 <= i < rest.len() implies #[trigger] rest[i] != '*' by {
        if i < a.len() {
            assert(rest[i] == a[i]);
            if 1 <= i < 1 + inside.len() {
                assert(a[i] == inside[i - 1]);
            } else if i > inside.len() {
                assert(a[i] == "} from "@[i - 1 - inside.len()]);
            }
        } else if a.len() < i < a.len() + 1 + m.len() {
            assert(rest[i] == m[i - a.len() - 1]);
        } else if i >= a.len() + 2 + m.len() {
            assert(rest[i] == tail[i - a.len() - 2 - m.len()]);
        }
    }
    lemma_no_star(rest);
    assert("{"@ =~= seq!['{']);
    assert(rest =~= e + "{"@ + (inside + "} from "@ + module_text(q, m) + tail));
    lemma_find_char(e, "{"@, inside + "} from "@ + module_text(q, m) + tail);
    assert(before(rest, "{"@) =~= e);
    law_trim_takes_white_space(e, e, e);
    assert(e + e + e =~= e);
    assert(trim(e) == e);
    assert(without_commas(e) == e);
    assert(import_head(rest) == e);
    assert(seq![import_of(rest)].len() == 1);
}

proof fn lemma_after(p: Seq<char>, rest: Seq<char>)
    ensures
        after_prefix(p + rest, p) == Some(rest),
{
    assert((p + rest).subrange(0, p.len() as int) =~= p);
    assert((p + rest).skip(p.len() as int) =~= rest);
}

/// A line that starts with one word does not start with another that begins otherwise.
proof fn lemma_not_after(s: Seq<char>, p: Seq<char>)
    requires
        s.len() > 0,
        p.len() > 0,
        s[0] != p[0],
    ensures
        after_prefix(s, p) is None,
{
    if occurs(s, p, 0) {
        lemma_inside(s, p, 0, 0);
    }
}

/// The names in the braces of an import are the first words between its commas.
pub proof fn law_import_names(a: Seq<char>, x: Seq<char>, b: Seq<char>, rest: Seq<char>)
    requires
        all_white(a),
        is_one_word(x),
        !x.contains(','),
        b.len() == 0 || white_space(b[0]),
        !b.contains(','),
    ensures
        import_names(a + x + b) == seq![x],
        import_names(a + x + b + seq![','] + rest) == seq![x] + import_names(rest),
{
    let p = a + x + b;
    assert(!p.contains(',')) by {
        if p.contains(',') {
            let i = choose|i: int| 0 <= i < p.len() && p[i] == ',';
            if i < a.len() {
                assert(white_space(a[i]));
            } else if i < a.len() + x.len() {
                assert(x[i - a.len()] == ',');
            } else {
                assert(b[i - a.len() - x.len()] == ',');
            }
        }
    }
    law_pieces_are_between_separators(p, ',', rest);
    lemma_first_word(a, x, b);
    let e = Seq::<Seq<char>>::empty();
    assert(seq![p].drop_last() =~= e);
    assert(first_words(e) == e);
    assert(seq![p].last() == p);
    assert(first_words(seq![p]) =~= seq![x]);
    lemma_words_front(p, pieces(rest, ','));
}

proof fn lemma_first_word(a: Seq<char>, x: Seq<char>, b: Seq<char>)
    requires
        all_white(a),
        is_one_word(x),
        b.len() == 0 || white_space(b[0]),
    ensures
        first_word(a + x + b) == x,
{
    let s = a + x + b;
    let n = a.len() as int;
    let e = n + x.len();
    assert forall|i: int| 0 <= i < n implies Class::White.holds(#[trigger] s[i]) by {
        assert(s[i] == a[i]);
    }
    assert(s[n] == x[0]);
    lemma_run_reaches(s, 0, n, Class::White);
    assert forall|i: int| n <= i < e implies Class::Dark.holds(#[trigger] s[i]) by {
        assert(s[i] == x[i - n]);
    }
    if e < s.len() {
        assert(s[e] == b[0]);
    }
    lemma_run_reaches(s, n, e, Class::Dark);
    assert(s.subrange(n, e) =~= x);
}

proof fn lemma_words_front(p: Seq<char>, ps: Seq<Seq<char>>)
    requires
        first_word(p).len() > 0,
    ensures
        first_words(seq![p] + ps) == seq![first_word(p)] + first_words(ps),
    decreases ps.len(),
{
    let e = Seq::<Seq<char>>::empty();
    let all = seq![p] + ps;
    if ps.len() == 0 {
        assert(all =~= seq![p]);
        assert(seq![p].drop_last() =~= e);
        assert(first_words(e) == e);
        assert(first_words(all) =~= seq![first_word(p)] + first_words(ps));
    } else {
        lemma_words_front(p, ps.drop_last());
        assert(all.drop_last() =~= seq![p] + ps.drop_last());
        assert(all.last() == ps.last());
        assert(first_words(all) =~= seq![first_word(p)] + first_words(ps));
    }
}

/// `import x from "m"` imports the default of a module, `import * as x from "m"` all of it under one
/// name, and `import "m"` nothing by name.
#[verifier::rlimit(40)]
pub proof fn law_other_imports(x: Seq<char>, q: char, m: Seq<char>)
    requires
        is_quote(q),
        x.len() > 0,
        !white_space(x[0]),
        unmarked(x),
        tight(m),
        unmarked(m),
    ensures
        ({
            let none = Seq::<Seq<char>>::empty();
            let one = import_of(x + " from "@ + module_text(q, m));
            let all = import_of("* as "@ + x + " from "@ + module_text(q, m));
            let bare = import_of(module_text(q, m));
            &&& one == (ImportView { module: m, names: none, namespace: false, default: true })
            &&& all == (ImportView { module: m, names: none, namespace: true, default: false })
            &&& bare == (ImportView { module: m, names: none, namespace: false, default: false })
        }),
{
    reveal_strlit(" from ");
    reveal_strlit("* as ");
    reveal_strlit("* as");
    let f = " from "@;
    let w = module_text(q, m);
    let e = Seq::<char>::empty();
    lemma_unquoted(m);
    let a = x + f;
    let one = a + w;
    assert(one =~= x + f + w);
    lemma_plain_import(a, q, m);
    assert(one + e =~= one);
    let b = "* as "@ + x + f;
    let all = b + w;
    lemma_plain_import(b, q, m);
    assert(all + e =~= all);
    lemma_plain_import(e, q, m);
    assert(e + w + e =~= w);
    assert(e + w =~= w);
    assert(all.subrange(0, 4) =~= "* as"@);
    assert(occurs(all, "* as"@, 0));
    assert(holds_text(all, "* as"@));
    assert forall|i: int| 0 <= i < one.len() implies #[trigger] one[i] != '*' by {
        if i < x.len() {
            assert(one[i] == x[i]);
        } else if i < a.len() {
            assert(one[i] == f[i - x.len()]);
        } else if a.len() < i < a.len() + 1 + m.len() {
            assert(one[i] == m[i - a.len() - 1]);
        }
    }
    lemma_no_star(one);
    assert forall|i: int| 0 <= i < w.len() implies #[trigger] w[i] != '*' by {
        if 0 < i < 1 + m.len() {
            assert(w[i] == m[i - 1]);
        }
    }
    lemma_no_star(w);
    assert(one[0] == x[0]);
    assert(w[0] == q);
}

/// An import without braces: its module, no names, and the text that it goes by.
#[verifier::rlimit(40)]
proof fn lemma_plain_import(a: Seq<char>, q: char, m: Seq<char>)
    requires
        is_quote(q),
        a.len() == 0 || !white_space(a[0]),
        forall|i: int|
            #![trigger a[i]]
            0 <= i < a.len() ==> a[i] != '"' && a[i] != '\'' && a[i] != '{' && a[i] != '}',
        unmarked(m),
    ensures
        quoted(a + module_text(q, m)) == Some(m),
        bracketed(a + module_text(q, m), '{', '}') is None,
        import_head(a + module_text(q, m)) == a + module_text(q, m),
{
    let e = Seq::<char>::empty();
    let w = module_text(q, m);
    let s = a + w;
    lemma_quoted(a, q, m, e);
    assert(a + w + e =~= s);
    assert forall|k: int| 0 <= k < s.len() implies #[trigger] s[k] != '{' && s[k] != '}' by {
        if k < a.len() {
            assert(s[k] == a[k]);
        } else if a.len() < k < a.len() + 1 + m.len() {
            assert(s[k] == m[k - a.len() - 1]);
        }
    }
    lemma_no_bracket(s, 0, '{', '}');
    reveal_strlit("{");
    lemma_find_from(s, "{"@, 0);
    if let Some(i) = find_from(s, "{"@, 0) {
        lemma_inside(s, "{"@, i, 0);
    }
    assert(s.last() == q);
    if a.len() > 0 {
        assert(s[0] == a[0]);
    } else {
        assert(s[0] == q);
    }
    law_trim_takes_white_space(e, s, e);
    assert(e + s + e =~= s);
    assert(without_commas(s) == s);
}

/// What a text starts with.
proof fn lemma_ident(x: Seq<char>, rest: Seq<char>)
    requires
        forall|i: int| 0 <= i < x.len() ==> Class::Ident.holds(#[trigger] x[i]),
        rest.len() == 0 || !Class::Ident.holds(rest[0]),
    ensures
        leading_ident(x + rest) == x,
{
    let s = x + rest;
    assert forall|i: int| 0 <= i < x.len() implies Class::Ident.holds(#[trigger] s[i]) by {
        assert(s[i] == x[i]);
    }
    if rest.len() > 0 {
        assert(s[x.len() as int] == rest[0]);
    }
    lemma_run_reaches(s, 0, x.len() as int, Class::Ident);
    assert(s.take(x.len() as int) =~= x);
}

/// `export function f`, `export class C`, `export const x` and the like export what they name, as what
/// they name it; `export default` exports the default.
#[verifier::rlimit(40)]
pub proof fn law_exports(x: Seq<char>, rest: Seq<char>)
    requires
        x.len() > 0,
        forall|i: int| 0 <= i < x.len() ==> Class::Ident.holds(#[trigger] x[i]) && !white_space(x[i]),
        rest.len() == 0 || !Class::Ident.holds(rest[0]),
    ensures
        ({
            let one = |kind: ExportKind, name: Seq<char>|
                Surface {
                    imports: Seq::empty(),
                    exports: seq![ExportView { kind, name }],
                    functions: Seq::empty(),
                };
            &&& export_of("function "@ + (x + rest)) == one(ExportKind::Function, x)
            &&& export_of("class "@ + (x + rest)) == one(ExportKind::Class, x)
            &&& export_of("default "@ + (x + rest)) == one(ExportKind::Default, "default"@)
            &&& export_of("const "@ + (x + rest)) == one(ExportKind::Const, x)
            &&& export_of("let "@ + (x + rest)) == one(ExportKind::Const, x)
            &&& export_of("var "@ + (x + rest)) == one(ExportKind::Const, x)
        }),
{
    let t = x + rest;
    lemma_ident(x, rest);
    reveal_strlit("function ");
    reveal_strlit("class ");
    reveal_strlit("default ");
    reveal_strlit("default");
    reveal_strlit("const ");
    reveal_strlit("let ");
    reveal_strlit("var ");
    reveal_strlit("const");
    reveal_strlit("let");
    reveal_strlit("var");
    lemma_after("function "@, t);
    lemma_after("class "@, t);
    lemma_not_after("class "@ + t, "function "@);
    lemma_not_after("default "@ + t, "function "@);
    lemma_not_after("default "@ + t, "class "@);
    assert(("default "@ + t).subrange(0, 8) =~= "default "@);
    lemma_not_after("const "@ + t, "function "@);
    if occurs("const "@ + t, "class "@, 0) {
        lemma_inside("const "@ + t, "class "@, 0, 1);
    }
    lemma_not_after("const "@ + t, "default "@);
    lemma_not_after("let "@ + t, "function "@);
    lemma_not_after("let "@ + t, "class "@);
    lemma_not_after("let "@ + t, "default "@);
    lemma_not_after("var "@ + t, "function "@);
    lemma_not_after("var "@ + t, "class "@);
    lemma_not_after("var "@ + t, "default "@);
    lemma_keyword("const"@, x, rest);
    lemma_keyword("let"@, x, rest);
    lemma_keyword("var"@, x, rest);
    assert("const"@ + seq![' '] + t =~= "const "@ + t);
    assert("let"@ + seq![' '] + t =~= "let "@ + t);
    assert("var"@ + seq![' '] + t =~= "var "@ + t);
}

proof fn lemma_keyword(k: Seq<char>, x: Seq<char>, rest: Seq<char>)
    requires
        is_one_word(k),
        x.len() > 0,
        !white_space(x[0]),
    ensures
        ({
            let s = k + seq![' '] + (x + rest);
            first_word(s) == k && trim_start(trim_start(s).skip(k.len() as int)) == x + rest
        }),
{
    let t = x + rest;
    let s = k + seq![' '] + t;
    let e = Seq::<char>::empty();
    assert(s =~= e + k + (seq![' '] + t));
    lemma_first_word(e, k, seq![' '] + t);
    assert(s[0] == k[0]);
    lemma_run_reaches(s, 0, 0, Class::White);
    assert(s.skip(0) =~= s);
    let u = s.skip(k.len() as int);
    assert(u =~= seq![' '] + t);
    assert(u[0] == ' ');
    assert(u[1] == x[0]);
    lemma_run_reaches(u, 0, 1, Class::White);
    assert(u.skip(1) =~= t);
}

/// An export that names a module imports that module.
#[verifier::rlimit(40)]
pub proof fn law_reexports(a: Seq<char>, q: char, m: Seq<char>)
    requires
        is_quote(q),
        m.len() > 0,
        tight(m),
        unquotable(m),
        free_of(a, " from "@),
        unquotable(a),
        a.len() > 0,
        a.last() == '}' || a.last() == '*',
    ensures
        reexport_of(a + " from "@ + module_text(q, m)) == seq![
            ImportView { module: m, names: Seq::empty(), namespace: false, default: false },
        ],
{
    reveal_strlit(" from ");
    let f = " from "@;
    let w = module_text(q, m);
    let s = a + f + w;
    let n = a.len() as int;
    assert(s.subrange(n, n + 6) =~= f);
    assert forall|i: int| 0 <= i < n implies !#[trigger] occurs(s, f, i) by {
        if occurs(s, f, i) {
            if i + 6 <= n {
                assert(a.subrange(i, i + 6) =~= s.subrange(i, i + 6));
                assert(occurs(a, f, i));
            } else {
                lemma_inside(s, f, i, n - 1 - i);
                assert(s[n - 1] == a.last());
            }
        }
    }
    crate::string_laws::lemma_find_stops(s, f, 0, n);
    assert(s.skip(n + 6) =~= w);
    let e = Seq::<char>::empty();
    lemma_quoted(e, q, m, e);
    assert(e + w + e =~= w);
    lemma_unquoted(m);
}

/// A function that a line declares by itself is listed under its name.
pub proof fn law_functions(x: Seq<char>, rest: Seq<char>)
    requires
        x.len() > 0,
        forall|i: int| 0 <= i < x.len() ==> Class::Ident.holds(#[trigger] x[i]),
        rest.len() > 0,
        !Class::Ident.holds(rest[0]),
        !white_space(rest.last()),
        free_of("function "@ + (x + rest), "//"@),
    ensures
        line_surface("function "@ + (x + rest)) == (Surface {
            imports: Seq::empty(),
            exports: Seq::empty(),
            functions: seq![x],
        }),
{
    let t = x + rest;
    let line = "function "@ + t;
    reveal_strlit("function ");
    reveal_strlit("import ");
    reveal_strlit("export ");
    assert(line[0] == 'f');
    assert(line.last() == rest.last());
    lemma_code(line);
    lemma_not_after(line, "import "@);
    lemma_not_after(line, "export "@);
    lemma_after("function "@, t);
    lemma_ident(x, rest);
}

/// What a source declares is what its lines declare, one after the other.
pub proof fn law_lines_add_up(ls: Seq<Seq<char>>, line: Seq<char>)
    ensures
        ({
            let a = lines_surface(ls);
            let b = line_surface(line);
            let all = lines_surface(ls.push(line));
            &&& all.imports == a.imports + b.imports
            &&& all.exports == a.exports + b.exports
            &&& all.functions == a.functions + b.functions
        }),
{
    assert(ls.push(line).drop_last() =~= ls);
}

/// What an export statement of a syntax tree exports: the function, the class or the first variable
/// that it declares, by the text of its name; a default under that name; and a module that it names
/// is imported.
pub proof fn law_syntax_exports(s: Seq<char>, n: SyntaxView, d: SyntaxView, name: Seq<char>, top: bool)
    requires
        n.kind == "export_statement"@,
    ensures
        ({
            let r = node_surface(s, n, top);
            let one = |kind: ExportKind|
                Surface {
                    imports: Seq::empty(),
                    exports: seq![ExportView { kind, name }],
                    functions: Seq::empty(),
                };
            let open = field_child(n, "source"@) is None && !(exists|i: int|
                0 <= i < n.children.len() && (#[trigger] n.children[i]).kind == "default"@)
                && field_child(n, "declaration"@) == Some(d);
            let named = field_child(d, "name"@) matches Some(c) && s.subrange(
                c.start as int,
                c.end as int,
            ) == name;
            &&& open && named && d.kind == "function_declaration"@ ==> r == one(ExportKind::Function)
            &&& open && named && d.kind == "generator_function_declaration"@ ==> r == one(
                ExportKind::Function,
            )
            &&& open && named && d.kind == "class_declaration"@ ==> r == one(ExportKind::Class)
            &&& field_child(n, "source"@) is None && (exists|i: int|
                0 <= i < n.children.len() && (#[trigger] n.children[i]).kind == "default"@) ==> r == (
            Surface {
                imports: Seq::empty(),
                exports: seq![ExportView { kind: ExportKind::Default, name: "default"@ }],
                functions: Seq::empty(),
            })
        }),
{
    lemma_kinds();
    if exists|i: int| 0 <= i < n.children.len() && (#[trigger] n.children[i]).kind == "default"@ {
        assert(has_kind(n.children, "default"@));
    }
}

/// The kinds of nodes differ.
proof fn lemma_kinds()
    ensures
        "export_statement"@ != "import_statement"@,
        "function_declaration"@ != "class_declaration"@,
        "function_declaration"@ != "import_statement"@,
        "function_declaration"@ != "export_statement"@,
        "generator_function_declaration"@ != "class_declaration"@,
        "generator_function_declaration"@ != "import_statement"@,
        "generator_function_declaration"@ != "export_statement"@,
        "lexical_declaration"@ != "class_declaration"@,
        "lexical_declaration"@ != "function_declaration"@,
        "lexical_declaration"@ != "generator_function_declaration"@,
        "variable_declaration"@ != "class_declaration"@,
        "variable_declaration"@ != "function_declaration"@,
        "variable_declaration"@ != "generator_function_declaration"@,
        "string"@ != "import_clause"@,
        "identifier"@ != "import_clause"@ && "identifier"@ != "string"@,
        "namespace_import"@ != "import_clause"@ && "namespace_import"@ != "string"@
            && "namespace_import"@ != "identifier"@,
        "named_imports"@ != "import_clause"@ && "named_imports"@ != "string"@ && "named_imports"@
            != "identifier"@ && "named_imports"@ != "namespace_import"@,
{
    reveal_strlit("export_statement");
    reveal_strlit("import_statement");
    reveal_strlit("function_declaration");
    reveal_strlit("class_declaration");
    reveal_strlit("generator_function_declaration");
    reveal_strlit("lexical_declaration");
    reveal_strlit("variable_declaration");
    reveal_strlit("string");
    reveal_strlit("import_clause");
    reveal_strlit("identifier");
    reveal_strlit("namespace_import");
    reveal_strlit("named_imports");
    assert("export_statement"@[0] == 'e');
    assert("import_statement"@[0] == 'i');
    assert("function_declaration"@[0] == 'f' && "function_declaration"@.len() == 20);
    assert("class_declaration"@[0] == 'c');
    assert("generator_function_declaration"@[0] == 'g');
    assert("lexical_declaration"@[0] == 'l');
    assert("variable_declaration"@[0] == 'v');
    assert("string"@.len() == 6 && "import_clause"@.len() == 13 && "identifier"@.len() == 10);
    assert("namespace_import"@.len() == 16);
    assert("named_imports"@.len() == 13 && "named_imports"@[0] == 'n' && "import_clause"@[0] == 'i');
}

/// A variable that is exported is exported by the name of its first declarator, and each word that
/// declares variables does so.
pub proof fn law_syntax_variables(s: Seq<char>, d: SyntaxView, i: int, name: Seq<char>)
    requires
        d.kind == "lexical_declaration"@ || d.kind == "variable_declaration"@,
        0 <= i < d.children.len(),
        d.children[i].named && d.children[i].kind == "variable_declarator"@,
        forall|j: int|
            0 <= j < i ==> !((#[trigger] d.children[j]).named && d.children[j].kind
                == "variable_declarator"@),
        field_child(d.children[i], "name"@) matches Some(c) && s.subrange(c.start as int, c.end as int)
            == name,
    ensures
        declaration_surface(s, d) == (Surface {
            imports: Seq::empty(),
            exports: seq![ExportView { kind: ExportKind::Const, name }],
            functions: Seq::empty(),
        }),
{
    lemma_kinds();
    lemma_declarator(d.children, i);
}

proof fn lemma_declarator(ns: Seq<SyntaxView>, i: int)
    requires
        0 <= i < ns.len(),
        ns[i].named && ns[i].kind == "variable_declarator"@,
        forall|j: int|
            0 <= j < i ==> !((#[trigger] ns[j]).named && ns[j].kind == "variable_declarator"@),
    ensures
        declarator_pos(ns) == Some(i),
    decreases ns.len(),
{
    let f = ns.drop_last();
    if i < f.len() {
        assert(f[i] == ns[i]);
        assert forall|j: int| 0 <= j < i implies !((#[trigger] f[j]).named && f[j].kind
            == "variable_declarator"@) by {
            assert(f[j] == ns[j]);
        }
        lemma_declarator(f, i);
    } else {
        assert forall|j: int| 0 <= j < f.len() implies !((#[trigger] f[j]).named && f[j].kind
            == "variable_declarator"@) by {
            assert(f[j] == ns[j]);
        }
        lemma_no_declarator(f);
    }
}

proof fn lemma_no_declarator(ns: Seq<SyntaxView>)
    requires
        forall|j: int|
            0 <= j < ns.len() ==> !((#[trigger] ns[j]).named && ns[j].kind == "variable_declarator"@),
    ensures
        declarator_pos(ns) is None,
    decreases ns.len(),
{
    if ns.len() > 0 {
        let f = ns.drop_last();
        assert forall|j: int| 0 <= j < f.len() implies !((#[trigger] f[j]).named && f[j].kind
            == "variable_declarator"@) by {
            assert(f[j] == ns[j]);
        }
        lemma_no_declarator(f);
        assert(ns.last() == ns[ns.len() - 1]);
    }
}

/// A function is listed where it stands at the top level and nowhere else, whatever stands in it.
pub proof fn law_syntax_functions(s: Seq<char>, n: SyntaxView, name: Seq<char>)
    requires
        n.kind == "function_declaration"@ || n.kind == "generator_function_declaration"@,
        field_child(n, "name"@) matches Some(c) && s.subrange(c.start as int, c.end as int) == name,
    ensures
        ({
            let inner = named_surface(s, n.children, false);
            let top = node_surface(s, n, true);
            let nested = node_surface(s, n, false);
            &&& top.functions == seq![name] + inner.functions
            &&& nested.functions == inner.functions
            &&& inner.functions.len() == 0
            &&& top.imports == inner.imports && nested.imports == inner.imports
            &&& top.exports == inner.exports && nested.exports == inner.exports
        }),
{
    lemma_kinds();
    lemma_nested(s, n.children);
    let inner = named_surface(s, n.children, false);
    let e = Seq::<ImportView>::empty();
    assert(e + inner.imports =~= inner.imports);
    assert(Seq::<ExportView>::empty() + inner.exports =~= inner.exports);
    assert(Seq::<Seq<char>>::empty() + inner.functions =~= inner.functions);
}

proof fn lemma_nested(s: Seq<char>, ns: Seq<SyntaxView>)
    ensures
        named_surface(s, ns, false).functions.len() == 0,
    decreases ns, 1nat,
{
    if ns.len() > 0 {
        lemma_nested(s, ns.drop_last());
        lemma_nested_node(s, ns.last());
    }
}

proof fn lemma_nested_node(s: Seq<char>, n: SyntaxView)
    ensures
        node_surface(s, n, false).functions.len() == 0,
    decreases n, 0nat,
{
    lemma_nested(s, n.children);
}

/// An import statement of a syntax tree is read part by part: a string names its module, an
/// identifier its default, `* as` a namespace, and braces the names in them.
#[verifier::rlimit(50)]
pub proof fn law_syntax_imports(s: Seq<char>, was: ImportView, n: SyntaxView)
    ensures
        ({
            let r = clause_read(s, was, n);
            &&& n.kind == "identifier"@ ==> r == (ImportView { default: true, ..was })
            &&& n.kind == "namespace_import"@ ==> r == (ImportView { namespace: true, ..was })
            &&& n.kind == "import_clause"@ ==> r == clauses_read(s, was, n.children)
            &&& n.kind == "named_imports"@ ==> r.module == was.module && r.default == was.default
                && r.namespace == was.namespace && r.names == was.names + specifier_names(s, n.children)
            &&& n.kind == "string"@ ==> r.names == was.names && r.default == was.default && r.namespace
                == was.namespace
            &&& n.kind == "string"@ ==> forall|q: char, m: Seq<char>|
                is_quote(q) && s.subrange(n.start as int, n.end as int) == #[trigger] module_text(q, m)
                    ==> r.module == m
        }),
{
    lemma_kinds();
    if n.kind == "string"@ {
        let t = s.subrange(n.start as int, n.end as int);
        assert forall|q: char, m: Seq<char>|
            is_quote(q) && t == #[trigger] module_text(q, m) implies clause_read(s, was, n).module == m by {
            let e = Seq::<char>::empty();
            assert(t[0] == q && t.last() == q);
            law_trim_takes_white_space(e, t, e);
            assert(e + t + e =~= t);
            assert(t.subrange(1, t.len() - 1) =~= m);
            assert(span(s, n) == t);
        }
    }
}

/// An export that names no module imports nothing: without the word `from`, or with nothing between
/// the quotes behind it.
#[verifier::rlimit(40)]
pub proof fn law_no_reexports(a: Seq<char>, q: char)
    requires
        is_quote(q),
        free_of(a, " from "@),
    ensures
        reexport_of(a).len() == 0,
        a.len() > 0 && a.last() == '}' ==> reexport_of(a + " from "@ + seq![q, q]).len() == 0,
{
    reveal_strlit(" from ");
    let f = " from "@;
    lemma_find_from(a, f, 0);
    if let Some(i) = find_from(a, f, 0) {
        assert(occurs(a, f, i));
    }
    if a.len() > 0 && a.last() == '}' {
        let w = seq![q, q];
        let s = a + f + w;
        let n = a.len() as int;
        assert(s.subrange(n, n + 6) =~= f);
        assert forall|i: int| 0 <= i < n implies !#[trigger] occurs(s, f, i) by {
            if occurs(s, f, i) {
                if i + 6 <= n {
                    assert(a.subrange(i, i + 6) =~= s.subrange(i, i + 6));
                    assert(occurs(a, f, i));
                } else {
                    lemma_inside(s, f, i, n - 1 - i);
                    assert(s[n - 1] == a.last());
                }
            }
        }
        crate::string_laws::lemma_find_stops(s, f, 0, n);
        assert(s.skip(n + 6) =~= w);
        let e = Seq::<char>::empty();
        assert(w[0] == q && w[1] == q && w.len() == 2);
        if q != '"' {
            assert(first_bracket(w, 2, '"', '"') is None);
            assert(first_bracket(w, 1, '"', '"') is None);
            assert(first_bracket(w, 0, '"', '"') is None);
        }
        assert(first_bracket(w, 0, q, q) == Some(0int));
        assert(closing(w, 1, q, q, 1) == Some(1int));
        assert(bracketed(w, q, q) == Some(w.subrange(1, 1)));
        if let Some(t) = quoted(w) {
            assert(t =~= e);
            crate::string_laws::law_trim_takes_white_space(e, e, e);
            assert(e + e + e =~= e);
        }
    }
}

/// What a program holds, and what is left of one where parsing failed, stands at the top; what any
/// other node holds does not.
pub proof fn law_top_of_a_program(s: Seq<char>, n: SyntaxView)
    ensures
        n.kind == "program"@ || n.kind == "ERROR"@ ==> node_surface(s, n, true) == named_surface(
            s,
            n.children,
            true,
        ),
        n.kind == "statement_block"@ || n.kind == "class_body"@ || n.kind == "if_statement"@
            ==> node_surface(s, n, true) == named_surface(s, n.children, false),
{
    lemma_kinds();
    reveal_strlit("program");
    reveal_strlit("ERROR");
    reveal_strlit("statement_block");
    reveal_strlit("class_body");
    reveal_strlit("if_statement");
    reveal_strlit("import_statement");
    reveal_strlit("export_statement");
    reveal_strlit("function_declaration");
    reveal_strlit("generator_function_declaration");
    assert("program"@.len() == 7 && "ERROR"@.len() == 5 && "statement_block"@.len() == 15);
    assert("class_body"@.len() == 10 && "if_statement"@.len() == 12);
    assert("import_statement"@.len() == 16 && "export_statement"@.len() == 16);
    assert("function_declaration"@.len() == 20 && "generator_function_declaration"@.len() == 30);
}

} // verus!
