//! Discovery of a module's surface from its syntax tree.
//!
//! The surface has the shape that the line scan gives it, but is read from a real parse, so
//! comments, strings and nested syntax do not mislead it.
use crate::migrate::discovery::{
    importing, no_surface, surface_add, unquoted, ApiSurfaceMap, Export, ExportKind, ExportView,
    Import, ImportView, Surface,
};
use crate::migrate::syntax::{
    all_within, child_by_field, field_child, lemma_syntaxes_of, lemma_syntaxes_step,
    lemma_within_at, parse_syntax, parsed, span, span_text, syntax_of, syntaxes_of, within, Syntax,
    SyntaxView,
};
use crate::strings::{chars_of, part, str_eq, string_of, trimmed};
use vstd::prelude::*;
use vstd::string::*;

pub use crate::migrate::syntax::SourceLang;

verus! {

/// Text without the matching quotes around it; a lone quote is left as it is.
fn strip_quotes(s: &str) -> (r: String)
    ensures
        r@ == unquoted(s@),
{
    let t = trimmed(&chars_of(s));
    let n = t.len();
    if n >= 2 && t[0] == t[n - 1] && (t[0] == '\'' || t[0] == '"') {
        let r = part(&t, 1, n - 1);
        string_of(&r)
    } else {
        string_of(&t)
    }
}

/// A surface of one export.
pub open spec fn exported(kind: ExportKind, name: Seq<char>) -> Surface {
    Surface {
        imports: Seq::empty(),
        exports: seq![ExportView { kind, name }],
        functions: Seq::empty(),
    }
}

/// A surface of one function.
pub open spec fn declaring(name: Seq<char>) -> Surface {
    Surface { imports: Seq::empty(), exports: Seq::empty(), functions: seq![name] }
}

/// The text of the first child that fills a field.
pub open spec fn field_text(s: Seq<char>, n: SyntaxView, name: Seq<char>) -> Option<Seq<char>> {
    match field_child(n, name) {
        Some(c) => Some(span(s, c)),
        None => None,
    }
}

/// Kinds of function declarations.
pub open spec fn function_kind(kind: Seq<char>) -> bool {
    kind == "function_declaration"@ || kind == "generator_function_declaration"@
}

/// The names of the import specifiers among named children.
pub open spec fn specifier_names(s: Seq<char>, ns: Seq<SyntaxView>) -> Seq<Seq<char>>
    decreases ns.len(),
{
    if ns.len() == 0 {
        Seq::empty()
    } else {
        let n = ns.last();
        let rest = specifier_names(s, ns.drop_last());
        match field_text(s, n, "name"@) {
            Some(t) if n.named && n.kind == "import_specifier"@ => rest.push(t),
            _ => rest,
        }
    }
}

/// An import once a child of its statement or of its clause has been read.
pub open spec fn clause_read(s: Seq<char>, imp: ImportView, n: SyntaxView) -> ImportView
    decreases n,
{
    if n.kind == "import_clause"@ {
        clauses_read(s, imp, n.children)
    } else if n.kind == "string"@ {
        ImportView { module: unquoted(span(s, n)), ..imp }
    } else if n.kind == "identifier"@ {
        ImportView { default: true, ..imp }
    } else if n.kind == "namespace_import"@ {
        ImportView { namespace: true, ..imp }
    } else if n.kind == "named_imports"@ {
        ImportView { names: imp.names + specifier_names(s, n.children), ..imp }
    } else {
        imp
    }
}

/// An import once the named children of its statement or of its clause have been read.
pub open spec fn clauses_read(s: Seq<char>, imp: ImportView, ns: Seq<SyntaxView>) -> ImportView
    decreases ns,
{
    if ns.len() == 0 {
        imp
    } else {
        let front = clauses_read(s, imp, ns.drop_last());
        if ns.last().named {
            clause_read(s, front, ns.last())
        } else {
            front
        }
    }
}

/// An import of nothing.
pub open spec fn bare_import(module: Seq<char>) -> ImportView {
    ImportView { module, names: Seq::empty(), namespace: false, default: false }
}

/// The position of the first declarator among named children.
pub open spec fn declarator_pos(ns: Seq<SyntaxView>) -> Option<int>
    decreases ns.len(),
{
    if ns.len() == 0 {
        None
    } else if declarator_pos(ns.drop_last()) is Some {
        declarator_pos(ns.drop_last())
    } else if ns.last().named && ns.last().kind == "variable_declarator"@ {
        Some(ns.len() - 1)
    } else {
        None
    }
}

/// What an exported declaration exports.
pub open spec fn declaration_surface(s: Seq<char>, decl: SyntaxView) -> Surface {
    if function_kind(decl.kind) {
        match field_text(s, decl, "name"@) {
            Some(t) => exported(ExportKind::Function, t),
            None => no_surface(),
        }
    } else if decl.kind == "class_declaration"@ {
        match field_text(s, decl, "name"@) {
            Some(t) => exported(ExportKind::Class, t),
            None => no_surface(),
        }
    } else if decl.kind == "lexical_declaration"@ || decl.kind == "variable_declaration"@ {
        match declarator_pos(decl.children) {
            Some(i) => match field_text(s, decl.children[i], "name"@) {
                Some(t) => exported(ExportKind::Const, t),
                None => no_surface(),
            },
            None => no_surface(),
        }
    } else {
        no_surface()
    }
}

/// Whether a child is of that kind.
pub open spec fn has_kind(ns: Seq<SyntaxView>, kind: Seq<char>) -> bool {
    exists|i: int| 0 <= i < ns.len() && (#[trigger] ns[i]).kind == kind
}

/// What an export statement declares: a re-export names a dependency, a default export is named
/// `default`, and a declaration exports what it declares.
pub open spec fn export_surface(s: Seq<char>, n: SyntaxView) -> Surface {
    match field_text(s, n, "source"@) {
        Some(t) => if unquoted(t).len() > 0 {
            importing(seq![bare_import(unquoted(t))])
        } else {
            no_surface()
        },
        None => if has_kind(n.children, "default"@) {
            exported(ExportKind::Default, "default"@)
        } else {
            match field_child(n, "declaration"@) {
                Some(decl) => declaration_surface(s, decl),
                None => no_surface(),
            }
        },
    }
}

/// Whether the children of a node stand at the top level where the node does: those of the program
/// itself, and those that the parser set apart as not fitting the grammar.
pub open spec fn transparent(kind: Seq<char>) -> bool {
    kind == "program"@ || kind == "ERROR"@
}

/// What a node declares. A function counts at the top level only; imports and exports count
/// wherever they stand.
pub open spec fn node_surface(s: Seq<char>, n: SyntaxView, top: bool) -> Surface
    decreases n,
{
    if n.kind == "import_statement"@ {
        importing(seq![clauses_read(s, bare_import(Seq::empty()), n.children)])
    } else if n.kind == "export_statement"@ {
        export_surface(s, n)
    } else if function_kind(n.kind) {
        let own = match field_text(s, n, "name"@) {
            Some(t) if top => declaring(t),
            _ => no_surface(),
        };
        surface_add(own, named_surface(s, n.children, false))
    } else {
        named_surface(s, n.children, top && transparent(n.kind))
    }
}

/// What the named nodes of a run declare.
pub open spec fn named_surface(s: Seq<char>, ns: Seq<SyntaxView>, top: bool) -> Surface
    decreases ns,
{
    if ns.len() == 0 {
        no_surface()
    } else {
        let front = named_surface(s, ns.drop_last(), top);
        if ns.last().named {
            surface_add(front, node_surface(s, ns.last(), top))
        } else {
            front
        }
    }
}

/// The text of the first child that fills a field.
fn text_by_field(v: &Vec<char>, n: &Syntax, name: &str) -> (r: Option<String>)
    requires
        within(syntax_of(*n), v@.len()),
    ensures
        r.deep_view() == field_text(v@, syntax_of(*n), name@),
{
    match child_by_field(n, name) {
        Some(c) => {
            proof {
                lemma_child_within(*n, *c, v@.len());
            }
            Some(span_text(v, c))
        },
        None => None,
    }
}

/// A child of a node spans characters of the text too.
proof fn lemma_child_within(n: Syntax, c: Syntax, len: nat)
    requires
        within(syntax_of(n), len),
        exists|i: int| 0 <= i < n.children@.len() && c == #[trigger] n.children@[i],
    ensures
        within(syntax_of(c), len),
{
    let i = choose|i: int| 0 <= i < n.children@.len() && c == #[trigger] n.children@[i];
    lemma_syntaxes_of(n.children@);
    assert(syntaxes_of(n.children@)[i] == syntax_of(c));
    lemma_within_at(syntaxes_of(n.children@), i, len);
}

/// Whether a node is of that kind.
fn is_kind(n: &Syntax, kind: &str) -> (b: bool)
    ensures
        b == (syntax_of(*n).kind == kind@),
{
    str_eq(&n.kind, kind)
}

fn is_function(n: &Syntax) -> (b: bool)
    ensures
        b == function_kind(syntax_of(*n).kind),
{
    is_kind(n, "function_declaration") || is_kind(n, "generator_function_declaration")
}

fn read_specifiers(v: &Vec<char>, n: &Syntax, names: &mut Vec<String>)
    requires
        within(syntax_of(*n), v@.len()),
    ensures
        final(names).deep_view() == old(names).deep_view() + specifier_names(
            v@,
            syntaxes_of(n.children@),
        ),
{
    let ghost before = names.deep_view();
    let ghost ns = n.children@;
    let mut i: usize = 0;
    assert(ns.take(0) =~= Seq::<Syntax>::empty());
    assert(before + specifier_names(v@, syntaxes_of(ns.take(0))) =~= before);
    while i < n.children.len()
        invariant
            0 <= i <= ns.len(),
            ns == n.children@,
            within(syntax_of(*n), v@.len()),
            names.deep_view() == before + specifier_names(v@, syntaxes_of(ns.take(i as int))),
        decreases ns.len() - i,
    {
        let c = &n.children[i];
        let ghost was = names.deep_view();
        proof {
            lemma_syntaxes_step(ns, i as int);
            lemma_child_within(*n, *c, v@.len());
            let next = syntaxes_of(ns.take(i + 1));
            assert(next.drop_last() =~= syntaxes_of(ns.take(i as int)));
            assert(next.last() == syntax_of(*c));
        }
        if c.named && is_kind(c, "import_specifier") {
            if let Some(t) = text_by_field(v, c, "name") {
                names.push(t);
                assert(names.deep_view() =~= was.push(t@));
            }
        }
        assert(names.deep_view() =~= before + specifier_names(v@, syntaxes_of(ns.take(i + 1))));
        i = i + 1;
    }
    assert(ns.take(ns.len() as int) =~= ns);
}

fn collect_import_clause(v: &Vec<char>, n: &Syntax, imp: &mut Import)
    requires
        within(syntax_of(*n), v@.len()),
    ensures
        final(imp).deep_view() == clause_read(v@, old(imp).deep_view(), syntax_of(*n)),
    decreases n,
{
    if is_kind(n, "import_clause") {
        collect_import_clauses(v, n, imp);
    } else if is_kind(n, "string") {
        imp.module = strip_quotes(&span_text(v, n));
    } else if is_kind(n, "identifier") {
        imp.default = true;
    } else if is_kind(n, "namespace_import") {
        imp.namespace = true;
    } else if is_kind(n, "named_imports") {
        read_specifiers(v, n, &mut imp.names);
    }
}

fn collect_import_clauses(v: &Vec<char>, n: &Syntax, imp: &mut Import)
    requires
        within(syntax_of(*n), v@.len()),
    ensures
        final(imp).deep_view() == clauses_read(
            v@,
            old(imp).deep_view(),
            syntaxes_of(n.children@),
        ),
    decreases n.children@,
{
    let ghost start = imp.deep_view();
    let ghost ns = n.children@;
    let mut i: usize = 0;
    assert(ns.take(0) =~= Seq::<Syntax>::empty());
    while i < n.children.len()
        invariant
            0 <= i <= ns.len(),
            ns == n.children@,
            within(syntax_of(*n), v@.len()),
            imp.deep_view() == clauses_read(v@, start, syntaxes_of(ns.take(i as int))),
        decreases ns.len() - i,
    {
        let c = &n.children[i];
        proof {
            lemma_syntaxes_step(ns, i as int);
            lemma_child_within(*n, *c, v@.len());
            let next = syntaxes_of(ns.take(i + 1));
            assert(next.drop_last() =~= syntaxes_of(ns.take(i as int)));
            assert(next.last() == syntax_of(*c));
        }
        if c.named {
            collect_import_clause(v, c, imp);
        }
        i = i + 1;
    }
    assert(ns.take(ns.len() as int) =~= ns);
}

fn handle_import(v: &Vec<char>, n: &Syntax, map: &mut ApiSurfaceMap)
    requires
        within(syntax_of(*n), v@.len()),
    ensures
        final(map)@ == surface_add(
            old(map)@,
            importing(
                seq![clauses_read(v@, bare_import(Seq::empty()), syntaxes_of(n.children@))],
            ),
        ),
{
    let mut imp = plain_import(String::new());
    collect_import_clauses(v, n, &mut imp);
    map.push_import(imp);
}

/// An import of a module and nothing more.
fn plain_import(module: String) -> (imp: Import)
    ensures
        imp.deep_view() == bare_import(module@),
{
    let names: Vec<String> = Vec::new();
    assert(names.deep_view() =~= Seq::<Seq<char>>::empty());
    Import { module, names, namespace: false, default: false }
}

/// Adds an export.
fn push_symbol(map: &mut ApiSurfaceMap, kind: ExportKind, name: String)
    ensures
        final(map)@ == surface_add(old(map)@, exported(kind, name@)),
{
    let ghost before = map@;
    map.exports.push(Export { kind, name });
    assert(map@ =~= surface_add(before, exported(kind, name@)));
}

proof fn lemma_surface_none(a: Surface)
    ensures
        surface_add(a, no_surface()) == a,
        surface_add(no_surface(), a) == a,
{
    assert(surface_add(a, no_surface()) =~= a);
    assert(surface_add(no_surface(), a) =~= a);
}

proof fn lemma_surface_assoc(a: Surface, b: Surface, c: Surface)
    ensures
        surface_add(surface_add(a, b), c) == surface_add(a, surface_add(b, c)),
{
    assert(surface_add(surface_add(a, b), c) =~= surface_add(a, surface_add(b, c)));
}

/// The first declarator among a declaration's named children.
fn first_declarator(n: &Syntax) -> (r: Option<&Syntax>)
    ensures
        match r {
            Some(c) => {
                &&& declarator_pos(syntaxes_of(n.children@)) is Some
                &&& syntaxes_of(n.children@)[declarator_pos(syntaxes_of(n.children@))->0]
                    == syntax_of(*c)
                &&& exists|i: int| 0 <= i < n.children@.len() && *c == #[trigger] n.children@[i]
            },
            None => declarator_pos(syntaxes_of(n.children@)) is None,
        },
{
    let ghost ns = syntaxes_of(n.children@);
    proof {
        lemma_syntaxes_of(n.children@);
        assert(ns.take(0) =~= Seq::<SyntaxView>::empty());
    }
    let mut i: usize = 0;
    while i < n.children.len()
        invariant
            0 <= i <= n.children@.len(),
            ns == syntaxes_of(n.children@),
            ns.len() == n.children@.len(),
            forall|j: int| 0 <= j < ns.len() ==> #[trigger] ns[j] == syntax_of(n.children@[j]),
            declarator_pos(ns.take(i as int)) is None,
        decreases n.children@.len() - i,
    {
        let c = &n.children[i];
        proof {
            assert(ns.take(i + 1).drop_last() =~= ns.take(i as int));
            assert(ns.take(i + 1).last() == ns[i as int]);
        }
        if c.named && is_kind(c, "variable_declarator") {
            proof {
                lemma_declarator_stays(ns, i + 1);
            }
            return Some(c);
        }
        i = i + 1;
    }
    assert(ns.take(ns.len() as int) =~= ns);
    None
}

proof fn lemma_declarator_stays(ns: Seq<SyntaxView>, k: int)
    requires
        0 <= k <= ns.len(),
        declarator_pos(ns.take(k)) is Some,
    ensures
        declarator_pos(ns) == declarator_pos(ns.take(k)),
    decreases ns.len(),
{
    if k == ns.len() {
        assert(ns.take(k) =~= ns);
    } else {
        assert(ns.drop_last().take(k) =~= ns.take(k));
        lemma_declarator_stays(ns.drop_last(), k);
    }
}

/// Whether some child is of that kind.
fn any_kind(n: &Syntax, kind: &str) -> (b: bool)
    ensures
        b == has_kind(syntaxes_of(n.children@), kind@),
{
    let ghost ns = syntaxes_of(n.children@);
    proof {
        lemma_syntaxes_of(n.children@);
    }
    let mut i: usize = 0;
    while i < n.children.len()
        invariant
            0 <= i <= n.children@.len(),
            ns == syntaxes_of(n.children@),
            ns.len() == n.children@.len(),
            forall|j: int| 0 <= j < ns.len() ==> #[trigger] ns[j] == syntax_of(n.children@[j]),
            forall|j: int| 0 <= j < i ==> (#[trigger] ns[j]).kind != kind@,
        decreases n.children@.len() - i,
    {
        if is_kind(&n.children[i], kind) {
            assert(ns[i as int].kind == kind@);
            return true;
        }
        assert(ns[i as int].kind != kind@);
        i = i + 1;
    }
    false
}

fn handle_declaration(v: &Vec<char>, decl: &Syntax, map: &mut ApiSurfaceMap)
    requires
        within(syntax_of(*decl), v@.len()),
    ensures
        final(map)@ == surface_add(old(map)@, declaration_surface(v@, syntax_of(*decl))),
{
    proof {
        lemma_surface_none(map@);
    }
    if is_function(decl) {
        if let Some(t) = text_by_field(v, decl, "name") {
            push_symbol(map, ExportKind::Function, t);
        }
    } else if is_kind(decl, "class_declaration") {
        if let Some(t) = text_by_field(v, decl, "name") {
            push_symbol(map, ExportKind::Class, t);
        }
    } else if is_kind(decl, "lexical_declaration") || is_kind(decl, "variable_declaration") {
        if let Some(c) = first_declarator(decl) {
            proof {
                lemma_child_within(*decl, *c, v@.len());
            }
            if let Some(t) = text_by_field(v, c, "name") {
                push_symbol(map, ExportKind::Const, t);
            }
        }
    }
}

fn handle_export(v: &Vec<char>, n: &Syntax, map: &mut ApiSurfaceMap)
    requires
        within(syntax_of(*n), v@.len()),
    ensures
        final(map)@ == surface_add(old(map)@, export_surface(v@, syntax_of(*n))),
{
    proof {
        lemma_surface_none(map@);
    }
    if let Some(t) = text_by_field(v, n, "source") {
        let module = strip_quotes(&t);
        if chars_of(&module).len() > 0 {
            map.push_import(plain_import(module));
        }
        return;
    }
    if any_kind(n, "default") {
        push_symbol(map, ExportKind::Default, String::from_str("default"));
        return;
    }
    if let Some(decl) = child_by_field(n, "declaration") {
        proof {
            lemma_child_within(*n, *decl, v@.len());
        }
        handle_declaration(v, decl, map);
    }
}

fn walk(v: &Vec<char>, n: &Syntax, top: bool, map: &mut ApiSurfaceMap)
    requires
        within(syntax_of(*n), v@.len()),
    ensures
        final(map)@ == surface_add(old(map)@, node_surface(v@, syntax_of(*n), top)),
    decreases n,
{
    let ghost before = map@;
    proof {
        lemma_surface_none(before);
    }
    if is_kind(n, "import_statement") {
        handle_import(v, n, map);
    } else if is_kind(n, "export_statement") {
        handle_export(v, n, map);
    } else if is_function(n) {
        if top {
            if let Some(t) = text_by_field(v, n, "name") {
                map.functions.push(t);
                assert(map@ =~= surface_add(before, declaring(t@)));
            }
        }
        let ghost mid = map@;
        walk_all(v, &n.children, false, map);
        proof {
            let own = match field_text(v@, syntax_of(*n), "name"@) {
                Some(t) if top => declaring(t),
                _ => no_surface(),
            };
            assert(mid == surface_add(before, own));
            lemma_surface_assoc(before, own, named_surface(v@, syntaxes_of(n.children@), false));
        }
    } else {
        let open = top && (is_kind(n, "program") || is_kind(n, "ERROR"));
        walk_all(v, &n.children, open, map);
    }
}

fn walk_all(v: &Vec<char>, ns: &Vec<Syntax>, top: bool, map: &mut ApiSurfaceMap)
    requires
        all_within(syntaxes_of(ns@), v@.len()),
    ensures
        final(map)@ == surface_add(old(map)@, named_surface(v@, syntaxes_of(ns@), top)),
    decreases ns@,
{
    let ghost before = map@;
    let mut i: usize = 0;
    proof {
        assert(ns@.take(0) =~= Seq::<Syntax>::empty());
        lemma_surface_none(before);
        lemma_syntaxes_of(ns@);
    }
    while i < ns.len()
        invariant
            0 <= i <= ns@.len(),
            all_within(syntaxes_of(ns@), v@.len()),
            syntaxes_of(ns@).len() == ns@.len(),
            forall|j: int|
                0 <= j < ns@.len() ==> #[trigger] syntaxes_of(ns@)[j] == syntax_of(ns@[j]),
            map@ == surface_add(before, named_surface(v@, syntaxes_of(ns@.take(i as int)), top)),
        decreases ns@.len() - i,
    {
        let ghost si = syntaxes_of(ns@.take(i as int));
        proof {
            lemma_syntaxes_step(ns@, i as int);
            lemma_within_at(syntaxes_of(ns@), i as int, v@.len());
            assert(syntaxes_of(ns@)[i as int] == syntax_of(ns@[i as int]));
            let next = syntaxes_of(ns@.take(i + 1));
            assert(next.drop_last() =~= si);
            assert(next.last() == syntax_of(ns@[i as int]));
            lemma_surface_assoc(
                before,
                named_surface(v@, si, top),
                node_surface(v@, syntax_of(ns@[i as int]), top),
            );
        }
        if ns[i].named {
            walk(v, &ns[i], top, map);
        }
        i = i + 1;
    }
    assert(ns@.take(ns@.len() as int) =~= ns@);
}

/// What the trees of a source declare.
pub open spec fn trees_surface(s: Seq<char>, ns: Seq<SyntaxView>) -> Surface
    decreases ns.len(),
{
    if ns.len() == 0 {
        no_surface()
    } else {
        surface_add(trees_surface(s, ns.drop_last()), node_surface(s, ns.last(), true))
    }
}

/// Reads a surface off the syntax trees of a source.
pub fn surface_of(source: &str, trees: &Vec<Syntax>) -> (map: ApiSurfaceMap)
    requires
        all_within(syntaxes_of(trees@), source@.len()),
    ensures
        map@ == trees_surface(source@, syntaxes_of(trees@)),
{
    let v = chars_of(source);
    let mut map = ApiSurfaceMap::empty();
    let mut i: usize = 0;
    proof {
        assert(trees@.take(0) =~= Seq::<Syntax>::empty());
        lemma_syntaxes_of(trees@);
    }
    while i < trees.len()
        invariant
            0 <= i <= trees@.len(),
            v@ == source@,
            all_within(syntaxes_of(trees@), v@.len()),
            syntaxes_of(trees@).len() == trees@.len(),
            forall|j: int|
                0 <= j < trees@.len() ==> #[trigger] syntaxes_of(trees@)[j] == syntax_of(
                    trees@[j],
                ),
            map@ == trees_surface(v@, syntaxes_of(trees@.take(i as int))),
        decreases trees@.len() - i,
    {
        proof {
            lemma_syntaxes_step(trees@, i as int);
            lemma_within_at(syntaxes_of(trees@), i as int, v@.len());
            assert(syntaxes_of(trees@)[i as int] == syntax_of(trees@[i as int]));
            let next = syntaxes_of(trees@.take(i + 1));
            assert(next.drop_last() =~= syntaxes_of(trees@.take(i as int)));
            assert(next.last() == syntax_of(trees@[i as int]));
        }
        walk(&v, &trees[i], true, &mut map);
        i = i + 1;
    }
    assert(trees@.take(trees@.len() as int) =~= trees@);
    map
}

/// What the parse of a source declares; nothing where it does not parse.
pub open spec fn ast_surface(source: Seq<char>, lang: SourceLang) -> Surface {
    match parsed(source, lang) {
        Some(ns) => trees_surface(source, ns),
        None => no_surface(),
    }
}

/// Extract an [`ApiSurfaceMap`] from a source by the grammar of its language. The map is empty
/// where the grammar cannot parse the source.
pub fn discover_ast(source: &str, lang: SourceLang) -> (map: ApiSurfaceMap)
    ensures
        map@ == ast_surface(source@, lang),
{
    match parse_syntax(source, lang) {
        Some(trees) => surface_of(source, &trees),
        None => ApiSurfaceMap::empty(),
    }
}

/// Discovers the surface of a JavaScript module.
pub fn discover_js(source: &str) -> (map: ApiSurfaceMap)
    ensures
        map@ == ast_surface(source@, SourceLang::JavaScript),
{
    discover_ast(source, SourceLang::JavaScript)
}

/// Discovers the surface of a TypeScript module.
pub fn discover_ts(source: &str) -> (map: ApiSurfaceMap)
    ensures
        map@ == ast_surface(source@, SourceLang::TypeScript),
{
    discover_ast(source, SourceLang::TypeScript)
}

/// Discovers the surface of a TypeScript module with embedded JSX.
pub fn discover_tsx(source: &str) -> (map: ApiSurfaceMap)
    ensures
        map@ == ast_surface(source@, SourceLang::Tsx),
{
    discover_ast(source, SourceLang::Tsx)
}

} // verus!
