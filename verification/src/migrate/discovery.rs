//! Discovery of a module's surface by a line scan: what it imports, exports and declares.
use crate::strings::{
    after_prefix, before, chars_of, cut_before, find_from, first_word, has_text, holds_text, ident,
    is_word, leading_ident, lemma_run_end, lines, occurs, part, pieces, run_end, search,
    split_at_char, split_lines, starts, string_of, strip, tail, texts, trim, trim_start, trimmed,
    trimmed_start, word, Class,
};
use vstd::prelude::*;
use vstd::string::*;

verus! {

/// A module a source file imports from.
#[derive(Debug, PartialEq, Eq)]
pub struct Import {
    /// The module specifier, e.g. `"./util"` or `"react"`.
    pub module: String,
    /// The named bindings imported (empty for default and namespace imports).
    pub names: Vec<String>,
    /// `true` for a namespace import.
    pub namespace: bool,
    /// `true` for a default import.
    pub default: bool,
}

/// The mathematical form of an import.
pub struct ImportView {
    pub module: Seq<char>,
    pub names: Seq<Seq<char>>,
    pub namespace: bool,
    pub default: bool,
}

impl DeepView for Import {
    type V = ImportView;

    open spec fn deep_view(&self) -> ImportView {
        ImportView {
            module: self.module@,
            names: self.names.deep_view(),
            namespace: self.namespace,
            default: self.default,
        }
    }
}

/// The kind of an exported symbol.
#[derive(Debug, Clone, Copy, PartialEq, Eq)]
pub enum ExportKind {
    Function,
    Const,
    Class,
    Default,
}

/// A symbol a source file exports.
#[derive(Debug, PartialEq, Eq)]
pub struct Export {
    pub kind: ExportKind,
    pub name: String,
}

/// The mathematical form of an export.
pub struct ExportView {
    pub kind: ExportKind,
    pub name: Seq<char>,
}

impl DeepView for Export {
    type V = ExportView;

    open spec fn deep_view(&self) -> ExportView {
        ExportView { kind: self.kind, name: self.name@ }
    }
}

/// A structural summary of a module.
#[derive(Debug, PartialEq, Eq)]
pub struct ApiSurfaceMap {
    pub imports: Vec<Import>,
    pub exports: Vec<Export>,
    /// Names of top-level (non-exported) function declarations.
    pub functions: Vec<String>,
}

/// The mathematical form of a surface.
#[verifier::ext_equal]
pub struct Surface {
    pub imports: Seq<ImportView>,
    pub exports: Seq<ExportView>,
    pub functions: Seq<Seq<char>>,
}

impl View for ApiSurfaceMap {
    type V = Surface;

    open spec fn view(&self) -> Surface {
        Surface {
            imports: self.imports.deep_view(),
            exports: self.exports.deep_view(),
            functions: self.functions.deep_view(),
        }
    }
}

/// A surface with nothing in it.
pub open spec fn no_surface() -> Surface {
    Surface { imports: Seq::empty(), exports: Seq::empty(), functions: Seq::empty() }
}

/// One surface, then another.
pub open spec fn surface_add(a: Surface, b: Surface) -> Surface {
    Surface {
        imports: a.imports + b.imports,
        exports: a.exports + b.exports,
        functions: a.functions + b.functions,
    }
}

/// A surface of imports alone.
pub open spec fn importing(imports: Seq<ImportView>) -> Surface {
    Surface { imports, exports: Seq::empty(), functions: Seq::empty() }
}

/// A surface of one export, where the export has a name.
pub open spec fn exporting(kind: ExportKind, name: Seq<char>) -> Surface {
    Surface {
        imports: Seq::empty(),
        exports: if name.len() > 0 {
            seq![ExportView { kind, name }]
        } else {
            Seq::empty()
        },
        functions: Seq::empty(),
    }
}

impl ApiSurfaceMap {
    /// A map with nothing in it.
    pub fn empty() -> (m: ApiSurfaceMap)
        ensures
            m@ == no_surface(),
    {
        let m = ApiSurfaceMap { imports: Vec::new(), exports: Vec::new(), functions: Vec::new() };
        assert(m@ =~= no_surface());
        m
    }

    /// Count of declared symbols (imports, exports and functions).
    pub fn symbol_count(&self) -> (n: usize)
        requires
            self.imports@.len() + self.exports@.len() + self.functions@.len() <= usize::MAX,
        ensures
            n == self.imports@.len() + self.exports@.len() + self.functions@.len(),
    {
        self.imports.len() + self.exports.len() + self.functions.len()
    }

    /// Adds an import.
    pub fn push_import(&mut self, imp: Import)
        ensures
            final(self)@ == surface_add(old(self)@, importing(seq![imp.deep_view()])),
    {
        let ghost before = self@;
        self.imports.push(imp);
        assert(self@ =~= surface_add(before, importing(seq![imp.deep_view()])));
    }

    /// Adds an export, where it has a name.
    pub fn push_export(&mut self, kind: ExportKind, name: String)
        ensures
            final(self)@ == surface_add(old(self)@, exporting(kind, name@)),
    {
        let ghost before = self@;
        if chars_of(&name).len() > 0 {
            self.exports.push(Export { kind, name });
        }
        assert(self@ =~= surface_add(before, exporting(kind, name@)));
    }
}

/// Text without the matching quotes around it, and without white space around those.
pub open spec fn unquoted(s: Seq<char>) -> Seq<char> {
    let t = trim(s);
    if t.len() >= 2 && t[0] == t.last() && (t[0] == '\'' || t[0] == '"') {
        t.subrange(1, t.len() - 1)
    } else {
        t
    }
}

/// Whether text is more than one quote.
pub open spec fn quotable(s: Seq<char>) -> bool {
    trim(s) != seq!['\''] && trim(s) != seq!['"']
}

/// Takes matching quotes off.
pub fn unquote(v: &[char]) -> (r: String)
    requires
        quotable(v@),
    ensures
        r@ == unquoted(v@),
{
    let t = trimmed(v);
    let n = t.len();
    if n >= 2 && t[0] == t[n - 1] && (t[0] == '\'' || t[0] == '"') {
        let r = part(&t, 1, n - 1);
        string_of(&r)
    } else {
        string_of(&t)
    }
}

/// Where the bracket closes that is `depth` deep at `i`.
pub open spec fn closing(s: Seq<char>, i: int, open: char, close: char, depth: nat) -> Option<int>
    decreases s.len() - i,
{
    if i < 0 || i >= s.len() {
        None
    } else if s[i] == close {
        if depth <= 1 {
            Some(i)
        } else {
            closing(s, i + 1, open, close, (depth - 1) as nat)
        }
    } else if s[i] == open {
        closing(s, i + 1, open, close, depth + 1)
    } else {
        closing(s, i + 1, open, close, depth)
    }
}

/// The first position at which `open` or `close` stands.
pub open spec fn first_bracket(s: Seq<char>, i: int, open: char, close: char) -> Option<int>
    decreases s.len() - i,
{
    if i < 0 || i >= s.len() {
        None
    } else if s[i] == open || s[i] == close {
        Some(i)
    } else {
        first_bracket(s, i + 1, open, close)
    }
}

/// What stands between the first bracket of either kind and the one that closes it.
pub open spec fn bracketed(s: Seq<char>, open: char, close: char) -> Option<Seq<char>> {
    match first_bracket(s, 0, open, close) {
        Some(i) => match closing(s, i + 1, open, close, 1) {
            Some(j) => Some(s.subrange(i + 1, j)),
            None => None,
        },
        None => None,
    }
}

/// What stands between the first bracket and the one that closes it.
fn between(v: &[char], open: char, close: char) -> (r: Option<Vec<char>>)
    ensures
        match r {
            Some(t) => bracketed(v@, open, close) == Some(t@),
            None => bracketed(v@, open, close) is None,
        },
{
    let n = v.len();
    let mut i: usize = 0;
    while i < n && v[i] != open && v[i] != close
        invariant
            n == v@.len(),
            0 <= i <= n,
            first_bracket(v@, 0, open, close) == first_bracket(v@, i as int, open, close),
        decreases n - i,
    {
        i = i + 1;
    }
    if i == n {
        return None;
    }
    let start: usize = i + 1;
    let mut depth: usize = 1;
    let mut j: usize = start;
    while j < n
        invariant
            n == v@.len(),
            start <= j <= n,
            1 <= depth <= j,
            first_bracket(v@, 0, open, close) == Some(start - 1),
            closing(v@, start as int, open, close, 1) == closing(
                v@,
                j as int,
                open,
                close,
                depth as nat,
            ),
        decreases n - j,
    {
        if v[j] == close {
            if depth == 1 {
                return Some(part(v, start, j));
            }
            depth = depth - 1;
        } else if v[j] == open {
            depth = depth + 1;
        }
        j = j + 1;
    }
    None
}

/// What stands between the first pair of double quotes or, failing that, of single quotes.
pub open spec fn quoted(s: Seq<char>) -> Option<Seq<char>> {
    match bracketed(s, '"', '"') {
        Some(t) => Some(t),
        None => bracketed(s, '\'', '\''),
    }
}

fn quoted_text(v: &[char]) -> (r: Option<Vec<char>>)
    ensures
        match r {
            Some(t) => quoted(v@) == Some(t@),
            None => quoted(v@) is None,
        },
{
    match between(v, '"', '"') {
        Some(t) => Some(t),
        None => between(v, '\'', '\''),
    }
}

/// The first words of the pieces that have one.
pub open spec fn first_words(ps: Seq<Seq<char>>) -> Seq<Seq<char>>
    decreases ps.len(),
{
    if ps.len() == 0 {
        Seq::empty()
    } else if first_word(ps.last()).len() > 0 {
        first_words(ps.drop_last()).push(first_word(ps.last()))
    } else {
        first_words(ps.drop_last())
    }
}

/// The names in an import's braces: the first word of each piece between commas.
pub open spec fn import_names(s: Seq<char>) -> Seq<Seq<char>> {
    first_words(pieces(s, ','))
}

fn parse_import_names(v: &[char]) -> (r: Vec<String>)
    ensures
        r.deep_view() == import_names(v@),
{
    let ps = split_at_char(v, ',');
    let ghost all = texts(ps@);
    let mut r: Vec<String> = Vec::new();
    let mut i: usize = 0;
    assert(all.take(0) =~= Seq::<Seq<char>>::empty());
    assert(r.deep_view() =~= first_words(all.take(0)));
    while i < ps.len()
        invariant
            0 <= i <= ps@.len(),
            all == texts(ps@),
            r.deep_view() == first_words(all.take(i as int)),
        decreases ps@.len() - i,
    {
        assert(all.take(i + 1).drop_last() =~= all.take(i as int));
        assert(all.take(i + 1).last() == ps@[i as int]@);
        let ghost was = r.deep_view();
        let w = word(&ps[i]);
        if w.len() > 0 {
            r.push(string_of(&w));
            assert(r.deep_view() =~= was.push(w@));
        }
        i = i + 1;
    }
    assert(all.take(all.len() as int) =~= all);
    r
}

/// Text without the commas at its end.
pub open spec fn without_commas(s: Seq<char>) -> Seq<char>
    decreases s.len(),
{
    if s.len() > 0 && s.last() == ',' {
        without_commas(s.drop_last())
    } else {
        s
    }
}

fn trim_commas(v: &[char]) -> (r: Vec<char>)
    ensures
        r@ == without_commas(v@),
{
    let mut n: usize = v.len();
    assert(v@.take(v@.len() as int) =~= v@);
    while n > 0 && v[n - 1] == ','
        invariant
            0 <= n <= v@.len(),
            without_commas(v@) == without_commas(v@.take(n as int)),
        decreases n,
    {
        assert(v@.take(n as int).drop_last() =~= v@.take(n - 1));
        n = n - 1;
    }
    let r = part(v, 0, n);
    assert(v@.subrange(0, n as int) =~= v@.take(n as int));
    r
}

/// What precedes the braces of an import, without white space and trailing commas.
pub open spec fn import_head(rest: Seq<char>) -> Seq<char> {
    trim(without_commas(trim(before(rest, "{"@))))
}

/// The import that the text after `import ` declares.
pub open spec fn import_of(rest: Seq<char>) -> ImportView {
    let head = import_head(rest);
    let namespace = holds_text(rest, "* as"@);
    ImportView {
        module: match quoted(rest) {
            Some(t) => unquoted(t),
            None => Seq::empty(),
        },
        names: match bracketed(rest, '{', '}') {
            Some(t) => import_names(t),
            None => Seq::empty(),
        },
        namespace,
        default: !namespace && head.len() > 0 && head[0] != '"' && head[0] != '\'',
    }
}

fn read_import(rest: &[char]) -> (imp: Import)
    requires
        quoted(rest@) matches Some(t) ==> quotable(t),
    ensures
        imp.deep_view() == import_of(rest@),
{
    let module = match quoted_text(rest) {
        Some(t) => unquote(&t),
        None => String::new(),
    };
    let names: Vec<String> = match between(rest, '{', '}') {
        Some(t) => parse_import_names(&t),
        None => Vec::new(),
    };
    assert(bracketed(rest@, '{', '}') is None ==> names.deep_view() =~= Seq::<Seq<char>>::empty());
    let namespace = has_text(rest, "* as");
    let head = trimmed(&trim_commas(&trimmed(&cut_before(rest, "{"))));
    let default = !namespace && head.len() > 0 && head[0] != '"' && head[0] != '\'';
    Import { module, names, namespace, default }
}

/// What follows ` from `, where that stands in the text.
pub open spec fn after_from(rest: Seq<char>) -> Option<Seq<char>> {
    match find_from(rest, " from "@, 0) {
        Some(i) => Some(rest.skip(i + 6)),
        None => None,
    }
}

/// The import that a re-export declares.
pub open spec fn reexport_of(rest: Seq<char>) -> Seq<ImportView> {
    match after_from(rest) {
        Some(after) => match quoted(after) {
            Some(t) => if unquoted(t).len() > 0 {
                seq![
                    ImportView {
                        module: unquoted(t),
                        names: Seq::empty(),
                        namespace: false,
                        default: false,
                    },
                ]
            } else {
                Seq::empty()
            },
            None => Seq::empty(),
        },
        None => Seq::empty(),
    }
}

/// The export that the text after `export ` declares.
pub open spec fn export_of(rest: Seq<char>) -> Surface {
    let kw = first_word(rest);
    if after_prefix(rest, "function "@) is Some {
        exporting(ExportKind::Function, leading_ident(after_prefix(rest, "function "@)->0))
    } else if after_prefix(rest, "class "@) is Some {
        exporting(ExportKind::Class, leading_ident(after_prefix(rest, "class "@)->0))
    } else if occurs(rest, "default "@, 0) {
        exporting(ExportKind::Default, "default"@)
    } else if kw == "const"@ || kw == "let"@ || kw == "var"@ {
        exporting(
            ExportKind::Const,
            leading_ident(trim_start(trim_start(rest).skip(kw.len() as int))),
        )
    } else {
        no_surface()
    }
}

/// The code of a line: what precedes a comment, without white space around it.
pub open spec fn code_of(line: Seq<char>) -> Seq<char> {
    trim(before(line, "//"@))
}

/// What a line declares.
pub open spec fn line_surface(line: Seq<char>) -> Surface {
    let code = code_of(line);
    if after_prefix(code, "import "@) is Some {
        importing(seq![import_of(after_prefix(code, "import "@)->0)])
    } else if after_prefix(code, "export "@) is Some {
        let rest = after_prefix(code, "export "@)->0;
        surface_add(importing(reexport_of(rest)), export_of(rest))
    } else if after_prefix(code, "function "@) is Some {
        let name = leading_ident(after_prefix(code, "function "@)->0);
        Surface {
            imports: Seq::empty(),
            exports: Seq::empty(),
            functions: if name.len() > 0 {
                seq![name]
            } else {
                Seq::empty()
            },
        }
    } else {
        no_surface()
    }
}

/// What a run of lines declares.
pub open spec fn lines_surface(ls: Seq<Seq<char>>) -> Surface
    decreases ls.len(),
{
    if ls.len() == 0 {
        no_surface()
    } else {
        surface_add(lines_surface(ls.drop_last()), line_surface(ls.last()))
    }
}

/// Whether no module that a line names is a lone quote.
pub open spec fn line_readable(line: Seq<char>) -> bool {
    let code = code_of(line);
    if after_prefix(code, "import "@) is Some {
        quoted(after_prefix(code, "import "@)->0) matches Some(t) ==> quotable(t)
    } else if after_prefix(code, "export "@) is Some {
        after_from(after_prefix(code, "export "@)->0) matches Some(after) ==> (quoted(
            after,
        ) matches Some(t) ==> quotable(t))
    } else {
        true
    }
}

/// Whether no module that a source names is a lone quote.
pub open spec fn readable(source: Seq<char>) -> bool {
    forall|i: int| 0 <= i < lines(source).len() ==> #[trigger] line_readable(lines(source)[i])
}

fn is_quotable(v: &[char]) -> (b: bool)
    ensures
        b == quotable(v@),
{
    let t = trimmed(v);
    let b = !(t.len() == 1 && (t[0] == '\'' || t[0] == '"'));
    proof {
        if t@.len() == 1 {
            assert(t@ =~= seq![t@[0]]);
        }
        assert(seq!['\''][0] == '\'' && seq!['"'][0] == '"');
    }
    b
}

fn is_line_readable(line: &[char]) -> (b: bool)
    ensures
        b == line_readable(line@),
{
    let code = trimmed(&cut_before(line, "//"));
    if let Some(rest) = strip(&code, "import ") {
        return match quoted_text(&rest) {
            Some(t) => is_quotable(&t),
            None => true,
        };
    }
    if let Some(rest) = strip(&code, "export ") {
        return match text_after_from(&rest) {
            Some(after) => match quoted_text(&after) {
                Some(t) => is_quotable(&t),
                None => true,
            },
            None => true,
        };
    }
    true
}

/// Whether [`discover`] reads a source: no module that it names is a lone quote.
pub fn is_readable(source: &str) -> (b: bool)
    ensures
        b == readable(source@),
{
    let v = chars_of(source);
    let ls = split_lines(&v);
    let ghost all = texts(ls@);
    let mut i: usize = 0;
    while i < ls.len()
        invariant
            0 <= i <= ls@.len(),
            all == texts(ls@),
            all == lines(source@),
            forall|j: int| 0 <= j < i ==> #[trigger] line_readable(all[j]),
        decreases ls@.len() - i,
    {
        if !is_line_readable(&ls[i]) {
            assert(!line_readable(all[i as int]));
            return false;
        }
        i = i + 1;
    }
    true
}

fn text_after_from(rest: &[char]) -> (r: Option<Vec<char>>)
    ensures
        match r {
            Some(t) => after_from(rest@) == Some(t@),
            None => after_from(rest@) is None,
        },
{
    proof {
        reveal_strlit(" from ");
    }
    match search(rest, &chars_of(" from "), 0) {
        Some(i) => {
            let n = rest.len();
            Some(tail(rest, i + 6))
        },
        None => None,
    }
}

/// Extract an [`ApiSurfaceMap`] from a script.
///
/// A line scan that handles the common declaration forms without a grammar: each line is read up
/// to its comment, and strings are not told apart from code.
pub fn discover(source: &str) -> (map: ApiSurfaceMap)
    requires
        readable(source@),
    ensures
        map@ == lines_surface(lines(source@)),
{
    let v = chars_of(source);
    let ls = split_lines(&v);
    let ghost all = texts(ls@);
    let mut map = ApiSurfaceMap::empty();
    let mut i: usize = 0;
    assert(all.take(0) =~= Seq::<Seq<char>>::empty());
    while i < ls.len()
        invariant
            0 <= i <= ls@.len(),
            all == texts(ls@),
            all == lines(source@),
            readable(source@),
            map@ == lines_surface(all.take(i as int)),
        decreases ls@.len() - i,
    {
        assert(all.take(i + 1).drop_last() =~= all.take(i as int));
        assert(all.take(i + 1).last() == ls@[i as int]@);
        assert(line_readable(all[i as int]));
        read_line(&ls[i], &mut map);
        i = i + 1;
    }
    assert(all.take(all.len() as int) =~= all);
    map
}

fn read_line(line: &[char], map: &mut ApiSurfaceMap)
    requires
        line_readable(line@),
    ensures
        final(map)@ == surface_add(old(map)@, line_surface(line@)),
{
    let ghost was = map@;
    let code = trimmed(&cut_before(line, "//"));
    if let Some(rest) = strip(&code, "import ") {
        map.push_import(read_import(&rest));
        return;
    }
    if let Some(rest) = strip(&code, "export ") {
        read_export(&rest, map);
        return;
    }
    if let Some(rest) = strip(&code, "function ") {
        let name = ident(&rest);
        if name.len() > 0 {
            map.functions.push(string_of(&name));
        }
        assert(map@ =~= surface_add(was, line_surface(line@)));
        return;
    }
    assert(map@ =~= surface_add(was, line_surface(line@)));
}

fn read_export(rest: &[char], map: &mut ApiSurfaceMap)
    requires
        after_from(rest@) matches Some(after) ==> (quoted(after) matches Some(t) ==> quotable(t)),
    ensures
        final(map)@ == surface_add(
            old(map)@,
            surface_add(importing(reexport_of(rest@)), export_of(rest@)),
        ),
{
    let ghost was = map@;
    if let Some(after) = text_after_from(rest) {
        if let Some(t) = quoted_text(&after) {
            let module = unquote(&t);
            if chars_of(&module).len() > 0 {
                let names: Vec<String> = Vec::new();
                assert(names.deep_view() =~= Seq::<Seq<char>>::empty());
                map.push_import(Import { module, names, namespace: false, default: false });
            }
        }
    }
    assert(map@ =~= surface_add(was, importing(reexport_of(rest@))));
    let ghost mid = map@;
    if let Some(name) = strip(rest, "function ") {
        map.push_export(ExportKind::Function, string_of(&ident(&name)));
    } else if let Some(name) = strip(rest, "class ") {
        map.push_export(ExportKind::Class, string_of(&ident(&name)));
    } else if starts(rest, "default ") {
        map.push_export(ExportKind::Default, String::from_str("default"));
    } else {
        let kw = word(rest);
        if is_word(&kw, "const") || is_word(&kw, "let") || is_word(&kw, "var") {
            proof {
                let begin = run_end(rest@, 0, Class::White);
                lemma_run_end(rest@, 0, Class::White);
                lemma_run_end(rest@, begin, Class::Dark);
            }
            let name = ident(&trimmed_start(&tail(&trimmed_start(rest), kw.len())));
            map.push_export(ExportKind::Const, string_of(&name));
        }
    }
    assert(map@ =~= surface_add(mid, export_of(rest@)));
    assert(map@ =~= surface_add(
        was,
        surface_add(importing(reexport_of(rest@)), export_of(rest@)),
    ));
}

} // verus!
