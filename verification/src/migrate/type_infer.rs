//! Type inference from scripts: bindings with literal initializers, annotations and returned
//! literals.
use crate::migrate::declarations::{declaration_end, find_end, find_quote_end, quote_end};
use crate::strings::{
    before, chars_of, cut_before, find_from, ident, is_digit, is_white_space, is_word,
    leading_ident, lines, occurs, part, pieces, run_end, search, split_at_char, split_lines, starts,
    str_eq, string_of, strip, tail, texts, trim, trimmed, after_prefix, white_space, Class,
};
use vstd::prelude::*;
use vstd::string::*;

verus! {

/// A Rust-side type inferred from a binding.
#[derive(Debug, Clone, Copy, PartialEq, Eq, Structural)]
pub enum InferredType {
    Str,
    Int,
    Float,
    Bool,
    Null,
    Array,
    Object,
    Unknown,
}

/// The name of the Rust type that an inference maps to.
pub open spec fn rust_name(t: InferredType) -> Seq<char> {
    match t {
        InferredType::Str => "String"@,
        InferredType::Int => "i64"@,
        InferredType::Float => "f64"@,
        InferredType::Bool => "bool"@,
        InferredType::Null => "()"@,
        InferredType::Array => "Vec<serde_json::Value>"@,
        InferredType::Object => "serde_json::Value"@,
        InferredType::Unknown => "_"@,
    }
}

impl InferredType {
    /// The Rust type name this inference maps to.
    pub fn to_rust(self) -> (s: &'static str)
        ensures
            s@ == rust_name(self),
    {
        match self {
            InferredType::Str => "String",
            InferredType::Int => "i64",
            InferredType::Float => "f64",
            InferredType::Bool => "bool",
            InferredType::Null => "()",
            InferredType::Array => "Vec<serde_json::Value>",
            InferredType::Object => "serde_json::Value",
            InferredType::Unknown => "_",
        }
    }
}

/// Where a [`TypeBinding`] was derived from.
#[derive(Debug, Clone, Copy, PartialEq, Eq, Structural)]
pub enum BindingKind {
    Let,
    Const,
    Var,
    Param,
    Return,
    Field,
}

/// An inferred (name, type) binding.
#[derive(Debug, Clone, PartialEq, Eq)]
pub struct TypeBinding {
    pub name: String,
    pub ty: InferredType,
    pub kind: BindingKind,
}

/// The mathematical form of a binding.
pub struct BindingView {
    pub name: Seq<char>,
    pub ty: InferredType,
    pub kind: BindingKind,
}

impl DeepView for TypeBinding {
    type V = BindingView;

    open spec fn deep_view(&self) -> BindingView {
        BindingView { name: self.name@, ty: self.ty, kind: self.kind }
    }
}

/// What an integer literal is made of.
pub open spec fn int_char(c: char) -> bool {
    is_digit(c) || c == '_' || c == '+' || c == '-'
}

/// What a number is made of.
pub open spec fn number_char(c: char) -> bool {
    int_char(c) || c == '.' || c == 'e' || c == 'E'
}

/// Whether text starts and ends with a character.
pub open spec fn wrapped(t: Seq<char>, q: char) -> bool {
    t.len() > 0 && t[0] == q && t.last() == q
}

/// The type of a literal.
pub open spec fn literal_ty(lit: Seq<char>) -> InferredType {
    let t = trim(lit);
    if t.len() == 0 {
        InferredType::Unknown
    } else if wrapped(t, '"') || wrapped(t, '\'') || wrapped(t, '`') {
        InferredType::Str
    } else if t == "true"@ || t == "false"@ {
        InferredType::Bool
    } else if t == "null"@ || t == "undefined"@ {
        InferredType::Null
    } else if t[0] == '[' {
        InferredType::Array
    } else if t[0] == '{' {
        InferredType::Object
    } else if forall|i: int| 0 <= i < t.len() ==> int_char(#[trigger] t[i]) {
        InferredType::Int
    } else if forall|i: int| 0 <= i < t.len() ==> number_char(#[trigger] t[i]) {
        InferredType::Float
    } else {
        InferredType::Unknown
    }
}

fn is_int_char(c: char) -> (b: bool)
    ensures
        b == int_char(c),
{
    ('0' <= c && c <= '9') || c == '_' || c == '+' || c == '-'
}

fn literal_type(lit: &Vec<char>) -> (ty: InferredType)
    ensures
        ty == literal_ty(lit@),
{
    let t = trimmed(lit);
    let n = t.len();
    if n == 0 {
        return InferredType::Unknown;
    }
    let first: char = t[0];
    if (first == '"' || first == '\'' || first == '`') && t[n - 1] == first {
        return InferredType::Str;
    }
    if is_word(&t, "true") || is_word(&t, "false") {
        return InferredType::Bool;
    }
    if is_word(&t, "null") || is_word(&t, "undefined") {
        return InferredType::Null;
    }
    if first == '[' {
        return InferredType::Array;
    }
    if first == '{' {
        return InferredType::Object;
    }
    let mut all_int = true;
    let mut all_number = true;
    let mut i: usize = 0;
    while i < n
        invariant
            0 <= i <= n,
            n == t@.len(),
            all_number == (forall|j: int| 0 <= j < i ==> number_char(#[trigger] t@[j])),
            all_int == (forall|j: int| 0 <= j < i ==> int_char(#[trigger] t@[j])),
        decreases n - i,
    {
        let c: char = t[i];
        if !is_int_char(c) {
            assert(!int_char(t@[i as int]));
            all_int = false;
            if !(c == '.' || c == 'e' || c == 'E') {
                assert(!number_char(t@[i as int]));
                all_number = false;
            }
        }
        i = i + 1;
    }
    if all_int {
        InferredType::Int
    } else if all_number {
        InferredType::Float
    } else {
        InferredType::Unknown
    }
}

/// The type that an annotation names.
pub open spec fn annotation_ty(ann: Seq<char>) -> InferredType {
    let t = trim(ann);
    if t == "string"@ {
        InferredType::Str
    } else if t == "number"@ {
        InferredType::Float
    } else if t == "boolean"@ || t == "bool"@ {
        InferredType::Bool
    } else if t == "any"@ || t == "unknown"@ || t == "object"@ {
        InferredType::Unknown
    } else if t == "null"@ || t == "undefined"@ {
        InferredType::Null
    } else if t.len() >= 2 && t[t.len() - 2] == '[' && t[t.len() - 1] == ']' {
        InferredType::Array
    } else if t.len() > 0 && t[0] == '{' || occurs(t, "Record<"@, 0) || occurs(t, "Partial<"@, 0) {
        InferredType::Object
    } else {
        InferredType::Unknown
    }
}

fn ts_annotation_type(ann: &Vec<char>) -> (ty: InferredType)
    ensures
        ty == annotation_ty(ann@),
{
    let t = trimmed(ann);
    let n = t.len();
    if is_word(&t, "string") {
        InferredType::Str
    } else if is_word(&t, "number") {
        InferredType::Float
    } else if is_word(&t, "boolean") || is_word(&t, "bool") {
        InferredType::Bool
    } else if is_word(&t, "any") || is_word(&t, "unknown") || is_word(&t, "object") {
        InferredType::Unknown
    } else if is_word(&t, "null") || is_word(&t, "undefined") {
        InferredType::Null
    } else if n >= 2 && t[n - 2] == '[' && t[n - 1] == ']' {
        InferredType::Array
    } else if n > 0 && t[0] == '{' || starts(&t, "Record<") || starts(&t, "Partial<") {
        InferredType::Object
    } else {
        InferredType::Unknown
    }
}

/// What follows the first `c`, where there is one.
pub open spec fn after_char(s: Seq<char>, c: char) -> Option<Seq<char>> {
    let i = run_end(s, 0, Class::Not(c));
    if i < s.len() {
        Some(s.skip(i + 1))
    } else {
        None
    }
}

fn text_after(v: &Vec<char>, c: char) -> (r: Option<Vec<char>>)
    ensures
        match r {
            Some(t) => after_char(v@, c) == Some(t@),
            None => after_char(v@, c) is None,
        },
{
    let i = crate::strings::scan_run(v, 0, Class::Not(c));
    if i < v.len() {
        Some(tail(v, i + 1))
    } else {
        None
    }
}

/// The type that the text after a declaration's keyword gives: by its annotation or, where that
/// tells nothing, by its initializer.
pub open spec fn declared_ty(rest: Seq<char>) -> InferredType {
    let ann = match after_char(rest, ':') {
        Some(t) => annotation_ty(before(t, "="@)),
        None => InferredType::Unknown,
    };
    if ann != InferredType::Unknown {
        ann
    } else {
        match after_char(rest, '=') {
            Some(lit) => literal_ty(lit),
            None => InferredType::Unknown,
        }
    }
}

fn declared_type(rest: &Vec<char>) -> (ty: InferredType)
    ensures
        ty == declared_ty(rest@),
{
    let ann = match text_after(rest, ':') {
        Some(t) => ts_annotation_type(&cut_before(&t, "=")),
        None => InferredType::Unknown,
    };
    if ann != InferredType::Unknown {
        ann
    } else {
        match text_after(rest, '=') {
            Some(lit) => literal_type(&lit),
            None => InferredType::Unknown,
        }
    }
}

/// The binding that the text after a keyword declares, where it has a name.
pub open spec fn bound(rest: Seq<char>, kind: BindingKind) -> Option<BindingView> {
    let name = leading_ident(rest);
    if name.len() > 0 {
        Some(BindingView { name, ty: declared_ty(rest), kind })
    } else {
        None
    }
}

/// The binding that a statement declares.
pub open spec fn statement_binding(stmt: Seq<char>) -> Option<BindingView> {
    let t = trim(stmt);
    if after_prefix(t, "const "@) is Some {
        bound(after_prefix(t, "const "@)->0, BindingKind::Const)
    } else if after_prefix(t, "let "@) is Some {
        bound(after_prefix(t, "let "@)->0, BindingKind::Let)
    } else if after_prefix(t, "var "@) is Some {
        bound(after_prefix(t, "var "@)->0, BindingKind::Var)
    } else {
        None
    }
}

fn bind(rest: &Vec<char>, kind: BindingKind) -> (r: Option<TypeBinding>)
    ensures
        r.deep_view() == bound(rest@, kind),
{
    let name = ident(rest);
    if name.len() > 0 {
        Some(TypeBinding { name: string_of(&name), ty: declared_type(rest), kind })
    } else {
        None
    }
}

fn read_statement(stmt: &Vec<char>) -> (r: Option<TypeBinding>)
    ensures
        r.deep_view() == statement_binding(stmt@),
{
    let t = trimmed(stmt);
    if let Some(rest) = strip(&t, "const ") {
        return bind(&rest, BindingKind::Const);
    }
    if let Some(rest) = strip(&t, "let ") {
        return bind(&rest, BindingKind::Let);
    }
    if let Some(rest) = strip(&t, "var ") {
        return bind(&rest, BindingKind::Var);
    }
    None
}

/// The position of the binding of a name.
pub open spec fn name_pos(bs: Seq<BindingView>, name: Seq<char>) -> Option<int>
    decreases bs.len(),
{
    if bs.len() == 0 {
        None
    } else if name_pos(bs.drop_last(), name) is Some {
        name_pos(bs.drop_last(), name)
    } else if bs.last().name == name {
        Some(bs.len() - 1)
    } else {
        None
    }
}

/// The bindings with one more, unless its name is bound already.
pub open spec fn with_new(bs: Seq<BindingView>, b: Option<BindingView>) -> Seq<BindingView> {
    match b {
        Some(b) => if name_pos(bs, b.name) is None {
            bs.push(b)
        } else {
            bs
        },
        None => bs,
    }
}

/// The bindings with the type of a name set; a name that is not bound yet is bound as a return.
pub open spec fn with_type(
    bs: Seq<BindingView>,
    name: Seq<char>,
    ty: InferredType,
) -> Seq<BindingView> {
    match name_pos(bs, name) {
        Some(i) => bs.update(i, BindingView { name: bs[i].name, ty, kind: bs[i].kind }),
        None => bs.push(BindingView { name, ty, kind: BindingKind::Return }),
    }
}

proof fn lemma_name_pos_stays(bs: Seq<BindingView>, k: int, name: Seq<char>)
    requires
        0 <= k <= bs.len(),
        name_pos(bs.take(k), name) is Some,
    ensures
        name_pos(bs, name) == name_pos(bs.take(k), name),
    decreases bs.len(),
{
    if k == bs.len() {
        assert(bs.take(k) =~= bs);
    } else {
        assert(bs.drop_last().take(k) =~= bs.take(k));
        lemma_name_pos_stays(bs.drop_last(), k, name);
    }
}

fn find_name(bs: &Vec<TypeBinding>, name: &str) -> (r: Option<usize>)
    ensures
        match r {
            Some(i) => name_pos(bs.deep_view(), name@) == Some(i as int) && i < bs@.len(),
            None => name_pos(bs.deep_view(), name@) is None,
        },
{
    let ghost all = bs.deep_view();
    let mut i: usize = 0;
    assert(all.take(0) =~= Seq::<BindingView>::empty());
    while i < bs.len()
        invariant
            0 <= i <= bs@.len(),
            all == bs.deep_view(),
            name_pos(all.take(i as int), name@) is None,
        decreases bs@.len() - i,
    {
        assert(all.take(i + 1).drop_last() =~= all.take(i as int));
        assert(all.take(i + 1).last() == bs@[i as int].deep_view());
        if str_eq(&bs[i].name, name) {
            proof {
                lemma_name_pos_stays(all, i + 1, name@);
            }
            return Some(i);
        }
        i = i + 1;
    }
    assert(all.take(all.len() as int) =~= all);
    None
}

fn add_new(bs: &mut Vec<TypeBinding>, b: Option<TypeBinding>)
    ensures
        final(bs).deep_view() == with_new(old(bs).deep_view(), b.deep_view()),
{
    let ghost was = bs.deep_view();
    if let Some(b) = b {
        if find_name(bs, &b.name).is_none() {
            let ghost v = b.deep_view();
            bs.push(b);
            assert(bs.deep_view() =~= was.push(v));
        }
    }
}

fn set_type(bs: &mut Vec<TypeBinding>, name: String, ty: InferredType)
    ensures
        final(bs).deep_view() == with_type(old(bs).deep_view(), name@, ty),
{
    let ghost was = bs.deep_view();
    match find_name(bs, &name) {
        Some(i) => {
            bs[i].ty = ty;
        },
        None => {
            bs.push(TypeBinding { name, ty, kind: BindingKind::Return });
        },
    }
    assert(bs.deep_view() =~= with_type(was, name@, ty));
}

/// The statements of a line: what stands between semicolons, up to a comment.
pub open spec fn statements(line: Seq<char>) -> Seq<Seq<char>> {
    pieces(before(line, "//"@), ';')
}

/// The bindings with those of a run of statements.
pub open spec fn after_statements(
    bs: Seq<BindingView>,
    stmts: Seq<Seq<char>>,
) -> Seq<BindingView>
    decreases stmts.len(),
{
    if stmts.len() == 0 {
        bs
    } else {
        with_new(after_statements(bs, stmts.drop_last()), statement_binding(stmts.last()))
    }
}

/// The bindings that a run of lines declares.
pub open spec fn declarations(ls: Seq<Seq<char>>) -> Seq<BindingView>
    decreases ls.len(),
{
    if ls.len() == 0 {
        Seq::empty()
    } else {
        after_statements(declarations(ls.drop_last()), statements(ls.last()))
    }
}

/// What follows the first `return ` of a line.
pub open spec fn returned(line: Seq<char>) -> Option<Seq<char>> {
    let code = before(line, "//"@);
    match find_from(code, "return "@, 0) {
        Some(i) => Some(code.skip(i + 7)),
        None => None,
    }
}

/// What the first `return ` from line `i` on returns.
pub open spec fn first_return(ls: Seq<Seq<char>>, i: int) -> Option<Seq<char>>
    decreases ls.len() - i,
{
    if i < 0 || i >= ls.len() {
        None
    } else if returned(ls[i]) is Some {
        returned(ls[i])
    } else {
        first_return(ls, i + 1)
    }
}

/// A mark that quotes text.
pub open spec fn quote(c: char) -> bool {
    c == '"' || c == '\'' || c == '`'
}

/// Where a returned value ends that reads on from a position, within so many open brackets and
/// perhaps within quotes: before the first `;` or `}` that is in neither, or at the end of the line.
pub open spec fn value_end(s: Seq<char>, i: int, depth: nat, quoted: Option<char>) -> int
    decreases s.len() - i,
{
    if i < 0 || i >= s.len() {
        s.len() as int
    } else {
        match quoted {
            Some(q) => if s[i] == '\\' && i + 1 >= s.len() {
                s.len() as int
            } else if s[i] == '\\' {
                value_end(s, i + 2, depth, quoted)
            } else if s[i] == q {
                value_end(s, i + 1, depth, None)
            } else {
                value_end(s, i + 1, depth, quoted)
            },
            None => if quote(s[i]) {
                value_end(s, i + 1, depth, Some(s[i]))
            } else if s[i] == '(' || s[i] == '[' || s[i] == '{' {
                value_end(s, i + 1, depth + 1, None)
            } else if depth == 0 && (s[i] == ';' || s[i] == '}') {
                i
            } else if depth > 0 && (s[i] == ')' || s[i] == ']' || s[i] == '}') {
                value_end(s, i + 1, (depth - 1) as nat, None)
            } else {
                value_end(s, i + 1, depth, None)
            },
        }
    }
}

/// The value that is returned.
pub open spec fn value_text(s: Seq<char>) -> Seq<char> {
    s.take(value_end(s, 0, 0, None))
}

/// What stands before the first `{` or `(`.
pub open spec fn before_bracket(s: Seq<char>) -> Seq<char> {
    before(before(s, "{"@), "("@)
}

/// Where a parameter list ends that reads on from a position within so many open brackets: past the
/// bracket that closes it, if it closes.
pub open spec fn params_end(s: Seq<char>, i: int, depth: nat) -> Option<int>
    decreases s.len() - i,
{
    if i < 0 || i >= s.len() {
        None
    } else if s[i] == '(' {
        params_end(s, i + 1, depth + 1)
    } else if s[i] == ')' {
        if depth <= 1 {
            Some(i + 1)
        } else {
            params_end(s, i + 1, (depth - 1) as nat)
        }
    } else if quote(s[i]) {
        match quote_end(s, i + 1, s[i]) {
            Some(j) => if i < j <= s.len() {
                params_end(s, j, depth)
            } else {
                None
            },
            None => None,
        }
    } else {
        params_end(s, i + 1, depth)
    }
}

/// The annotation of what a function returns: what follows a colon behind its parameter list, up to
/// its body.
pub open spec fn return_annotation(rest: Seq<char>) -> Seq<char> {
    match params_end(rest, 0, 0) {
        Some(j) => match after_prefix(trim(rest.skip(j)), ":"@) {
            Some(t) => trim(before_bracket(t)),
            None => Seq::empty(),
        },
        None => Seq::empty(),
    }
}

/// Lines as one text, each with a line end.
pub open spec fn joined_lines(ls: Seq<Seq<char>>) -> Seq<char>
    decreases ls.len(),
{
    if ls.len() == 0 {
        Seq::empty()
    } else {
        joined_lines(ls.drop_last()) + ls.last() + "\n"@
    }
}

/// The lines of the declaration that starts on line `i`; all that follow where its end cannot be
/// told.
pub open spec fn declared_lines(ls: Seq<Seq<char>>, i: int) -> Seq<Seq<char>> {
    let text = joined_lines(ls.skip(i));
    pieces(text.take(declaration_end(text, 0)), '\n')
}

/// What line `i` tells of the function that it declares: its name and its type, by an annotation or
/// by the first literal that it returns.
pub open spec fn function_type(ls: Seq<Seq<char>>, i: int) -> Option<(Seq<char>, InferredType)> {
    let code = trim(before(ls[i], "//"@));
    match after_prefix(code, "function "@) {
        Some(rest) => {
            let name = leading_ident(rest);
            let ann = return_annotation(rest);
            if name.len() == 0 {
                None
            } else if ann.len() > 0 {
                Some((name, annotation_ty(ann)))
            } else {
                match first_return(declared_lines(ls, i), 0) {
                    Some(t) => {
                        let ty = literal_ty(value_text(t));
                        if ty != InferredType::Unknown {
                            Some((name, ty))
                        } else {
                            None
                        }
                    },
                    None => None,
                }
            }
        },
        None => None,
    }
}

/// The bindings once the functions of the first `k` lines have been read.
pub open spec fn after_functions(
    bs: Seq<BindingView>,
    ls: Seq<Seq<char>>,
    k: nat,
) -> Seq<BindingView>
    decreases k,
{
    if k == 0 {
        bs
    } else {
        let front = after_functions(bs, ls, (k - 1) as nat);
        match function_type(ls, k - 1) {
            Some((name, ty)) => with_type(front, name, ty),
            None => front,
        }
    }
}

/// The bindings that a source declares.
pub open spec fn inferred(source: Seq<char>) -> Seq<BindingView> {
    let ls = lines(source);
    after_functions(declarations(ls), ls, ls.len())
}

fn read_statements(line: &Vec<char>, bs: &mut Vec<TypeBinding>)
    ensures
        final(bs).deep_view() == after_statements(old(bs).deep_view(), statements(line@)),
{
    let stmts = split_at_char(&cut_before(line, "//"), ';');
    let ghost all = texts(stmts@);
    let ghost start = bs.deep_view();
    let mut i: usize = 0;
    assert(all.take(0) =~= Seq::<Seq<char>>::empty());
    while i < stmts.len()
        invariant
            0 <= i <= stmts@.len(),
            all == texts(stmts@),
            bs.deep_view() == after_statements(start, all.take(i as int)),
        decreases stmts@.len() - i,
    {
        assert(all.take(i + 1).drop_last() =~= all.take(i as int));
        assert(all.take(i + 1).last() == stmts@[i as int]@);
        add_new(bs, read_statement(&stmts[i]));
        i = i + 1;
    }
    assert(all.take(all.len() as int) =~= all);
}

fn line_returns(line: &Vec<char>) -> (r: Option<Vec<char>>)
    ensures
        match r {
            Some(t) => returned(line@) == Some(t@),
            None => returned(line@) is None,
        },
{
    proof {
        reveal_strlit("return ");
    }
    let code = cut_before(line, "//");
    match search(&code, &chars_of("return "), 0) {
        Some(i) => {
            let n = code.len();
            Some(tail(&code, i + 7))
        },
        None => None,
    }
}

fn next_return(ls: &Vec<Vec<char>>, from: usize) -> (r: Option<Vec<char>>)
    ensures
        match r {
            Some(t) => first_return(texts(ls@), from as int) == Some(t@),
            None => first_return(texts(ls@), from as int) is None,
        },
{
    let ghost all = texts(ls@);
    let mut i: usize = from;
    while i < ls.len()
        invariant
            from <= i,
            from < ls@.len() ==> i <= ls@.len(),
            all == texts(ls@),
            first_return(all, from as int) == first_return(all, i as int),
        decreases ls@.len() - i,
    {
        assert(all[i as int] == ls@[i as int]@);
        let r = line_returns(&ls[i]);
        if r.is_some() {
            return r;
        }
        i = i + 1;
    }
    None
}

fn cut_value(v: &Vec<char>) -> (r: Vec<char>)
    ensures
        r@ == value_text(v@),
{
    let n = v.len();
    let mut i: usize = 0;
    let mut depth: usize = 0;
    let mut quoted: Option<char> = None;
    let mut end: usize = n;
    while i < n
        invariant_except_break
            end == n,
            value_end(v@, 0, 0, None) == value_end(v@, i as int, depth as nat, quoted),
        invariant
            0 <= i <= n,
            n == v@.len(),
            depth <= i,
        ensures
            end == value_end(v@, 0, 0, None),
            end <= n,
        decreases n - i,
    {
        let c = v[i];
        match quoted {
            Some(q) => {
                if c == '\\' {
                    if i + 1 >= n {
                        break;
                    }
                    i = i + 1;
                } else if c == q {
                    quoted = None;
                }
            },
            None => {
                if c == '"' || c == '\'' || c == '`' {
                    quoted = Some(c);
                } else if c == '(' || c == '[' || c == '{' {
                    depth = depth + 1;
                } else if depth == 0 && (c == ';' || c == '}') {
                    end = i;
                    break;
                } else if depth > 0 && (c == ')' || c == ']' || c == '}') {
                    depth = depth - 1;
                }
            },
        }
        i = i + 1;
    }
    let r = part(v, 0, end);
    assert(r@ =~= value_text(v@));
    r
}

fn find_params_end(v: &Vec<char>) -> (r: Option<usize>)
    ensures
        match (r, params_end(v@, 0, 0)) {
            (Some(i), Some(j)) => i == j && i <= v@.len(),
            (None, None) => true,
            _ => false,
        },
{
    let n = v.len();
    let mut i: usize = 0;
    let mut depth: usize = 0;
    while i < n
        invariant
            0 <= i <= n,
            n == v@.len(),
            depth <= i,
            params_end(v@, 0, 0) == params_end(v@, i as int, depth as nat),
        decreases n - i,
    {
        let c = v[i];
        if c == '(' {
            depth = depth + 1;
            i = i + 1;
        } else if c == ')' {
            if depth <= 1 {
                return Some(i + 1);
            }
            depth = depth - 1;
            i = i + 1;
        } else if c == '"' || c == '\'' || c == '`' {
            match find_quote_end(v, i + 1, c) {
                Some(j) => {
                    i = j;
                },
                None => {
                    return None;
                },
            }
        } else {
            i = i + 1;
        }
    }
    None
}

fn annotation(rest: &Vec<char>) -> (r: Vec<char>)
    ensures
        r@ == return_annotation(rest@),
{
    if let Some(j) = find_params_end(rest) {
        let behind = trimmed(&tail(rest, j));
        if let Some(t) = strip(&behind, ":") {
            return trimmed(&cut_before(&cut_before(&t, "{"), "("));
        }
    }
    let none: Vec<char> = Vec::new();
    assert(none@ =~= Seq::<char>::empty());
    none
}

fn lines_declared(ls: &Vec<Vec<char>>, i: usize) -> (r: Vec<Vec<char>>)
    requires
        i < ls@.len(),
    ensures
        texts(r@) == declared_lines(texts(ls@), i as int),
{
    let ghost all = texts(ls@).skip(i as int);
    let mut text: Vec<char> = Vec::new();
    let mut k: usize = i;
    proof {
        reveal_strlit("\n");
        assert(all.take(0) =~= Seq::<Seq<char>>::empty());
        assert(text@ =~= joined_lines(all.take(0)));
    }
    while k < ls.len()
        invariant
            i <= k <= ls@.len(),
            all == texts(ls@).skip(i as int),
            "\n"@ == seq!['\n'],
            text@ == joined_lines(all.take(k - i)),
        decreases ls@.len() - k,
    {
        let ghost was = text@;
        assert(all.take(k - i + 1).drop_last() =~= all.take(k - i));
        assert(all.take(k - i + 1).last() == ls@[k as int]@);
        let mut line = tail(&ls[k], 0);
        assert(line@ =~= ls@[k as int]@);
        text.append(&mut line);
        text.push('\n');
        assert(text@ =~= joined_lines(all.take(k - i + 1)));
        k = k + 1;
    }
    assert(all.take(all.len() as int) =~= all);
    let n = text.len();
    let end = match find_end(&text, 0, false) {
        Some(e) => if e > 0 {
            e
        } else {
            n
        },
        None => n,
    };
    let own = part(&text, 0, end);
    assert(own@ =~= text@.take(declaration_end(text@, 0)));
    split_at_char(&own, '\n')
}

fn read_function(ls: &Vec<Vec<char>>, i: usize) -> (r: Option<(String, InferredType)>)
    requires
        i < ls@.len(),
    ensures
        match r {
            Some((name, ty)) => function_type(texts(ls@), i as int) == Some((name@, ty)),
            None => function_type(texts(ls@), i as int) is None,
        },
{
    assert(texts(ls@)[i as int] == ls@[i as int]@);
    let code = trimmed(&cut_before(&ls[i], "//"));
    if let Some(rest) = strip(&code, "function ") {
        let name = ident(&rest);
        if name.len() == 0 {
            return None;
        }
        let ann = annotation(&rest);
        if ann.len() > 0 {
            return Some((string_of(&name), ts_annotation_type(&ann)));
        }
        if let Some(t) = next_return(&lines_declared(ls, i), 0) {
            let ty = literal_type(&cut_value(&t));
            if ty != InferredType::Unknown {
                return Some((string_of(&name), ty));
            }
        }
    }
    None
}

/// Custom (dependency-free) type inference over JS/TS `source`.
///
/// Scans each line for `let`/`const`/`var` declarations with a literal initializer, explicit TS
/// `: type` annotations, and `function … { return … }` return literals, producing one
/// [`TypeBinding`] per inferred symbol.
pub fn infer_types(source: &str) -> (bs: Vec<TypeBinding>)
    ensures
        bs.deep_view() == inferred(source@),
{
    let v = chars_of(source);
    let ls = split_lines(&v);
    let ghost all = texts(ls@);
    let mut bs: Vec<TypeBinding> = Vec::new();
    let mut i: usize = 0;
    assert(all.take(0) =~= Seq::<Seq<char>>::empty());
    assert(bs.deep_view() =~= declarations(all.take(0)));
    while i < ls.len()
        invariant
            0 <= i <= ls@.len(),
            all == texts(ls@),
            bs.deep_view() == declarations(all.take(i as int)),
        decreases ls@.len() - i,
    {
        assert(all.take(i + 1).drop_last() =~= all.take(i as int));
        assert(all.take(i + 1).last() == ls@[i as int]@);
        read_statements(&ls[i], &mut bs);
        i = i + 1;
    }
    assert(all.take(all.len() as int) =~= all);
    let ghost start = bs.deep_view();
    let mut j: usize = 0;
    while j < ls.len()
        invariant
            0 <= j <= ls@.len(),
            all == texts(ls@),
            bs.deep_view() == after_functions(start, all, j as nat),
        decreases ls@.len() - j,
    {
        if let Some((name, ty)) = read_function(&ls, j) {
            set_type(&mut bs, name, ty);
        }
        j = j + 1;
    }
    bs
}

/// Whether no name is bound twice.
pub open spec fn bound_once(bs: Seq<BindingView>) -> bool {
    forall|i: int, j: int| 0 <= i < j < bs.len() ==> bs[i].name != bs[j].name
}

proof fn lemma_name_pos(bs: Seq<BindingView>, name: Seq<char>)
    ensures
        name_pos(bs, name) matches Some(i) ==> 0 <= i < bs.len() && bs[i].name == name,
        name_pos(bs, name) is None ==> forall|i: int| 0 <= i < bs.len() ==> bs[i].name != name,
    decreases bs.len(),
{
    if bs.len() > 0 {
        lemma_name_pos(bs.drop_last(), name);
        assert(forall|i: int| 0 <= i < bs.len() - 1 ==> bs.drop_last()[i] == bs[i]);
    }
}

proof fn lemma_statements_bound_once(bs: Seq<BindingView>, stmts: Seq<Seq<char>>)
    requires
        bound_once(bs),
    ensures
        bound_once(after_statements(bs, stmts)),
    decreases stmts.len(),
{
    if stmts.len() > 0 {
        lemma_statements_bound_once(bs, stmts.drop_last());
        let front = after_statements(bs, stmts.drop_last());
        if let Some(b) = statement_binding(stmts.last()) {
            lemma_name_pos(front, b.name);
        }
    }
}

proof fn lemma_declarations_bound_once(ls: Seq<Seq<char>>)
    ensures
        bound_once(declarations(ls)),
    decreases ls.len(),
{
    if ls.len() > 0 {
        lemma_declarations_bound_once(ls.drop_last());
        lemma_statements_bound_once(declarations(ls.drop_last()), statements(ls.last()));
    }
}

proof fn lemma_functions_bound_once(bs: Seq<BindingView>, ls: Seq<Seq<char>>, k: nat)
    requires
        bound_once(bs),
    ensures
        bound_once(after_functions(bs, ls, k)),
    decreases k,
{
    if k > 0 {
        lemma_functions_bound_once(bs, ls, (k - 1) as nat);
        let front = after_functions(bs, ls, (k - 1) as nat);
        if let Some((name, ty)) = function_type(ls, k - 1) {
            lemma_name_pos(front, name);
        }
    }
}

/// Inference gives one binding per name.
pub proof fn law_one_binding_per_name(source: Seq<char>)
    ensures
        bound_once(inferred(source)),
{
    lemma_declarations_bound_once(lines(source));
    lemma_functions_bound_once(declarations(lines(source)), lines(source), lines(source).len());
}

/// The declarations of a list of bindings, one line each.
pub open spec fn declaration_lines(bs: Seq<BindingView>) -> Seq<char>
    decreases bs.len(),
{
    if bs.len() == 0 {
        Seq::empty()
    } else {
        declaration_lines(bs.drop_last()) + ("    pub type "@ + bs.last().name + "_t = "@
            + rust_name(bs.last().ty) + ";\n"@)
    }
}

/// A module of type aliases, one per binding.
pub open spec fn declaration_module(bs: Seq<BindingView>) -> Seq<char> {
    "// Inferred types (custom JS → Rust inference)\npub mod inferred {\n"@ + declaration_lines(bs)
        + "}\n"@
}

/// Emit inferred bindings as Rust type aliases inside an `inferred` module.
pub fn generate_rust_type_decls(bindings: &Vec<TypeBinding>) -> (s: String)
    ensures
        s@ == declaration_module(bindings.deep_view()),
{
    let ghost all = bindings.deep_view();
    let ghost head = "// Inferred types (custom JS → Rust inference)\npub mod inferred {\n"@;
    let mut s = String::from_str(
        "// Inferred types (custom JS → Rust inference)\npub mod inferred {\n",
    );
    let mut i: usize = 0;
    assert(all.take(0) =~= Seq::<BindingView>::empty());
    assert(s@ =~= head + declaration_lines(all.take(0)));
    while i < bindings.len()
        invariant
            0 <= i <= bindings@.len(),
            all == bindings.deep_view(),
            s@ == head + declaration_lines(all.take(i as int)),
        decreases bindings@.len() - i,
    {
        assert(all.take(i + 1).drop_last() =~= all.take(i as int));
        assert(all.take(i + 1).last() == bindings@[i as int].deep_view());
        s.append("    pub type ");
        s.append(&bindings[i].name);
        s.append("_t = ");
        s.append(bindings[i].ty.to_rust());
        s.append(";\n");
        assert(s@ =~= head + declaration_lines(all.take(i + 1)));
        i = i + 1;
    }
    assert(all.take(all.len() as int) =~= all);
    s.append("}\n");
    s
}

/// The position of the last `c`.
pub open spec fn last_pos(s: Seq<char>, c: char) -> Option<int>
    decreases s.len(),
{
    if s.len() == 0 {
        None
    } else if s.last() == c {
        Some(s.len() - 1)
    } else {
        last_pos(s.drop_last(), c)
    }
}

/// Text without a word repeated at its end.
pub open spec fn without_suffix(s: Seq<char>, w: Seq<char>) -> Seq<char>
    decreases s.len(),
{
    if w.len() > 0 && occurs(s, w, s.len() - w.len()) {
        without_suffix(s.take(s.len() - w.len()), w)
    } else {
        s
    }
}

/// The last word of a text: the run of dark characters before trailing white space.
pub open spec fn last_word(s: Seq<char>) -> Seq<char>
    decreases s.len(),
{
    if s.len() == 0 {
        s
    } else if white_space(s.last()) {
        last_word(s.drop_last())
    } else {
        dark_end(s)
    }
}

/// The run of dark characters that a text ends with.
pub open spec fn dark_end(s: Seq<char>) -> Seq<char>
    decreases s.len(),
{
    if s.len() == 0 || white_space(s.last()) {
        Seq::empty()
    } else {
        dark_end(s.drop_last()).push(s.last())
    }
}

/// Text without the question marks at its end.
pub open spec fn without_marks(s: Seq<char>) -> Seq<char>
    decreases s.len(),
{
    if s.len() > 0 && s.last() == '?' {
        without_marks(s.drop_last())
    } else {
        s
    }
}

/// The binding that a line of a declaration file declares: the last word before its last colon, and
/// the type after it.
pub open spec fn declaration_binding(line: Seq<char>) -> Option<BindingView> {
    let code = trim(before(line, "//"@));
    match last_pos(code, ':') {
        Some(i) => {
            let name = without_marks(
                last_word(without_suffix(without_suffix(code.take(i), "export"@), "declare"@)),
            );
            let ann = trim(code.skip(i + 1));
            if name.len() > 0 && ann.len() > 0 {
                Some(BindingView { name, ty: annotation_ty(ann), kind: BindingKind::Let })
            } else {
                None
            }
        },
        None => None,
    }
}

/// The bindings that the lines of a declaration file declare.
pub open spec fn declaration_bindings(ls: Seq<Seq<char>>) -> Seq<BindingView>
    decreases ls.len(),
{
    if ls.len() == 0 {
        Seq::empty()
    } else {
        with_new(declaration_bindings(ls.drop_last()), declaration_binding(ls.last()))
    }
}

fn find_last(v: &Vec<char>, c: char) -> (r: Option<usize>)
    ensures
        match r {
            Some(i) => last_pos(v@, c) == Some(i as int) && i < v@.len(),
            None => last_pos(v@, c) is None,
        },
{
    let mut n: usize = v.len();
    assert(v@.take(v@.len() as int) =~= v@);
    while n > 0
        invariant
            0 <= n <= v@.len(),
            last_pos(v@, c) == last_pos(v@.take(n as int), c),
        decreases n,
    {
        assert(v@.take(n as int).drop_last() =~= v@.take(n - 1));
        if v[n - 1] == c {
            return Some(n - 1);
        }
        n = n - 1;
    }
    None
}

fn trim_suffix(v: &Vec<char>, w: &str) -> (r: Vec<char>)
    ensures
        r@ == without_suffix(v@, w@),
{
    let p = chars_of(w);
    let mut n: usize = v.len();
    let whole = part(v, 0, n);
    assert(whole@ =~= v@);
    let mut cur = whole;
    while p.len() > 0 && p.len() <= cur.len() && crate::strings::stands_at(
        &cur,
        &p,
        cur.len() - p.len(),
    )
        invariant
            p@ == w@,
            without_suffix(v@, w@) == without_suffix(cur@, w@),
        decreases cur@.len(),
    {
        n = cur.len() - p.len();
        let next = part(&cur, 0, n);
        assert(next@ =~= cur@.take(n as int));
        cur = next;
    }
    cur
}

fn word_at_end(v: &Vec<char>) -> (r: Vec<char>)
    ensures
        r@ == last_word(v@),
{
    let mut n: usize = v.len();
    assert(v@.take(v@.len() as int) =~= v@);
    while n > 0 && is_white_space(v[n - 1])
        invariant
            0 <= n <= v@.len(),
            last_word(v@) == last_word(v@.take(n as int)),
        decreases n,
    {
        assert(v@.take(n as int).drop_last() =~= v@.take(n - 1));
        n = n - 1;
    }
    let mut m: usize = n;
    let ghost t = v@.take(n as int);
    assert(dark_end(t) =~= dark_end(t.take(n as int)) + t.skip(n as int)) by {
        assert(t.take(n as int) =~= t);
    }
    while m > 0 && !is_white_space(v[m - 1])
        invariant
            0 <= m <= n <= v@.len(),
            t == v@.take(n as int),
            dark_end(t) == dark_end(t.take(m as int)) + t.skip(m as int),
        decreases m,
    {
        assert(t.take(m as int).drop_last() =~= t.take(m - 1));
        assert(t.take(m as int).last() == t[m - 1]);
        assert(dark_end(t.take(m - 1)).push(t[m - 1]) + t.skip(m as int) =~= dark_end(t.take(m - 1))
            + t.skip(m - 1));
        m = m - 1;
    }
    proof {
        if m > 0 {
            assert(t.take(m as int).last() == v@[m - 1]);
        }
        assert(dark_end(t.take(m as int)) =~= Seq::<char>::empty());
        assert(dark_end(t) =~= t.skip(m as int));
        assert(v@.subrange(m as int, n as int) =~= t.skip(m as int));
        assert(n == 0 ==> last_word(t) =~= t.skip(m as int));
    }
    part(v, m, n)
}

fn trim_marks(v: &Vec<char>) -> (r: Vec<char>)
    ensures
        r@ == without_marks(v@),
{
    let mut n: usize = v.len();
    assert(v@.take(v@.len() as int) =~= v@);
    while n > 0 && v[n - 1] == '?'
        invariant
            0 <= n <= v@.len(),
            without_marks(v@) == without_marks(v@.take(n as int)),
        decreases n,
    {
        assert(v@.take(n as int).drop_last() =~= v@.take(n - 1));
        n = n - 1;
    }
    let r = part(v, 0, n);
    assert(v@.subrange(0, n as int) =~= v@.take(n as int));
    r
}

fn read_declaration(line: &Vec<char>) -> (r: Option<TypeBinding>)
    ensures
        r.deep_view() == declaration_binding(line@),
{
    let code = trimmed(&cut_before(line, "//"));
    let n = code.len();
    match find_last(&code, ':') {
        Some(i) => {
            let head = part(&code, 0, i);
            assert(head@ =~= code@.take(i as int));
            let name = trim_marks(
                &word_at_end(&trim_suffix(&trim_suffix(&head, "export"), "declare")),
            );
            let ann = trimmed(&tail(&code, i + 1));
            if name.len() > 0 && ann.len() > 0 {
                Some(
                    TypeBinding {
                        name: string_of(&name),
                        ty: ts_annotation_type(&ann),
                        kind: BindingKind::Let,
                    },
                )
            } else {
                None
            }
        },
        None => None,
    }
}

/// Reads the bindings off a declaration file that a compiler emitted.
pub fn read_declarations(decls: &str) -> (bs: Vec<TypeBinding>)
    ensures
        bs.deep_view() == declaration_bindings(lines(decls@)),
{
    let v = chars_of(decls);
    let ls = split_lines(&v);
    let ghost all = texts(ls@);
    let mut bs: Vec<TypeBinding> = Vec::new();
    let mut i: usize = 0;
    assert(all.take(0) =~= Seq::<Seq<char>>::empty());
    assert(bs.deep_view() =~= declaration_bindings(all.take(0)));
    while i < ls.len()
        invariant
            0 <= i <= ls@.len(),
            all == texts(ls@),
            bs.deep_view() == declaration_bindings(all.take(i as int)),
        decreases ls@.len() - i,
    {
        assert(all.take(i + 1).drop_last() =~= all.take(i as int));
        assert(all.take(i + 1).last() == ls@[i as int]@);
        add_new(&mut bs, read_declaration(&ls[i]));
        i = i + 1;
    }
    assert(all.take(all.len() as int) =~= all);
    bs
}

} // verus!
