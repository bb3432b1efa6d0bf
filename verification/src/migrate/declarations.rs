//! Where the declarations of a script stand, and the text that belongs to each.
//!
//! A declaration reads from its keyword to the bracket or semicolon that ends it, past quoted text,
//! templates and comments. A slash that opens no comment may be a division or the start of a
//! pattern; where the text cannot be told apart, the end is left open.
use crate::strings::{
    chars_of, find_from, is_white_space, lemma_find_from, occurs, part, run_end, scan_run, search,
    stands_at, str_eq, string_of, white_space, Class,
};
use vstd::prelude::*;
use vstd::string::*;

verus! {

/// Whether two characters stand at a position.
pub open spec fn pair_at(s: Seq<char>, i: int, a: char, b: char) -> bool {
    0 <= i && i + 1 < s.len() && s[i] == a && s[i + 1] == b
}

/// Where the line ends that a position stands in.
pub open spec fn line_end(s: Seq<char>, i: int) -> int
    decreases s.len() - i,
{
    if i < 0 || i >= s.len() || s[i] == '\n' {
        i
    } else {
        line_end(s, i + 1)
    }
}

/// Where the comment ends that opens at a position, if one does.
pub open spec fn comment_end(s: Seq<char>, i: int) -> Option<int> {
    if pair_at(s, i, '/', '/') {
        Some(line_end(s, i))
    } else if pair_at(s, i, '/', '*') {
        match find_from(s, "*/"@, i + 2) {
            Some(j) => Some(j + 2),
            None => Some(s.len() as int),
        }
    } else {
        None
    }
}

/// Where quoted text ends that reads on from a position, if it ends on its line.
pub open spec fn quote_end(s: Seq<char>, i: int, q: char) -> Option<int>
    decreases s.len() - i,
{
    if i < 0 || i >= s.len() || s[i] == '\n' {
        None
    } else if s[i] == q {
        Some(i + 1)
    } else if s[i] == '\\' {
        if i + 1 < s.len() {
            quote_end(s, i + 2, q)
        } else {
            None
        }
    } else {
        quote_end(s, i + 1, q)
    }
}

/// The first position from one on that is neither white space nor in a comment.
pub open spec fn gap_end(s: Seq<char>, i: int) -> int
    decreases s.len() - i,
{
    if i < 0 || i >= s.len() {
        i
    } else if white_space(s[i]) {
        gap_end(s, i + 1)
    } else {
        match comment_end(s, i) {
            Some(j) => if i < j <= s.len() {
                gap_end(s, j)
            } else {
                i
            },
            None => i,
        }
    }
}

/// Words that carry a declaration on behind a closing brace.
pub open spec fn carries_on(word: Seq<char>) -> bool {
    ||| word == "as"@
    ||| word == "satisfies"@
    ||| word == "in"@
    ||| word == "instanceof"@
    ||| word == "is"@
    ||| word == "extends"@
    ||| word == "implements"@
}

/// Whether a declaration that is closed by a brace before a position is over there: the source
/// ends, the block around it does, or another statement begins.
pub open spec fn over_at(s: Seq<char>, i: int) -> bool {
    let j = gap_end(s, i);
    if j < 0 || j >= s.len() {
        true
    } else if s[j] == '}' || s[j] == ';' || s[j] == '$' || s[j] == '@' {
        true
    } else {
        let e = run_end(s, j, Class::Ident);
        e > j && !carries_on(s.subrange(j, e))
    }
}

/// Where a declaration ends that reads on from a position within open brackets; nothing where that
/// cannot be told. The brackets are `(`, `[` and `{`, a back quote for a template, and a dollar sign
/// for an expression in one. It ends with the brace that closes its last bracket, where the
/// declaration is over behind it or `near` is asked for, or with a semicolon outside of brackets.
pub open spec fn end_from(s: Seq<char>, i: int, open: Seq<char>, near: bool) -> Option<int>
    decreases s.len() - i,
{
    if i < 0 || i >= s.len() {
        if open.len() == 0 {
            Some(s.len() as int)
        } else {
            None
        }
    } else {
        let c = s[i];
        if open.len() > 0 && open.last() == '`' {
            if c == '\\' && i + 1 < s.len() {
                end_from(s, i + 2, open, near)
            } else if c == '`' {
                end_from(s, i + 1, open.drop_last(), near)
            } else if pair_at(s, i, '$', '{') {
                end_from(s, i + 2, open.push('$'), near)
            } else {
                end_from(s, i + 1, open, near)
            }
        } else if c == '/' {
            match comment_end(s, i) {
                Some(j) => if i < j <= s.len() {
                    end_from(s, j, open, near)
                } else {
                    None
                },
                None => None,
            }
        } else if c == '"' || c == '\'' {
            match quote_end(s, i + 1, c) {
                Some(j) => if i < j <= s.len() {
                    end_from(s, j, open, near)
                } else {
                    None
                },
                None => None,
            }
        } else if c == '(' || c == '[' || c == '{' || c == '`' {
            end_from(s, i + 1, open.push(c), near)
        } else if c == ')' || c == ']' {
            if open.len() == 0 {
                end_from(s, i + 1, open, near)
            } else if open.last() == (if c == ')' {
                '('
            } else {
                '['
            }) {
                end_from(s, i + 1, open.drop_last(), near)
            } else {
                None
            }
        } else if c == '}' {
            if open.len() == 0 {
                Some(i)
            } else if open.last() == '$' {
                end_from(s, i + 1, open.drop_last(), near)
            } else if open.last() != '{' {
                None
            } else if open.len() == 1 && (near || over_at(s, i + 1)) {
                Some(i + 1)
            } else {
                end_from(s, i + 1, open.drop_last(), near)
            }
        } else if c == ';' && open.len() == 0 {
            Some(i + 1)
        } else {
            end_from(s, i + 1, open, near)
        }
    }
}

/// Where a declaration that starts at a position ends: at the end of the source where that cannot
/// be told.
pub open spec fn declaration_end(s: Seq<char>, i: int) -> int {
    match end_from(s, i, Seq::empty(), false) {
        Some(e) => if i < e <= s.len() {
            e
        } else {
            s.len() as int
        },
        None => s.len() as int,
    }
}

/// Whether a word stands at a position, with white space and a name behind it.
pub open spec fn names_at(s: Seq<char>, word: Seq<char>, f: Seq<char>, i: int) -> bool {
    let w = i + word.len();
    let n = run_white(s, w);
    &&& occurs(s, word, i)
    &&& i == 0 || !Class::Ident.holds(s[i - 1])
    &&& w < n
    &&& occurs(s, f, n)
    &&& n + f.len() >= s.len() || !Class::Ident.holds(s[n + f.len()])
}

/// The end of the white space from a position on.
pub open spec fn run_white(s: Seq<char>, i: int) -> int {
    run_end(s, i, Class::White)
}

/// Whether the default export is written out at a position: as a function or a class.
pub open spec fn default_at(s: Seq<char>, i: int) -> bool {
    ||| names_at(s, "export default"@, "function"@, i)
    ||| names_at(s, "export default"@, "class"@, i)
    ||| names_at(s, "export default"@, "async"@, i)
}

/// Whether a name is declared at a position: as a function, a constant, a variable or a class, or
/// as the default export, whose name is `default`.
pub open spec fn declares_at(s: Seq<char>, f: Seq<char>, i: int) -> bool {
    ||| names_at(s, "function"@, f, i)
    ||| names_at(s, "const"@, f, i)
    ||| names_at(s, "let"@, f, i)
    ||| names_at(s, "var"@, f, i)
    ||| names_at(s, "class"@, f, i)
    ||| (f == "default"@ && default_at(s, i))
}

/// Whether a declaration of a name is found in a source.
pub open spec fn is_declared(s: Seq<char>, f: Seq<char>) -> bool {
    exists|i: int| 0 <= i < s.len() && #[trigger] declares_at(s, f, i)
}

/// Whether a position stands in a declaration of a name.
pub open spec fn owns(s: Seq<char>, f: Seq<char>, p: int) -> bool {
    exists|i: int|
        0 <= i <= p && #[trigger] declares_at(s, f, i) && p < declaration_end(s, i)
}

/// The text of a name's own declarations: the source with everything else blank. Of a name whose
/// declaration is not found, anything in the source may be its own.
pub open spec fn own_text(source: Seq<char>, f: Seq<char>) -> Seq<char> {
    if is_declared(source, f) {
        Seq::new(
            source.len(),
            |p: int|
                if owns(source, f, p) {
                    source[p]
                } else {
                    ' '
                },
        )
    } else {
        source
    }
}

/// Whether nothing but white space stands before a position on its line.
pub open spec fn line_start(s: Seq<char>, i: int) -> bool
    decreases i,
{
    i <= 0 || s[i - 1] == '\n' || (white_space(s[i - 1]) && line_start(s, i - 1))
}

/// Whether a position stands in a function of a name that is written as a statement of its own.
pub open spec fn in_function(s: Seq<char>, f: Seq<char>, p: int) -> bool {
    exists|i: int|
        {
            &&& 0 <= i <= p
            &&& #[trigger] names_at(s, "function"@, f, i)
            &&& line_start(s, i)
            &&& end_from(s, i, Seq::empty(), true) matches Some(e) && p < e
        }
}

/// Whether a position stands in a function of one of the names.
pub open spec fn in_functions(s: Seq<char>, fs: Seq<Seq<char>>, p: int) -> bool {
    exists|k: int| 0 <= k < fs.len() && in_function(s, #[trigger] fs[k], p)
}

/// The text outside of functions: the source with the functions of these names blank.
pub open spec fn loose_text(source: Seq<char>, fs: Seq<Seq<char>>) -> Seq<char> {
    Seq::new(
        source.len(),
        |p: int|
            if in_functions(source, fs, p) {
                ' '
            } else {
                source[p]
            },
    )
}

fn is_pair_at(v: &[char], i: usize, a: char, b: char) -> (r: bool)
    requires
        i < v@.len(),
    ensures
        r == pair_at(v@, i as int, a, b),
{
    i < v.len() - 1 && v[i] == a && v[i + 1] == b
}

fn find_comment_end(v: &[char], i: usize) -> (r: Option<usize>)
    requires
        i < v@.len(),
    ensures
        match (r, comment_end(v@, i as int)) {
            (Some(j), Some(k)) => j == k && i < j <= v@.len(),
            (None, None) => true,
            _ => false,
        },
{
    let n = v.len();
    if is_pair_at(v, i, '/', '/') {
        let mut j: usize = i + 1;
        assert(line_end(v@, i as int) == line_end(v@, i + 1));
        while j < n && v[j] != '\n'
            invariant
                i < j <= n,
                n == v@.len(),
                line_end(v@, i as int) == line_end(v@, j as int),
            decreases n - j,
        {
            j = j + 1;
        }
        Some(j)
    } else if is_pair_at(v, i, '/', '*') {
        proof {
            reveal_strlit("*/");
            lemma_find_from(v@, "*/"@, i + 2);
        }
        match search(v, &chars_of("*/"), i + 2) {
            Some(j) => Some(j + 2),
            None => Some(n),
        }
    } else {
        None
    }
}

/// Finds where quoted text ends that reads on from a position.
pub fn find_quote_end(v: &[char], from: usize, q: char) -> (r: Option<usize>)
    requires
        from <= v@.len(),
    ensures
        match (r, quote_end(v@, from as int, q)) {
            (Some(j), Some(k)) => j == k && from < j <= v@.len(),
            (None, None) => true,
            _ => false,
        },
{
    let n = v.len();
    let mut i: usize = from;
    while i < n && v[i] != '\n'
        invariant
            from <= i <= n,
            n == v@.len(),
            quote_end(v@, from as int, q) == quote_end(v@, i as int, q),
        decreases n - i,
    {
        if v[i] == q {
            return Some(i + 1);
        }
        if v[i] == '\\' {
            if i >= n - 1 {
                return None;
            }
            i = i + 2;
        } else {
            i = i + 1;
        }
    }
    None
}

fn find_gap_end(v: &[char], from: usize) -> (i: usize)
    requires
        from <= v@.len(),
    ensures
        i == gap_end(v@, from as int),
        from <= i <= v@.len(),
{
    let n = v.len();
    let mut i: usize = from;
    while i < n
        invariant
            from <= i <= n,
            n == v@.len(),
            gap_end(v@, from as int) == gap_end(v@, i as int),
        decreases n - i,
    {
        if is_white_space(v[i]) {
            i = i + 1;
        } else {
            match find_comment_end(v, i) {
                Some(j) => {
                    i = j;
                },
                None => {
                    return i;
                },
            }
        }
    }
    i
}

fn is_over_at(v: &[char], i: usize) -> (b: bool)
    requires
        i <= v@.len(),
    ensures
        b == over_at(v@, i as int),
{
    let j = find_gap_end(v, i);
    if j >= v.len() {
        return true;
    }
    let c = v[j];
    if c == '}' || c == ';' || c == '$' || c == '@' {
        return true;
    }
    let e = scan_run(v, j, Class::Ident);
    if e <= j {
        return false;
    }
    let word = part(v, j, e);
    let w = string_of(&word);
    !(str_eq(&w, "as") || str_eq(&w, "satisfies")
        || str_eq(&w, "in") || str_eq(&w, "instanceof")
        || str_eq(&w, "is") || str_eq(&w, "extends")
        || str_eq(&w, "implements"))
}

/// Finds where a declaration ends.
pub fn find_end(v: &[char], start: usize, near: bool) -> (r: Option<usize>)
    requires
        start <= v@.len(),
    ensures
        match (r, end_from(v@, start as int, Seq::empty(), near)) {
            (Some(j), Some(k)) => j == k && start <= j <= v@.len(),
            (None, None) => true,
            _ => false,
        },
{
    let n = v.len();
    let mut open: Vec<char> = Vec::new();
    let mut i: usize = start;
    assert(open@ =~= Seq::<char>::empty());
    while i < n
        invariant
            start <= i <= n,
            n == v@.len(),
            end_from(v@, start as int, Seq::empty(), near) == end_from(
                v@,
                i as int,
                open@,
                near,
            ),
        decreases n - i,
    {
        let c = v[i];
        let depth = open.len();
        let ghost was = open@;
        if depth > 0 && open[depth - 1] == '`' {
            if c == '\\' && i < n - 1 {
                i = i + 2;
            } else if c == '`' {
                open.pop();
                assert(open@ =~= was.drop_last());
                i = i + 1;
            } else if is_pair_at(v, i, '$', '{') {
                open.push('$');
                i = i + 2;
            } else {
                i = i + 1;
            }
        } else if c == '/' {
            match find_comment_end(v, i) {
                Some(j) => {
                    i = j;
                },
                None => {
                    return None;
                },
            }
        } else if c == '"' || c == '\'' {
            match find_quote_end(v, i + 1, c) {
                Some(j) => {
                    i = j;
                },
                None => {
                    return None;
                },
            }
        } else if c == '(' || c == '[' || c == '{' || c == '`' {
            open.push(c);
            i = i + 1;
        } else if c == ')' || c == ']' {
            if depth > 0 {
                let fits = if c == ')' {
                    open[depth - 1] == '('
                } else {
                    open[depth - 1] == '['
                };
                if !fits {
                    return None;
                }
                open.pop();
                assert(open@ =~= was.drop_last());
            }
            i = i + 1;
        } else if c == '}' {
            if depth == 0 {
                return Some(i);
            }
            let top = open[depth - 1];
            if top != '$' && top != '{' {
                return None;
            }
            if top == '{' && depth == 1 && (near || is_over_at(v, i + 1)) {
                return Some(i + 1);
            }
            open.pop();
            assert(open@ =~= was.drop_last());
            i = i + 1;
        } else if c == ';' && depth == 0 {
            return Some(i + 1);
        } else {
            i = i + 1;
        }
    }
    if open.len() == 0 {
        Some(n)
    } else {
        None
    }
}

fn is_named_at(v: &[char], word: &[char], f: &[char], i: usize) -> (b: bool)
    requires
        i <= v@.len(),
    ensures
        b == names_at(v@, word@, f@, i as int),
{
    if !stands_at(v, word, i) {
        return false;
    }
    if i > 0 && Class::Ident.has(v[i - 1]) {
        return false;
    }
    let w = i + word.len();
    let n = scan_run(v, w, Class::White);
    if w >= n || !stands_at(v, f, n) {
        return false;
    }
    let e = n + f.len();
    e >= v.len() || !Class::Ident.has(v[e])
}

/// Whether a keyword of a declaration may stand at a position, by its first letter.
fn may_declare(v: &[char], i: usize) -> (b: bool)
    requires
        i <= v@.len(),
    ensures
        !b ==> forall|f: Seq<char>| !#[trigger] declares_at(v@, f, i as int),
{
    proof {
        reveal_strlit("function");
        reveal_strlit("const");
        reveal_strlit("let");
        reveal_strlit("var");
        reveal_strlit("class");
        reveal_strlit("export default");
        assert forall|word: Seq<char>, f: Seq<char>| #[trigger] names_at(v@, word, f, i as int)
            && word.len() > 0 implies i < v@.len() && v@[i as int] == word[0] && (i == 0
            || !Class::Ident.holds(v@[i - 1])) by {
            assert(v@.subrange(i as int, i + word.len())[0] == word[0]);
        }
    }
    if i >= v.len() || (i > 0 && Class::Ident.has(v[i - 1])) {
        return false;
    }
    let c = v[i];
    c == 'f' || c == 'c' || c == 'l' || c == 'v' || c == 'e'
}

/// Whether a name is declared at a position.
pub fn is_declared_at(v: &[char], f: &str, i: usize) -> (b: bool)
    requires
        i <= v@.len(),
    ensures
        b == declares_at(v@, f@, i as int),
{
    if !may_declare(v, i) {
        return false;
    }
    let name = chars_of(f);
    is_named_at(v, &chars_of("function"), &name, i) || is_named_at(v, &chars_of("const"), &name, i)
        || is_named_at(v, &chars_of("let"), &name, i) || is_named_at(v, &chars_of("var"), &name, i)
        || is_named_at(v, &chars_of("class"), &name, i) || (str_eq(f, "default")
        && is_default_at(v, i))
}

fn is_default_at(v: &[char], i: usize) -> (b: bool)
    requires
        i <= v@.len(),
    ensures
        b == default_at(v@, i as int),
{
    let word = chars_of("export default");
    is_named_at(v, &word, &chars_of("function"), i) || is_named_at(v, &word, &chars_of("class"), i)
        || is_named_at(v, &word, &chars_of("async"), i)
}

/// Reads the text of a name's own declarations.
pub fn declared_text(source: &[char], f: &str) -> (r: Vec<char>)
    ensures
        r@ == own_text(source@, f@),
{
    let n = source.len();
    let mut r: Vec<char> = Vec::new();
    let mut found = false;
    // How far the declarations read so far reach.
    let mut reach: usize = 0;
    let mut i: usize = 0;
    while i < n
        invariant
            0 <= i <= n,
            n == source@.len(),
            reach <= n,
            r@.len() == i,
            found == exists|k: int| 0 <= k < i && #[trigger] declares_at(source@, f@, k),
            forall|k: int|
                0 <= k < i && #[trigger] declares_at(source@, f@, k) ==> declaration_end(
                    source@,
                    k,
                ) <= reach,
            reach > 0 ==> exists|k: int|
                0 <= k < i && #[trigger] declares_at(source@, f@, k) && declaration_end(source@, k)
                    == reach,
            forall|p: int|
                0 <= p < i ==> r@[p] == (if owns(source@, f@, p) {
                    source@[p]
                } else {
                    ' '
                }),
        decreases n - i,
    {
        if is_declared_at(source, f, i) {
            found = true;
            let end = match find_end(source, i, false) {
                Some(e) => if i < e {
                    e
                } else {
                    n
                },
                None => n,
            };
            assert(end == declaration_end(source@, i as int));
            if end > reach {
                reach = end;
            }
        }
        assert(owns(source@, f@, i as int) <==> i < reach) by {
            if i < reach {
                let k = choose|k: int|
                    0 <= k < i + 1 && #[trigger] declares_at(source@, f@, k) && declaration_end(
                        source@,
                        k,
                    ) == reach;
                assert(declares_at(source@, f@, k));
            }
        }
        if i < reach {
            r.push(source[i]);
        } else {
            r.push(' ');
        }
        i = i + 1;
    }
    if found {
        assert(r@ =~= own_text(source@, f@));
        r
    } else {
        let whole = part(source, 0, n);
        assert(whole@ =~= source@);
        whole
    }
}

fn is_line_start(v: &[char], at: usize) -> (b: bool)
    requires
        at <= v@.len(),
    ensures
        b == line_start(v@, at as int),
{
    let mut i: usize = at;
    while i > 0
        invariant
            0 <= i <= at <= v@.len(),
            line_start(v@, at as int) == line_start(v@, i as int),
        decreases i,
    {
        if v[i - 1] == '\n' {
            return true;
        }
        if !is_white_space(v[i - 1]) {
            return false;
        }
        i = i - 1;
    }
    true
}

/// Blanks the functions of a name.
fn blank_function(source: &[char], f: &str, out: &mut Vec<char>)
    requires
        old(out)@.len() == source@.len(),
    ensures
        final(out)@.len() == source@.len(),
        forall|p: int|
            0 <= p < source@.len() ==> (#[trigger] final(out)@[p]) == (if in_function(
                source@,
                f@,
                p,
            ) {
                ' '
            } else {
                old(out)@[p]
            }),
{
    let n = source.len();
    let name = chars_of(f);
    let word = chars_of("function");
    let ghost before = out@;
    let mut reach: usize = 0;
    let mut i: usize = 0;
    while i < n
        invariant
            0 <= i <= n,
            n == source@.len(),
            out@.len() == n,
            before.len() == n,
            name@ == f@,
            word@ == "function"@,
            reach <= n,
            forall|k: int|
                0 <= k < i && #[trigger] names_at(source@, "function"@, f@, k) && line_start(
                    source@,
                    k,
                ) ==> (end_from(source@, k, Seq::empty(), true) matches Some(e) ==> e <= reach),
            reach > 0 ==> exists|k: int|
                0 <= k < i && #[trigger] names_at(source@, "function"@, f@, k) && line_start(
                    source@,
                    k,
                ) && end_from(source@, k, Seq::empty(), true) == Some(reach as int),
            forall|p: int|
                0 <= p < i ==> (#[trigger] out@[p]) == (if in_function(source@, f@, p) {
                    ' '
                } else {
                    before[p]
                }),
            forall|p: int| i <= p < n ==> (#[trigger] out@[p]) == before[p],
        decreases n - i,
    {
        if is_named_at(source, &word, &name, i) && is_line_start(source, i) {
            if let Some(end) = find_end(source, i, true) {
                if end > reach {
                    reach = end;
                    assert(names_at(source@, "function"@, f@, i as int));
                }
            }
        }
        assert(in_function(source@, f@, i as int) <==> i < reach) by {
            if i < reach {
                let k = choose|k: int|
                    0 <= k < i + 1 && #[trigger] names_at(source@, "function"@, f@, k)
                        && line_start(source@, k) && end_from(source@, k, Seq::empty(), true)
                        == Some(reach as int);
                assert(names_at(source@, "function"@, f@, k));
            }
        }
        if i < reach {
            out.set(i, ' ');
        }
        i = i + 1;
    }
}

/// Reads the text outside of functions.
pub fn text_outside(source: &[char], fs: &Vec<String>) -> (r: Vec<char>)
    ensures
        r@ == loose_text(source@, fs.deep_view()),
{
    let n = source.len();
    let ghost fv = fs.deep_view();
    let mut out = part(source, 0, n);
    assert(out@ =~= source@);
    let mut j: usize = 0;
    while j < fs.len()
        invariant
            0 <= j <= fs@.len(),
            fv == fs.deep_view(),
            n == source@.len(),
            out@.len() == n,
            forall|p: int|
                0 <= p < n ==> (#[trigger] out@[p]) == (if in_functions(
                    source@,
                    fv.take(j as int),
                    p,
                ) {
                    ' '
                } else {
                    source@[p]
                }),
        decreases fs@.len() - j,
    {
        let ghost was = out@;
        blank_function(source, &fs[j], &mut out);
        proof {
            let less = fv.take(j as int);
            let more = fv.take(j + 1);
            assert(more[j as int] == fs@[j as int]@);
            assert forall|p: int| 0 <= p < n implies (#[trigger] out@[p]) == (if in_functions(
                source@,
                more,
                p,
            ) {
                ' '
            } else {
                source@[p]
            }) by {
                if in_functions(source@, less, p) {
                    let k = choose|k: int|
                        0 <= k < less.len() && in_function(source@, #[trigger] less[k], p);
                    assert(more[k] == less[k]);
                    assert(in_function(source@, more[k], p));
                    assert(was[p] == ' ');
                }
                if in_functions(source@, more, p) {
                    let k = choose|k: int|
                        0 <= k < more.len() && in_function(source@, #[trigger] more[k], p);
                    if k < j {
                        assert(less[k] == more[k]);
                        assert(in_function(source@, less[k], p));
                    }
                } else {
                    assert(!in_function(source@, more[j as int], p));
                    assert(was[p] == source@[p]);
                }
            }
        }
        j = j + 1;
    }
    assert(fv.take(fv.len() as int) =~= fv);
    assert(out@ =~= loose_text(source@, fv));
    out
}

} // verus!
