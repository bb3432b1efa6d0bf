//! How deeply CSS text nests.
//!
//! The style sheet parser descends once for each bracket it is inside of, and a math function
//! descends once for each function it adds up. Text is shallow where both stay within bounds that
//! leave the parser room on the stack.
use crate::strings::{ascii_letter, chars_of, is_ascii_letter, is_digit};
use vstd::prelude::*;

verus! {

/// How many brackets may be open at once.
pub const MAX_NESTING: usize = 12;

/// How many round and square brackets may open side by side with no comma between them.
pub const MAX_TERMS: usize = 64;

/// What a position of CSS text is inside of.
#[derive(Debug, Clone, Copy, PartialEq, Eq, Structural)]
pub enum Inside {
    Code,
    Comment,
    Quotes(char),
}

/// White space of CSS.
pub open spec fn css_white(c: char) -> bool {
    c == ' ' || c == '\t' || newline(c)
}

/// Line ends of CSS.
pub open spec fn newline(c: char) -> bool {
    c == '\n' || c == '\r' || c == '\x0C'
}

/// What a name in CSS is made of, but for escapes.
pub open spec fn name_char(c: char) -> bool {
    ascii_letter(c) || is_digit(c) || c == '-' || c == '_' || c as u32 >= 0x80
}

/// The bracket that a closing bracket closes.
pub open spec fn partner(c: char) -> Option<char> {
    if c == ')' {
        Some('(')
    } else if c == ']' {
        Some('[')
    } else if c == '}' {
        Some('{')
    } else {
        None
    }
}

/// The position after the next character.
pub open spec fn skip_one(s: Seq<char>, i: int) -> int {
    if i + 1 < s.len() {
        i + 2
    } else {
        s.len() as int
    }
}

/// Whether two characters stand at a position.
pub open spec fn two_at(s: Seq<char>, i: int, a: char, b: char) -> bool {
    s[i] == a && i + 1 < s.len() && s[i + 1] == b
}

/// Whether a name that ends in `url` stands before a position.
pub open spec fn after_url(s: Seq<char>, i: int) -> bool {
    &&& i >= 3
    &&& s[i - 3] == 'u' || s[i - 3] == 'U'
    &&& s[i - 2] == 'r' || s[i - 2] == 'R'
    &&& s[i - 1] == 'l' || s[i - 1] == 'L'
}

/// Whether the next character that is not white space is a quote.
pub open spec fn quoted_next(s: Seq<char>, i: int) -> bool
    decreases s.len() - i,
{
    if i >= s.len() {
        false
    } else if css_white(s[i]) {
        quoted_next(s, i + 1)
    } else {
        s[i] == '"' || s[i] == '\''
    }
}

/// Whether the text up to the next closing bracket reads the same as an address and as code.
pub open spec fn plain_address(s: Seq<char>, i: int) -> bool
    decreases s.len() - i,
{
    if i >= s.len() || s[i] == ')' {
        true
    } else if s[i] == '"' || s[i] == '\'' || s[i] == '(' || s[i] == '\\' || two_at(s, i, '/', '*') {
        false
    } else {
        plain_address(s, i + 1)
    }
}

/// Brackets with one more side by side in the innermost.
pub open spec fn one_more(open: Seq<(char, usize)>) -> Seq<(char, usize)> {
    open.drop_last().push((open.last().0, (open.last().1 + 1) as usize))
}

/// Brackets with nothing side by side in the innermost.
pub open spec fn anew(open: Seq<(char, usize)>) -> Seq<(char, usize)> {
    open.drop_last().push((open.last().0, 0))
}

/// The brackets once a closing one has been read: it closes the innermost, if it fits.
pub open spec fn closed_by(open: Seq<(char, usize)>, c: char) -> Seq<(char, usize)> {
    let left = if open.len() > 1 && partner(c) == Some(open.last().0) {
        open.drop_last()
    } else {
        open
    };
    if c == '}' {
        anew(left)
    } else {
        left
    }
}

/// Whether the text from a position on stays within the bounds. `open` holds the brackets that are
/// open, below them the whole text, each with how many brackets opened side by side in it;
/// `escaped` tells whether the name being read holds an escape. A function name with an escape, and
/// an address that would read otherwise as code, count as out of bounds.
pub open spec fn shallow_from(
    s: Seq<char>,
    i: int,
    inside: Inside,
    open: Seq<(char, usize)>,
    escaped: bool,
) -> bool
    decreases s.len() - i,
{
    if i >= s.len() {
        true
    } else {
        let c = s[i];
        match inside {
            Inside::Comment => if two_at(s, i, '*', '/') {
                shallow_from(s, i + 2, Inside::Code, open, escaped)
            } else {
                shallow_from(s, i + 1, inside, open, escaped)
            },
            Inside::Quotes(q) => if c == q || newline(c) {
                shallow_from(s, i + 1, Inside::Code, open, escaped)
            } else if c == '\\' {
                shallow_from(s, skip_one(s, i), inside, open, escaped)
            } else {
                shallow_from(s, i + 1, inside, open, escaped)
            },
            Inside::Code => if two_at(s, i, '/', '*') {
                shallow_from(s, i + 2, Inside::Comment, open, escaped)
            } else if c == '"' || c == '\'' {
                shallow_from(s, i + 1, Inside::Quotes(c), open, false)
            } else if c == '\\' {
                shallow_from(s, skip_one(s, i), inside, open, true)
            } else if c == '(' || c == '[' {
                &&& open.len() <= MAX_NESTING && open.last().1 < MAX_TERMS
                &&& c == '(' ==> !escaped
                &&& c == '(' && after_url(s, i) ==> quoted_next(s, i + 1) || plain_address(s, i + 1)
                &&& shallow_from(s, i + 1, inside, one_more(open).push((c, 0)), false)
            } else if c == '{' {
                &&& open.len() <= MAX_NESTING
                &&& shallow_from(s, i + 1, inside, anew(open).push((c, 0)), false)
            } else if partner(c) is Some {
                shallow_from(s, i + 1, inside, closed_by(open, c), false)
            } else if c == ';' || c == ',' {
                shallow_from(s, i + 1, inside, anew(open), false)
            } else {
                shallow_from(s, i + 1, inside, open, escaped && (css_white(c) || name_char(c)))
            },
        }
    }
}

/// Whether CSS text nests within the bounds.
pub open spec fn shallow(s: Seq<char>) -> bool {
    shallow_from(s, 0, Inside::Code, seq![(' ', 0usize)], false)
}

/// Text of names and hash marks nests not at all.
pub proof fn lemma_flat(s: Seq<char>)
    requires
        forall|i: int| 0 <= i < s.len() ==> name_char(#[trigger] s[i]) || s[i] == '#',
    ensures
        shallow(s),
{
    lemma_flat_from(s, 0);
}

proof fn lemma_flat_from(s: Seq<char>, i: int)
    requires
        0 <= i <= s.len(),
        forall|i: int| 0 <= i < s.len() ==> name_char(#[trigger] s[i]) || s[i] == '#',
    ensures
        shallow_from(s, i, Inside::Code, seq![(' ', 0usize)], false),
    decreases s.len() - i,
{
    if i < s.len() {
        assert(name_char(s[i]) || s[i] == '#');
        lemma_flat_from(s, i + 1);
    }
}

fn is_newline(c: char) -> (b: bool)
    ensures
        b == newline(c),
{
    c == '\n' || c == '\r' || c == '\x0C'
}

fn is_css_white(c: char) -> (b: bool)
    ensures
        b == css_white(c),
{
    c == ' ' || c == '\t' || is_newline(c)
}

fn is_name_char(c: char) -> (b: bool)
    ensures
        b == name_char(c),
{
    is_ascii_letter(c) || (c >= '0' && c <= '9') || c == '-' || c == '_' || c as u32 >= 0x80
}

fn partner_of(c: char) -> (r: Option<char>)
    ensures
        r == partner(c),
{
    match c {
        ')' => Some('('),
        ']' => Some('['),
        '}' => Some('{'),
        _ => None,
    }
}

fn stand_at(v: &Vec<char>, i: usize, a: char, b: char) -> (r: bool)
    requires
        i < v@.len(),
    ensures
        r == two_at(v@, i as int, a, b),
{
    v[i] == a && i < v.len() - 1 && v[i + 1] == b
}

fn is_after_url(v: &Vec<char>, i: usize) -> (b: bool)
    requires
        i <= v@.len(),
    ensures
        b == after_url(v@, i as int),
{
    i >= 3 && (v[i - 3] == 'u' || v[i - 3] == 'U') && (v[i - 2] == 'r' || v[i - 2] == 'R') && (v[i - 1]
        == 'l' || v[i - 1] == 'L')
}

fn is_quoted_next(v: &Vec<char>, from: usize) -> (b: bool)
    requires
        from <= v@.len(),
    ensures
        b == quoted_next(v@, from as int),
{
    let mut i = from;
    while i < v.len() && is_css_white(v[i])
        invariant
            i <= v@.len(),
            quoted_next(v@, from as int) == quoted_next(v@, i as int),
        decreases v@.len() - i,
    {
        i = i + 1;
    }
    i < v.len() && (v[i] == '"' || v[i] == '\'')
}

fn is_plain_address(v: &Vec<char>, from: usize) -> (b: bool)
    requires
        from <= v@.len(),
    ensures
        b == plain_address(v@, from as int),
{
    let mut i = from;
    while i < v.len() && v[i] != ')'
        invariant
            i <= v@.len(),
            plain_address(v@, from as int) == plain_address(v@, i as int),
        decreases v@.len() - i,
    {
        let c = v[i];
        if c == '"' || c == '\'' || c == '(' || c == '\\' || stand_at(v, i, '/', '*') {
            return false;
        }
        i = i + 1;
    }
    true
}

/// Whether CSS text nests within the bounds.
pub fn is_shallow(source: &str) -> (b: bool)
    ensures
        b == shallow(source@),
{
    let v = chars_of(source);
    let n = v.len();
    let mut open: Vec<(char, usize)> = Vec::new();
    open.push((' ', 0));
    assert(open@ =~= seq![(' ', 0usize)]);
    let mut inside = Inside::Code;
    let mut escaped = false;
    let mut i: usize = 0;
    while i < n
        invariant
            0 <= i <= n,
            n == v@.len(),
            v@ == source@,
            0 < open@.len(),
            open@.last().1 <= MAX_TERMS,
            forall|k: int| 0 <= k < open@.len() ==> (#[trigger] open@[k]).1 <= MAX_TERMS,
            shallow(v@) == shallow_from(v@, i as int, inside, open@, escaped),
        decreases n - i,
    {
        let c = v[i];
        let past = if i < n - 1 {
            i + 2
        } else {
            n
        };
        let ghost was = open@;
        match inside {
            Inside::Comment => {
                if stand_at(&v, i, '*', '/') {
                    inside = Inside::Code;
                    i = past;
                } else {
                    i = i + 1;
                }
            },
            Inside::Quotes(q) => {
                if c == q || is_newline(c) {
                    inside = Inside::Code;
                    i = i + 1;
                } else if c == '\\' {
                    i = past;
                } else {
                    i = i + 1;
                }
            },
            Inside::Code => {
                let top = open.len() - 1;
                if stand_at(&v, i, '/', '*') {
                    inside = Inside::Comment;
                    i = past;
                } else if c == '"' || c == '\'' {
                    inside = Inside::Quotes(c);
                    escaped = false;
                    i = i + 1;
                } else if c == '\\' {
                    escaped = true;
                    i = past;
                } else if c == '(' || c == '[' {
                    if open.len() > MAX_NESTING || open[top].1 >= MAX_TERMS {
                        return false;
                    }
                    if c == '(' && (escaped || (is_after_url(&v, i) && !is_quoted_next(&v, i + 1)
                        && !is_plain_address(&v, i + 1))) {
                        return false;
                    }
                    let (b, terms) = open[top];
                    open.set(top, (b, terms + 1));
                    assert(open@ =~= one_more(was));
                    open.push((c, 0));
                    escaped = false;
                    i = i + 1;
                } else if c == '{' {
                    if open.len() > MAX_NESTING {
                        return false;
                    }
                    restart(&mut open);
                    open.push((c, 0));
                    escaped = false;
                    i = i + 1;
                } else if let Some(p) = partner_of(c) {
                    if top > 0 && open[top].0 == p {
                        open.pop();
                        assert(open@ =~= was.drop_last());
                    }
                    if c == '}' {
                        restart(&mut open);
                    }
                    escaped = false;
                    i = i + 1;
                } else if c == ';' || c == ',' {
                    restart(&mut open);
                    escaped = false;
                    i = i + 1;
                } else {
                    escaped = escaped && (is_css_white(c) || is_name_char(c));
                    i = i + 1;
                }
            },
        }
    }
    true
}

/// Counts the brackets side by side in the innermost anew.
fn restart(open: &mut Vec<(char, usize)>)
    requires
        old(open)@.len() > 0,
    ensures
        final(open)@ == anew(old(open)@),
{
    let top = open.len() - 1;
    let b = open[top].0;
    open.set(top, (b, 0));
    assert(open@ =~= anew(old(open)@));
}

} // verus!
