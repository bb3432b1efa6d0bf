//! Text as a sequence of characters: building, comparing, trimming and numbering it.
use vstd::prelude::*;
use vstd::utf8::{decode_utf8, valid_utf8};

verus! {

/// `String::push` appends one character.
pub assume_specification[ String::push ](s: &mut String, ch: char)
    ensures
        final(s)@ == old(s)@.push(ch),
;

/// Whether a character has the Unicode `Alphabetic` property or belongs to a numeric category.
pub uninterp spec fn alphanumeric(c: char) -> bool;

/// `char::is_alphanumeric` depends on the character alone; of ASCII it takes the letters and the
/// digits.
pub assume_specification[ char::is_alphanumeric ](c: char) -> (b: bool)
    ensures
        b == alphanumeric(c),
        (c as u32) < 0x80 ==> b == (ascii_letter(c) || is_digit(c)),
;

/// Whether a character has the Unicode `White_Space` property.
pub open spec fn white_space(c: char) -> bool {
    let n = c as u32;
    ||| 9 <= n <= 13
    ||| n == 0x20
    ||| n == 0x85
    ||| n == 0xA0
    ||| n == 0x1680
    ||| 0x2000 <= n <= 0x200A
    ||| n == 0x2028
    ||| n == 0x2029
    ||| n == 0x202F
    ||| n == 0x205F
    ||| n == 0x3000
}

/// Tests a character for the `White_Space` property.
pub fn is_white_space(c: char) -> (b: bool)
    ensures
        b == white_space(c),
{
    let n: u32 = c as u32;
    (9 <= n && n <= 13) || n == 0x20 || n == 0x85 || n == 0xA0 || n == 0x1680 || (0x2000 <= n && n
        <= 0x200A) || n == 0x2028 || n == 0x2029 || n == 0x202F || n == 0x205F || n == 0x3000
}

/// The ASCII lower case of a character; every other character is itself.
pub open spec fn lower(c: char) -> char {
    if 'A' <= c <= 'Z' {
        (c as u8 + 32) as char
    } else {
        c
    }
}

/// Text with every ASCII capital in lower case.
pub open spec fn lower_seq(s: Seq<char>) -> Seq<char> {
    s.map_values(|c: char| lower(c))
}

/// The ASCII lower case of one character.
pub fn to_lower(c: char) -> (r: char)
    ensures
        r == lower(c),
{
    if 'A' <= c && c <= 'Z' {
        ((c as u8) + 32) as char
    } else {
        c
    }
}

/// The characters of a string, in order.
pub fn chars_of(s: &str) -> (v: Vec<char>)
    ensures
        v@ == s@,
{
    let mut v: Vec<char> = Vec::new();
    for c in it: s.chars()
        invariant
            it.seq() == s@,
            v@ == s@.take(it.index()),
    {
        v.push(c);
        assert(s@.take(it.index() + 1) =~= s@.take(it.index()).push(c));
    }
    assert(s@.take(s@.len() as int) =~= s@);
    v
}

/// The string made of the characters from `from` up to `to`.
pub fn slice_string(v: &[char], from: usize, to: usize) -> (s: String)
    requires
        from <= to <= v@.len(),
    ensures
        s@ == v@.subrange(from as int, to as int),
{
    let mut s = String::new();
    let mut i: usize = from;
    while i < to
        invariant
            from <= i <= to <= v@.len(),
            s@ == v@.subrange(from as int, i as int),
        decreases to - i,
    {
        s.push(v[i]);
        assert(v@.subrange(from as int, i + 1) =~= v@.subrange(from as int, i as int).push(
            v@[i as int],
        ));
        i = i + 1;
    }
    s
}

/// The string made of all the characters.
pub fn string_of(v: &[char]) -> (s: String)
    ensures
        s@ == v@,
{
    let s = slice_string(v, 0, v.len());
    assert(v@.subrange(0, v@.len() as int) =~= v@);
    s
}

/// Whether two strings hold the same characters.
pub fn str_eq(a: &str, b: &str) -> (r: bool)
    ensures
        r == (a@ == b@),
{
    let x = chars_of(a);
    let y = chars_of(b);
    chars_eq(&x, &y)
}

/// Whether two runs of characters are the same.
pub fn chars_eq(x: &[char], y: &[char]) -> (r: bool)
    ensures
        r == (x@ == y@),
{
    if x.len() != y.len() {
        return false;
    }
    let mut i: usize = 0;
    while i < x.len()
        invariant
            x@.len() == y@.len(),
            0 <= i <= x@.len(),
            forall|j: int| 0 <= j < i ==> x@[j] == y@[j],
        decreases x@.len() - i,
    {
        if x[i] != y[i] {
            return false;
        }
        i = i + 1;
    }
    assert(x@ =~= y@);
    true
}

/// Whether two texts agree when ASCII case is set aside.
pub open spec fn same_ignoring_case(a: Seq<char>, b: Seq<char>) -> bool {
    lower_seq(a) == lower_seq(b)
}

/// Compares two strings, setting ASCII case aside.
pub fn eq_ignore_case(a: &str, b: &str) -> (r: bool)
    ensures
        r == same_ignoring_case(a@, b@),
{
    let x = lower_string(a);
    let y = lower_string(b);
    str_eq(&x, &y)
}

/// The string in ASCII lower case.
pub fn lower_string(a: &str) -> (s: String)
    ensures
        s@ == lower_seq(a@),
{
    let v = chars_of(a);
    let mut s = String::new();
    let mut i: usize = 0;
    while i < v.len()
        invariant
            v@ == a@,
            0 <= i <= v@.len(),
            s@ == lower_seq(a@.take(i as int)),
        decreases v@.len() - i,
    {
        s.push(to_lower(v[i]));
        assert(lower_seq(a@.take(i + 1)) =~= lower_seq(a@.take(i as int)).push(lower(a@[i as int])));
        i = i + 1;
    }
    assert(a@.take(a@.len() as int) =~= a@);
    s
}

/// The decimal digit of a number below ten.
pub open spec fn digit(d: nat) -> char {
    (48 + d) as char
}

/// A number written in decimal.
pub open spec fn dec(n: nat) -> Seq<char>
    decreases n,
{
    if n < 10 {
        seq![digit(n)]
    } else {
        dec(n / 10).push(digit(n % 10))
    }
}

/// Writes a number in decimal.
pub fn decimal(n: u64) -> (s: String)
    ensures
        s@ == dec(n as nat),
    decreases n,
{
    let d: u8 = (n % 10) as u8;
    let c: char = (48 + d) as char;
    if n < 10 {
        let mut s = String::new();
        s.push(c);
        assert(s@ =~= seq![digit(n as nat)]);
        s
    } else {
        let mut s = decimal(n / 10);
        s.push(c);
        s
    }
}

/// Writes a large number in decimal.
pub fn wide_decimal(n: u128) -> (s: String)
    ensures
        s@ == dec(n as nat),
    decreases n,
{
    let d: u8 = (n % 10) as u8;
    let c: char = (48 + d) as char;
    if n < 10 {
        let mut s = String::new();
        s.push(c);
        assert(s@ =~= seq![digit(n as nat)]);
        s
    } else {
        let mut s = wide_decimal(n / 10);
        s.push(c);
        s
    }
}

/// Two numbers written alike are the same number.
pub proof fn lemma_dec_injective(a: nat, b: nat)
    requires
        dec(a) == dec(b),
    ensures
        a == b,
    decreases a,
{
    lemma_dec_nonempty(a / 10);
    lemma_dec_nonempty(b / 10);
    if a < 10 && b < 10 {
        assert(dec(a)[0] == dec(b)[0]);
        assert(dec(a)[0] == digit(a) && dec(b)[0] == digit(b));
        assert(digit(a) as nat == 48 + a && digit(b) as nat == 48 + b);
    } else if a >= 10 && b >= 10 {
        assert(dec(a).last() == dec(b).last());
        assert(dec(a).last() == digit(a % 10) && dec(b).last() == digit(b % 10));
        assert(digit(a % 10) as nat == 48 + a % 10 && digit(b % 10) as nat == 48 + b % 10);
        assert(dec(a).drop_last() =~= dec(a / 10));
        assert(dec(b).drop_last() =~= dec(b / 10));
        lemma_dec_injective(a / 10, b / 10);
    } else {
        let (x, y) = if a < 10 {
            (a, b)
        } else {
            (b, a)
        };
        assert(dec(x).len() == 1);
        assert(dec(y) == dec(y / 10).push(digit(y % 10)));
        assert(dec(y).len() > 1);
    }
}

/// A number has at least one digit.
pub proof fn lemma_dec_nonempty(n: nat)
    ensures
        dec(n).len() > 0,
    decreases n,
{
    if n >= 10 {
        lemma_dec_nonempty(n / 10);
    }
}

/// Whether a character is an ASCII digit.
pub open spec fn is_digit(c: char) -> bool {
    '0' <= c <= '9'
}

/// Whether every character is an ASCII digit.
pub open spec fn all_digits(s: Seq<char>) -> bool {
    forall|i: int| 0 <= i < s.len() ==> is_digit(#[trigger] s[i])
}

/// The value of a run of decimal digits.
pub open spec fn dec_value(s: Seq<char>) -> nat
    decreases s.len(),
{
    if s.len() == 0 {
        0
    } else {
        dec_value(s.drop_last()) * 10 + (s.last() as nat - 48) as nat
    }
}

/// What an unsigned decimal literal denotes, up to `max`: an optional plus sign and at least one
/// digit.
pub open spec fn unsigned_value(s: Seq<char>, max: nat) -> Option<nat> {
    let body = if s.len() > 0 && s[0] == '+' {
        s.skip(1)
    } else {
        s
    };
    if body.len() > 0 && all_digits(body) && dec_value(body) <= max {
        Some(dec_value(body))
    } else {
        None
    }
}

/// Reads an unsigned decimal literal no greater than `max`.
pub fn parse_unsigned(s: &str, max: u64) -> (r: Option<u64>)
    ensures
        match r {
            Some(n) => unsigned_value(s@, max as nat) == Some(n as nat),
            None => unsigned_value(s@, max as nat) is None,
        },
{
    let v = chars_of(s);
    let start: usize = if v.len() > 0 && v[0] == '+' {
        1
    } else {
        0
    };
    let ghost body = v@.skip(start as int);
    assert(start == 0 ==> body =~= s@);
    if start == v.len() {
        return None;
    }
    let mut i: usize = start;
    let mut n: u64 = 0;
    while i < v.len()
        invariant
            start <= i <= v@.len(),
            body == v@.skip(start as int),
            n == dec_value(body.take(i - start)),
            n <= max,
            all_digits(body.take(i - start)),
            unsigned_value(s@, max as nat) == (if body.len() > 0 && all_digits(body) && dec_value(
                body,
            ) <= max {
                Some(dec_value(body))
            } else {
                None::<nat>
            }),
        decreases v@.len() - i,
    {
        let c: char = v[i];
        assert(body[i - start] == c);
        if c < '0' || c > '9' {
            assert(!is_digit(body[i - start]));
            return None;
        }
        let d: u64 = ((c as u8) - 48) as u64;
        proof {
            let t = body.take(i - start + 1);
            assert(t.drop_last() =~= body.take(i - start));
            assert(dec_value(t) == n * 10 + d);
            lemma_dec_value_monotonic(body, i - start + 1);
        }
        if n > max / 10 || d > max - n * 10 {
            return None;
        }
        n = n * 10 + d;
        i = i + 1;
        assert(all_digits(body.take(i - start)));
    }
    assert(body.take(v@.len() - start) =~= body);
    Some(n)
}

/// A prefix of a run of digits denotes no more than the whole run.
pub proof fn lemma_dec_value_monotonic(s: Seq<char>, k: int)
    requires
        0 <= k <= s.len(),
    ensures
        dec_value(s.take(k)) <= dec_value(s),
    decreases s.len(),
{
    if k == s.len() {
        assert(s.take(k) =~= s);
    } else {
        lemma_dec_value_monotonic(s.drop_last(), k);
        assert(s.drop_last().take(k) =~= s.take(k));
    }
}

/// Reads a `usize`.
pub fn parse_usize(s: &str) -> (r: Option<usize>)
    ensures
        match r {
            Some(n) => unsigned_value(s@, usize::MAX as nat) == Some(n as nat),
            None => unsigned_value(s@, usize::MAX as nat) is None,
        },
{
    match parse_unsigned(s, usize::MAX as u64) {
        Some(n) => Some(n as usize),
        None => None,
    }
}

/// White space of ASCII: space, tab, line feed, form feed, carriage return.
pub open spec fn blank(c: char) -> bool {
    c == ' ' || c == '\t' || c == '\n' || c == '\x0c' || c == '\r'
}

/// Whether a character is white space of ASCII.
pub fn is_blank(c: char) -> (b: bool)
    ensures
        b == blank(c),
{
    c == ' ' || c == '\t' || c == '\n' || c == '\x0c' || c == '\r'
}

/// A letter of ASCII.
pub open spec fn ascii_letter(c: char) -> bool {
    ('a' <= c && c <= 'z') || ('A' <= c && c <= 'Z')
}

/// Whether a character is a letter of ASCII.
pub fn is_ascii_letter(c: char) -> (b: bool)
    ensures
        b == ascii_letter(c),
{
    (c >= 'a' && c <= 'z') || (c >= 'A' && c <= 'Z')
}

/// A class of characters that a scan runs over.
#[derive(Clone, Copy)]
pub enum Class {
    /// White space.
    White,
    /// Anything but white space.
    Dark,
    /// Anything but this character.
    Not(char),
    /// This character alone.
    Only(char),
    /// White space of ASCII.
    Blank,
    /// Anything but white space of ASCII.
    Solid,
    /// What a name in markup is made of.
    MarkupName,
    /// What an unquoted value in markup is made of.
    MarkupValue,
    /// Digits and full stops.
    Decimal,
    /// What a tag name is made of.
    TagName,
    /// What an attribute name is made of.
    AttrName,
    /// What an unquoted attribute value is made of.
    AttrValue,
    /// ASCII digits.
    Digit,
    /// What an identifier is made of.
    Ident,
}

impl Class {
    /// Whether the class holds a character.
    pub open spec fn holds(self, c: char) -> bool {
        match self {
            Class::White => white_space(c),
            Class::Dark => !white_space(c),
            Class::Not(x) => c != x,
            Class::Only(x) => c == x,
            Class::Blank => blank(c),
            Class::Solid => !blank(c),
            Class::MarkupName => ascii_letter(c) || is_digit(c) || c == '_' || c == '-' || c == ':',
            Class::MarkupValue => !blank(c) && c != '>' && c != '/',
            Class::Decimal => is_digit(c) || c == '.',
            Class::TagName => !white_space(c) && c != '>' && c != '/',
            Class::AttrName => !white_space(c) && c != '=' && c != '>' && c != '/',
            Class::AttrValue => !white_space(c) && c != '>' && c != '/',
            Class::Digit => is_digit(c),
            Class::Ident => alphanumeric(c) || c == '_',
        }
    }

    /// Tests a character for membership.
    pub fn has(self, c: char) -> (b: bool)
        ensures
            b == self.holds(c),
    {
        match self {
            Class::White => is_white_space(c),
            Class::Dark => !is_white_space(c),
            Class::Not(x) => c != x,
            Class::Only(x) => c == x,
            Class::Blank => is_blank(c),
            Class::Solid => !is_blank(c),
            Class::MarkupName => is_ascii_letter(c) || (c >= '0' && c <= '9') || c == '_' || c == '-'
                || c == ':',
            Class::MarkupValue => !is_blank(c) && c != '>' && c != '/',
            Class::Decimal => (c >= '0' && c <= '9') || c == '.',
            Class::TagName => !is_white_space(c) && c != '>' && c != '/',
            Class::AttrName => !is_white_space(c) && c != '=' && c != '>' && c != '/',
            Class::AttrValue => !is_white_space(c) && c != '>' && c != '/',
            Class::Digit => '0' <= c && c <= '9',
            Class::Ident => c.is_alphanumeric() || c == '_',
        }
    }
}

/// Where the run of characters of class `k` that starts at `from` ends.
pub open spec fn run_end(s: Seq<char>, from: int, k: Class) -> int
    decreases s.len() - from,
{
    if 0 <= from < s.len() && k.holds(s[from]) {
        run_end(s, from + 1, k)
    } else {
        from
    }
}

/// A run ends within the text, holds only its class, and stops at something else.
pub proof fn lemma_run_end(s: Seq<char>, from: int, k: Class)
    requires
        0 <= from <= s.len(),
    ensures
        from <= run_end(s, from, k) <= s.len(),
        forall|i: int| from <= i < run_end(s, from, k) ==> k.holds(#[trigger] s[i]),
        run_end(s, from, k) < s.len() ==> !k.holds(s[run_end(s, from, k)]),
    decreases s.len() - from,
{
    if from < s.len() && k.holds(s[from]) {
        lemma_run_end(s, from + 1, k);
    }
}

/// Finds where a run of characters ends.
pub fn scan_run(v: &[char], from: usize, k: Class) -> (end: usize)
    requires
        from <= v@.len(),
    ensures
        end == run_end(v@, from as int, k),
        from <= end <= v@.len(),
{
    let mut i: usize = from;
    while i < v.len() && k.has(v[i])
        invariant
            from <= i <= v@.len(),
            run_end(v@, from as int, k) == run_end(v@, i as int, k),
        decreases v@.len() - i,
    {
        i = i + 1;
    }
    i
}

/// Whether `p` stands in `s` at position `i`.
pub open spec fn occurs(s: Seq<char>, p: Seq<char>, i: int) -> bool {
    0 <= i && i + p.len() <= s.len() && s.subrange(i, i + p.len()) == p
}

/// The first position from `from` on at which `p` stands in `s`.
pub open spec fn find_from(s: Seq<char>, p: Seq<char>, from: int) -> Option<int>
    decreases s.len() - from + 1,
{
    if from < 0 || from + p.len() > s.len() {
        None
    } else if occurs(s, p, from) {
        Some(from)
    } else {
        find_from(s, p, from + 1)
    }
}

/// What a search finds is an occurrence, and no earlier one was passed over.
pub proof fn lemma_find_from(s: Seq<char>, p: Seq<char>, from: int)
    requires
        0 <= from,
    ensures
        find_from(s, p, from) matches Some(i) ==> from <= i && occurs(s, p, i) && (forall|j: int|
            from <= j < i ==> !occurs(s, p, j)),
        find_from(s, p, from) is None ==> forall|j: int| from <= j ==> !occurs(s, p, j),
    decreases s.len() - from + 1,
{
    if from + p.len() <= s.len() && !occurs(s, p, from) {
        lemma_find_from(s, p, from + 1);
    }
}

/// Whether `p` stands in `v` at position `i`.
pub fn stands_at(v: &[char], p: &[char], i: usize) -> (b: bool)
    requires
        i <= v@.len(),
    ensures
        b == occurs(v@, p@, i as int),
{
    let n = v.len();
    if p.len() > n - i {
        return false;
    }
    let mut j: usize = 0;
    while j < p.len()
        invariant
            0 <= j <= p@.len(),
            i + p@.len() <= v@.len() <= usize::MAX,
            forall|t: int| 0 <= t < j ==> v@[i + t] == p@[t],
        decreases p@.len() - j,
    {
        if v[i + j] != p[j] {
            assert(v@.subrange(i as int, i + p@.len())[j as int] != p@[j as int]);
            return false;
        }
        j = j + 1;
    }
    assert(v@.subrange(i as int, i + p@.len()) =~= p@);
    true
}

/// Finds the first place from `from` on at which `p` stands.
pub fn search(v: &[char], p: &[char], from: usize) -> (r: Option<usize>)
    requires
        from <= v@.len(),
    ensures
        match r {
            Some(i) => find_from(v@, p@, from as int) == Some(i as int) && i + p@.len() <= v@.len(),
            None => find_from(v@, p@, from as int) is None,
        },
{
    let mut i: usize = from;
    while i <= v.len() && p.len() <= v.len() - i
        invariant
            from <= i <= v@.len(),
            find_from(v@, p@, from as int) == find_from(v@, p@, i as int),
        decreases v@.len() - i,
    {
        if stands_at(v, p, i) {
            return Some(i);
        }
        if i == v.len() {
            assert(v@.subrange(i as int, i + p@.len()) =~= p@);
            return None;
        }
        i = i + 1;
    }
    None
}

/// The characters from `from` up to `to`.
pub fn part(v: &[char], from: usize, to: usize) -> (r: Vec<char>)
    requires
        from <= to <= v@.len(),
    ensures
        r@ == v@.subrange(from as int, to as int),
{
    let mut r: Vec<char> = Vec::new();
    let mut i: usize = from;
    while i < to
        invariant
            from <= i <= to <= v@.len(),
            r@ == v@.subrange(from as int, i as int),
        decreases to - i,
    {
        r.push(v[i]);
        assert(v@.subrange(from as int, i + 1) =~= v@.subrange(from as int, i as int).push(
            v@[i as int],
        ));
        i = i + 1;
    }
    r
}

/// The characters from `from` on.
pub fn tail(v: &[char], from: usize) -> (r: Vec<char>)
    requires
        from <= v@.len(),
    ensures
        r@ == v@.skip(from as int),
{
    let r = part(v, from, v.len());
    assert(v@.subrange(from as int, v@.len() as int) =~= v@.skip(from as int));
    r
}

/// The text without leading white space.
pub open spec fn trim_start(s: Seq<char>) -> Seq<char> {
    s.skip(run_end(s, 0, Class::White))
}

/// The text without trailing white space.
pub open spec fn trim_end(s: Seq<char>) -> Seq<char>
    decreases s.len(),
{
    if s.len() > 0 && white_space(s.last()) {
        trim_end(s.drop_last())
    } else {
        s
    }
}

/// The text without white space around it.
pub open spec fn trim(s: Seq<char>) -> Seq<char> {
    trim_end(trim_start(s))
}

/// Trims white space at the start.
pub fn trimmed_start(v: &[char]) -> (r: Vec<char>)
    ensures
        r@ == trim_start(v@),
{
    tail(v, scan_run(v, 0, Class::White))
}

/// Trims white space at the end.
pub fn trimmed_end(v: &[char]) -> (r: Vec<char>)
    ensures
        r@ == trim_end(v@),
{
    let mut n: usize = v.len();
    assert(v@.take(v@.len() as int) =~= v@);
    while n > 0 && is_white_space(v[n - 1])
        invariant
            0 <= n <= v@.len(),
            trim_end(v@) == trim_end(v@.take(n as int)),
        decreases n,
    {
        assert(v@.take(n as int).drop_last() =~= v@.take(n - 1));
        n = n - 1;
    }
    let r = part(v, 0, n);
    assert(v@.subrange(0, n as int) =~= v@.take(n as int));
    r
}

/// Trims white space at both ends.
pub fn trimmed(v: &[char]) -> (r: Vec<char>)
    ensures
        r@ == trim(v@),
{
    trimmed_end(&trimmed_start(v))
}

/// Whether text starts with a prefix.
pub fn starts(v: &[char], p: &str) -> (b: bool)
    ensures
        b == occurs(v@, p@, 0),
{
    stands_at(v, &chars_of(p), 0)
}

/// What follows a prefix, where text starts with it.
pub open spec fn after_prefix(s: Seq<char>, p: Seq<char>) -> Option<Seq<char>> {
    if occurs(s, p, 0) {
        Some(s.skip(p.len() as int))
    } else {
        None
    }
}

/// What follows a prefix, where text starts with it.
pub fn strip(v: &[char], p: &str) -> (r: Option<Vec<char>>)
    ensures
        match r {
            Some(t) => after_prefix(v@, p@) == Some(t@),
            None => after_prefix(v@, p@) is None,
        },
{
    let q = chars_of(p);
    if stands_at(v, &q, 0) {
        Some(tail(v, q.len()))
    } else {
        None
    }
}

/// Whether a text holds another.
pub open spec fn holds_text(s: Seq<char>, p: Seq<char>) -> bool {
    exists|i: int| occurs(s, p, i)
}

/// Whether text holds a word.
pub fn has_text(v: &[char], p: &str) -> (b: bool)
    ensures
        b == holds_text(v@, p@),
{
    proof {
        lemma_find_from(v@, p@, 0);
    }
    match search(v, &chars_of(p), 0) {
        Some(i) => {
            assert(occurs(v@, p@, i as int));
            true
        },
        None => {
            assert forall|i: int| !occurs(v@, p@, i) by {}
            false
        },
    }
}

/// What stands before the first `p`, or everything.
pub open spec fn before(s: Seq<char>, p: Seq<char>) -> Seq<char> {
    match find_from(s, p, 0) {
        Some(i) => s.take(i),
        None => s,
    }
}

/// What stands before the first `p`, or everything.
pub fn cut_before(v: &[char], p: &str) -> (r: Vec<char>)
    ensures
        r@ == before(v@, p@),
{
    match search(v, &chars_of(p), 0) {
        Some(i) => {
            proof {
                lemma_find_from(v@, p@, 0);
            }
            let r = part(v, 0, i);
            assert(v@.subrange(0, i as int) =~= v@.take(i as int));
            r
        },
        None => {
            let r = part(v, 0, v.len());
            assert(v@.subrange(0, v@.len() as int) =~= v@);
            r
        },
    }
}

/// The pieces of a text from `pos` on, cut at every `c`.
pub open spec fn pieces_from(s: Seq<char>, pos: int, c: char) -> Seq<Seq<char>>
    decreases s.len() - pos,
    when 0 <= pos <= s.len()
    via pieces_from_decreases
{
    let end = run_end(s, pos, Class::Not(c));
    if end < s.len() {
        seq![s.subrange(pos, end)] + pieces_from(s, end + 1, c)
    } else {
        seq![s.subrange(pos, end)]
    }
}

#[via_fn]
proof fn pieces_from_decreases(s: Seq<char>, pos: int, c: char) {
    lemma_run_end(s, pos, Class::Not(c));
}

/// The pieces of a text, cut at every `c`.
pub open spec fn pieces(s: Seq<char>, c: char) -> Seq<Seq<char>> {
    pieces_from(s, 0, c)
}

/// The texts that a list of runs holds.
pub open spec fn texts(v: Seq<Vec<char>>) -> Seq<Seq<char>> {
    v.map_values(|x: Vec<char>| x@)
}

/// Cuts text at every `c`.
pub fn split_at_char(v: &[char], c: char) -> (r: Vec<Vec<char>>)
    ensures
        texts(r@) == pieces(v@, c),
{
    let mut r: Vec<Vec<char>> = Vec::new();
    let mut pos: usize = 0;
    let n = v.len();
    assert(texts(r@) + pieces(v@, c) =~= pieces(v@, c));
    loop
        invariant
            0 <= pos <= v@.len(),
            n == v@.len(),
            pieces(v@, c) == texts(r@) + pieces_from(v@, pos as int, c),
        decreases n - pos,
    {
        let end = scan_run(v, pos, Class::Not(c));
        let ghost before = r@;
        let ghost piece = v@.subrange(pos as int, end as int);
        let piece_chars = part(v, pos, end);
        r.push(piece_chars);
        assert(texts(r@) =~= texts(before).push(piece));
        if end == n {
            assert(texts(before) + seq![piece] =~= texts(r@));
            return r;
        }
        assert(texts(before) + (seq![piece] + pieces_from(v@, end + 1, c)) =~= texts(r@)
            + pieces_from(v@, end + 1, c));
        pos = end + 1;
    }
}

/// A line without the carriage return that a line feed follows.
pub open spec fn line_text(s: Seq<char>, pos: int, end: int) -> Seq<char> {
    if end < s.len() && end > pos && s[end - 1] == '\r' {
        s.subrange(pos, end - 1)
    } else {
        s.subrange(pos, end)
    }
}

/// The lines of a text from `pos` on. A line feed ends a line and starts none at the end of the
/// text.
pub open spec fn lines_from(s: Seq<char>, pos: int) -> Seq<Seq<char>>
    decreases s.len() - pos,
    when 0 <= pos
    via lines_from_decreases
{
    if pos >= s.len() {
        Seq::empty()
    } else {
        let end = run_end(s, pos, Class::Not('\n'));
        seq![line_text(s, pos, end)] + (if end < s.len() {
            lines_from(s, end + 1)
        } else {
            Seq::empty()
        })
    }
}

#[via_fn]
proof fn lines_from_decreases(s: Seq<char>, pos: int) {
    if pos < s.len() {
        lemma_run_end(s, pos, Class::Not('\n'));
    }
}

/// The lines of a text.
pub open spec fn lines(s: Seq<char>) -> Seq<Seq<char>> {
    lines_from(s, 0)
}

/// Cuts text into lines.
pub fn split_lines(v: &[char]) -> (r: Vec<Vec<char>>)
    ensures
        texts(r@) == lines(v@),
{
    let mut r: Vec<Vec<char>> = Vec::new();
    let mut pos: usize = 0;
    let n = v.len();
    assert(texts(r@) + lines(v@) =~= lines(v@));
    while pos < n
        invariant
            0 <= pos <= v@.len(),
            n == v@.len(),
            lines(v@) == texts(r@) + lines_from(v@, pos as int),
        decreases n - pos,
    {
        proof {
            lemma_run_end(v@, pos as int, Class::Not('\n'));
        }
        let end = scan_run(v, pos, Class::Not('\n'));
        let ghost before = r@;
        let ghost line = line_text(v@, pos as int, end as int);
        let piece_chars = if end < n && end > pos && v[end - 1] == '\r' {
            part(v, pos, end - 1)
        } else {
            part(v, pos, end)
        };
        r.push(piece_chars);
        assert(texts(r@) =~= texts(before).push(line));
        if end < n {
            assert(texts(before) + (seq![line] + lines_from(v@, end + 1)) =~= texts(r@)
                + lines_from(v@, end + 1));
            pos = end + 1;
        } else {
            assert(texts(before) + (seq![line] + Seq::<Seq<char>>::empty()) =~= texts(r@)
                + Seq::<Seq<char>>::empty());
            pos = n;
        }
    }
    assert(texts(r@) + Seq::<Seq<char>>::empty() =~= texts(r@));
    r
}

/// The first word of a text: the run of dark characters after leading white space.
pub open spec fn first_word(s: Seq<char>) -> Seq<char> {
    let begin = run_end(s, 0, Class::White);
    s.subrange(begin, run_end(s, begin, Class::Dark))
}

/// The first word of a text.
pub fn word(v: &[char]) -> (r: Vec<char>)
    ensures
        r@ == first_word(v@),
{
    let begin = scan_run(v, 0, Class::White);
    let end = scan_run(v, begin, Class::Dark);
    part(v, begin, end)
}

/// The identifier that a text starts with.
pub open spec fn leading_ident(s: Seq<char>) -> Seq<char> {
    s.take(run_end(s, 0, Class::Ident))
}

/// The identifier that a text starts with.
pub fn ident(v: &[char]) -> (r: Vec<char>)
    ensures
        r@ == leading_ident(v@),
{
    let end = scan_run(v, 0, Class::Ident);
    let r = part(v, 0, end);
    assert(v@.subrange(0, end as int) =~= v@.take(end as int));
    r
}

/// Whether a run of characters is a word.
pub fn is_word(v: &[char], p: &str) -> (b: bool)
    ensures
        b == (v@ == p@),
{
    chars_eq(v, &chars_of(p))
}

/// How many bytes a character takes in UTF-8.
pub open spec fn utf8_len(c: char) -> nat {
    let n = c as u32;
    if n < 0x80 {
        1
    } else if n < 0x800 {
        2
    } else if n < 0x10000 {
        3
    } else {
        4
    }
}

/// How many bytes a text takes in UTF-8.
pub open spec fn utf8_size(s: Seq<char>) -> nat
    decreases s.len(),
{
    if s.len() == 0 {
        0
    } else {
        utf8_size(s.drop_last()) + utf8_len(s.last())
    }
}

/// How many characters of a text, from character `k` on, fit whole into `b` bytes after it.
pub open spec fn chars_within(s: Seq<char>, k: int, b: nat) -> nat
    decreases s.len() - k,
{
    if 0 <= k < s.len() && utf8_len(s[k]) <= b {
        1 + chars_within(s, k + 1, (b - utf8_len(s[k])) as nat)
    } else {
        0
    }
}

/// The position of the character that a byte offset falls into.
pub open spec fn char_index(s: Seq<char>, b: nat) -> nat {
    chars_within(s, 0, b)
}

/// No more characters than the text has fit, and more bytes hold no fewer characters.
pub proof fn lemma_chars_within(s: Seq<char>, k: int, a: nat, b: nat)
    requires
        0 <= k <= s.len(),
        a <= b,
    ensures
        chars_within(s, k, a) <= chars_within(s, k, b) <= s.len() - k,
    decreases s.len() - k,
{
    if k < s.len() && utf8_len(s[k]) <= b {
        let n = utf8_len(s[k]);
        if n <= a {
            lemma_chars_within(s, k + 1, (a - n) as nat, (b - n) as nat);
        } else {
            lemma_chars_within(s, k + 1, 0, (b - n) as nat);
        }
    }
}

/// How many bytes a character takes in UTF-8.
pub fn char_bytes(c: char) -> (n: usize)
    ensures
        n == utf8_len(c),
{
    let n: u32 = c as u32;
    if n < 0x80 {
        1
    } else if n < 0x800 {
        2
    } else if n < 0x10000 {
        3
    } else {
        4
    }
}

/// Whether a text ends with another.
pub open spec fn ends(s: Seq<char>, t: Seq<char>) -> bool {
    s.len() >= t.len() && s.skip(s.len() - t.len()) == t
}

/// Whether text ends with a word.
pub fn ends_with(v: &[char], p: &[char]) -> (b: bool)
    ensures
        b == ends(v@, p@),
{
    let n = v.len();
    if p.len() > n {
        return false;
    }
    let i: usize = n - p.len();
    assert(v@.subrange(i as int, i + p@.len()) =~= v@.skip(v@.len() - p@.len()));
    stands_at(v, p, i)
}

/// The text that bytes stand for, with a replacement character for what is not valid UTF-8.
pub uninterp spec fn lossy_text(bytes: Seq<u8>) -> Seq<char>;

/// Calls `String::from_utf8_lossy`. The result depends on the bytes alone; valid UTF-8 is decoded
/// as it is. Where replacement characters go is not said.
#[verifier::external_body]
pub(crate) fn text_lossy(bytes: &[u8]) -> (s: String)
    ensures
        s@ == lossy_text(bytes@),
        valid_utf8(bytes@) ==> s@ == decode_utf8(bytes@),
{
    String::from_utf8_lossy(bytes).into_owned()
}

/// A text with every occurrence of a pattern replaced, from left to right.
pub open spec fn replaced(s: Seq<char>, p: Seq<char>, w: Seq<char>) -> Seq<char>
    decreases s.len(),
{
    match find_from(s, p, 0) {
        Some(i) => if p.len() > 0 && 0 <= i && i + p.len() <= s.len() {
            s.take(i) + w + replaced(s.skip(i + p.len()), p, w)
        } else {
            s
        },
        None => s,
    }
}

/// Replaces every occurrence of a pattern.
pub fn replace_all(v: &[char], p: &[char], w: &[char]) -> (r: Vec<char>)
    requires
        p@.len() > 0,
    ensures
        r@ == replaced(v@, p@, w@),
{
    let mut out: Vec<char> = Vec::new();
    let mut rest = part(v, 0, v.len());
    assert(v@.subrange(0, v@.len() as int) =~= v@);
    assert(out@ + replaced(rest@, p@, w@) =~= replaced(v@, p@, w@));
    loop
        invariant_except_break
            p@.len() > 0,
            out@ + replaced(rest@, p@, w@) == replaced(v@, p@, w@),
        ensures
            out@ == replaced(v@, p@, w@),
        decreases rest@.len(),
    {
        let n = rest.len();
        match search(&rest, p, 0) {
            Some(i) => {
                let ghost before = out@;
                let mut head = part(&rest, 0, i);
                assert(head@ =~= rest@.take(i as int));
                let next = tail(&rest, i + p.len());
                let mut with = part(w, 0, w.len());
                assert(with@ =~= w@);
                out.append(&mut head);
                out.append(&mut with);
                assert(before + (rest@.take(i as int) + w@ + replaced(next@, p@, w@)) =~= out@
                    + replaced(next@, p@, w@));
                rest = next;
            },
            None => {
                let ghost before = out@;
                let mut last = rest;
                let ghost end = last@;
                out.append(&mut last);
                assert(out@ =~= before + end);
                break;
            },
        }
    }
    out
}

/// Nothing is left of a character that is replaced by nothing.
pub proof fn lemma_replaced_gone(s: Seq<char>, c: char)
    ensures
        !replaced(s, seq![c], Seq::empty()).contains(c),
    decreases s.len(),
{
    let p = seq![c];
    lemma_find_from(s, p, 0);
    match find_from(s, p, 0) {
        Some(i) => {
            let next = s.skip(i + 1);
            lemma_replaced_gone(next, c);
            let r = replaced(s, p, Seq::empty());
            let tail = replaced(next, p, Seq::empty());
            assert(r =~= s.take(i) + tail);
            assert forall|k: int| 0 <= k < r.len() implies r[k] != c by {
                if k < i {
                    assert(!occurs(s, p, k));
                    assert(s.subrange(k, k + 1) =~= seq![s[k]]);
                } else {
                    assert(r[k] == tail[k - i]);
                    assert(!tail.contains(c));
                }
            }
        },
        None => {
            assert forall|k: int| 0 <= k < s.len() implies s[k] != c by {
                assert(!occurs(s, p, k));
                assert(s.subrange(k, k + 1) =~= seq![s[k]]);
            }
        },
    }
}

/// A text without a separator is one piece.
pub proof fn lemma_one_piece(s: Seq<char>, c: char)
    requires
        !s.contains(c),
    ensures
        pieces(s, c) == seq![s],
{
    lemma_run_end(s, 0, Class::Not(c));
    let end = run_end(s, 0, Class::Not(c));
    if end < s.len() {
        assert(s[end] == c);
        assert(s.contains(c));
    }
    assert(s.subrange(0, end) =~= s);
}
/// The words of a text from a position on: the runs of dark characters.
pub open spec fn words_from(s: Seq<char>, i: int) -> Seq<Seq<char>>
    decreases s.len() - i,
    when 0 <= i <= s.len()
    via words_from_decreases
{
    let from = run_end(s, i, Class::White);
    if from >= s.len() {
        Seq::empty()
    } else {
        let to = run_end(s, from, Class::Dark);
        seq![s.subrange(from, to)] + words_from(s, to)
    }
}

#[via_fn]
proof fn words_from_decreases(s: Seq<char>, i: int) {
    lemma_next_word(s, i);
}

proof fn lemma_next_word(s: Seq<char>, i: int)
    requires
        0 <= i <= s.len(),
    ensures
        i <= run_end(s, i, Class::White) <= s.len(),
        run_end(s, i, Class::White) < s.len() ==> run_end(s, i, Class::White) < run_end(
            s,
            run_end(s, i, Class::White),
            Class::Dark,
        ) <= s.len(),
{
    lemma_run_end(s, i, Class::White);
    let from = run_end(s, i, Class::White);
    if from < s.len() {
        assert(!Class::White.holds(s[from]));
        assert(Class::Dark.holds(s[from]));
        lemma_run_end(s, from + 1, Class::Dark);
    }
}

/// The words of a text.
pub open spec fn words(s: Seq<char>) -> Seq<Seq<char>> {
    words_from(s, 0)
}

/// Cuts text into its words.
pub fn split_words(v: &[char]) -> (r: Vec<Vec<char>>)
    ensures
        texts(r@) == words(v@),
{
    let n = v.len();
    let mut r: Vec<Vec<char>> = Vec::new();
    let mut i: usize = 0;
    assert(texts(r@) + words(v@) =~= words(v@));
    loop
        invariant
            0 <= i <= n,
            n == v@.len(),
            words(v@) == texts(r@) + words_from(v@, i as int),
        decreases n - i,
    {
        proof {
            lemma_next_word(v@, i as int);
        }
        let from = scan_run(v, i, Class::White);
        if from >= n {
            assert(texts(r@) + Seq::<Seq<char>>::empty() =~= texts(r@));
            return r;
        }
        let to = scan_run(v, from, Class::Dark);
        let ghost was = texts(r@);
        let ghost w = v@.subrange(from as int, to as int);
        r.push(part(v, from, to));
        assert(texts(r@) =~= was.push(w));
        assert(was + (seq![w] + words_from(v@, to as int)) =~= texts(r@) + words_from(
            v@,
            to as int,
        ));
        i = to;
    }
}

} // verus!
