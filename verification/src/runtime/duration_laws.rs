//! What durations mean: how long the time is that a written duration stands for.
use crate::runtime::dash::{
    decimal_nanos, duration_nanos, fraction_nanos, iso_nanos, plain_nanos, pointed, tens,
};
use crate::runtime::layout::{is_number, unsigned};
use crate::string_laws::{
    all_white, law_decimal_reads_back, law_digits_join, law_trim_takes_white_space, lemma_run_reaches,
    lemma_ten_to, ten_to, tight,
};
use crate::strings::{
    all_digits, dec, dec_value, is_digit, lower_seq, occurs, run_end, same_ignoring_case, Class,
};
use vstd::prelude::*;

verus! {

/// A decimal number: its whole part, and the digits after its point, where it has one.
pub open spec fn written(w: nat, f: Seq<char>) -> Seq<char> {
    if f.len() == 0 {
        dec(w)
    } else {
        dec(w) + seq!['.'] + f
    }
}

/// The billionths that a decimal number of so many places amounts to.
pub open spec fn worth(w: nat, f: Seq<char>) -> nat {
    w * 1_000_000_000 + dec_value(f) * ten_to((9 - f.len()) as nat)
}

/// Whether the places of a decimal number are digits, and no more than nanoseconds can hold.
pub open spec fn places(f: Seq<char>) -> bool {
    all_digits(f) && f.len() <= 9
}

/// One number of an ISO-8601 duration with its unit, where it is given.
pub open spec fn amount(n: Option<(nat, Seq<char>)>, unit: char) -> Seq<char> {
    match n {
        Some((w, f)) => written(w, f).push(unit),
        None => Seq::empty(),
    }
}

/// The billionths of one such number.
pub open spec fn amount_worth(n: Option<(nat, Seq<char>)>) -> nat {
    match n {
        Some((w, f)) => worth(w, f),
        None => 0,
    }
}

/// Whether one such number, where it is given, has no more places than nanoseconds can hold.
pub open spec fn amount_fits(n: Option<(nat, Seq<char>)>) -> bool {
    n matches Some(p) ==> places(p.1)
}

/// An ISO-8601 duration of hours, minutes and seconds, each of which may be left out.
pub open spec fn iso(
    h: Option<(nat, Seq<char>)>,
    m: Option<(nat, Seq<char>)>,
    s: Option<(nat, Seq<char>)>,
) -> Seq<char> {
    seq!['P', 'T'] + amount(h, 'H') + amount(m, 'M') + amount(s, 'S')
}

/// A whole number, where there is one, as a number without places.
pub open spec fn whole(n: Option<nat>) -> Option<(nat, Seq<char>)> {
    match n {
        Some(w) => Some((w, Seq::empty())),
        None => None,
    }
}

/// A number, or nothing.
pub open spec fn or_none(n: Option<nat>) -> nat {
    match n {
        Some(w) => w,
        None => 0,
    }
}

proof fn lemma_first_digit(f: Seq<char>)
    requires
        f.len() > 0,
        all_digits(f),
    ensures
        dec_value(f) == (f[0] as nat - 48) * ten_to((f.len() - 1) as nat) + dec_value(f.skip(1)),
        all_digits(f.skip(1)),
{
    let a = f.take(1);
    let b = f.skip(1);
    assert(f =~= a + b);
    assert forall|i: int| 0 <= i < b.len() implies is_digit(#[trigger] b[i]) by {
        assert(b[i] == f[i + 1]);
    }
    law_digits_join(a, b);
    assert(a.drop_last() =~= Seq::<char>::empty());
    assert(dec_value(a.drop_last()) == 0);
    assert(a.last() == f[0]);
    assert(is_digit(f[0]));
}

#[verifier::rlimit(40)]
proof fn lemma_fraction(f: Seq<char>, k: nat)
    requires
        all_digits(f),
        f.len() <= k + 1,
    ensures
        fraction_nanos(f, ten_to(k)) == dec_value(f) * ten_to((k + 1 - f.len()) as nat),
    decreases f.len(),
{
    lemma_ten_to(k);
    if f.len() > 0 {
        lemma_first_digit(f);
        let g = f.skip(1);
        let d = (f[0] as nat - 48) as nat;
        assert(is_digit(f[0]));
        let r = (k + 1 - f.len()) as nat;
        let q = (f.len() - 1) as nat;
        assert(ten_to(q) * ten_to(r) == ten_to(k)) by {
            lemma_ten_to_sum(q, r);
            assert(q + r == k);
        }
        assert((d * ten_to(q) + dec_value(g)) * ten_to(r) == d * (ten_to(q) * ten_to(r)) + dec_value(g)
            * ten_to(r)) by (nonlinear_arith);
        let t = ten_to(k);
        assert(d * t >= 0) by (nonlinear_arith);
        assert(fraction_nanos(f, t) == d * t + fraction_nanos(g, t / 10));
        if k > 0 {
            lemma_ten_to((k - 1) as nat);
            assert(ten_to(k) / 10 == ten_to((k - 1) as nat));
            lemma_fraction(g, (k - 1) as nat);
        } else {
            assert(g =~= Seq::<char>::empty());
            assert(dec_value(g) == 0);
            assert(fraction_nanos(g, t / 10) == 0);
            lemma_nothing(g, ten_to(r));
        }
    } else {
        assert(dec_value(f) == 0);
        lemma_nothing(f, ten_to((k + 1 - f.len()) as nat));
    }
}

/// No digits are worth nothing.
proof fn lemma_nothing(f: Seq<char>, t: nat)
    requires
        f.len() == 0,
    ensures
        dec_value(f) * t == 0,
{
    let z = dec_value(f);
    assert(z * t == 0) by (nonlinear_arith)
        requires
            z == 0,
    ;
}

proof fn lemma_ten_to_sum(a: nat, b: nat)
    ensures
        ten_to(a) * ten_to(b) == ten_to(a + b),
    decreases b,
{
    lemma_ten_to(0);
    if b == 0 {
        assert(ten_to(a) * 1 == ten_to(a));
    } else {
        let c = (b - 1) as nat;
        lemma_ten_to_sum(a, c);
        lemma_ten_to(c);
        lemma_ten_to(a + c);
        assert(ten_to(a) * (10 * ten_to(c)) == 10 * (ten_to(a) * ten_to(c))) by (nonlinear_arith);
    }
}

proof fn lemma_hundred_million()
    ensures
        ten_to(8) == 100_000_000,
        ten_to(9) == 1_000_000_000,
{
    lemma_ten_to(0);
    lemma_ten_to(1);
    lemma_ten_to(2);
    lemma_ten_to(3);
    lemma_ten_to(4);
    lemma_ten_to(5);
    lemma_ten_to(6);
    lemma_ten_to(7);
    lemma_ten_to(8);
}

/// A decimal number is made of digits and at most one point; where its digits end is known.
#[verifier::rlimit(40)]
proof fn lemma_written(w: nat, f: Seq<char>)
    requires
        places(f),
    ensures
        ({
            let s = written(w, f);
            &&& s.len() > 0
            &&& is_digit(s[0])
            &&& forall|i: int| 0 <= i < s.len() ==> Class::Decimal.holds(#[trigger] s[i])
            &&& run_end(s, 0, Class::Digit) == dec(w).len()
            &&& s.take(dec(w).len() as int) == dec(w)
            &&& f.len() == 0 ==> s.len() == dec(w).len()
            &&& f.len() > 0 ==> {
                &&& s.len() == dec(w).len() + 1 + f.len()
                &&& s[dec(w).len() as int] == '.'
                &&& s.skip(dec(w).len() as int + 1) == f
                &&& run_end(s, dec(w).len() as int + 1, Class::Digit) == s.len()
            }
        }),
{
    law_decimal_reads_back(w);
    let d = dec(w);
    let s = written(w, f);
    let k = d.len() as int;
    assert(s.take(k) =~= d);
    assert forall|i: int| 0 <= i < k implies Class::Digit.holds(#[trigger] s[i]) by {
        assert(s[i] == d[i]);
    }
    if f.len() > 0 {
        assert(s.skip(k + 1) =~= f);
        assert forall|i: int| k + 1 <= i < s.len() implies Class::Digit.holds(#[trigger] s[i]) by {
            assert(s[i] == f[i - k - 1]);
        }
        lemma_run_reaches(s, k + 1, s.len() as int, Class::Digit);
    }
    lemma_run_reaches(s, 0, k, Class::Digit);
    assert forall|i: int| 0 <= i < s.len() implies Class::Decimal.holds(#[trigger] s[i]) by {
        if i < k {
            assert(Class::Digit.holds(s[i]));
        } else if i > k {
            assert(Class::Digit.holds(s[i]));
        }
    }
}

proof fn lemma_decimal_nanos(w: nat, f: Seq<char>)
    requires
        places(f),
    ensures
        decimal_nanos(written(w, f)) == worth(w, f),
{
    lemma_written(w, f);
    law_decimal_reads_back(w);
    lemma_hundred_million();
    lemma_fraction(f, 8);
    if f.len() == 0 {
        lemma_nothing(f, ten_to(9));
    }
}

/// Reading past one number and its unit.
proof fn lemma_amount(pre: Seq<char>, n: Option<(nat, Seq<char>)>, unit: char, rest: Seq<char>)
    requires
        amount_fits(n),
        unit == 'H' || unit == 'M' || unit == 'S',
    ensures
        ({
            let s = pre + amount(n, unit) + rest;
            let seconds: nat = if unit == 'H' {
                3600
            } else if unit == 'M' {
                60
            } else {
                1
            };
            iso_nanos(s, pre.len() as int) == seconds * amount_worth(n) + iso_nanos(
                s,
                (pre.len() + amount(n, unit).len()) as int,
            )
        }),
{
    let s = pre + amount(n, unit) + rest;
    if let Some((w, f)) = n {
        let t = written(w, f);
        let a = pre.len() as int;
        let e = a + t.len();
        lemma_written(w, f);
        assert forall|i: int| a <= i < e implies Class::Decimal.holds(#[trigger] s[i]) by {
            assert(s[i] == t[i - a]);
        }
        assert(s[e] == unit);
        lemma_run_reaches(s, a, e, Class::Decimal);
        assert(s.subrange(a, e) =~= t);
        lemma_decimal_nanos(w, f);
    }
}

/// A written duration is as long as its hours of 3600 seconds, its minutes of 60 and its seconds
/// together, to the nanosecond, whichever of the three are given, and whatever white space stands
/// around it.
#[verifier::rlimit(40)]
pub proof fn law_iso_duration(
    a: Seq<char>,
    h: Option<(nat, Seq<char>)>,
    m: Option<(nat, Seq<char>)>,
    s: Option<(nat, Seq<char>)>,
    b: Seq<char>,
)
    requires
        all_white(a),
        amount_fits(h),
        amount_fits(m),
        amount_fits(s),
        all_white(b),
    ensures
        duration_nanos(a + iso(h, m, s) + b) == 3600 * amount_worth(h) + 60 * amount_worth(m)
            + amount_worth(s),
{
    let t = iso(h, m, s);
    let hs = amount(h, 'H');
    let ms = amount(m, 'M');
    let ss = amount(s, 'S');
    assert(t[0] == 'P');
    assert(tight(t)) by {
        if ss.len() > 0 {
            assert(t.last() == 'S');
        } else if ms.len() > 0 {
            assert(t.last() == 'M');
        } else if hs.len() > 0 {
            assert(t.last() == 'H');
        } else {
            assert(t.last() == 'T');
        }
    }
    law_trim_takes_white_space(a, t, b);
    reveal_strlit("PT");
    assert("PT"@ =~= seq!['P', 'T']);
    assert(occurs(t, "PT"@, 0)) by {
        assert(t.subrange(0, 2) =~= "PT"@);
    }
    let body = hs + ms + ss;
    assert(t.skip(2) =~= body);
    let e = Seq::<char>::empty();
    assert(body =~= e + hs + (ms + ss));
    lemma_amount(e, h, 'H', ms + ss);
    assert(body =~= hs + ms + ss);
    lemma_amount(hs, m, 'M', ss);
    assert(body =~= (hs + ms) + ss + e);
    lemma_amount(hs + ms, s, 'S', e);
    lemma_run_reaches(body, body.len() as int, body.len() as int, Class::Decimal);
    assert(iso_nanos(body, body.len() as int) == 0);
}

/// The duration `PT<h>H<m>M<s>S` of whole hours, minutes and seconds is 3600 * h + 60 * m + s
/// seconds long, and as long where some of the three are left out and count for nothing.
#[verifier::rlimit(50)]
pub proof fn law_whole_iso_duration(h: Option<nat>, m: Option<nat>, s: Option<nat>)
    ensures
        duration_nanos(iso(whole(h), whole(m), whole(s))) == (3600 * or_none(h) + 60 * or_none(m)
            + or_none(s)) * 1_000_000_000,
        h is Some && m is Some && s is Some ==> iso(whole(h), whole(m), whole(s)) == "PT"@ + dec(h->0)
            + "H"@ + dec(m->0) + "M"@ + dec(s->0) + "S"@,
{
    let e = Seq::<char>::empty();
    let t = iso(whole(h), whole(m), whole(s));
    law_iso_duration(e, whole(h), whole(m), whole(s), e);
    assert(e + t + e =~= t);
    lemma_nothing(e, ten_to(9));
    reveal_strlit("PT");
    reveal_strlit("H");
    reveal_strlit("M");
    reveal_strlit("S");
    if h is Some && m is Some && s is Some {
        assert(t =~= "PT"@ + dec(h->0) + "H"@ + dec(m->0) + "M"@ + dec(s->0) + "S"@);
    }
}

proof fn lemma_tens(k: nat)
    ensures
        tens(k) == ten_to(k),
    decreases k,
{
    lemma_ten_to(0);
    if k > 0 {
        lemma_tens((k - 1) as nat);
        lemma_ten_to((k - 1) as nat);
    }
}

/// A plain number is a number of seconds: it is as long as the ISO-8601 duration of so many seconds,
/// whatever white space stands around it.
#[verifier::rlimit(50)]
pub proof fn law_plain_duration(a: Seq<char>, w: nat, f: Seq<char>, b: Seq<char>)
    requires
        all_white(a),
        places(f),
        all_white(b),
    ensures
        duration_nanos(a + written(w, f) + b) == worth(w, f),
        duration_nanos(a + written(w, f) + b) == duration_nanos(iso(None, None, Some((w, f)))),
{
    let t = written(w, f);
    let e = Seq::<char>::empty();
    lemma_written(w, f);
    law_decimal_reads_back(w);
    let k = dec(w).len() as int;
    assert(Class::Decimal.holds(t[t.len() - 1]));
    assert(tight(t));
    law_trim_takes_white_space(a, t, b);
    reveal_strlit("PT");
    assert(!occurs(t, "PT"@, 0)) by {
        if occurs(t, "PT"@, 0) {
            assert(t.subrange(0, 2)[0] == "PT"@[0]);
        }
    }
    assert(unsigned(t) == t);
    lemma_no_name(t);
    let m = t.len() as int;
    assert(is_number(t));
    if f.len() == 0 {
        assert(t =~= dec(w));
        let digits = t.take(k) + Seq::<char>::empty();
        assert(digits =~= dec(w));
        lemma_hundred_million();
        lemma_tens(9);
        assert(plain_nanos(t) == pointed(digits, k + 9));
        assert(pointed(digits, k + 9) == dec_value(digits) * tens(9));
        lemma_nothing(f, ten_to(9));
    } else {
        assert(t.subrange(k + 1, m) =~= f);
        let digits = t.take(k) + f;
        let r = (9 - f.len()) as nat;
        assert(plain_nanos(t) == pointed(digits, k + 9));
        lemma_tens(r);
        law_digits_join(dec(w), f);
        lemma_ten_to_sum(f.len(), r);
        lemma_hundred_million();
        let x = w;
        let y = dec_value(f);
        assert((x * ten_to(f.len()) + y) * ten_to(r) == x * (ten_to(f.len()) * ten_to(r)) + y * ten_to(
            r,
        )) by (nonlinear_arith);
        if r == 0 {
            assert(pointed(digits, k + 9) == dec_value(digits)) by {
                assert(digits.take(k + 9) =~= digits);
            }
            lemma_ten_to(0);
            assert(dec_value(digits) * 1 == dec_value(digits));
        }
    }
    law_iso_duration(e, None, None, Some((w, f)), e);
    assert(e + iso(None, None, Some((w, f))) + e =~= iso(None, None, Some((w, f))));
}

/// A text that starts with a digit is not the name of a number.
proof fn lemma_no_name(t: Seq<char>)
    requires
        t.len() > 0,
        is_digit(t[0]),
    ensures
        !same_ignoring_case(t, "inf"@),
        !same_ignoring_case(t, "infinity"@),
        !same_ignoring_case(t, "nan"@),
{
    reveal_strlit("inf");
    reveal_strlit("infinity");
    reveal_strlit("nan");
    assert(lower_seq(t)[0] == t[0]);
    assert(lower_seq("inf"@)[0] == 'i');
    assert(lower_seq("infinity"@)[0] == 'i');
    assert(lower_seq("nan"@)[0] == 'n');
}

} // verus!
