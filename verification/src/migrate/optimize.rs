//! Optimisation suggestions: dead functions, struct packing and parallel loops.
use crate::migrate::discovery::{
    discover, lines_surface, readable, ApiSurfaceMap, ExportView, Surface,
};
use crate::migrate::declarations::{
    declaration_end, declared_text, declares_at, is_declared, is_declared_at, loose_text, own_text,
    owns, text_outside,
};
use crate::strings::{
    before, chars_of, cut_before, dec, decimal, find_from, has_text, holds_text, lemma_find_from,
    lines, occurs, part, search, split_lines, stands_at, starts, str_eq, string_of, texts, trim, trimmed,
    wide_decimal, Class,
};
use vstd::prelude::*;
use vstd::string::*;

verus! {

/// Category of an optimization [`Suggestion`].
#[derive(Debug, Clone, Copy, PartialEq, Eq)]
pub enum SuggestionKind {
    DeadCode,
    StructPacking,
    LoopParallel,
}

/// A single optimization suggestion.
#[derive(Debug, Clone, PartialEq, Eq)]
pub struct Suggestion {
    pub category: SuggestionKind,
    pub message: String,
    /// Optional source location (e.g. a line number) for the suggestion.
    pub location: Option<String>,
}

/// The mathematical form of a suggestion.
pub struct SuggestionView {
    pub category: SuggestionKind,
    pub message: Seq<char>,
    pub location: Option<Seq<char>>,
}

impl DeepView for Suggestion {
    type V = SuggestionView;

    open spec fn deep_view(&self) -> SuggestionView {
        SuggestionView {
            category: self.category,
            message: self.message@,
            location: self.location.deep_view(),
        }
    }
}

/// How often `p` stands in `s` from `from` on, occurrences not overlapping.
pub open spec fn count_from(s: Seq<char>, p: Seq<char>, from: int) -> nat
    decreases s.len() - from,
    when 0 <= from <= s.len() && p.len() > 0
    via count_from_decreases
{
    match find_from(s, p, from) {
        Some(i) => 1 + count_from(s, p, i + p.len()),
        None => 0,
    }
}

#[via_fn]
proof fn count_from_decreases(s: Seq<char>, p: Seq<char>, from: int) {
    lemma_find_from(s, p, from);
}

/// How often `p` stands in `s`, occurrences not overlapping.
pub open spec fn count(s: Seq<char>, p: Seq<char>) -> nat {
    count_from(s, p, 0)
}

fn count_matches(v: &Vec<char>, p: &Vec<char>) -> (n: usize)
    requires
        p@.len() > 0,
    ensures
        n == count(v@, p@),
{
    let len = v.len();
    let mut n: usize = 0;
    let mut from: usize = 0;
    loop
        invariant
            0 <= n <= from <= v@.len(),
            len == v@.len(),
            p@.len() > 0,
            count(v@, p@) == n + count_from(v@, p@, from as int),
        decreases v@.len() - from,
    {
        proof {
            lemma_find_from(v@, p@, from as int);
        }
        match search(v, p, from) {
            Some(i) => {
                assert(i + p@.len() <= len);
                n = n + 1;
                from = i + p.len();
            },
            None => {
                return n;
            },
        }
    }
}

/// How a call of a function is written.
pub open spec fn call_text(name: Seq<char>) -> Seq<char> {
    name + "("@
}

/// How the declaration of a function is written.
pub open spec fn declaration_text(name: Seq<char>) -> Seq<char> {
    "function "@ + call_text(name)
}

/// How often a function is called: how often its name is followed by `(`, without its
/// declarations.
pub open spec fn net_calls(source: Seq<char>, name: Seq<char>) -> nat {
    let total = count(source, call_text(name));
    let defs = count(source, declaration_text(name));
    if total >= defs {
        (total - defs) as nat
    } else {
        0
    }
}

fn net_call_count(source: &Vec<char>, name: &str) -> (n: usize)
    ensures
        n == net_calls(source@, name@),
{
    proof {
        reveal_strlit("(");
        reveal_strlit("function ");
    }
    let mut call = chars_of(name);
    call.push('(');
    assert(call@ =~= call_text(name@));
    let mut decl = String::from_str("function ");
    decl.append(name);
    decl.append("(");
    assert(decl@ =~= declaration_text(name@));
    let decl_chars = chars_of(&decl);
    let total = count_matches(source, &call);
    let defs = count_matches(source, &decl_chars);
    if total >= defs {
        total - defs
    } else {
        0
    }
}

/// Whether a name stands at a position as a whole word.
pub open spec fn word_at(s: Seq<char>, g: Seq<char>, i: int) -> bool {
    &&& occurs(s, g, i)
    &&& i == 0 || !Class::Ident.holds(s[i - 1])
    &&& i + g.len() >= s.len() || !Class::Ident.holds(s[i + g.len()])
}

/// How often a name stands in a text as a whole word before a position, without its declarations.
pub open spec fn net_words(s: Seq<char>, g: Seq<char>, to: int) -> int
    decreases to,
{
    if to <= 0 {
        0
    } else {
        net_words(s, g, to - 1) + (if word_at(s, g, to - 1) {
            1int
        } else {
            0
        }) - (if declares_at(s, g, to - 1) {
            1int
        } else {
            0
        })
    }
}

/// Whether a text refers to a name: it calls it, or names it other than to declare it.
pub open spec fn refers(s: Seq<char>, g: Seq<char>) -> bool {
    net_calls(s, g) > 0 || net_words(s, g, s.len() as int) > 0
}

fn is_referred(v: &Vec<char>, name: &str) -> (b: bool)
    ensures
        b == refers(v@, name@),
{
    if net_call_count(v, name) > 0 {
        return true;
    }
    let g = chars_of(name);
    let n = v.len();
    let len = g.len();
    let mut words: usize = 0;
    let mut declarations: usize = 0;
    let mut i: usize = 0;
    while i < n
        invariant
            0 <= i <= n,
            n == v@.len(),
            g@ == name@,
            len == g@.len(),
            words <= i,
            declarations <= i,
            words - declarations == net_words(v@, name@, i as int),
        decreases n - i,
    {
        if stands_at(v, &g, i) && (i == 0 || !Class::Ident.has(v[i - 1])) {
            let end = i + len;
            if end >= n || !Class::Ident.has(v[end]) {
                words = words + 1;
            }
        }
        if is_declared_at(v, name, i) {
            declarations = declarations + 1;
        }
        i = i + 1;
    }
    words > declarations
}

/// The names other than `f` that the declaration of `f` calls, in order.
pub open spec fn callees(source: Seq<char>, names: Seq<Seq<char>>, f: Seq<char>) -> Seq<Seq<char>>
    decreases names.len(),
{
    if names.len() == 0 {
        Seq::empty()
    } else {
        let rest = callees(source, names.drop_last(), f);
        if names.last() != f && net_calls(own_text(source, f), names.last()) > 0 {
            rest.push(names.last())
        } else {
            rest
        }
    }
}

fn called_names(source: &Vec<char>, names: &Vec<String>, f: &String) -> (r: Vec<String>)
    ensures
        r.deep_view() == callees(source@, names.deep_view(), f@),
{
    let ghost all = names.deep_view();
    let own = declared_text(source, f);
    let mut r: Vec<String> = Vec::new();
    let mut i: usize = 0;
    assert(all.take(0) =~= Seq::<Seq<char>>::empty());
    assert(r.deep_view() =~= callees(source@, all.take(0), f@));
    while i < names.len()
        invariant
            0 <= i <= names@.len(),
            all == names.deep_view(),
            own@ == own_text(source@, f@),
            r.deep_view() == callees(source@, all.take(i as int), f@),
        decreases names@.len() - i,
    {
        assert(all.take(i + 1).drop_last() =~= all.take(i as int));
        assert(all.take(i + 1).last() == names@[i as int]@);
        let ghost was = r.deep_view();
        if !str_eq(&names[i], f) && net_call_count(&own, &names[i]) > 0 {
            let c = names[i].clone();
            r.push(c);
            assert(r.deep_view() =~= was.push(c@));
        }
        i = i + 1;
    }
    assert(all.take(all.len() as int) =~= all);
    r
}

/// The names of a list that a text refers to, other than `f`, in order.
pub open spec fn referred(text: Seq<char>, names: Seq<Seq<char>>, f: Seq<char>) -> Seq<Seq<char>>
    decreases names.len(),
{
    if names.len() == 0 {
        Seq::empty()
    } else {
        let rest = referred(text, names.drop_last(), f);
        if names.last() != f && refers(text, names.last()) {
            rest.push(names.last())
        } else {
            rest
        }
    }
}

fn referred_names(text: &Vec<char>, names: &Vec<String>, f: &str) -> (r: Vec<String>)
    ensures
        r.deep_view() == referred(text@, names.deep_view(), f@),
{
    let ghost all = names.deep_view();
    let mut r: Vec<String> = Vec::new();
    let mut i: usize = 0;
    assert(all.take(0) =~= Seq::<Seq<char>>::empty());
    assert(r.deep_view() =~= referred(text@, all.take(0), f@));
    while i < names.len()
        invariant
            0 <= i <= names@.len(),
            all == names.deep_view(),
            r.deep_view() == referred(text@, all.take(i as int), f@),
        decreases names@.len() - i,
    {
        assert(all.take(i + 1).drop_last() =~= all.take(i as int));
        assert(all.take(i + 1).last() == names@[i as int]@);
        let ghost was = r.deep_view();
        if !str_eq(&names[i], f) && is_referred(text, &names[i]) {
            let c = names[i].clone();
            r.push(c);
            assert(r.deep_view() =~= was.push(c@));
        }
        i = i + 1;
    }
    assert(all.take(all.len() as int) =~= all);
    r
}

/// The names of a list, each once, in order of first appearance.
pub open spec fn distinct(names: Seq<Seq<char>>) -> Seq<Seq<char>>
    decreases names.len(),
{
    if names.len() == 0 {
        Seq::empty()
    } else if distinct(names.drop_last()).contains(names.last()) {
        distinct(names.drop_last())
    } else {
        distinct(names.drop_last()).push(names.last())
    }
}

/// A call graph: each function once, with the other functions that it calls.
pub open spec fn graph_of(source: Seq<char>, names: Seq<Seq<char>>) -> Seq<(
    Seq<char>,
    Seq<Seq<char>>,
)> {
    distinct(names).map_values(|f: Seq<char>| (f, callees(source, names, f)))
}

/// Whether a list holds a name.
fn holds_name(names: &Vec<String>, name: &str) -> (b: bool)
    ensures
        b == names.deep_view().contains(name@),
{
    let ghost all = names.deep_view();
    let mut i: usize = 0;
    while i < names.len()
        invariant
            0 <= i <= names@.len(),
            all == names.deep_view(),
            forall|j: int| 0 <= j < i ==> all[j] != name@,
        decreases names@.len() - i,
    {
        assert(all[i as int] == names@[i as int]@);
        if str_eq(&names[i], name) {
            assert(all.contains(name@));
            return true;
        }
        i = i + 1;
    }
    false
}

/// Build a flat call graph: for each declared function, the list of other declared functions it
/// references via `name(` call sites (definitions excluded).
pub fn public_call_graph(source: &str, functions: &Vec<String>) -> (graph: Vec<(
    String,
    Vec<String>,
)>)
    ensures
        graph.deep_view() == graph_of(source@, functions.deep_view()),
{
    let v = chars_of(source);
    let ghost all = functions.deep_view();
    let mut names: Vec<String> = Vec::new();
    let mut graph: Vec<(String, Vec<String>)> = Vec::new();
    let mut i: usize = 0;
    assert(all.take(0) =~= Seq::<Seq<char>>::empty());
    assert(names.deep_view() =~= distinct(all.take(0)));
    assert(graph.deep_view() =~= distinct(all.take(0)).map_values(
        |f: Seq<char>| (f, callees(source@, all, f)),
    ));
    while i < functions.len()
        invariant
            0 <= i <= functions@.len(),
            v@ == source@,
            all == functions.deep_view(),
            names.deep_view() == distinct(all.take(i as int)),
            graph.deep_view() == distinct(all.take(i as int)).map_values(
                |f: Seq<char>| (f, callees(source@, all, f)),
            ),
        decreases functions@.len() - i,
    {
        assert(all.take(i + 1).drop_last() =~= all.take(i as int));
        assert(all.take(i + 1).last() == functions@[i as int]@);
        if !holds_name(&names, &functions[i]) {
            let f = functions[i].clone();
            let cs = called_names(&v, functions, &f);
            let ghost n0 = names.deep_view();
            let ghost g0 = graph.deep_view();
            let ghost entry = (f@, cs.deep_view());
            names.push(f.clone());
            graph.push((f, cs));
            assert(names.deep_view() =~= n0.push(entry.0));
            assert(graph.deep_view() =~= g0.push(entry));
            assert(graph.deep_view() =~= distinct(all.take(i + 1)).map_values(
                |f: Seq<char>| (f, callees(source@, all, f)),
            ));
        }
        i = i + 1;
    }
    assert(all.take(all.len() as int) =~= all);
    graph
}

/// Whether a declaration refers to another: both names are declared, they differ, and the text of
/// the one refers to the other.
pub open spec fn leads_to(
    source: Seq<char>,
    names: Seq<Seq<char>>,
    f: Seq<char>,
    g: Seq<char>,
) -> bool {
    names.contains(f) && names.contains(g) && g != f && refers(own_text(source, f), g)
}

/// Whether a function is reached from the starting names in `k` steps.
pub open spec fn reached_in(
    source: Seq<char>,
    names: Seq<Seq<char>>,
    start: Seq<Seq<char>>,
    f: Seq<char>,
    k: nat,
) -> bool
    decreases k,
{
    if k == 0 {
        start.contains(f)
    } else {
        exists|g: Seq<char>|
            reached_in(source, names, start, g, (k - 1) as nat) && #[trigger] leads_to(
                source,
                names,
                g,
                f,
            )
    }
}

/// Whether a function is reached from the starting names.
pub open spec fn reached(
    source: Seq<char>,
    names: Seq<Seq<char>>,
    start: Seq<Seq<char>>,
    f: Seq<char>,
) -> bool {
    exists|k: nat| reached_in(source, names, start, f, k)
}

/// The names of a list that a text refers to are those that `referred` lists.
pub proof fn lemma_referred(text: Seq<char>, names: Seq<Seq<char>>, f: Seq<char>)
    ensures
        forall|g: Seq<char>| #[trigger]
            referred(text, names, f).contains(g) <==> names.contains(g) && g != f && refers(text, g),
    decreases names.len(),
{
    let cs = referred(text, names, f);
    if names.len() > 0 {
        let front = names.drop_last();
        lemma_referred(text, front, f);
        let rest = referred(text, front, f);
        assert forall|g: Seq<char>| #[trigger] cs.contains(g) <==> names.contains(g) && g != f
            && refers(text, g) by {
            if cs.contains(g) {
                let i = choose|i: int| 0 <= i < cs.len() && cs[i] == g;
                if i < rest.len() {
                    assert(rest[i] == g);
                    assert(rest.contains(g));
                    let j = choose|j: int| 0 <= j < front.len() && front[j] == g;
                    assert(names[j] == g);
                } else {
                    assert(names[names.len() - 1] == g);
                }
            }
            if names.contains(g) && g != f && refers(text, g) {
                let j = choose|j: int| 0 <= j < names.len() && names[j] == g;
                if j < front.len() {
                    assert(front[j] == g);
                    assert(rest.contains(g));
                    let i = choose|i: int| 0 <= i < rest.len() && rest[i] == g;
                    assert(cs[i] == g);
                } else {
                    assert(cs[cs.len() - 1] == g);
                }
            }
        }
    }
}

/// The distinct names of a list are the names of the list.
proof fn lemma_distinct(names: Seq<Seq<char>>)
    ensures
        forall|g: Seq<char>| #[trigger] distinct(names).contains(g) <==> names.contains(g),
        distinct(names).no_duplicates(),
    decreases names.len(),
{
    if names.len() > 0 {
        let front = names.drop_last();
        lemma_distinct(front);
        let ds = distinct(names);
        let d0 = distinct(front);
        assert forall|g: Seq<char>| #[trigger] ds.contains(g) <==> names.contains(g) by {
            if ds.contains(g) {
                let i = choose|i: int| 0 <= i < ds.len() && ds[i] == g;
                if i < d0.len() {
                    assert(d0[i] == g);
                    assert(d0.contains(g));
                    let j = choose|j: int| 0 <= j < front.len() && front[j] == g;
                    assert(names[j] == g);
                } else {
                    assert(names[names.len() - 1] == g);
                }
            }
            if names.contains(g) {
                let j = choose|j: int| 0 <= j < names.len() && names[j] == g;
                if j < front.len() {
                    assert(front[j] == g);
                    assert(d0.contains(g));
                    let i = choose|i: int| 0 <= i < d0.len() && d0[i] == g;
                    assert(ds[i] == g);
                } else if d0.contains(g) {
                } else {
                    assert(ds[ds.len() - 1] == g);
                }
            }
        }
    }
}

/// A list without duplicates whose names are all in another is no longer than it.
proof fn lemma_distinct_len(a: Seq<Seq<char>>, b: Seq<Seq<char>>)
    requires
        a.no_duplicates(),
        forall|x: Seq<char>| a.contains(x) ==> b.contains(x),
    ensures
        a.len() <= b.len(),
    decreases a.len(),
{
    if a.len() > 0 {
        let x = a.last();
        assert(a.contains(x));
        let j = choose|j: int| 0 <= j < b.len() && b[j] == x;
        let b2 = b.remove(j);
        let a2 = a.drop_last();
        assert forall|y: Seq<char>| a2.contains(y) implies b2.contains(y) by {
            let i = choose|i: int| 0 <= i < a2.len() && a2[i] == y;
            assert(a[i] == y);
            assert(a.contains(y));
            let k = choose|k: int| 0 <= k < b.len() && b[k] == y;
            assert(y != x);
            if k < j {
                assert(b2[k] == y);
            } else {
                assert(b2[k - 1] == y);
            }
        }
        lemma_distinct_len(a2, b2);
    }
}

/// A set that holds the start and whatever its names lead to holds everything that is reached.
proof fn lemma_closed(
    source: Seq<char>,
    names: Seq<Seq<char>>,
    start: Seq<Seq<char>>,
    r: Seq<Seq<char>>,
    f: Seq<char>,
    k: nat,
)
    requires
        forall|x: Seq<char>| start.contains(x) ==> r.contains(x),
        forall|x: Seq<char>, y: Seq<char>|
            r.contains(x) && #[trigger] leads_to(source, names, x, y) ==> r.contains(y),
        reached_in(source, names, start, f, k),
    ensures
        r.contains(f),
    decreases k,
{
    if k > 0 {
        let g = choose|g: Seq<char>|
            reached_in(source, names, start, g, (k - 1) as nat) && #[trigger] leads_to(
                source,
                names,
                g,
                f,
            );
        lemma_closed(source, names, start, r, g, (k - 1) as nat);
    }
}

/// What a reached name leads to is reached.
proof fn lemma_reached_step(
    source: Seq<char>,
    names: Seq<Seq<char>>,
    start: Seq<Seq<char>>,
    f: Seq<char>,
    g: Seq<char>,
)
    requires
        reached(source, names, start, f),
        leads_to(source, names, f, g),
    ensures
        reached(source, names, start, g),
{
    let k = choose|k: nat| reached_in(source, names, start, f, k);
    assert(reached_in(source, names, start, f, ((k + 1) - 1) as nat));
    assert(reached_in(source, names, start, g, k + 1));
}

/// The names that are reached from the starting names.
fn reach(source: &str, names: &Vec<String>, start: &Vec<String>) -> (r: Vec<String>)
    ensures
        forall|f: Seq<char>| #[trigger]
            r.deep_view().contains(f) <==> reached(
                source@,
                names.deep_view(),
                start.deep_view(),
                f,
            ),
{
    let ghost src = source@;
    let ghost nv = names.deep_view();
    let ghost sv = start.deep_view();
    let v = chars_of(source);
    let mut r: Vec<String> = Vec::new();
    let mut stack: Vec<String> = Vec::new();
    let mut i: usize = 0;
    while i < start.len()
        invariant
            0 <= i <= start@.len(),
            sv == start.deep_view(),
            stack.deep_view() == sv.take(i as int),
        decreases start@.len() - i,
    {
        let ghost was = stack.deep_view();
        let n = start[i].clone();
        stack.push(n);
        assert(stack.deep_view() =~= was.push(n@));
        assert(sv.take(i + 1) =~= sv.take(i as int).push(sv[i as int]));
        i = i + 1;
    }
    assert(sv.take(sv.len() as int) =~= sv);
    proof {
        assert forall|x: Seq<char>| sv.contains(x) implies reached(src, nv, sv, x) by {
            assert(reached_in(src, nv, sv, x, 0));
        }
        assert forall|x: Seq<char>| sv.contains(x) implies (sv + nv).contains(x) by {
            let i = choose|i: int| 0 <= i < sv.len() && sv[i] == x;
            assert((sv + nv)[i] == x);
        }
    }
    let ghost universe = sv + nv;
    while stack.len() > 0
        invariant
            src == source@,
            v@ == src,
            nv == names.deep_view(),
            universe == sv + nv,
            r.deep_view().no_duplicates(),
            forall|x: Seq<char>| r.deep_view().contains(x) ==> universe.contains(x),
            forall|x: Seq<char>| stack.deep_view().contains(x) ==> universe.contains(x),
            forall|x: Seq<char>| r.deep_view().contains(x) ==> reached(src, nv, sv, x),
            forall|x: Seq<char>| stack.deep_view().contains(x) ==> reached(src, nv, sv, x),
            forall|x: Seq<char>|
                sv.contains(x) ==> r.deep_view().contains(x) || stack.deep_view().contains(x),
            forall|x: Seq<char>, y: Seq<char>|
                r.deep_view().contains(x) && #[trigger] leads_to(src, nv, x, y)
                    ==> r.deep_view().contains(y) || stack.deep_view().contains(y),
        decreases universe.len() - r@.len(), stack@.len(),
    {
        let ghost r0 = r.deep_view();
        let ghost s0 = stack.deep_view();
        let node = stack.pop().unwrap();
        let ghost s1 = stack.deep_view();
        proof {
            assert(s0 =~= s1.push(node@));
            assert(s0[s0.len() - 1] == node@);
            assert(s0.contains(node@));
            lemma_distinct_len(r0, universe);
            assert forall|x: Seq<char>| s0.contains(x) implies s1.contains(x) || x == node@ by {
                let i = choose|i: int| 0 <= i < s0.len() && s0[i] == x;
                if i < s1.len() {
                    assert(s1[i] == x);
                }
            }
            assert forall|x: Seq<char>| s1.contains(x) implies s0.contains(x) by {
                let i = choose|i: int| 0 <= i < s1.len() && s1[i] == x;
                assert(s0[i] == x);
            }
        }
        if !holds_name(&r, &node) {
            let callees_of: Vec<String> = if holds_name(names, &node) {
                referred_names(&declared_text(&v, &node), names, &node)
            } else {
                Vec::new()
            };
            proof {
                lemma_referred(own_text(src, node@), nv, node@);
            }
            let ghost cs = callees_of.deep_view();
            let ghost nodev = node@;
            r.push(node);
            let ghost r1 = r.deep_view();
            proof {
                assert(r1 =~= r0.push(nodev));
                assert(r1[r1.len() - 1] == nodev);
                assert forall|x: Seq<char>| r1.contains(x) implies r0.contains(x) || x == nodev by {
                    let i = choose|i: int| 0 <= i < r1.len() && r1[i] == x;
                    if i < r0.len() {
                        assert(r0[i] == x);
                    }
                }
                assert forall|x: Seq<char>| r0.contains(x) implies r1.contains(x) by {
                    let i = choose|i: int| 0 <= i < r0.len() && r0[i] == x;
                    assert(r1[i] == x);
                }
                assert forall|x: Seq<char>| cs.contains(x) implies leads_to(src, nv, nodev, x) by {}
                assert forall|x: Seq<char>| leads_to(src, nv, nodev, x) implies cs.contains(x) by {}
                lemma_distinct_len(r1, universe);
            }
            let mut j: usize = 0;
            while j < callees_of.len()
                invariant
                    0 <= j <= callees_of@.len(),
                    cs == callees_of.deep_view(),
                    r.deep_view() == r1,
                    forall|x: Seq<char>| s1.contains(x) ==> stack.deep_view().contains(x),
                    forall|x: Seq<char>|
                        stack.deep_view().contains(x) ==> s1.contains(x) || cs.contains(x),
                    forall|k: int|
                        0 <= k < j ==> r1.contains(cs[k]) || stack.deep_view().contains(cs[k]),
                decreases callees_of@.len() - j,
            {
                let ghost st = stack.deep_view();
                assert(cs[j as int] == callees_of@[j as int]@);
                if !holds_name(&r, &callees_of[j]) {
                    let c = callees_of[j].clone();
                    stack.push(c);
                    proof {
                        let st2 = stack.deep_view();
                        assert(st2 =~= st.push(c@));
                        assert(st2[st2.len() - 1] == c@);
                        assert(cs.contains(c@));
                        assert forall|x: Seq<char>| st.contains(x) implies st2.contains(x) by {
                            let i = choose|i: int| 0 <= i < st.len() && st[i] == x;
                            assert(st2[i] == x);
                        }
                        assert forall|x: Seq<char>| st2.contains(x) implies st.contains(x) || x
                            == c@ by {
                            let i = choose|i: int| 0 <= i < st2.len() && st2[i] == x;
                            if i < st.len() {
                                assert(st[i] == x);
                            }
                        }
                    }
                }
                j = j + 1;
            }
            proof {
                let st = stack.deep_view();
                assert forall|x: Seq<char>| st.contains(x) implies universe.contains(x) && reached(
                    src,
                    nv,
                    sv,
                    x,
                ) by {
                    if cs.contains(x) {
                        assert(leads_to(src, nv, nodev, x));
                        lemma_reached_step(src, nv, sv, nodev, x);
                        let k = choose|k: int| 0 <= k < nv.len() && nv[k] == x;
                        assert(universe[sv.len() + k] == x);
                    }
                }
                assert forall|x: Seq<char>, y: Seq<char>|
                    r1.contains(x) && #[trigger] leads_to(src, nv, x, y) implies r1.contains(y)
                    || st.contains(y) by {
                    if x == nodev {
                        assert(cs.contains(y));
                        let k = choose|k: int| 0 <= k < cs.len() && cs[k] == y;
                        assert(r1.contains(cs[k]) || st.contains(cs[k]));
                    } else {
                        assert(r0.contains(x));
                        assert(r0.contains(y) || s0.contains(y));
                    }
                }
            }
        }
    }
    proof {
        let rv = r.deep_view();
        assert(stack.deep_view() =~= Seq::<Seq<char>>::empty());
        assert forall|f: Seq<char>| reached(src, nv, sv, f) implies #[trigger] rv.contains(f) by {
            let k = choose|k: nat| reached_in(src, nv, sv, f, k);
            lemma_closed(src, nv, sv, rv, f, k);
        }
    }
    r
}

/// The names that a surface exports.
pub open spec fn export_names(exports: Seq<ExportView>) -> Seq<Seq<char>> {
    exports.map_values(|e: ExportView| e.name)
}

/// The declared names of a surface: its functions, then its exports.
pub open spec fn declared_names(s: Surface) -> Seq<Seq<char>> {
    s.functions + export_names(s.exports)
}

/// The names that hold, in order.
pub open spec fn kept(
    source: Seq<char>,
    names: Seq<Seq<char>>,
    start: Seq<Seq<char>>,
    fs: Seq<Seq<char>>,
) -> Seq<Seq<char>>
    decreases fs.len(),
{
    if fs.len() == 0 {
        Seq::empty()
    } else {
        let rest = kept(source, names, start, fs.drop_last());
        if reached(source, names, start, fs.last()) {
            rest.push(fs.last())
        } else {
            rest
        }
    }
}

/// Where reachability starts: at the exports, at the roots, and at every name that the text outside
/// of the functions refers to.
pub open spec fn entry_names(source: Seq<char>, s: Surface, roots: Seq<Seq<char>>) -> Seq<Seq<char>> {
    export_names(s.exports) + roots + loose_names(source, s)
}

/// The declared names that the text outside of the functions refers to.
pub open spec fn loose_names(source: Seq<char>, s: Surface) -> Seq<Seq<char>> {
    referred(loose_text(source, s.functions), s.functions, Seq::empty())
}

/// A surface without the functions that are not reached from its exports, from the roots or from
/// the text outside of functions.
pub open spec fn live_surface(source: Seq<char>, s: Surface, roots: Seq<Seq<char>>) -> Surface {
    Surface {
        imports: s.imports,
        exports: s.exports,
        functions: kept(
            source,
            declared_names(s),
            entry_names(source, s, roots),
            s.functions,
        ),
    }
}

/// Eliminate functions that are never reachable from the given `roots`.
///
/// Reachability starts from exported symbols plus any explicitly named entry points in `roots`, then
/// follows the call graph (built from `source`) to a fixpoint. Exported symbols and roots are always
/// retained; only unreferenced, non-exported functions are dropped. A function counts as referenced
/// where it is named without a call too, and where the text outside of functions names it.
pub fn eliminate_dead_code(source: &str, roots: &[&str]) -> (r: ApiSurfaceMap)
    requires
        readable(source@),
    ensures
        r@ == live_surface(source@, lines_surface(lines(source@)), str_views(roots@)),
{
    let map = discover(source);
    let ghost sv = map@;
    let mut names: Vec<String> = Vec::new();
    let mut start: Vec<String> = Vec::new();
    push_all(&mut names, &map.functions);
    let ghost ev = map.exports.deep_view();
    let mut i: usize = 0;
    assert(names.deep_view() =~= sv.functions + export_names(ev.take(0)));
    assert(start.deep_view() =~= export_names(ev.take(0)));
    while i < map.exports.len()
        invariant
            0 <= i <= map.exports@.len(),
            ev == map.exports.deep_view(),
            names.deep_view() == sv.functions + export_names(ev.take(i as int)),
            start.deep_view() == export_names(ev.take(i as int)),
        decreases map.exports@.len() - i,
    {
        let ghost n0 = names.deep_view();
        let ghost s0 = start.deep_view();
        let name = map.exports[i].name.clone();
        let ghost nv = name@;
        names.push(name.clone());
        start.push(name);
        assert(names.deep_view() =~= n0.push(nv));
        assert(start.deep_view() =~= s0.push(nv));
        assert(export_names(ev.take(i + 1)) =~= export_names(ev.take(i as int)).push(nv));
        assert(names.deep_view() =~= sv.functions + export_names(ev.take(i + 1)));
        i = i + 1;
    }
    assert(ev.take(ev.len() as int) =~= ev);
    push_strs(&mut start, roots);
    let loose = referred_names(
        &text_outside(&chars_of(source), &map.functions),
        &map.functions,
        "",
    );
    proof {
        reveal_strlit("");
        assert(""@ =~= Seq::<char>::empty());
    }
    push_all(&mut start, &loose);
    assert(start.deep_view() == entry_names(source@, sv, str_views(roots@)));
    let live = reach(source, &names, &start);
    let ghost fv = map.functions.deep_view();
    let mut functions: Vec<String> = Vec::new();
    let mut j: usize = 0;
    assert(fv.take(0) =~= Seq::<Seq<char>>::empty());
    assert(functions.deep_view() =~= kept(
        source@,
        names.deep_view(),
        start.deep_view(),
        fv.take(0),
    ));
    while j < map.functions.len()
        invariant
            0 <= j <= map.functions@.len(),
            fv == map.functions.deep_view(),
            forall|f: Seq<char>| #[trigger]
                live.deep_view().contains(f) <==> reached(
                    source@,
                    names.deep_view(),
                    start.deep_view(),
                    f,
                ),
            functions.deep_view() == kept(
                source@,
                names.deep_view(),
                start.deep_view(),
                fv.take(j as int),
            ),
        decreases map.functions@.len() - j,
    {
        assert(fv.take(j + 1).drop_last() =~= fv.take(j as int));
        assert(fv.take(j + 1).last() == map.functions@[j as int]@);
        let ghost was = functions.deep_view();
        if holds_name(&live, &map.functions[j]) {
            let f = map.functions[j].clone();
            functions.push(f);
            assert(functions.deep_view() =~= was.push(f@));
        }
        j = j + 1;
    }
    assert(fv.take(fv.len() as int) =~= fv);
    ApiSurfaceMap { imports: map.imports, exports: map.exports, functions }
}

/// Appends clones of all names.
fn push_all(out: &mut Vec<String>, more: &Vec<String>)
    ensures
        final(out).deep_view() == old(out).deep_view() + more.deep_view(),
{
    let ghost start = out.deep_view();
    let ghost mv = more.deep_view();
    let mut i: usize = 0;
    assert(start + mv.take(0) =~= start);
    while i < more.len()
        invariant
            0 <= i <= more@.len(),
            mv == more.deep_view(),
            out.deep_view() == start + mv.take(i as int),
        decreases more@.len() - i,
    {
        let ghost was = out.deep_view();
        let n = more[i].clone();
        out.push(n);
        assert(out.deep_view() =~= was.push(n@));
        assert(start + mv.take(i + 1) =~= (start + mv.take(i as int)).push(mv[i as int]));
        i = i + 1;
    }
    assert(mv.take(mv.len() as int) =~= mv);
}

/// The texts of a list of strings.
pub open spec fn str_views(s: Seq<&str>) -> Seq<Seq<char>> {
    s.map_values(|x: &str| x@)
}

/// Appends copies of all strings.
fn push_strs(out: &mut Vec<String>, more: &[&str])
    ensures
        final(out).deep_view() == old(out).deep_view() + str_views(more@),
{
    let ghost start = out.deep_view();
    let ghost mv = str_views(more@);
    let mut i: usize = 0;
    assert(start + mv.take(0) =~= start);
    while i < more.len()
        invariant
            0 <= i <= more@.len(),
            mv == str_views(more@),
            out.deep_view() == start + mv.take(i as int),
        decreases more@.len() - i,
    {
        let ghost was = out.deep_view();
        let n = String::from_str(more[i]);
        out.push(n);
        assert(out.deep_view() =~= was.push(n@));
        assert(start + mv.take(i + 1) =~= (start + mv.take(i as int)).push(mv[i as int]));
        i = i + 1;
    }
    assert(mv.take(mv.len() as int) =~= mv);
}

/// Of the functions, those stay that are reached from where reachability starts, however
/// indirectly, and no others.
pub proof fn law_live_functions(
    source: Seq<char>,
    names: Seq<Seq<char>>,
    start: Seq<Seq<char>>,
    fs: Seq<Seq<char>>,
    f: Seq<char>,
)
    ensures
        kept(source, names, start, fs).contains(f) <==> fs.contains(f) && reached(
            source,
            names,
            start,
            f,
        ),
    decreases fs.len(),
{
    let ks = kept(source, names, start, fs);
    if fs.len() > 0 {
        let front = fs.drop_last();
        law_live_functions(source, names, start, front, f);
        let k0 = kept(source, names, start, front);
        if ks.contains(f) {
            let i = choose|i: int| 0 <= i < ks.len() && ks[i] == f;
            if i < k0.len() {
                assert(k0[i] == f);
                let j = choose|j: int| 0 <= j < front.len() && front[j] == f;
                assert(fs[j] == f);
            } else {
                assert(fs[fs.len() - 1] == f);
            }
        }
        if fs.contains(f) && reached(source, names, start, f) {
            let j = choose|j: int| 0 <= j < fs.len() && fs[j] == f;
            if j < front.len() {
                assert(front[j] == f);
                let i = choose|i: int| 0 <= i < k0.len() && k0[i] == f;
                assert(ks[i] == f);
            } else {
                assert(ks[ks.len() - 1] == f);
            }
        }
    }
}

/// Every export has text of its own: its declarations as they stand in the source, or the whole
/// source where none is found.
pub proof fn law_exports_have_text(source: Seq<char>, e: ExportView)
    requires
        lines_surface(lines(source)).exports.contains(e),
    ensures
        own_text(source, e.name).len() > 0,
        !is_declared(source, e.name) ==> own_text(source, e.name) == source,
        forall|i: int, p: int|
            #[trigger] declares_at(source, e.name, i) && 0 <= i <= p < declaration_end(source, i)
                ==> #[trigger] own_text(source, e.name)[p] == source[p],
{
    if source.len() == 0 {
        assert(lines(source) =~= Seq::<Seq<char>>::empty());
        assert(lines_surface(lines(source)).exports.len() == 0);
    }
    assert forall|i: int, p: int|
        #[trigger] declares_at(source, e.name, i) && 0 <= i <= p < declaration_end(
            source,
            i,
        ) implies #[trigger] own_text(source, e.name)[p] == source[p] by {
        assert(p < source.len());
        assert(is_declared(source, e.name));
        assert(owns(source, e.name, p));
    }
}

/// Dead-code elimination drops nothing that is referenced. A function is kept where it is a root,
/// where the text outside of functions refers to it, or where it is called or named in the own text
/// of an exported name, of a declared root or of a kept function.
pub proof fn law_referenced_is_kept(
    source: Seq<char>,
    s: Surface,
    roots: Seq<Seq<char>>,
    f: Seq<char>,
    g: Seq<char>,
)
    requires
        s.functions.contains(g),
    ensures
        ({
            let live = live_surface(source, s, roots);
            &&& roots.contains(g) ==> live.functions.contains(g)
            &&& g.len() > 0 && refers(loose_text(source, s.functions), g) ==> live.functions.contains(
                g,
            )
            &&& export_names(s.exports).contains(f) || live.functions.contains(f) || (
            roots.contains(f) && declared_names(s).contains(f)) ==> (g != f && refers(
                own_text(source, f),
                g,
            ) ==> live.functions.contains(g))
            &&& live.exports == s.exports
            &&& live.imports == s.imports
        }),
{
    let names = declared_names(s);
    let start = entry_names(source, s, roots);
    let exports = export_names(s.exports);
    let loose = loose_names(source, s);
    law_live_functions(source, names, start, s.functions, g);
    law_live_functions(source, names, start, s.functions, f);
    lemma_referred(loose_text(source, s.functions), s.functions, Seq::empty());
    let at = choose|at: int| 0 <= at < s.functions.len() && s.functions[at] == g;
    assert(names[at] == g);
    if roots.contains(g) {
        let k = choose|k: int| 0 <= k < roots.len() && roots[k] == g;
        assert(start[exports.len() + k] == g);
        assert(reached_in(source, names, start, g, 0));
    }
    if g.len() > 0 && refers(loose_text(source, s.functions), g) {
        assert(loose.contains(g));
        let k = choose|k: int| 0 <= k < loose.len() && loose[k] == g;
        assert(start[exports.len() + roots.len() + k] == g);
        assert(reached_in(source, names, start, g, 0));
    }
    if exports.contains(f) {
        let k = choose|k: int| 0 <= k < exports.len() && exports[k] == f;
        assert(start[k] == f);
        assert(names[s.functions.len() + k] == f);
        assert(reached_in(source, names, start, f, 0));
    } else if roots.contains(f) {
        let k = choose|k: int| 0 <= k < roots.len() && roots[k] == f;
        assert(start[exports.len() + k] == f);
        assert(reached_in(source, names, start, f, 0));
    }
    if s.functions.contains(f) {
        let k = choose|k: int| 0 <= k < s.functions.len() && s.functions[k] == f;
        assert(names[k] == f);
    }
    if reached(source, names, start, f) && leads_to(source, names, f, g) {
        lemma_reached_step(source, names, start, f, g);
    }
}

/// A field of a struct: its name and its size in bytes.
pub type FieldSize = (Seq<char>, nat);

/// The fields of a list.
pub open spec fn sizes_of(fields: Seq<(String, usize)>) -> Seq<FieldSize> {
    fields.map_values(|f: (String, usize)| (f.0@, f.1 as nat))
}

/// The fields with one more set in: after every field that is at least as large.
pub open spec fn seated(fs: Seq<FieldSize>, f: FieldSize) -> Seq<FieldSize>
    decreases fs.len(),
{
    if fs.len() == 0 || fs.last().1 >= f.1 {
        fs.push(f)
    } else {
        seated(fs.drop_last(), f).push(fs.last())
    }
}

/// The fields by size, the largest first, equal sizes as they came.
pub open spec fn largest_first(fs: Seq<FieldSize>) -> Seq<FieldSize>
    decreases fs.len(),
{
    if fs.len() == 0 {
        Seq::empty()
    } else {
        seated(largest_first(fs.drop_last()), fs.last())
    }
}

proof fn lemma_seated(fs: Seq<FieldSize>, f: FieldSize)
    requires
        forall|i: int, j: int| 0 <= i < j < fs.len() ==> fs[i].1 >= fs[j].1,
    ensures
        forall|i: int, j: int|
            0 <= i < j < seated(fs, f).len() ==> seated(fs, f)[i].1 >= seated(fs, f)[j].1,
        seated(fs, f).to_multiset() == fs.to_multiset().insert(f),
        forall|i: int|
            0 <= i < seated(fs, f).len() ==> seated(fs, f)[i] == f || fs.contains(
                #[trigger] seated(fs, f)[i],
            ),
    decreases fs.len(),
{
    broadcast use vstd::seq_lib::group_to_multiset_ensures;

    let r = seated(fs, f);
    if fs.len() == 0 || fs.last().1 >= f.1 {
        assert forall|i: int| 0 <= i < r.len() implies r[i] == f || fs.contains(
            #[trigger] r[i],
        ) by {
            if i < fs.len() {
                assert(fs[i] == r[i]);
            }
        }
    } else {
        let front = fs.drop_last();
        lemma_seated(front, f);
        let s = seated(front, f);
        assert(fs =~= front.push(fs.last()));
        assert(r.to_multiset() =~= fs.to_multiset().insert(f));
        assert forall|i: int| 0 <= i < r.len() implies r[i] == f || fs.contains(
            #[trigger] r[i],
        ) by {
            if i < s.len() {
                assert(s[i] == r[i]);
                if s[i] != f {
                    assert(front.contains(s[i]));
                    let k = choose|k: int| 0 <= k < front.len() && front[k] == s[i];
                    assert(fs[k] == r[i]);
                }
            } else {
                assert(fs[fs.len() - 1] == r[i]);
            }
        }
        assert forall|i: int, j: int| 0 <= i < j < r.len() implies r[i].1 >= r[j].1 by {
            if j < s.len() {
                assert(s[i].1 >= s[j].1);
            } else {
                assert(r[i] == s[i]);
                if s[i] != f {
                    assert(front.contains(s[i]));
                    let k = choose|k: int| 0 <= k < front.len() && front[k] == s[i];
                    assert(fs[k].1 >= fs[fs.len() - 1].1);
                }
            }
        }
    }
}

/// The suggested order holds every field once and no field after a smaller one.
pub proof fn law_suggested_order(fs: Seq<FieldSize>)
    ensures
        forall|i: int, j: int|
            0 <= i < j < largest_first(fs).len() ==> largest_first(fs)[i].1 >= largest_first(
                fs,
            )[j].1,
        largest_first(fs).to_multiset() == fs.to_multiset(),
    decreases fs.len(),
{
    broadcast use vstd::seq_lib::group_to_multiset_ensures;

    if fs.len() > 0 {
        law_suggested_order(fs.drop_last());
        lemma_seated(largest_first(fs.drop_last()), fs.last());
        assert(fs =~= fs.drop_last().push(fs.last()));
    } else {
        assert(largest_first(fs) =~= fs);
    }
}

/// The smallest multiple of `a` that is at least `n`.
pub open spec fn aligned(n: nat, a: nat) -> nat {
    (((n + a - 1) as nat / a) * a) as nat
}

/// Where the fields end, each aligned to its own size.
pub open spec fn fields_end(fs: Seq<FieldSize>) -> nat
    decreases fs.len(),
{
    if fs.len() == 0 {
        0
    } else {
        let f = fs.last();
        let align = if f.1 == 0 {
            1
        } else {
            f.1
        };
        aligned(fields_end(fs.drop_last()), align) + f.1
    }
}

/// The estimated size of a struct: where its fields end, aligned to eight bytes.
pub open spec fn padded_size(fs: Seq<FieldSize>) -> nat {
    aligned(fields_end(fs), 8)
}

/// The names of fields, in order.
pub open spec fn field_names(fs: Seq<FieldSize>) -> Seq<Seq<char>> {
    fs.map_values(|f: FieldSize| f.0)
}

/// The names of fields, separated by commas.
pub open spec fn joined(names: Seq<Seq<char>>) -> Seq<char>
    decreases names.len(),
{
    if names.len() == 0 {
        Seq::empty()
    } else if names.len() == 1 {
        names[0]
    } else {
        joined(names.drop_last()) + ", "@ + names.last()
    }
}

/// The suggestions for a struct: none below two fields, else one.
pub open spec fn packing(fs: Seq<FieldSize>) -> Seq<SuggestionView> {
    let best = largest_first(fs);
    if fs.len() < 2 {
        Seq::empty()
    } else if field_names(best) != field_names(fs) || padded_size(best) < padded_size(fs) {
        seq![
            SuggestionView {
                category: SuggestionKind::StructPacking,
                message: "Reorder fields largest-first to reduce padding: "@ + joined(
                    field_names(best),
                ) + " (est. "@ + dec(padded_size(best)) + " bytes vs "@ + dec(padded_size(fs))
                    + " bytes)"@,
                location: None,
            },
        ]
    } else {
        seq![
            SuggestionView {
                category: SuggestionKind::StructPacking,
                message: "Field order is already packing-efficient"@,
                location: None,
            },
        ]
    }
}

/// Whether the estimated sizes of every prefix of the fields fit the arithmetic.
pub open spec fn sizes_fit(fs: Seq<FieldSize>) -> bool {
    forall|k: int| 0 <= k <= fs.len() ==> #[trigger] fields_end(fs.take(k)) <= u128::MAX - 7
}

proof fn lemma_aligned(n: nat, a: nat)
    requires
        a > 0,
    ensures
        n <= aligned(n, a) < n + a,
        aligned(n, a) == (if n % a == 0 {
            n
        } else {
            (n + (a - n % a)) as nat
        }),
{
    let q = n / a;
    let r = n % a;
    vstd::arithmetic::div_mod::lemma_fundamental_div_mod(n as int, a as int);
    vstd::arithmetic::div_mod::lemma_mod_bound(n as int, a as int);
    vstd::arithmetic::mul::lemma_mul_is_commutative(a as int, q as int);
    if r == 0 {
        vstd::arithmetic::div_mod::lemma_fundamental_div_mod_converse(
            n + a - 1,
            a as int,
            q as int,
            a - 1,
        );
    } else {
        assert((q + 1) * a == q * a + a) by (nonlinear_arith);
        vstd::arithmetic::div_mod::lemma_fundamental_div_mod_converse(
            n + a - 1,
            a as int,
            (q + 1) as int,
            r - 1,
        );
    }
}

/// Fields of at most `m` bytes each end within `2 * m` bytes per field.
pub proof fn lemma_fields_end(fs: Seq<FieldSize>, m: nat)
    requires
        m > 0,
        forall|i: int| 0 <= i < fs.len() ==> (#[trigger] fs[i]).1 <= m,
    ensures
        fields_end(fs) <= 2 * m * fs.len(),
    decreases fs.len(),
{
    if fs.len() > 0 {
        let front = fs.drop_last();
        assert(forall|i: int| 0 <= i < front.len() ==> front[i] == fs[i]);
        lemma_fields_end(front, m);
        let f = fs.last();
        assert(f == fs[fs.len() - 1]);
        let align = if f.1 == 0 {
            1
        } else {
            f.1
        };
        lemma_aligned(fields_end(front), align);
        assert(2 * m * fs.len() == 2 * m * front.len() + 2 * m) by (nonlinear_arith)
            requires
                fs.len() == front.len() + 1,
        ;
    }
}

/// Ordering fields keeps a bound on their sizes.
pub proof fn lemma_largest_first_bound(fs: Seq<FieldSize>, m: nat)
    requires
        forall|i: int| 0 <= i < fs.len() ==> (#[trigger] fs[i]).1 <= m,
    ensures
        largest_first(fs).len() == fs.len(),
        forall|i: int| 0 <= i < fs.len() ==> (#[trigger] largest_first(fs)[i]).1 <= m,
    decreases fs.len(),
{
    if fs.len() > 0 {
        let front = fs.drop_last();
        assert(forall|i: int| 0 <= i < front.len() ==> front[i] == fs[i]);
        lemma_largest_first_bound(front, m);
        law_suggested_order(front);
        law_suggested_order(fs);
        let s = largest_first(front);
        lemma_seated(s, fs.last());
        broadcast use vstd::seq_lib::group_to_multiset_ensures;
        assert(largest_first(fs).to_multiset().len() == fs.to_multiset().len());
        assert forall|i: int| 0 <= i < fs.len() implies (#[trigger] largest_first(fs)[i]).1
            <= m by {
            let x = seated(s, fs.last())[i];
            if x != fs.last() {
                assert(s.contains(x));
                let k = choose|k: int| 0 <= k < s.len() && s[k] == x;
                assert(s[k].1 <= m);
            } else {
                assert(fs[fs.len() - 1].1 <= m);
            }
        }
    }
}

/// The sizes of fields of at most 24 bytes fit, as many as there can be.
pub proof fn lemma_small_sizes_fit(fs: Seq<FieldSize>)
    requires
        forall|i: int| 0 <= i < fs.len() ==> (#[trigger] fs[i]).1 <= 24,
        fs.len() <= usize::MAX,
    ensures
        sizes_fit(fs),
        sizes_fit(largest_first(fs)),
{
    lemma_largest_first_bound(fs, 24);
    let best = largest_first(fs);
    assert forall|k: int| 0 <= k <= fs.len() implies #[trigger] fields_end(fs.take(k)) <= u128::MAX
        - 7 by {
        assert(forall|i: int| 0 <= i < k ==> fs.take(k)[i] == fs[i]);
        lemma_fields_end(fs.take(k), 24);
        assert(fs.take(k).len() == k);
        assert(2 * 24nat * (k as nat) <= 48 * fs.len()) by (nonlinear_arith)
            requires
                0 <= k <= fs.len(),
        ;
    }
    assert forall|k: int| 0 <= k <= best.len() implies #[trigger] fields_end(best.take(k))
        <= u128::MAX - 7 by {
        assert(forall|i: int| 0 <= i < k ==> best.take(k)[i] == best[i]);
        lemma_fields_end(best.take(k), 24);
        assert(best.take(k).len() == k);
        assert(2 * 24nat * (k as nat) <= 48 * best.len()) by (nonlinear_arith)
            requires
                0 <= k <= best.len(),
        ;
    }
}

/// The smallest multiple of `a` that is at least `n`.
fn align_up(n: u128, a: u128) -> (r: u128)
    requires
        a > 0,
        aligned(n as nat, a as nat) <= u128::MAX,
    ensures
        r == aligned(n as nat, a as nat),
{
    proof {
        lemma_aligned(n as nat, a as nat);
    }
    let rem: u128 = n % a;
    if rem == 0 {
        n
    } else {
        n + (a - rem)
    }
}

fn end_of_fields(fields: &Vec<(String, usize)>) -> (r: u128)
    requires
        sizes_fit(sizes_of(fields@)),
    ensures
        r == padded_size(sizes_of(fields@)),
{
    let ghost all = sizes_of(fields@);
    let mut offset: u128 = 0;
    let mut i: usize = 0;
    assert(all.take(0) =~= Seq::<FieldSize>::empty());
    while i < fields.len()
        invariant
            0 <= i <= fields@.len(),
            all == sizes_of(fields@),
            sizes_fit(all),
            offset == fields_end(all.take(i as int)),
        decreases fields@.len() - i,
    {
        let size: u128 = fields[i].1 as u128;
        let align: u128 = if size == 0 {
            1
        } else {
            size
        };
        proof {
            assert(all.take(i + 1).drop_last() =~= all.take(i as int));
            assert(all.take(i + 1).last() == all[i as int]);
            assert(fields_end(all.take(i + 1)) <= u128::MAX - 7);
        }
        offset = align_up(offset, align) + size;
        i = i + 1;
    }
    proof {
        assert(all.take(all.len() as int) =~= all);
        lemma_aligned(offset as nat, 8);
        assert(fields_end(all.take(all.len() as int)) <= u128::MAX - 7);
    }
    align_up(offset, 8)
}

fn sort_fields(fields: &Vec<(String, usize)>) -> (r: Vec<(String, usize)>)
    ensures
        sizes_of(r@) == largest_first(sizes_of(fields@)),
{
    let ghost all = sizes_of(fields@);
    let mut r: Vec<(String, usize)> = Vec::new();
    let mut i: usize = 0;
    assert(all.take(0) =~= Seq::<FieldSize>::empty());
    assert(sizes_of(r@) =~= largest_first(all.take(0)));
    while i < fields.len()
        invariant
            0 <= i <= fields@.len(),
            all == sizes_of(fields@),
            sizes_of(r@) == largest_first(all.take(i as int)),
        decreases fields@.len() - i,
    {
        let ghost fs = largest_first(all.take(i as int));
        let ghost f = all[i as int];
        let ghost r0 = r@;
        assert(all.take(i + 1).drop_last() =~= all.take(i as int));
        let size: usize = fields[i].1;
        let mut j: usize = r.len();
        proof {
            assert(fs.len() == r@.len());
            assert(fs.take(fs.len() as int) =~= fs);
            assert(fs.skip(fs.len() as int) =~= Seq::<FieldSize>::empty());
            assert(seated(fs, f) + Seq::<FieldSize>::empty() =~= seated(fs, f));
        }
        while j > 0 && r[j - 1].1 < size
            invariant
                0 <= j <= r@.len(),
                r@ == r0,
                sizes_of(r@) == fs,
                f.1 == size,
                seated(fs, f) == seated(fs.take(j as int), f) + fs.skip(j as int),
            decreases j,
        {
            proof {
                let t = fs.take(j as int);
                assert(fs[j - 1].1 == r@[j - 1].1);
                assert(t.drop_last() =~= fs.take(j - 1));
                assert(seated(t, f) == seated(fs.take(j - 1), f).push(fs[j - 1]));
                assert(seated(fs.take(j - 1), f) + fs.skip(j - 1) =~= seated(t, f) + fs.skip(
                    j as int,
                ));
            }
            j = j - 1;
        }
        proof {
            let t = fs.take(j as int);
            if j > 0 {
                assert(fs[j - 1].1 == r@[j - 1].1);
                assert(t.last() == fs[j - 1]);
            }
            assert(seated(t, f) == t.push(f));
            assert(fs.insert(j as int, f) =~= t.push(f) + fs.skip(j as int));
        }
        r.insert(j, (fields[i].0.clone(), size));
        assert(sizes_of(r@) =~= fs.insert(j as int, f));
        i = i + 1;
    }
    assert(all.take(all.len() as int) =~= all);
    r
}

fn join_names(fields: &Vec<(String, usize)>) -> (s: String)
    ensures
        s@ == joined(field_names(sizes_of(fields@))),
{
    let ghost names = field_names(sizes_of(fields@));
    let mut s = String::new();
    let mut i: usize = 0;
    assert(names.take(0) =~= Seq::<Seq<char>>::empty());
    while i < fields.len()
        invariant
            0 <= i <= fields@.len(),
            names == field_names(sizes_of(fields@)),
            s@ == joined(names.take(i as int)),
        decreases fields@.len() - i,
    {
        assert(names.take(i + 1).drop_last() =~= names.take(i as int));
        assert(names.take(i + 1).last() == fields@[i as int].0@);
        let ghost was = s@;
        if i > 0 {
            s.append(", ");
        }
        s.append(&fields[i].0);
        assert(i == 0 ==> s@ =~= names.take(1)[0]);
        i = i + 1;
    }
    assert(names.take(names.len() as int) =~= names);
    s
}

fn same_names(a: &Vec<(String, usize)>, b: &Vec<(String, usize)>) -> (r: bool)
    ensures
        r == (field_names(sizes_of(a@)) == field_names(sizes_of(b@))),
{
    let ghost x = field_names(sizes_of(a@));
    let ghost y = field_names(sizes_of(b@));
    if a.len() != b.len() {
        assert(x.len() != y.len());
        return false;
    }
    let mut i: usize = 0;
    while i < a.len()
        invariant
            0 <= i <= a@.len(),
            a@.len() == b@.len(),
            x == field_names(sizes_of(a@)),
            y == field_names(sizes_of(b@)),
            forall|j: int| 0 <= j < i ==> x[j] == y[j],
        decreases a@.len() - i,
    {
        assert(x[i as int] == a@[i as int].0@ && y[i as int] == b@[i as int].0@);
        if !str_eq(&a[i].0, &b[i].0) {
            return false;
        }
        i = i + 1;
    }
    assert(x =~= y);
    true
}

/// Suggest struct field reordering to minimize padding.
///
/// Fields are `(name, size_in_bytes)`; the suggestion orders them largest-first and reports the
/// estimated padded size.
pub fn suggest_struct_packing(fields: &Vec<(String, usize)>) -> (out: Vec<Suggestion>)
    requires
        sizes_fit(sizes_of(fields@)),
        sizes_fit(largest_first(sizes_of(fields@))),
    ensures
        out.deep_view() == packing(sizes_of(fields@)),
{
    let mut out: Vec<Suggestion> = Vec::new();
    let ghost fs = sizes_of(fields@);
    if fields.len() < 2 {
        assert(out.deep_view() =~= packing(fs));
        return out;
    }
    let best = sort_fields(fields);
    let optimized = end_of_fields(&best);
    let original = end_of_fields(fields);
    let message = if !same_names(&best, fields) || optimized < original {
        let mut s = String::from_str("Reorder fields largest-first to reduce padding: ");
        s.append(&join_names(&best));
        s.append(" (est. ");
        s.append(&wide_decimal(optimized));
        s.append(" bytes vs ");
        s.append(&wide_decimal(original));
        s.append(" bytes)");
        s
    } else {
        String::from_str("Field order is already packing-efficient")
    };
    out.push(Suggestion { category: SuggestionKind::StructPacking, message, location: None });
    assert(out.deep_view() =~= packing(fs));
    out
}

/// Whether a line starts or holds a loop.
pub open spec fn loops(code: Seq<char>) -> bool {
    ||| occurs(code, "for ("@, 0)
    ||| occurs(code, "for("@, 0)
    ||| occurs(code, "while ("@, 0)
    ||| occurs(code, "while("@, 0)
    ||| holds_text(code, "for (let"@)
    ||| holds_text(code, "for (const"@)
    ||| holds_text(code, "for (var"@)
}

/// The first 48 characters of a text.
pub open spec fn excerpt(code: Seq<char>) -> Seq<char> {
    if code.len() <= 48 {
        code
    } else {
        code.take(48)
    }
}

/// The suggestions for the first `n` lines.
pub open spec fn loop_suggestions(ls: Seq<Seq<char>>) -> Seq<SuggestionView>
    decreases ls.len(),
{
    if ls.len() == 0 {
        Seq::empty()
    } else {
        let rest = loop_suggestions(ls.drop_last());
        let code = trim(before(ls.last(), "//"@));
        if loops(code) {
            rest.push(
                SuggestionView {
                    category: SuggestionKind::LoopParallel,
                    message: "Consider parallelizing with rayon (e.g. `.par_iter()`): "@ + excerpt(
                        code,
                    ),
                    location: Some("line "@ + dec(ls.len())),
                },
            )
        } else {
            rest
        }
    }
}

/// Detect `for`/`while` loops in a source and suggest parallelizing them.
pub fn suggest_parallel_loops(source: &str) -> (out: Vec<Suggestion>)
    ensures
        out.deep_view() == loop_suggestions(lines(source@)),
{
    let v = chars_of(source);
    let ls = split_lines(&v);
    let ghost all = texts(ls@);
    let mut out: Vec<Suggestion> = Vec::new();
    let mut i: usize = 0;
    assert(all.take(0) =~= Seq::<Seq<char>>::empty());
    assert(out.deep_view() =~= loop_suggestions(all.take(0)));
    while i < ls.len()
        invariant
            0 <= i <= ls@.len(),
            all == texts(ls@),
            out.deep_view() == loop_suggestions(all.take(i as int)),
        decreases ls@.len() - i,
    {
        assert(all.take(i + 1).drop_last() =~= all.take(i as int));
        assert(all.take(i + 1).last() == ls@[i as int]@);
        let ghost was = out.deep_view();
        let code = trimmed(&cut_before(&ls[i], "//"));
        if starts(&code, "for (") || starts(&code, "for(") || starts(&code, "while (") || starts(
            &code,
            "while(",
        ) || has_text(&code, "for (let") || has_text(&code, "for (const") || has_text(
            &code,
            "for (var",
        ) {
            let n: usize = if code.len() <= 48 {
                code.len()
            } else {
                48
            };
            let cut = part(&code, 0, n);
            assert(cut@ =~= excerpt(code@));
            let mut message = String::from_str(
                "Consider parallelizing with rayon (e.g. `.par_iter()`): ",
            );
            message.append(&string_of(&cut));
            let mut location = String::from_str("line ");
            location.append(&decimal(i as u64 + 1));
            let s = Suggestion {
                category: SuggestionKind::LoopParallel,
                message,
                location: Some(location),
            };
            out.push(s);
            assert(out.deep_view() =~= was.push(s.deep_view()));
        }
        i = i + 1;
    }
    assert(all.take(all.len() as int) =~= all);
    out
}

} // verus!
