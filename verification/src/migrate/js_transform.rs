//! Source-to-source transformation by rules over a syntax tree.
//!
//! A [`Rule`] looks at one node and emits splices of the source; a [`Transformer`] collects the
//! splices and applies them. The starter rules map a subset of JavaScript to Rust: `function` to
//! `fn`, `const` and `var` to `let`, and `console.log` to `println!`.
use crate::migrate::syntax::{
    all_within, child_by_field, field_child, lemma_syntaxes_of, lemma_syntaxes_step,
    lemma_within_at, parse_syntax, parsed, span, span_text, syntax_of, syntaxes_of, within,
    SourceLang, Syntax, SyntaxView,
};
use crate::strings::{chars_of, str_eq, string_of};
use vstd::prelude::*;
use vstd::string::*;

verus! {

/// One splice: replace the characters from `start` up to `end`.
#[derive(Debug)]
struct Edit {
    start: usize,
    end: usize,
    replacement: String,
}

/// The mathematical form of a splice.
pub struct EditView {
    pub start: nat,
    pub end: nat,
    pub replacement: Seq<char>,
}

impl Edit {
    spec fn model(self) -> EditView {
        EditView {
            start: self.start as nat,
            end: self.end as nat,
            replacement: self.replacement@,
        }
    }
}

/// The splices with one more set in: after every splice that starts no earlier.
pub open spec fn placed(es: Seq<EditView>, e: EditView) -> Seq<EditView>
    decreases es.len(),
{
    if es.len() == 0 || es.last().start >= e.start {
        es.push(e)
    } else {
        placed(es.drop_last(), e).push(es.last())
    }
}

/// The splices in the order of application: the largest start first, equal starts as they came.
pub open spec fn ordered(es: Seq<EditView>) -> Seq<EditView>
    decreases es.len(),
{
    if es.len() == 0 {
        Seq::empty()
    } else {
        placed(ordered(es.drop_last()), es.last())
    }
}

/// The text with one splice applied.
pub open spec fn spliced(s: Seq<char>, e: EditView) -> Seq<char> {
    s.take(e.start as int) + e.replacement + s.skip(e.end as int)
}

/// The text with splices applied one after the other.
pub open spec fn all_spliced(s: Seq<char>, es: Seq<EditView>) -> Seq<char>
    decreases es.len(),
{
    if es.len() == 0 {
        s
    } else {
        spliced(all_spliced(s, es.drop_last()), es.last())
    }
}

/// Whether every splice spans characters of the text that it is applied to.
pub open spec fn fitting(s: Seq<char>, es: Seq<EditView>) -> bool
    decreases es.len(),
{
    es.len() > 0 ==> fitting(s, es.drop_last()) && es.last().start <= es.last().end <= all_spliced(
        s,
        es.drop_last(),
    ).len()
}

/// Accumulates splices of a source and applies them.
pub struct Transformer<'a> {
    source: &'a str,
    edits: Vec<Edit>,
}

impl<'a> Transformer<'a> {
    /// The source that is transformed.
    pub closed spec fn text(self) -> Seq<char> {
        self.source@
    }

    /// The splices collected so far, in order.
    pub closed spec fn splices(self) -> Seq<EditView> {
        self.edits@.map_values(|e: Edit| e.model())
    }

    /// A transformer of a source, with no splices yet.
    pub fn new(source: &'a str) -> (t: Self)
        ensures
            t.text() == source@,
            t.splices() == Seq::<EditView>::empty(),
    {
        let t = Transformer { source, edits: Vec::new() };
        assert(t.splices() =~= Seq::<EditView>::empty());
        t
    }

    /// Replaces the text that a node spans.
    pub fn replace_node(&mut self, node: &Syntax, replacement: &str)
        ensures
            final(self).text() == old(self).text(),
            final(self).splices() == old(self).splices().push(
                EditView {
                    start: node.start as nat,
                    end: node.end as nat,
                    replacement: replacement@,
                },
            ),
    {
        let e = Edit {
            start: node.start,
            end: node.end,
            replacement: String::from_str(replacement),
        };
        self.edits.push(e);
        assert(self.splices() =~= old(self).splices().push(e.model()));
    }

    /// The positions of the splices in the order of application.
    fn order(&self) -> (idx: Vec<usize>)
        ensures
            idx@.len() == self.edits@.len(),
            forall|i: int| 0 <= i < idx@.len() ==> (#[trigger] idx@[i]) < self.edits@.len(),
            idx@.map_values(|i: usize| self.edits@[i as int].model()) == ordered(self.splices()),
    {
        let ghost all = self.splices();
        let mut idx: Vec<usize> = Vec::new();
        let mut i: usize = 0;
        assert(all.take(0) =~= Seq::<EditView>::empty());
        assert(self.models(idx@) =~= ordered(all.take(0)));
        while i < self.edits.len()
            invariant
                0 <= i <= self.edits@.len(),
                all == self.splices(),
                idx@.len() == i,
                forall|k: int| 0 <= k < idx@.len() ==> (#[trigger] idx@[k]) < self.edits@.len(),
                self.models(idx@) == ordered(all.take(i as int)),
            decreases self.edits@.len() - i,
        {
            let ghost es = ordered(all.take(i as int));
            let ghost e = all[i as int];
            let ghost idx0 = idx@;
            assert(all.take(i + 1).drop_last() =~= all.take(i as int));
            let mut j: usize = i;
            proof {
                assert(es.take(es.len() as int) =~= es);
                assert(placed(es, e) + Seq::<EditView>::empty() =~= placed(es, e));
                assert(es.skip(es.len() as int) =~= Seq::<EditView>::empty());
            }
            while j > 0 && self.edits[idx[j - 1]].start < self.edits[i].start
                invariant
                    0 <= j <= i < self.edits@.len(),
                    idx@ == idx0,
                    idx@.len() == i,
                    forall|k: int|
                        0 <= k < idx@.len() ==> (#[trigger] idx@[k]) < self.edits@.len(),
                    self.models(idx@) == es,
                    all == self.splices(),
                    e == all[i as int],
                    placed(es, e) == placed(es.take(j as int), e) + es.skip(j as int),
                decreases j,
            {
                proof {
                    let t = es.take(j as int);
                    assert(es[j - 1] == self.edits@[idx@[j - 1] as int].model());
                    assert(t.drop_last() =~= es.take(j - 1));
                    assert(placed(t, e) == placed(es.take(j - 1), e).push(es[j - 1]));
                    assert(placed(es.take(j - 1), e) + es.skip(j - 1) =~= placed(t, e) + es.skip(
                        j as int,
                    ));
                }
                j = j - 1;
            }
            proof {
                let t = es.take(j as int);
                if j > 0 {
                    assert(es[j - 1] == self.edits@[idx@[j - 1] as int].model());
                    assert(t.last() == es[j - 1]);
                }
                assert(placed(t, e) == t.push(e));
                assert(es.insert(j as int, e) =~= t.push(e) + es.skip(j as int));
            }
            idx.insert(j, i);
            assert(self.models(idx@) =~= es.insert(j as int, e));
            i = i + 1;
        }
        assert(all.take(all.len() as int) =~= all);
        idx
    }

    spec fn models(&self, idx: Seq<usize>) -> Seq<EditView> {
        idx.map_values(|i: usize| self.edits@[i as int].model())
    }

    /// Applies the splices, the largest start first so that earlier spans stay valid. `None` where
    /// a splice does not span characters of what it is applied to.
    pub fn try_apply(&self) -> (r: Option<String>)
        ensures
            match r {
                Some(out) => fitting(self.text(), ordered(self.splices())) && out@ == all_spliced(
                    self.text(),
                    ordered(self.splices()),
                ),
                None => !fitting(self.text(), ordered(self.splices())),
            },
    {
        let idx = self.order();
        let ghost es = ordered(self.splices());
        let ghost s = self.text();
        let mut out: Vec<char> = chars_of(self.source);
        let mut i: usize = 0;
        assert(es.take(0) =~= Seq::<EditView>::empty());
        while i < idx.len()
            invariant
                0 <= i <= idx@.len(),
                s == self.text(),
                es == ordered(self.splices()),
                idx@.len() == es.len(),
                forall|k: int| 0 <= k < idx@.len() ==> (#[trigger] idx@[k]) < self.edits@.len(),
                idx@.map_values(|i: usize| self.edits@[i as int].model()) == es,
                fitting(s, es.take(i as int)),
                out@ == all_spliced(s, es.take(i as int)),
            decreases idx@.len() - i,
        {
            let e = &self.edits[idx[i]];
            proof {
                assert(es[i as int] == e.model());
                assert(es.take(i + 1).drop_last() =~= es.take(i as int));
                assert(es.take(i + 1).last() == e.model());
            }
            if e.start > e.end || e.end > out.len() {
                proof {
                    lemma_fitting_prefix(s, es, i + 1);
                }
                return None;
            }
            let mut next: Vec<char> = Vec::new();
            push_part(&mut next, &out, 0, e.start);
            let rep = chars_of(&e.replacement);
            push_part(&mut next, &rep, 0, rep.len());
            push_part(&mut next, &out, e.end, out.len());
            assert(next@ =~= spliced(out@, e.model()));
            out = next;
            i = i + 1;
        }
        assert(es.take(es.len() as int) =~= es);
        Some(string_of(&out))
    }

    /// Apply all collected edits and return the rewritten source.
    pub fn apply(self) -> (out: String)
        requires
            fitting(self.text(), ordered(self.splices())),
        ensures
            out@ == all_spliced(self.text(), ordered(self.splices())),
    {
        match self.try_apply() {
            Some(out) => out,
            None => String::new(),
        }
    }
}

/// Splices that fit do so in every prefix.
proof fn lemma_fitting_prefix(s: Seq<char>, es: Seq<EditView>, k: int)
    requires
        0 <= k <= es.len(),
        !fitting(s, es.take(k)),
    ensures
        !fitting(s, es),
    decreases es.len(),
{
    if k == es.len() {
        assert(es.take(k) =~= es);
    } else {
        assert(es.drop_last().take(k) =~= es.take(k));
        lemma_fitting_prefix(s, es.drop_last(), k);
    }
}

/// Whether two splices span nothing in common.
pub open spec fn apart(a: EditView, b: EditView) -> bool {
    a.end <= b.start || b.end <= a.start
}

/// Whether every splice spans some characters of the text, and no two span one in common.
pub open spec fn disjoint(s: Seq<char>, es: Seq<EditView>) -> bool {
    &&& forall|i: int| 0 <= i < es.len() ==> (#[trigger] es[i]).start < es[i].end <= s.len()
    &&& forall|i: int, j: int|
        0 <= i < j < es.len() ==> apart(#[trigger] es[i], #[trigger] es[j])
}

/// Whether a splice spans characters from a position on.
pub open spec fn begins_at(s: Seq<char>, e: EditView, p: int) -> bool {
    e.start == p && p < e.end <= s.len()
}

/// The text from a position on with spans replaced: where a span begins, its replacement, and then
/// what follows the span; anywhere else, the character that stands there.
pub open spec fn rewritten(s: Seq<char>, es: Set<EditView>, p: int) -> Seq<char>
    decreases s.len() - p,
{
    if p >= s.len() {
        Seq::empty()
    } else if exists|e: EditView| es.contains(e) && #[trigger] begins_at(s, e, p) {
        let e = choose|e: EditView| es.contains(e) && #[trigger] begins_at(s, e, p);
        if p < e.end <= s.len() {
            e.replacement + rewritten(s, es, e.end as int)
        } else {
            Seq::empty()
        }
    } else {
        seq![s[p]] + rewritten(s, es, p + 1)
    }
}

spec fn descending(es: Seq<EditView>) -> bool {
    forall|i: int, j: int| 0 <= i < j < es.len() ==> (#[trigger] es[i]).start >= (#[trigger] es[j]).start
}

proof fn lemma_placed(s: Seq<char>, es: Seq<EditView>, e: EditView)
    requires
        descending(es),
        disjoint(s, es.push(e)),
    ensures
        descending(placed(es, e)),
        disjoint(s, placed(es, e)),
        placed(es, e).len() == es.len() + 1,
        forall|i: int|
            0 <= i < placed(es, e).len() ==> (#[trigger] placed(es, e)[i]) == e || es.contains(
                placed(es, e)[i],
            ),
        placed(es, e).to_set() == es.push(e).to_set(),
    decreases es.len(),
{
    let whole = es.push(e);
    assert(whole[es.len() as int] == e);
    assert forall|i: int| 0 <= i < es.len() implies apart(#[trigger] es[i], e) by {
        assert(whole[i] == es[i]);
    }
    let r = placed(es, e);
    if es.len() == 0 || es.last().start >= e.start {
        assert(descending(r)) by {
            assert forall|i: int, j: int| 0 <= i < j < r.len() implies (#[trigger] r[i]).start >= (
            #[trigger] r[j]).start by {
                if j == es.len() && i < es.len() - 1 {
                    assert(es[i].start >= es[es.len() - 1].start);
                }
            }
        }
    } else {
        let front = es.drop_last();
        let last = es.last();
        assert forall|i: int| 0 <= i < front.push(e).len() implies (#[trigger] front.push(
            e,
        )[i]).start < front.push(e)[i].end <= s.len() by {
            if i < front.len() {
                assert(whole[i] == front[i]);
            }
        }
        assert forall|i: int, j: int| 0 <= i < j < front.push(e).len() implies apart(
            #[trigger] front.push(e)[i],
            #[trigger] front.push(e)[j],
        ) by {
            assert(whole[i] == front[i]);
            if j < front.len() {
                assert(whole[j] == front[j]);
            }
        }
        lemma_placed(s, front, e);
        let q = placed(front, e);
        assert(r == q.push(last));
        assert forall|i: int| 0 <= i < q.len() implies q[i].start >= last.start && apart(
            #[trigger] q[i],
            last,
        ) by {
            if q[i] == e {
                assert(apart(es[es.len() - 1], e));
            } else {
                let k = choose|k: int| 0 <= k < front.len() && front[k] == q[i];
                assert(es[k] == q[i]);
                assert(whole[k] == q[i]);
                assert(whole[es.len() - 1] == last);
                assert(es[k].start >= es[es.len() - 1].start);
            }
        }
        assert(descending(r));
        assert(whole[es.len() - 1] == last);
        assert(disjoint(s, r));
        assert forall|i: int| 0 <= i < r.len() implies (#[trigger] r[i]) == e || es.contains(r[i]) by {
            if i < q.len() {
                if q[i] != e {
                    let k = choose|k: int| 0 <= k < front.len() && front[k] == q[i];
                    assert(es[k] == q[i]);
                }
            } else {
                assert(es[es.len() - 1] == last);
            }
        }
    }
    assert(r.to_set() =~= whole.to_set()) by {
        assert forall|x: EditView| r.contains(x) implies whole.contains(x) by {
            let i = choose|i: int| 0 <= i < r.len() && r[i] == x;
            assert(r[i] == e || es.contains(r[i]));
            if x == e {
                assert(whole[es.len() as int] == x);
            } else {
                let k = choose|k: int| 0 <= k < es.len() && es[k] == x;
                assert(whole[k] == x);
            }
        }
        assert forall|x: EditView| whole.contains(x) implies r.contains(x) by {
            lemma_placed_holds(es, e, x);
        }
    }
}

proof fn lemma_placed_holds(es: Seq<EditView>, e: EditView, x: EditView)
    requires
        es.push(e).contains(x),
    ensures
        placed(es, e).contains(x),
    decreases es.len(),
{
    if es.len() > 0 && es.last().start < e.start {
        let q = placed(es.drop_last(), e);
        let r = placed(es, e);
        assert(r == q.push(es.last()));
        let k = choose|k: int| 0 <= k < es.push(e).len() && es.push(e)[k] == x;
        if k == es.len() - 1 {
            assert(r[q.len() as int] == x);
        } else {
            let front = es.drop_last().push(e);
            if k < es.len() {
                assert(front[k] == x);
            } else {
                assert(front[es.len() - 1] == x);
            }
            lemma_placed_holds(es.drop_last(), e, x);
            let i = choose|i: int| 0 <= i < q.len() && q[i] == x;
            assert(r[i] == x);
        }
    }
}

proof fn lemma_ordered(s: Seq<char>, es: Seq<EditView>)
    requires
        disjoint(s, es),
    ensures
        descending(ordered(es)),
        disjoint(s, ordered(es)),
        ordered(es).len() == es.len(),
        ordered(es).to_set() == es.to_set(),
    decreases es.len(),
{
    if es.len() == 0 {
        assert(ordered(es).to_set() =~= es.to_set());
    } else {
        let front = es.drop_last();
        let e = es.last();
        assert(disjoint(s, front)) by {
            assert forall|i: int, j: int| 0 <= i < j < front.len() implies apart(
                #[trigger] front[i],
                #[trigger] front[j],
            ) by {
                assert(apart(es[i], es[j]));
            }
        }
        lemma_ordered(s, front);
        let o = ordered(front);
        assert forall|i: int| 0 <= i < o.len() implies apart(#[trigger] o[i], e) by {
            assert(o.to_set().contains(o[i]));
            assert(front.contains(o[i]));
            let k = choose|k: int| 0 <= k < front.len() && front[k] == o[i];
            assert(apart(es[k], es[es.len() - 1]));
        }
        assert(es[es.len() - 1] == e);
        assert(disjoint(s, o.push(e)));
        lemma_placed(s, o, e);
        assert(o.push(e).to_set() =~= es.to_set()) by {
            assert forall|x: EditView| o.push(e).contains(x) implies es.contains(x) by {
                let i = choose|i: int| 0 <= i < o.push(e).len() && o.push(e)[i] == x;
                if i < o.len() {
                    assert(o.to_set().contains(o[i]));
                    assert(front.contains(x));
                    let k = choose|k: int| 0 <= k < front.len() && front[k] == x;
                    assert(es[k] == x);
                }
            }
            assert forall|x: EditView| es.contains(x) implies o.push(e).contains(x) by {
                let k = choose|k: int| 0 <= k < es.len() && es[k] == x;
                if k < front.len() {
                    assert(front[k] == x);
                    assert(front.to_set().contains(x));
                    assert(o.contains(x));
                    let i = choose|i: int| 0 <= i < o.len() && o[i] == x;
                    assert(o.push(e)[i] == x);
                } else {
                    assert(o.push(e)[o.len() as int] == x);
                }
            }
        }
    }
}

/// Where no span begins, the text stands as it is.
proof fn lemma_rewritten_gap(s: Seq<char>, es: Set<EditView>, from: int, to: int)
    requires
        0 <= from <= to <= s.len(),
        forall|e: EditView, p: int|
            es.contains(e) && from <= p < to ==> !#[trigger] begins_at(s, e, p),
    ensures
        rewritten(s, es, from) == s.subrange(from, to) + rewritten(s, es, to),
    decreases to - from,
{
    if from == to {
        assert(s.subrange(from, to) + rewritten(s, es, to) =~= rewritten(s, es, to));
    } else {
        lemma_rewritten_gap(s, es, from + 1, to);
        assert(seq![s[from]] + (s.subrange(from + 1, to) + rewritten(s, es, to)) =~= s.subrange(
            from,
            to,
        ) + rewritten(s, es, to));
    }
}

/// After the first splices in the order of application, everything before the last of them stands
/// as it is, and from there on the text is rewritten.
proof fn lemma_spliced_so_far(s: Seq<char>, os: Seq<EditView>, k: int)
    requires
        disjoint(s, os),
        descending(os),
        0 <= k <= os.len(),
    ensures
        ({
            let from = if k == 0 {
                s.len() as int
            } else {
                os[k - 1].start as int
            };
            &&& fitting(s, os.take(k))
            &&& all_spliced(s, os.take(k)) == s.take(from) + rewritten(s, os.to_set(), from)
        }),
    decreases k,
{
    let es = os.to_set();
    if k == 0 {
        assert(os.take(0) =~= Seq::<EditView>::empty());
        assert(s.take(s.len() as int) + Seq::<char>::empty() =~= s);
    } else {
        lemma_spliced_so_far(s, os, k - 1);
        let from = if k == 1 {
            s.len() as int
        } else {
            os[k - 2].start as int
        };
        let e = os[k - 1];
        let x = all_spliced(s, os.take(k - 1));
        assert(os.take(k).drop_last() =~= os.take(k - 1));
        assert(os.take(k).last() == e);
        if k > 1 {
            assert(apart(os[k - 2], os[k - 1]));
            assert(os[k - 2].start >= os[k - 1].start);
            assert(os[k - 2].start < os[k - 2].end);
        }
        assert(e.start < e.end <= from <= s.len());
        assert(es.contains(e)) by {
            assert(os.contains(e));
        }
        assert(begins_at(s, e, e.start as int));
        let c = choose|c: EditView| es.contains(c) && #[trigger] begins_at(s, c, e.start as int);
        assert(c == e) by {
            let j = choose|j: int| 0 <= j < os.len() && os[j] == c;
            if j < k - 1 {
                assert(apart(os[j], os[k - 1]));
            } else if j > k - 1 {
                assert(apart(os[k - 1], os[j]));
            }
        }
        assert(rewritten(s, es, e.start as int) == e.replacement + rewritten(s, es, e.end as int));
        assert forall|d: EditView, p: int| es.contains(d) && e.end <= p < from implies !#[trigger] begins_at(
            s,
            d,
            p,
        ) by {
            let j = choose|j: int| 0 <= j < os.len() && os[j] == d;
            if j > k - 1 {
                assert(os[k - 1].start >= os[j].start);
            } else if j < k - 2 {
                assert(os[j].start >= os[k - 2].start);
            }
        }
        lemma_rewritten_gap(s, es, e.end as int, from);
        let rest = rewritten(s, es, from);
        assert(x.take(e.start as int) =~= s.take(e.start as int));
        assert(x.skip(e.end as int) =~= s.subrange(e.end as int, from) + rest);
        assert(spliced(x, e) =~= s.take(e.start as int) + (e.replacement + rewritten(
            s,
            es,
            e.end as int,
        )));
    }
}

/// Splices that span some characters each, and none in common, all apply: the result is the source
/// with each span replaced and everything else kept in place and in order. The order in which the
/// splices were collected makes no difference, and without splices the source comes back as it was.
pub proof fn law_disjoint_splices(s: Seq<char>, es: Seq<EditView>, others: Seq<EditView>)
    requires
        disjoint(s, es),
        disjoint(s, others),
        others.to_set() == es.to_set(),
    ensures
        fitting(s, ordered(es)),
        all_spliced(s, ordered(es)) == rewritten(s, es.to_set(), 0),
        all_spliced(s, ordered(others)) == all_spliced(s, ordered(es)),
        es.len() == 0 ==> all_spliced(s, ordered(es)) == s,
{
    lemma_all_spliced(s, es);
    lemma_all_spliced(s, others);
}

proof fn lemma_all_spliced(s: Seq<char>, es: Seq<EditView>)
    requires
        disjoint(s, es),
    ensures
        fitting(s, ordered(es)),
        all_spliced(s, ordered(es)) == rewritten(s, es.to_set(), 0),
{
    lemma_ordered(s, es);
    let os = ordered(es);
    let k = os.len() as int;
    lemma_spliced_so_far(s, os, k);
    assert(os.take(k) =~= os);
    let from = if k == 0 {
        s.len() as int
    } else {
        os[k - 1].start as int
    };
    assert forall|d: EditView, p: int| os.to_set().contains(d) && 0 <= p < from implies !#[trigger] begins_at(
        s,
        d,
        p,
    ) by {
        let j = choose|j: int| 0 <= j < os.len() && os[j] == d;
        if j < k - 1 {
            assert(os[j].start >= os[k - 1].start);
        }
    }
    lemma_rewritten_gap(s, os.to_set(), 0, from);
    assert(s.subrange(0, from) =~= s.take(from));
}

/// Appends the characters from `from` up to `to`.
fn push_part(out: &mut Vec<char>, v: &Vec<char>, from: usize, to: usize)
    requires
        from <= to <= v@.len(),
    ensures
        final(out)@ == old(out)@ + v@.subrange(from as int, to as int),
{
    let ghost start = out@;
    let mut i: usize = from;
    assert(start + v@.subrange(from as int, from as int) =~= start);
    while i < to
        invariant
            from <= i <= to <= v@.len(),
            out@ == start + v@.subrange(from as int, i as int),
        decreases to - i,
    {
        out.push(v[i]);
        assert(start + v@.subrange(from as int, i + 1) =~= (start + v@.subrange(
            from as int,
            i as int,
        )).push(v@[i as int]));
        i = i + 1;
    }
}

/// A rewrite pass over single nodes.
pub trait Rule {
    /// The splices that the rule makes at a node of a source.
    spec fn rewrites(&self, n: SyntaxView, source: Seq<char>) -> Seq<EditView>;

    /// Whether the rule fires on a node.
    spec fn fires(&self, n: SyntaxView) -> bool;

    /// Whether the rule fires on a node.
    fn matches(&self, node: &Syntax) -> (b: bool)
        ensures
            b == self.fires(syntax_of(*node)),
    ;

    /// Emits the splices for a node that the rule fires on.
    fn rewrite(&self, node: &Syntax, source: &str, t: &mut Transformer)
        requires
            within(syntax_of(*node), source@.len()),
        ensures
            final(t).text() == old(t).text(),
            final(t).splices() == old(t).splices() + self.rewrites(syntax_of(*node), source@),
    ;
}

/// The splice that gives a node another text.
pub open spec fn replacing(n: SyntaxView, text: Seq<char>) -> EditView {
    EditView { start: n.start, end: n.end, replacement: text }
}

/// The position of the first child of a kind.
pub open spec fn kind_pos(ns: Seq<SyntaxView>, kind: Seq<char>) -> Option<int>
    decreases ns.len(),
{
    if ns.len() == 0 {
        None
    } else if kind_pos(ns.drop_last(), kind) is Some {
        kind_pos(ns.drop_last(), kind)
    } else if ns.last().kind == kind {
        Some(ns.len() - 1)
    } else {
        None
    }
}

proof fn lemma_kind_pos_stays(ns: Seq<SyntaxView>, k: int, kind: Seq<char>)
    requires
        0 <= k <= ns.len(),
        kind_pos(ns.take(k), kind) is Some,
    ensures
        kind_pos(ns, kind) == kind_pos(ns.take(k), kind),
    decreases ns.len(),
{
    if k == ns.len() {
        assert(ns.take(k) =~= ns);
    } else {
        assert(ns.drop_last().take(k) =~= ns.take(k));
        lemma_kind_pos_stays(ns.drop_last(), k, kind);
    }
}

/// Maps the `function` keyword onto `fn`.
pub struct FnKeywordRule;

impl Rule for FnKeywordRule {
    open spec fn fires(&self, n: SyntaxView) -> bool {
        n.kind == "function_declaration"@ || n.kind == "function_expression"@
    }

    open spec fn rewrites(&self, n: SyntaxView, source: Seq<char>) -> Seq<EditView> {
        match kind_pos(n.children, "function"@) {
            Some(i) => seq![replacing(n.children[i], "fn"@)],
            None => Seq::empty(),
        }
    }

    fn matches(&self, node: &Syntax) -> (b: bool) {
        str_eq(&node.kind, "function_declaration") || str_eq(&node.kind, "function_expression")
    }

    fn rewrite(&self, node: &Syntax, source: &str, t: &mut Transformer) {
        let ghost before = t.splices();
        let ghost ns = syntaxes_of(node.children@);
        proof {
            lemma_syntaxes_of(node.children@);
            assert(ns.take(0) =~= Seq::<SyntaxView>::empty());
        }
        let mut i: usize = 0;
        while i < node.children.len()
            invariant
                0 <= i <= node.children@.len(),
                ns == syntaxes_of(node.children@),
                ns.len() == node.children@.len(),
                forall|j: int|
                    0 <= j < ns.len() ==> #[trigger] ns[j] == syntax_of(node.children@[j]),
                kind_pos(ns.take(i as int), "function"@) is None,
                t.splices() == before,
                before == old(t).splices(),
                t.text() == old(t).text(),
            decreases node.children@.len() - i,
        {
            proof {
                assert(ns.take(i + 1).drop_last() =~= ns.take(i as int));
                assert(ns.take(i + 1).last() == ns[i as int]);
            }
            if str_eq(&node.children[i].kind, "function") {
                proof {
                    lemma_kind_pos_stays(ns, i + 1, "function"@);
                }
                t.replace_node(&node.children[i], "fn");
                assert(t.splices() =~= before + self.rewrites(syntax_of(*node), source@));
                return;
            }
            i = i + 1;
        }
        assert(ns.take(ns.len() as int) =~= ns);
        assert(t.splices() =~= before + self.rewrites(syntax_of(*node), source@));
    }
}

/// Maps `const` and `var` declarations onto `let`.
pub struct VarToLetRule;

impl Rule for VarToLetRule {
    open spec fn fires(&self, n: SyntaxView) -> bool {
        n.kind == "lexical_declaration"@ || n.kind == "variable_declaration"@
    }

    open spec fn rewrites(&self, n: SyntaxView, source: Seq<char>) -> Seq<EditView> {
        if n.children.len() > 0 && (n.children[0].kind == "const"@ || n.children[0].kind
            == "var"@) {
            seq![replacing(n.children[0], "let"@)]
        } else {
            Seq::empty()
        }
    }

    fn matches(&self, node: &Syntax) -> (b: bool) {
        str_eq(&node.kind, "lexical_declaration") || str_eq(&node.kind, "variable_declaration")
    }

    fn rewrite(&self, node: &Syntax, source: &str, t: &mut Transformer) {
        let ghost before = t.splices();
        proof {
            lemma_syntaxes_of(node.children@);
        }
        if node.children.len() > 0 {
            let first = &node.children[0];
            assert(syntaxes_of(node.children@)[0] == syntax_of(*first));
            if str_eq(&first.kind, "const") || str_eq(&first.kind, "var") {
                t.replace_node(first, "let");
            }
        }
        assert(t.splices() =~= before + self.rewrites(syntax_of(*node), source@));
    }
}

/// Maps `console.log(..)` calls onto `println!(..)`.
pub struct ConsoleLogRule;

impl Rule for ConsoleLogRule {
    open spec fn fires(&self, n: SyntaxView) -> bool {
        n.kind == "call_expression"@
    }

    open spec fn rewrites(&self, n: SyntaxView, source: Seq<char>) -> Seq<EditView> {
        match field_child(n, "function"@) {
            Some(c) => if c.kind == "member_expression"@ && span(source, c) == "console.log"@ {
                seq![replacing(c, "println!"@)]
            } else {
                Seq::empty()
            },
            None => Seq::empty(),
        }
    }

    fn matches(&self, node: &Syntax) -> (b: bool) {
        str_eq(&node.kind, "call_expression")
    }

    fn rewrite(&self, node: &Syntax, source: &str, t: &mut Transformer) {
        let ghost before = t.splices();
        if let Some(c) = child_by_field(node, "function") {
            if str_eq(&c.kind, "member_expression") {
                proof {
                    let i = choose|i: int|
                        0 <= i < node.children@.len() && *c == #[trigger] node.children@[i];
                    lemma_syntaxes_of(node.children@);
                    assert(syntaxes_of(node.children@)[i] == syntax_of(*c));
                    lemma_within_at(syntaxes_of(node.children@), i, source@.len());
                }
                let v = chars_of(source);
                if str_eq(&span_text(&v, c), "console.log") {
                    t.replace_node(c, "println!");
                }
            }
        }
        assert(t.splices() =~= before + self.rewrites(syntax_of(*node), source@));
    }
}

/// What a rule does at one node.
pub open spec fn node_edits<R: Rule>(rule: &R, n: SyntaxView, source: Seq<char>) -> Seq<EditView> {
    if rule.fires(n) {
        rule.rewrites(n, source)
    } else {
        Seq::empty()
    }
}

/// One rule, then another.
pub struct Both<A, B>(pub A, pub B);

impl<A: Rule, B: Rule> Rule for Both<A, B> {
    open spec fn fires(&self, n: SyntaxView) -> bool {
        self.0.fires(n) || self.1.fires(n)
    }

    open spec fn rewrites(&self, n: SyntaxView, source: Seq<char>) -> Seq<EditView> {
        node_edits(&self.0, n, source) + node_edits(&self.1, n, source)
    }

    fn matches(&self, node: &Syntax) -> (b: bool) {
        self.0.matches(node) || self.1.matches(node)
    }

    fn rewrite(&self, node: &Syntax, source: &str, t: &mut Transformer) {
        let ghost before = t.splices();
        if self.0.matches(node) {
            self.0.rewrite(node, source, t);
        }
        assert(t.splices() =~= before + node_edits(&self.0, syntax_of(*node), source@));
        let ghost mid = t.splices();
        if self.1.matches(node) {
            self.1.rewrite(node, source, t);
        }
        assert(t.splices() =~= mid + node_edits(&self.1, syntax_of(*node), source@));
        assert(t.splices() =~= before + self.rewrites(syntax_of(*node), source@));
    }
}

/// The splices that a rule makes in a tree, parents before children.
pub open spec fn tree_edits<R: Rule>(rule: &R, n: SyntaxView, source: Seq<char>) -> Seq<EditView>
    decreases n,
{
    node_edits(rule, n, source) + forest_edits(rule, n.children, source)
}

/// The splices that a rule makes in a run of trees.
pub open spec fn forest_edits<R: Rule>(
    rule: &R,
    ns: Seq<SyntaxView>,
    source: Seq<char>,
) -> Seq<EditView>
    decreases ns,
{
    if ns.len() == 0 {
        Seq::empty()
    } else {
        forest_edits(rule, ns.drop_last(), source) + tree_edits(rule, ns.last(), source)
    }
}

/// Visits every node of a tree, rewriting those that the rule fires on.
fn visit<R: Rule>(rule: &R, node: &Syntax, source: &str, t: &mut Transformer)
    requires
        within(syntax_of(*node), source@.len()),
    ensures
        final(t).text() == old(t).text(),
        final(t).splices() == old(t).splices() + tree_edits(rule, syntax_of(*node), source@),
    decreases node,
{
    let ghost before = t.splices();
    if rule.matches(node) {
        rule.rewrite(node, source, t);
    }
    assert(t.splices() =~= before + node_edits(rule, syntax_of(*node), source@));
    visit_all(rule, &node.children, source, t);
    assert(t.splices() =~= before + tree_edits(rule, syntax_of(*node), source@));
}

/// Visits every node of a run of trees.
pub fn visit_all<R: Rule>(rule: &R, ns: &Vec<Syntax>, source: &str, t: &mut Transformer)
    requires
        all_within(syntaxes_of(ns@), source@.len()),
    ensures
        final(t).text() == old(t).text(),
        final(t).splices() == old(t).splices() + forest_edits(rule, syntaxes_of(ns@), source@),
    decreases ns@,
{
    let ghost before = t.splices();
    let mut i: usize = 0;
    proof {
        assert(ns@.take(0) =~= Seq::<Syntax>::empty());
        assert(before + forest_edits(rule, syntaxes_of(ns@.take(0)), source@) =~= before);
        lemma_syntaxes_of(ns@);
    }
    while i < ns.len()
        invariant
            0 <= i <= ns@.len(),
            all_within(syntaxes_of(ns@), source@.len()),
            syntaxes_of(ns@).len() == ns@.len(),
            forall|j: int|
                0 <= j < ns@.len() ==> #[trigger] syntaxes_of(ns@)[j] == syntax_of(ns@[j]),
            t.text() == old(t).text(),
            t.splices() == before + forest_edits(
                rule,
                syntaxes_of(ns@.take(i as int)),
                source@,
            ),
        decreases ns@.len() - i,
    {
        let ghost si = syntaxes_of(ns@.take(i as int));
        proof {
            lemma_syntaxes_step(ns@, i as int);
            lemma_within_at(syntaxes_of(ns@), i as int, source@.len());
            assert(syntaxes_of(ns@)[i as int] == syntax_of(ns@[i as int]));
            let next = syntaxes_of(ns@.take(i + 1));
            assert(next.drop_last() =~= si);
            assert(next.last() == syntax_of(ns@[i as int]));
        }
        visit(rule, &ns[i], source, t);
        assert(t.splices() =~= before + forest_edits(
            rule,
            syntaxes_of(ns@.take(i + 1)),
            source@,
        ));
        i = i + 1;
    }
    assert(ns@.take(ns@.len() as int) =~= ns@);
}

/// The starter rules, in order.
pub open spec fn starter_rules() -> Both<Both<FnKeywordRule, VarToLetRule>, ConsoleLogRule> {
    Both(Both(FnKeywordRule, VarToLetRule), ConsoleLogRule)
}

/// A source once the starter rules have been applied to its trees. A source whose splices do not
/// fit stays as it is.
pub open spec fn transformed(source: Seq<char>, trees: Seq<SyntaxView>) -> Seq<char> {
    let es = ordered(forest_edits(&starter_rules(), trees, source));
    if fitting(source, es) {
        all_spliced(source, es)
    } else {
        source
    }
}

/// Applies the starter rules to the trees of a source.
pub fn transform_trees(source: &str, trees: &Vec<Syntax>) -> (out: String)
    requires
        all_within(syntaxes_of(trees@), source@.len()),
    ensures
        out@ == transformed(source@, syntaxes_of(trees@)),
{
    let rules = Both(Both(FnKeywordRule, VarToLetRule), ConsoleLogRule);
    let mut t = Transformer::new(source);
    visit_all(&rules, trees, source, &mut t);
    assert(t.splices() =~= forest_edits(&rules, syntaxes_of(trees@), source@));
    match t.try_apply() {
        Some(out) => out,
        None => String::from_str(source),
    }
}

/// Parse a source with a grammar and run the starter rules. The source stays as it is where it
/// does not parse.
pub fn transpile_js_to_rust(source: &str, lang: SourceLang) -> (out: String)
    ensures
        out@ == (match parsed(source@, lang) {
            Some(trees) => transformed(source@, trees),
            None => source@,
        }),
{
    match parse_syntax(source, lang) {
        Some(trees) => transform_trees(source, &trees),
        None => String::from_str(source),
    }
}

/// The text between splices stays: where splices are apart and in order of application, what lies
/// before the lowest of them is kept.
pub proof fn law_prefix_is_kept(s: Seq<char>, es: Seq<EditView>, k: int)
    requires
        fitting(s, es),
        forall|i: int| 0 <= i < es.len() ==> k <= (#[trigger] es[i]).start,
        0 <= k <= s.len(),
    ensures
        all_spliced(s, es).len() >= k,
        all_spliced(s, es).take(k) == s.take(k),
    decreases es.len(),
{
    if es.len() > 0 {
        let front = es.drop_last();
        assert(forall|i: int| 0 <= i < front.len() ==> (#[trigger] front[i]) == es[i]);
        law_prefix_is_kept(s, front, k);
        let t = all_spliced(s, front);
        assert(es.last() == es[es.len() - 1]);
        assert(spliced(t, es.last()).take(k) =~= t.take(k));
    }
}

} // verus!
