//! What holds of the checks and the reports of a migration: the equivalence check, dead-code
//! elimination, the call graph, pattern coverage and suggestions.
use crate::migrate::coverage::{
    pattern_label, pattern_lines, report_lines, shows, submits_or_clicks, Pattern,
};
use crate::migrate::declarations::{loose_text, own_text};
use crate::migrate::discovery::{lines_surface, Surface};
use crate::migrate::equivalence::{
    appends_resolve, equivalent, has_text_op, law_transpiled_documents_are_equivalent,
};
use crate::migrate::eve::{form_fields, script_of, suggestions_of, surface_of_request, PlanRequest};
use crate::migrate::html_tree::{document, forest_text};
use crate::migrate::optimize::{
    callees, declared_names, distinct, entry_names, export_names, field_names, graph_of, joined,
    kept, largest_first, law_live_functions, leads_to, lemma_referred, live_surface,
    loop_suggestions, loose_names, net_calls, packing, padded_size, reached, reached_in, refers,
    FieldSize, SuggestionKind,
};
use crate::migrate::percent::percent_text;
use crate::migrate::site_laws::{created_before, creates};
use crate::migrate::site_model::{
    charts_in, forms_in, players_in, tables_in, FieldView, FormView, HandlerKind, OpView,
};
use crate::migrate::syntax::SourceLang;
use crate::migrate::transpile::{bindings_of, site_elements, site_ops};
use crate::migrate::tree_sitter_discovery::ast_surface;
use crate::strings::{dec, lines};
use vstd::prelude::*;

verus! {

/// The check takes the operations one by one: appending holds only of what was created before, and a
/// text makes a document that holds together equivalent. Nothing else changes the answer.
pub proof fn law_equivalence_check(ops: Seq<OpView>, a: Seq<char>, b: Seq<char>)
    ensures
        !equivalent(Seq::empty()),
        equivalent(ops) ==> (equivalent(ops.push(OpView::Append { parent: a, child: b })) <==> (
        exists|i: int| 0 <= i < ops.len() && (#[trigger] ops[i] matches OpView::Create { var, .. } && var == a)) && (
        exists|i: int| 0 <= i < ops.len() && (#[trigger] ops[i] matches OpView::Create { var, .. } && var == b))),
        equivalent(ops) ==> equivalent(ops.push(OpView::Create { var: a, tag: b })),
        equivalent(ops) ==> equivalent(ops.push(OpView::Text { var: a, text: b })),
        (forall|i: int| 0 <= i < ops.len() ==> !(#[trigger] ops[i] is Text)) ==> !equivalent(ops),
        (forall|i: int| 0 <= i < ops.len() ==> !(#[trigger] ops[i] is Append)) ==> equivalent(
            ops.push(OpView::Text { var: a, text: b }),
        ),
{
    lemma_checked(ops, OpView::Append { parent: a, child: b });
    lemma_checked(ops, OpView::Create { var: a, tag: b });
    lemma_checked(ops, OpView::Text { var: a, text: b });
    lemma_creating(ops, a);
    lemma_creating(ops, b);
    if forall|i: int| 0 <= i < ops.len() ==> !(#[trigger] ops[i] is Append) {
        assert(appends_resolve(ops));
    }
}

proof fn lemma_creating(ops: Seq<OpView>, a: Seq<char>)
    ensures
        created_before(ops, ops.len() as int, a) <==> exists|i: int| 0 <= i < ops.len() && (#[trigger] ops[i] matches OpView::Create { var, .. } && var == a),
{
    if created_before(ops, ops.len() as int, a) {
        let i = choose|i: int| 0 <= i < ops.len() && creates(#[trigger] ops[i], a);
        assert(ops[i] matches OpView::Create { var, .. } && var == a);
    }
    if exists|i: int|
        0 <= i < ops.len() && (#[trigger] ops[i] matches OpView::Create { var, .. } && var == a) {
        let i = choose|i: int|
            0 <= i < ops.len() && (#[trigger] ops[i] matches OpView::Create { var, .. } && var == a);
        assert(creates(ops[i], a));
    }
}

#[verifier::rlimit(40)]
proof fn lemma_checked(ops: Seq<OpView>, op: OpView)
    ensures
        appends_resolve(ops.push(op)) <==> appends_resolve(ops) && (
        op matches OpView::Append { parent, child } ==> created_before(ops, ops.len() as int, parent)
            && created_before(ops, ops.len() as int, child)),
        has_text_op(ops.push(op)) <==> has_text_op(ops) || op is Text,
{
    let all = ops.push(op);
    let n = ops.len() as int;
    assert forall|k: int, v: Seq<char>|
        0 <= k <= n implies #[trigger] created_before(all, k, v) == created_before(ops, k, v) by {
        if created_before(all, k, v) {
            let i = choose|i: int| 0 <= i < k && creates(#[trigger] all[i], v);
            assert(creates(ops[i], v));
        }
        if created_before(ops, k, v) {
            let i = choose|i: int| 0 <= i < k && creates(#[trigger] ops[i], v);
            assert(creates(all[i], v));
        }
    }
    assert forall|k: int| 0 <= k < n implies #[trigger] all[k] == ops[k] by {}
    assert(all[n] == op);
    if appends_resolve(all) {
        assert forall|k: int| 0 <= k < ops.len() implies (
        #[trigger] ops[k] matches OpView::Append { parent, child } ==> {
            &&& created_before(ops, k, parent)
            &&& created_before(ops, k, child)
        }) by {
            assert(all[k] == ops[k]);
            if let OpView::Append { parent, child } = ops[k] {
                assert(created_before(all, k, parent) && created_before(all, k, child));
            }
        }
        if let OpView::Append { parent, child } = op {
            assert(created_before(all, n, parent) && created_before(all, n, child));
        }
    }
    if has_text_op(all) && !(op is Text) {
        let k = choose|k: int| 0 <= k < all.len() && #[trigger] all[k] is Text;
        assert(ops[k] is Text);
    }
    if has_text_op(ops) {
        let k = choose|k: int| 0 <= k < ops.len() && #[trigger] ops[k] is Text;
        assert(all[k] is Text);
    }
}

/// Dead-code elimination keeps nothing that has no use: a function is dropped that is neither
/// exported nor a root, and that neither the text outside of functions nor the text of any other
/// declared name refers to. What stays, stays in order.
#[verifier::rlimit(40)]
pub proof fn law_unused_is_dropped(
    source: Seq<char>,
    s: Surface,
    roots: Seq<Seq<char>>,
    g: Seq<char>,
)
    requires
        !export_names(s.exports).contains(g),
        !roots.contains(g),
        !refers(loose_text(source, s.functions), g),
        forall|f: Seq<char>|
            declared_names(s).contains(f) && f != g ==> !refers(#[trigger] own_text(source, f), g),
    ensures
        !live_surface(source, s, roots).functions.contains(g),
        live_surface(source, s, roots).functions.len() <= s.functions.len(),
{
    let names = declared_names(s);
    let start = entry_names(source, s, roots);
    law_live_functions(source, names, start, s.functions, g);
    lemma_referred(loose_text(source, s.functions), s.functions, Seq::empty());
    lemma_kept_len(source, names, start, s.functions);
    if reached(source, names, start, g) {
        let k = choose|k: nat| reached_in(source, names, start, g, k);
        if k == 0 {
            let a = export_names(s.exports);
            let l = loose_names(source, s);
            let i = choose|i: int| 0 <= i < start.len() && start[i] == g;
            if i < a.len() {
                assert(a[i] == g);
            } else if i < a.len() + roots.len() {
                assert(roots[i - a.len()] == g);
            } else {
                assert(l[i - a.len() - roots.len()] == g);
                assert(l.contains(g));
            }
        } else {
            let f = choose|f: Seq<char>|
                reached_in(source, names, start, f, (k - 1) as nat) && #[trigger] leads_to(
                    source,
                    names,
                    f,
                    g,
                );
            assert(!refers(own_text(source, f), g));
        }
    }
}

proof fn lemma_kept_len(
    source: Seq<char>,
    names: Seq<Seq<char>>,
    start: Seq<Seq<char>>,
    fs: Seq<Seq<char>>,
)
    ensures
        kept(source, names, start, fs).len() <= fs.len(),
    decreases fs.len(),
{
    if fs.len() > 0 {
        lemma_kept_len(source, names, start, fs.drop_last());
    }
}

/// A call graph has one entry per name, and its entry lists, in order, the other names that the
/// function's own text calls.
pub proof fn law_call_graph(source: Seq<char>, names: Seq<Seq<char>>, i: int)
    requires
        0 <= i < graph_of(source, names).len(),
    ensures
        graph_of(source, names).len() == distinct(names).len(),
        ({
            let (f, called) = graph_of(source, names)[i];
            &&& f == distinct(names)[i]
            &&& called == names.filter(
                |g: Seq<char>| g != f && net_calls(own_text(source, f), g) >= 1,
            )
        }),
{
    let f = distinct(names)[i];
    lemma_callees(source, names, f);
}

proof fn lemma_callees(source: Seq<char>, names: Seq<Seq<char>>, f: Seq<char>)
    ensures
        callees(source, names, f) == names.filter(
            |g: Seq<char>| g != f && net_calls(own_text(source, f), g) >= 1,
        ),
    decreases names.len(),
{
    reveal(Seq::filter);
    if names.len() > 0 {
        lemma_callees(source, names.drop_last(), f);
    }
    assert(callees(source, names, f) =~= names.filter(
        |g: Seq<char>| g != f && net_calls(own_text(source, f), g) >= 1,
    ));
}

/// A document shows the pattern of static sites where it holds text; every other pattern needs text
/// too, and what makes it. Patterns without a transpiler are never shown.
pub proof fn law_probes(p: Pattern, html: Seq<char>)
    ensures
        shows(p, html) ==> forest_text(document(html)).len() > 0,
        p == Pattern::P1StaticSite ==> (shows(p, html) <==> forest_text(document(html)).len() > 0),
        p == Pattern::P5Realtime || p == Pattern::P6ComplexSpa ==> !shows(p, html),
        ({
            let es = site_elements(html);
            let ops = site_ops(html);
            &&& p == Pattern::P2FormCrud && shows(p, html) ==> {
                &&& forms_in(es).len() == 1 && forms_in(es)[0].fields.len() >= 1 && forms_in(
                    es,
                )[0].has_submit
                &&& forall|i: int|
                    0 <= i < forms_in(es)[0].fields.len() ==> (#[trigger] forms_in(
                        es,
                    )[0].fields[i]).name is Some
                &&& tables_in(es).len() == 1 && tables_in(es)[0].row_count >= 1
                &&& exists|i: int|
                    0 <= i < ops.len() && (#[trigger] ops[i] matches OpView::On { kind, .. } && (kind
                        == HandlerKind::Submit || kind == HandlerKind::Click))
            }
            &&& p == Pattern::P3DataViz && shows(p, html) ==> {
                let c = charts_in(es)[0];
                charts_in(es).len() == 1 && c.id is Some && c.width is Some && c.height is Some
                    && c.series.len() >= 1
            }
            &&& p == Pattern::P4MediaPlayer && shows(p, html) ==> {
                let m = players_in(es)[0];
                players_in(es).len() == 1 && m.src is Some && m.has_controls && !m.loop_playback
            }
        }),
{
    law_transpiled_documents_are_equivalent(html);
    let ops = site_ops(html);
    if p == Pattern::P2FormCrud && shows(p, html) {
        let i = choose|i: int| 0 <= i < ops.len() && submits_or_clicks(#[trigger] ops[i]);
        assert(ops[i] matches OpView::On { kind, .. } && (kind == HandlerKind::Submit || kind
            == HandlerKind::Click));
    }
}

/// A report counts the supported patterns out of six, gives each pattern a line of its own that is
/// ticked where it is supported and crossed where it is not, and ends with the share of the checks
/// that passed.
pub proof fn law_reports(ps: Seq<Pattern>, p: Pattern, s: Seq<Pattern>, checks: nat, passed: nat)
    ensures
        s.contains(p) ==> pattern_lines(ps.push(p), s) == pattern_lines(ps, s) + "    [✓] "@
            + pattern_label(p) + "\n"@,
        !s.contains(p) ==> pattern_lines(ps.push(p), s) == pattern_lines(ps, s) + "    [✗] "@
            + pattern_label(p) + "\n"@,
        report_lines(s, checks, passed) == "Helix migration pipeline coverage\n  patterns supported: "@
            + dec(s.len()) + "/6 ("@ + percent_text(s.len(), 6) + "%)\n"@ + pattern_lines(
            seq![
                Pattern::P1StaticSite,
                Pattern::P2FormCrud,
                Pattern::P3DataViz,
                Pattern::P4MediaPlayer,
                Pattern::P5Realtime,
                Pattern::P6ComplexSpa,
            ],
            s,
        ) + "  Stage S3 equivalence pass-rate: "@ + percent_text(passed, checks) + "% ("@ + dec(passed)
            + "/"@ + dec(checks) + ")\n"@,
{
    assert(ps.push(p).drop_last() =~= ps);
    reveal_strlit("    [");
    reveal_strlit("] ");
    reveal_strlit("✓");
    reveal_strlit("✗");
    reveal_strlit("    [✓] ");
    reveal_strlit("    [✗] ");
    let head = pattern_lines(ps, s);
    assert("    ["@ + "✓"@ + "] "@ =~= "    [✓] "@);
    assert("    ["@ + "✗"@ + "] "@ =~= "    [✗] "@);
    assert(s.contains(p) ==> pattern_lines(ps.push(p), s) =~= head + "    [✓] "@ + pattern_label(p)
        + "\n"@);
    assert(!s.contains(p) ==> pattern_lines(ps.push(p), s) =~= head + "    [✗] "@ + pattern_label(p)
        + "\n"@);
}

/// What is read of a request is its script where it has one, by parsing it, and its document
/// otherwise, line by line; suggestions on loops come of the same text, behind those on the first
/// form.
pub proof fn law_requests(req: PlanRequest)
    ensures
        ({
            let forms = forms_in(site_elements(req.html@));
            let n = if forms.len() > 0 {
                packing(form_fields(forms[0])).len()
            } else {
                0
            };
            let all = suggestions_of(req);
            &&& req.js matches Some(js) ==> surface_of_request(req) == ast_surface(
                js@,
                SourceLang::Tsx,
            ) && all.skip(n as int) == loop_suggestions(lines(js@))
            &&& req.js is None ==> surface_of_request(req) == lines_surface(lines(req.html@))
                && all.skip(n as int) == loop_suggestions(lines(req.html@))
            &&& forms.len() > 0 ==> all.take(n as int) == packing(form_fields(forms[0]))
            &&& forms.len() == 0 ==> all == loop_suggestions(lines(script_of(req)))
        }),
{
    let forms = forms_in(site_elements(req.html@));
    let first = if forms.len() > 0 {
        packing(form_fields(forms[0]))
    } else {
        Seq::empty()
    };
    let loops = loop_suggestions(lines(script_of(req)));
    let all = suggestions_of(req);
    assert(all == first + loops);
    assert(all.skip(first.len() as int) =~= loops);
    assert(all.take(first.len() as int) =~= first);
    if forms.len() == 0 {
        assert(all =~= loops);
    }
}

/// Fewer than two fields need no advice. Of more, there is one piece of advice: to reorder them,
/// where that changes their order or saves bytes, or that they are well as they are.
pub proof fn law_packing_advice(fs: Seq<FieldSize>)
    ensures
        fs.len() < 2 ==> packing(fs).len() == 0,
        fs.len() >= 2 ==> packing(fs).len() == 1 && packing(fs)[0].category
            == SuggestionKind::StructPacking && packing(fs)[0].location is None,
        ({
            let best = largest_first(fs);
            let gains = field_names(best) != field_names(fs) || padded_size(best) < padded_size(fs);
            &&& fs.len() >= 2 && !gains ==> packing(fs)[0].message
                == "Field order is already packing-efficient"@
            &&& fs.len() >= 2 && gains ==> packing(fs)[0].message
                == "Reorder fields largest-first to reduce padding: "@ + joined(field_names(best))
                + " (est. "@ + dec(padded_size(best)) + " bytes vs "@ + dec(padded_size(fs)) + " bytes)"@
        }),
{
}

/// Names are joined with a comma and a space between them.
pub proof fn law_joined_names(ns: Seq<Seq<char>>, n: Seq<char>)
    ensures
        joined(Seq::empty()).len() == 0,
        joined(seq![n]) == n,
        ns.len() > 0 ==> joined(ns.push(n)) == joined(ns) + seq![',', ' '] + n,
{
    reveal_strlit(", ");
    assert(", "@ =~= seq![',', ' ']);
    assert(ns.push(n).drop_last() =~= ns);
    let one = seq![n];
    assert(one.drop_last() =~= Seq::<Seq<char>>::empty());
    assert(joined(one) =~= n);
}

/// The bindings of forms pair each form with each of its fields, form by form and in order.
pub proof fn law_field_bindings(forms: Seq<FormView>, f: FormView)
    ensures
        bindings_of(Seq::empty()).len() == 0,
        bindings_of(forms.push(f)).len() == bindings_of(forms).len() + f.fields.len(),
        bindings_of(forms.push(f)).take(bindings_of(forms).len() as int) == bindings_of(forms),
        forall|i: int|
            0 <= i < f.fields.len() ==> #[trigger] bindings_of(forms.push(f))[bindings_of(forms).len() + i]
                == (f.var, f.fields[i].var),
{
    assert(forms.push(f).drop_last() =~= forms);
    let front = bindings_of(forms);
    let own = f.fields.map_values(|x: FieldView| (f.var, x.var));
    assert(bindings_of(forms.push(f)) =~= front + own);
    assert((front + own).take(front.len() as int) =~= front);
}

} // verus!
