//! Pattern coverage of the migration pipeline.
//!
//! A pattern is supported when it is wired into the pipeline and the transpiler emits a working
//! guest for a representative document of it.
use crate::migrate::equivalence::{equivalent, validate_equivalence};
use crate::migrate::site_model::{
    charts_in, forms_in, is_tag, players_in, tables_in, ChartView, FormView, HandlerKind, OpView,
};
use crate::migrate::transpile::{
    site_elements, site_ops, transpile_data_viz, transpile_form_app, transpile_media_player,
    transpile_static_site, ChartModel, DomOp, FormModel,
};
use crate::strings::{dec, decimal, eq_ignore_case};
use crate::migrate::percent::{percent, percent_text};
use vstd::prelude::*;
use vstd::string::*;

verus! {

/// A migration target pattern, in priority order.
#[derive(Debug, Clone, Copy, PartialEq, Eq, Hash, Structural)]
pub enum Pattern {
    /// Static content sites (blogs, docs, marketing).
    P1StaticSite,
    /// Form-based apps, dashboards and admin panels.
    P2FormCrud,
    /// Data visualization (charts, real-time metrics).
    P3DataViz,
    /// Media players (video streaming, audio).
    P4MediaPlayer,
    /// Real-time collaboration (editors, whiteboards, chat).
    P5Realtime,
    /// Complex single-page applications.
    P6ComplexSpa,
}

/// All patterns, in priority order.
pub open spec fn all_patterns() -> Seq<Pattern> {
    seq![
        Pattern::P1StaticSite,
        Pattern::P2FormCrud,
        Pattern::P3DataViz,
        Pattern::P4MediaPlayer,
        Pattern::P5Realtime,
        Pattern::P6ComplexSpa,
    ]
}

/// The human-readable label of a pattern.
pub open spec fn pattern_label(p: Pattern) -> Seq<char> {
    match p {
        Pattern::P1StaticSite => "P1 static content sites"@,
        Pattern::P2FormCrud => "P2 form-based CRUD / dashboards"@,
        Pattern::P3DataViz => "P3 data visualization"@,
        Pattern::P4MediaPlayer => "P4 media players"@,
        Pattern::P5Realtime => "P5 real-time collaboration"@,
        Pattern::P6ComplexSpa => "P6 complex SPAs"@,
    }
}

/// The representative document of a pattern.
pub open spec fn pattern_sample(p: Pattern) -> Seq<char> {
    match p {
        Pattern::P1StaticSite => "<html><head><title>Docs</title></head><body><h1>Hello</h1><p>World</p></body></html>"@,
        Pattern::P2FormCrud => "\n                <form onsubmit=\"add()\">\n                    <label>Name</label>\n                    <input type=\"text\" name=\"name\" />\n                    <input type=\"number\" name=\"age\" />\n                    <button type=\"submit\">Add</button>\n                </form>\n                <table>\n                    <tr><td>Alice</td></tr>\n                    <tr><td>Bob</td></tr>\n                </table>"@,
        Pattern::P3DataViz => "<h1>Metrics</h1><canvas id=\"chart\" width=\"800\" height=\"600\" data-series-0=\"revenue\"></canvas>"@,
        Pattern::P4MediaPlayer => "<h1>Player</h1><video src=\"movie.mp4\" controls></video>"@,
        Pattern::P5Realtime => "<div id=\"board\"></div>"@,
        Pattern::P6ComplexSpa => "<div id=\"app\"></div>"@,
    }
}

/// Whether a form has fields, all of them named, and can be submitted.
pub open spec fn complete_form(f: FormView) -> bool {
    f.fields.len() > 0 && f.has_submit && forall|i: int|
        0 <= i < f.fields.len() ==> (#[trigger] f.fields[i]).name is Some
}

/// Whether a chart has a mount point, a size and at least one series.
pub open spec fn complete_chart(c: ChartView) -> bool {
    c.id is Some && c.width is Some && c.height is Some && c.series.len() > 0
}

/// Whether an operation binds a submit or a click handler.
pub open spec fn submits_or_clicks(op: OpView) -> bool {
    op matches OpView::On { kind, .. } && (kind == HandlerKind::Submit || kind
        == HandlerKind::Click)
}

/// Whether some operation binds a submit or a click handler.
pub open spec fn has_handler(ops: Seq<OpView>) -> bool {
    exists|i: int| 0 <= i < ops.len() && submits_or_clicks(#[trigger] ops[i])
}

/// Whether a document shows what a pattern needs of it.
pub open spec fn shows(p: Pattern, html: Seq<char>) -> bool {
    let ops = site_ops(html);
    let es = site_elements(html);
    match p {
        Pattern::P1StaticSite => equivalent(ops),
        Pattern::P2FormCrud => {
            &&& equivalent(ops)
            &&& forms_in(es).len() == 1 && complete_form(forms_in(es)[0])
            &&& tables_in(es).len() == 1 && tables_in(es)[0].row_count >= 1
            &&& has_handler(ops)
        },
        Pattern::P3DataViz => {
            &&& equivalent(ops)
            &&& charts_in(es).len() == 1 && complete_chart(charts_in(es)[0])
            &&& is_tag(charts_in(es)[0].tag, "canvas"@)
        },
        Pattern::P4MediaPlayer => {
            &&& equivalent(ops)
            &&& players_in(es).len() == 1
            &&& is_tag(players_in(es)[0].kind, "video"@)
            &&& players_in(es)[0].src is Some && players_in(es)[0].has_controls
            &&& !players_in(es)[0].loop_playback
        },
        _ => false,
    }
}

/// Patterns that the pipeline has wired in.
pub open spec fn wired(p: Pattern) -> bool {
    p == Pattern::P1StaticSite || p == Pattern::P2FormCrud
}

/// Whether the pipeline supports a pattern: it is wired in, and its sample shows what it needs.
pub open spec fn is_supported(p: Pattern) -> bool {
    wired(p) && shows(p, pattern_sample(p))
}

/// Whether a form has fields, all of them named, and can be submitted.
pub fn is_complete_form(f: &FormModel) -> (b: bool)
    ensures
        b == complete_form(f.deep_view()),
{
    let ghost v = f.deep_view();
    if f.fields.len() == 0 || !f.has_submit {
        return false;
    }
    let mut i: usize = 0;
    while i < f.fields.len()
        invariant
            0 <= i <= f.fields@.len(),
            v == f.deep_view(),
            forall|j: int| 0 <= j < i ==> (#[trigger] v.fields[j]).name is Some,
        decreases f.fields@.len() - i,
    {
        assert(v.fields[i as int] == f.fields@[i as int].deep_view());
        if f.fields[i].name.is_none() {
            assert(v.fields[i as int].name is None);
            return false;
        }
        i = i + 1;
    }
    true
}

/// Whether a chart has a mount point, a size and at least one series.
pub fn is_complete_chart(c: &ChartModel) -> (b: bool)
    ensures
        b == complete_chart(c.deep_view()),
{
    c.id.is_some() && c.width.is_some() && c.height.is_some() && c.series.len() > 0
}

fn binds_handler(ops: &Vec<DomOp>) -> (b: bool)
    ensures
        b == has_handler(ops.deep_view()),
{
    let ghost all = ops.deep_view();
    let mut i: usize = 0;
    while i < ops.len()
        invariant
            0 <= i <= ops@.len(),
            all == ops.deep_view(),
            forall|j: int| 0 <= j < i ==> !submits_or_clicks(#[trigger] all[j]),
        decreases ops@.len() - i,
    {
        assert(all[i as int] == ops@[i as int].deep_view());
        match &ops[i] {
            DomOp::OnSubmit { .. } => {
                assert(submits_or_clicks(all[i as int]));
                return true;
            },
            DomOp::OnClick { .. } => {
                assert(submits_or_clicks(all[i as int]));
                return true;
            },
            _ => {
                assert(!submits_or_clicks(all[i as int]));
            },
        }
        i = i + 1;
    }
    false
}

impl Pattern {
    /// All patterns, in priority order.
    pub fn all() -> (v: Vec<Pattern>)
        ensures
            v@ == all_patterns(),
    {
        let mut v: Vec<Pattern> = Vec::new();
        v.push(Pattern::P1StaticSite);
        v.push(Pattern::P2FormCrud);
        v.push(Pattern::P3DataViz);
        v.push(Pattern::P4MediaPlayer);
        v.push(Pattern::P5Realtime);
        v.push(Pattern::P6ComplexSpa);
        assert(v@ =~= all_patterns());
        v
    }

    /// Human-readable label.
    pub fn label(&self) -> (s: &'static str)
        ensures
            s@ == pattern_label(*self),
    {
        match self {
            Pattern::P1StaticSite => "P1 static content sites",
            Pattern::P2FormCrud => "P2 form-based CRUD / dashboards",
            Pattern::P3DataViz => "P3 data visualization",
            Pattern::P4MediaPlayer => "P4 media players",
            Pattern::P5Realtime => "P5 real-time collaboration",
            Pattern::P6ComplexSpa => "P6 complex SPAs",
        }
    }

    /// Representative document exercised to decide [`Pattern::supported`].
    fn sample(&self) -> (s: &'static str)
        ensures
            s@ == pattern_sample(*self),
    {
        match self {
            Pattern::P1StaticSite => "<html><head><title>Docs</title></head><body><h1>Hello</h1><p>World</p></body></html>",
            Pattern::P2FormCrud => "\n                <form onsubmit=\"add()\">\n                    <label>Name</label>\n                    <input type=\"text\" name=\"name\" />\n                    <input type=\"number\" name=\"age\" />\n                    <button type=\"submit\">Add</button>\n                </form>\n                <table>\n                    <tr><td>Alice</td></tr>\n                    <tr><td>Bob</td></tr>\n                </table>",
            Pattern::P3DataViz => "<h1>Metrics</h1><canvas id=\"chart\" width=\"800\" height=\"600\" data-series-0=\"revenue\"></canvas>",
            Pattern::P4MediaPlayer => "<h1>Player</h1><video src=\"movie.mp4\" controls></video>",
            Pattern::P5Realtime => "<div id=\"board\"></div>",
            Pattern::P6ComplexSpa => "<div id=\"app\"></div>",
        }
    }

    /// Whether a document shows what the pattern needs: its transpiled form is equivalent, and the
    /// form and table, chart or player that makes the pattern is there and complete.
    pub fn probe(&self, html: &str) -> (b: bool)
        ensures
            b == shows(*self, html@),
    {
        match self {
            Pattern::P1StaticSite => {
                let site = transpile_static_site(html);
                validate_equivalence(&site)
            },
            Pattern::P2FormCrud => {
                let site = transpile_form_app(html);
                assert(site.crud.forms.deep_view() == forms_in(site_elements(html@)));
                validate_equivalence(&site) && site.crud.forms.len() == 1 && is_complete_form(
                    &site.crud.forms[0],
                ) && site.crud.tables.len() == 1 && site.crud.tables[0].row_count >= 1
                    && binds_handler(&site.ops)
            },
            Pattern::P3DataViz => {
                let site = transpile_data_viz(html);
                validate_equivalence(&site) && site.dataviz.charts.len() == 1 && is_complete_chart(
                    &site.dataviz.charts[0],
                ) && eq_ignore_case(&site.dataviz.charts[0].tag, "canvas")
            },
            Pattern::P4MediaPlayer => {
                let site = transpile_media_player(html);
                validate_equivalence(&site) && site.media.players.len() == 1 && eq_ignore_case(
                    &site.media.players[0].kind,
                    "video",
                ) && site.media.players[0].src.is_some() && site.media.players[0].has_controls
                    && !site.media.players[0].loop_playback
            },
            _ => false,
        }
    }

    /// Whether the pipeline supports this pattern, decided by running the transpiler on a
    /// representative document.
    pub fn supported(&self) -> (b: bool)
        ensures
            b == is_supported(*self),
    {
        match self {
            Pattern::P1StaticSite => self.probe(self.sample()),
            Pattern::P2FormCrud => self.probe(self.sample()),
            _ => false,
        }
    }
}

/// Aggregate coverage and equivalence metrics of the pipeline.
#[derive(Debug, Clone)]
pub struct CoverageReport {
    /// Patterns that are supported, each once.
    pub supported: Vec<Pattern>,
    /// Equivalence checks executed.
    pub equivalence_checks: u64,
    /// Equivalence checks that passed.
    pub equivalence_passed: u64,
}

/// The supported patterns of a list, in order.
pub open spec fn supported_of(ps: Seq<Pattern>) -> Seq<Pattern>
    decreases ps.len(),
{
    if ps.len() == 0 {
        Seq::empty()
    } else if is_supported(ps.last()) {
        supported_of(ps.drop_last()).push(ps.last())
    } else {
        supported_of(ps.drop_last())
    }
}

/// One line per pattern, marked by whether it is supported.
pub open spec fn pattern_lines(ps: Seq<Pattern>, supported: Seq<Pattern>) -> Seq<char>
    decreases ps.len(),
{
    if ps.len() == 0 {
        Seq::empty()
    } else {
        pattern_lines(ps.drop_last(), supported) + ("    ["@ + (if supported.contains(ps.last()) {
            "✓"@
        } else {
            "✗"@
        }) + "] "@ + pattern_label(ps.last()) + "\n"@)
    }
}

/// The text of a report.
pub open spec fn report_lines(supported: Seq<Pattern>, checks: nat, passed: nat) -> Seq<char> {
    "Helix migration pipeline coverage\n  patterns supported: "@ + dec(supported.len()) + "/6 ("@
        + percent_text(supported.len(), 6) + "%)\n"@ + pattern_lines(all_patterns(), supported)
        + "  Stage S3 equivalence pass-rate: "@ + percent_text(passed, checks) + "% ("@ + dec(passed)
        + "/"@ + dec(checks) + ")\n"@
}

fn has_pattern(ps: &Vec<Pattern>, p: Pattern) -> (b: bool)
    ensures
        b == ps@.contains(p),
{
    let mut i: usize = 0;
    while i < ps.len()
        invariant
            0 <= i <= ps@.len(),
            forall|j: int| 0 <= j < i ==> ps@[j] != p,
        decreases ps@.len() - i,
    {
        if ps[i] == p {
            assert(ps@[i as int] == p);
            return true;
        }
        i = i + 1;
    }
    false
}

impl CoverageReport {
    /// Build a report by probing every pattern; each supported pattern counts as one equivalence
    /// check that passed.
    pub fn collect() -> (report: Self)
        ensures
            report.supported@ == supported_of(all_patterns()),
            report.equivalence_checks == report.supported@.len(),
            report.equivalence_passed == report.supported@.len(),
    {
        let all = Pattern::all();
        let mut supported: Vec<Pattern> = Vec::new();
        let mut i: usize = 0;
        let mut checks: u64 = 0;
        assert(all@.take(0) =~= Seq::<Pattern>::empty());
        assert(supported@ =~= supported_of(all@.take(0)));
        while i < all.len()
            invariant
                0 <= i <= all@.len(),
                all@ == all_patterns(),
                supported@ == supported_of(all@.take(i as int)),
                checks == supported@.len(),
                checks <= i,
            decreases all@.len() - i,
        {
            assert(all@.take(i + 1).drop_last() =~= all@.take(i as int));
            if all[i].supported() {
                supported.push(all[i]);
                checks = checks + 1;
            }
            i = i + 1;
        }
        assert(all@.take(all@.len() as int) =~= all@);
        CoverageReport { supported, equivalence_checks: checks, equivalence_passed: checks }
    }

    /// Human-readable, publishable summary.
    pub fn report_text(&self) -> (s: String)
        ensures
            s@ == report_lines(
                self.supported@,
                self.equivalence_checks as nat,
                self.equivalence_passed as nat,
            ),
    {
        let all = Pattern::all();
        let mut s = String::from_str("Helix migration pipeline coverage\n  patterns supported: ");
        s.append(&decimal(self.supported.len() as u64));
        s.append("/6 (");
        s.append(&percent(self.supported.len() as u64, 6));
        s.append("%)\n");
        let ghost head = s@;
        let mut i: usize = 0;
        assert(all@.take(0) =~= Seq::<Pattern>::empty());
        assert(s@ =~= head + pattern_lines(all@.take(0), self.supported@));
        while i < all.len()
            invariant
                0 <= i <= all@.len(),
                s@ == head + pattern_lines(all@.take(i as int), self.supported@),
            decreases all@.len() - i,
        {
            assert(all@.take(i + 1).drop_last() =~= all@.take(i as int));
            s.append("    [");
            s.append(
                if has_pattern(&self.supported, all[i]) {
                    "✓"
                } else {
                    "✗"
                },
            );
            s.append("] ");
            s.append(all[i].label());
            s.append("\n");
            assert(s@ =~= head + pattern_lines(all@.take(i + 1), self.supported@));
            i = i + 1;
        }
        assert(all@.take(all@.len() as int) =~= all@);
        s.append("  Stage S3 equivalence pass-rate: ");
        s.append(&percent(self.equivalence_passed, self.equivalence_checks));
        s.append("% (");
        s.append(&decimal(self.equivalence_passed));
        s.append("/");
        s.append(&decimal(self.equivalence_checks));
        s.append(")\n");
        assert(s@ =~= report_lines(
            self.supported@,
            self.equivalence_checks as nat,
            self.equivalence_passed as nat,
        ));
        s
    }
}

} // verus!
