//! Migration planning: which pattern a document follows, which stages to run, and what each gives.
use crate::migrate::coverage::{
    complete_chart, complete_form, is_complete_chart, is_complete_form, pattern_label, Pattern,
};
use crate::migrate::deploy::{
    deploy_document, flags_module, generate_deploy_config, generate_feature_flags, DeployConfig,
    FeatureFlag, FlagView, TargetPlatform,
};
use crate::migrate::discovery::{discover, lines_surface, readable, ApiSurfaceMap, Surface};
use crate::migrate::equivalence::equivalent;
use crate::migrate::optimize::{
    lemma_small_sizes_fit, loop_suggestions, packing, sizes_of, suggest_parallel_loops,
    suggest_struct_packing, FieldSize, Suggestion, SuggestionView,
};
use crate::migrate::site_model::{
    charts_in, forms_in, players_in, tables_in, ChartView, FieldView, FormView, PlayerView,
};
use crate::migrate::syntax::SourceLang;
use crate::migrate::transpile::{
    site_elements, site_ops, transpile_data_viz, transpile_form_app, transpile_media_player,
    transpile_static_site, FormModel, TranspiledSite,
};
use crate::migrate::tree_sitter_discovery::{ast_surface, discover_ast};
use crate::strings::{dec, decimal, lines, str_eq};
use vstd::prelude::*;
use vstd::string::*;

pub use crate::migrate::equivalence::validate_equivalence;

verus! {

/// How strongly a pattern matches a document.
#[derive(Debug, Clone, Copy, PartialEq, Eq, Structural)]
pub enum Fit {
    /// The detected structure is complete.
    Strong,
    /// The pattern is the best match but the structure is incomplete.
    Partial,
    /// No supported pattern matched.
    Unmatched,
}

/// A planned migration stage.
#[derive(Debug, Clone, PartialEq, Eq)]
pub struct StagePlan {
    /// Stage number (1 = discovery … 5 = deploy).
    pub stage: u8,
    /// Human-readable stage name.
    pub name: String,
    /// Whether the stage runs.
    pub enabled: bool,
    /// Planner note (e.g. why a stage is skipped).
    pub note: String,
}

/// The mathematical form of a planned stage.
pub struct StageView {
    pub stage: u8,
    pub name: Seq<char>,
    pub enabled: bool,
    pub note: Seq<char>,
}

impl DeepView for StagePlan {
    type V = StageView;

    open spec fn deep_view(&self) -> StageView {
        StageView {
            stage: self.stage,
            name: self.name@,
            enabled: self.enabled,
            note: self.note@,
        }
    }
}

/// The migration plan of one application.
#[derive(Debug, Clone, PartialEq, Eq)]
pub struct MigrationPlan {
    pub app_name: String,
    pub version: String,
    /// The pattern that the document follows.
    pub detected: Pattern,
    /// Confidence of the classification.
    pub confidence: Fit,
    /// Per-stage plan, in order.
    pub stages: Vec<StagePlan>,
    /// Deploy targets selected for the plan.
    pub targets: Vec<TargetPlatform>,
}

/// Inputs to a migration.
#[derive(Debug, Clone, PartialEq, Eq)]
pub struct PlanRequest {
    pub app_name: String,
    pub version: String,
    /// Primary HTML document to migrate.
    pub html: String,
    /// Optional script source.
    pub js: Option<String>,
    /// Deploy targets the migrated app should ship to.
    pub targets: Vec<TargetPlatform>,
}

/// A migration: its plan and every stage's artifact.
#[derive(Debug)]
pub struct OrchestratedMigration {
    pub plan: MigrationPlan,
    /// Discovery output.
    pub surface: ApiSurfaceMap,
    /// Transpiled guest.
    pub site: TranspiledSite,
    /// Equivalence check result.
    pub equivalence_ok: bool,
    /// Optimization suggestions.
    pub suggestions: Vec<Suggestion>,
    /// Deployment document.
    pub deploy_config: String,
    /// Feature-flag module.
    pub feature_flags: String,
}

/// Whether some player has a source and controls.
pub open spec fn strong_players(ps: Seq<PlayerView>) -> bool {
    exists|i: int|
        0 <= i < ps.len() && (#[trigger] ps[i]).src is Some && ps[i].has_controls
}

/// Whether some chart is complete.
pub open spec fn strong_charts(cs: Seq<ChartView>) -> bool {
    exists|i: int| 0 <= i < cs.len() && complete_chart(#[trigger] cs[i])
}

/// Whether some form is complete.
pub open spec fn strong_forms(fs: Seq<FormView>) -> bool {
    exists|i: int| 0 <= i < fs.len() && complete_form(#[trigger] fs[i])
}

/// How strongly a structure matches.
pub open spec fn fit_of(strong: bool) -> Fit {
    if strong {
        Fit::Strong
    } else {
        Fit::Partial
    }
}

/// The pattern that a document follows: players come before charts, charts before forms and tables,
/// and a document with none of them is static content.
pub open spec fn pattern_of(html: Seq<char>) -> (Pattern, Fit) {
    let es = site_elements(html);
    if players_in(es).len() > 0 {
        (Pattern::P4MediaPlayer, fit_of(strong_players(players_in(es))))
    } else if charts_in(es).len() > 0 {
        (Pattern::P3DataViz, fit_of(strong_charts(charts_in(es))))
    } else if forms_in(es).len() > 0 || tables_in(es).len() > 0 {
        (Pattern::P2FormCrud, fit_of(strong_forms(forms_in(es)) && tables_in(es).len() > 0))
    } else {
        (Pattern::P1StaticSite, Fit::Strong)
    }
}

fn fit(strong: bool) -> (f: Fit)
    ensures
        f == fit_of(strong),
{
    if strong {
        Fit::Strong
    } else {
        Fit::Partial
    }
}

/// Classify an HTML document into its dominant migration pattern.
pub fn detect_pattern(html: &str) -> (r: (Pattern, Fit))
    ensures
        r == pattern_of(html@),
{
    let site = transpile_static_site(html);
    if site.media.players.len() > 0 {
        let ghost all = site.media.players.deep_view();
        let mut strong = false;
        let mut i: usize = 0;
        while i < site.media.players.len()
            invariant
                0 <= i <= site.media.players@.len(),
                all == site.media.players.deep_view(),
                strong == (exists|j: int|
                    0 <= j < i && (#[trigger] all[j]).src is Some && all[j].has_controls),
            decreases site.media.players@.len() - i,
        {
            let p = &site.media.players[i];
            assert(all[i as int] == p.deep_view());
            if p.src.is_some() && p.has_controls {
                strong = true;
            }
            i = i + 1;
        }
        return (Pattern::P4MediaPlayer, fit(strong));
    }
    if site.dataviz.charts.len() > 0 {
        let ghost all = site.dataviz.charts.deep_view();
        let mut strong = false;
        let mut i: usize = 0;
        while i < site.dataviz.charts.len()
            invariant
                0 <= i <= site.dataviz.charts@.len(),
                all == site.dataviz.charts.deep_view(),
                strong == (exists|j: int| 0 <= j < i && complete_chart(#[trigger] all[j])),
            decreases site.dataviz.charts@.len() - i,
        {
            assert(all[i as int] == site.dataviz.charts@[i as int].deep_view());
            if is_complete_chart(&site.dataviz.charts[i]) {
                strong = true;
            }
            i = i + 1;
        }
        return (Pattern::P3DataViz, fit(strong));
    }
    if site.crud.forms.len() > 0 || site.crud.tables.len() > 0 {
        let ghost all = site.crud.forms.deep_view();
        let mut strong = false;
        let mut i: usize = 0;
        while i < site.crud.forms.len()
            invariant
                0 <= i <= site.crud.forms@.len(),
                all == site.crud.forms.deep_view(),
                strong == (exists|j: int| 0 <= j < i && complete_form(#[trigger] all[j])),
            decreases site.crud.forms@.len() - i,
        {
            assert(all[i as int] == site.crud.forms@[i as int].deep_view());
            if is_complete_form(&site.crud.forms[i]) {
                strong = true;
            }
            i = i + 1;
        }
        return (Pattern::P2FormCrud, fit(strong && site.crud.tables.len() > 0));
    }
    (Pattern::P1StaticSite, Fit::Strong)
}

/// Transpiles a document by the transpiler of its pattern.
fn transpile_for(pattern: Pattern, html: &str) -> (site: TranspiledSite)
    ensures
        site.renders(html@),
{
    match pattern {
        Pattern::P2FormCrud => transpile_form_app(html),
        Pattern::P3DataViz => transpile_data_viz(html),
        Pattern::P4MediaPlayer => transpile_media_player(html),
        _ => transpile_static_site(html),
    }
}

/// The byte size that stands for a form field of a type.
pub open spec fn field_bytes(input_type: Seq<char>) -> nat {
    if input_type == "number"@ {
        8
    } else if input_type == "checkbox"@ || input_type == "radio"@ || input_type == "range"@ {
        1
    } else {
        24
    }
}

fn field_size(input_type: &str) -> (n: usize)
    ensures
        n == field_bytes(input_type@),
{
    if str_eq(input_type, "number") {
        8
    } else if str_eq(input_type, "checkbox") || str_eq(input_type, "radio") || str_eq(
        input_type,
        "range",
    ) {
        1
    } else {
        24
    }
}

/// The fields of the struct that a form's data makes.
pub open spec fn form_fields(form: FormView) -> Seq<FieldSize> {
    form.fields.map_values(|f: FieldView| (f.var + "_field"@, field_bytes(f.input_type)))
}

fn form_packing_fields(form: &FormModel) -> (r: Vec<(String, usize)>)
    ensures
        sizes_of(r@) == form_fields(form.deep_view()),
{
    let ghost all = form.deep_view().fields;
    let mut r: Vec<(String, usize)> = Vec::new();
    let mut i: usize = 0;
    let ghost g = |f: FieldView| (f.var + "_field"@, field_bytes(f.input_type));
    assert(sizes_of(r@) =~= all.take(0).map_values(g));
    while i < form.fields.len()
        invariant
            0 <= i <= form.fields@.len(),
            all == form.deep_view().fields,
            g == (|f: FieldView| (f.var + "_field"@, field_bytes(f.input_type))),
            sizes_of(r@) == all.take(i as int).map_values(g),
        decreases form.fields@.len() - i,
    {
        let f = &form.fields[i];
        assert(all[i as int] == f.deep_view());
        let mut name = f.var.clone();
        name.append("_field");
        let ghost before = sizes_of(r@);
        let size = field_size(&f.input_type);
        r.push((name, size));
        assert(sizes_of(r@) =~= before.push((name@, size as nat)));
        assert(all.take(i + 1).map_values(g) =~= all.take(i as int).map_values(g).push(
            g(all[i as int]),
        ));
        i = i + 1;
    }
    assert(all.take(all.len() as int) =~= all);
    r
}

/// The name of a pattern in a planner note.
pub open spec fn pattern_name(p: Pattern) -> Seq<char> {
    match p {
        Pattern::P1StaticSite => "P1StaticSite"@,
        Pattern::P2FormCrud => "P2FormCrud"@,
        Pattern::P3DataViz => "P3DataViz"@,
        Pattern::P4MediaPlayer => "P4MediaPlayer"@,
        Pattern::P5Realtime => "P5Realtime"@,
        Pattern::P6ComplexSpa => "P6ComplexSpa"@,
    }
}

fn name_of(p: Pattern) -> (s: &'static str)
    ensures
        s@ == pattern_name(p),
{
    match p {
        Pattern::P1StaticSite => "P1StaticSite",
        Pattern::P2FormCrud => "P2FormCrud",
        Pattern::P3DataViz => "P3DataViz",
        Pattern::P4MediaPlayer => "P4MediaPlayer",
        Pattern::P5Realtime => "P5Realtime",
        Pattern::P6ComplexSpa => "P6ComplexSpa",
    }
}

/// The stages of a plan.
pub open spec fn stages_of(detected: Pattern, confidence: Fit, targets: nat) -> Seq<StageView> {
    let found = confidence != Fit::Unmatched;
    seq![
        StageView {
            stage: 1,
            name: "discovery"@,
            enabled: true,
            note: "API surface map extracted from JS/TS (tree-sitter) or HTML."@,
        },
        StageView {
            stage: 2,
            name: "transpile"@,
            enabled: found,
            note: "Using "@ + pattern_name(detected) + " transpiler."@,
        },
        StageView {
            stage: 3,
            name: "validate"@,
            enabled: found,
            note: "Equivalence (1:1 text + structural soundness) checked."@,
        },
        StageView {
            stage: 4,
            name: "optimize"@,
            enabled: true,
            note: "Dead-code + struct-packing + parallel-loop suggestions."@,
        },
        StageView {
            stage: 5,
            name: "deploy"@,
            enabled: targets > 0,
            note: if targets > 0 {
                "Emitting config for "@ + dec(targets) + " target(s)."@
            } else {
                "No targets selected; deploy config skipped."@
            },
        },
    ]
}

fn build_stages(detected: Pattern, confidence: Fit, targets: &Vec<TargetPlatform>) -> (r: Vec<
    StagePlan,
>)
    ensures
        r.deep_view() == stages_of(detected, confidence, targets@.len()),
{
    let found = confidence != Fit::Unmatched;
    let deploys = targets.len() > 0;
    let mut using = String::from_str("Using ");
    using.append(name_of(detected));
    using.append(" transpiler.");
    let deploy_note = if deploys {
        let mut s = String::from_str("Emitting config for ");
        s.append(&decimal(targets.len() as u64));
        s.append(" target(s).");
        s
    } else {
        String::from_str("No targets selected; deploy config skipped.")
    };
    let mut r: Vec<StagePlan> = Vec::new();
    r.push(
        StagePlan {
            stage: 1,
            name: String::from_str("discovery"),
            enabled: true,
            note: String::from_str("API surface map extracted from JS/TS (tree-sitter) or HTML."),
        },
    );
    r.push(
        StagePlan { stage: 2, name: String::from_str("transpile"), enabled: found, note: using },
    );
    r.push(
        StagePlan {
            stage: 3,
            name: String::from_str("validate"),
            enabled: found,
            note: String::from_str("Equivalence (1:1 text + structural soundness) checked."),
        },
    );
    r.push(
        StagePlan {
            stage: 4,
            name: String::from_str("optimize"),
            enabled: true,
            note: String::from_str("Dead-code + struct-packing + parallel-loop suggestions."),
        },
    );
    r.push(
        StagePlan {
            stage: 5,
            name: String::from_str("deploy"),
            enabled: deploys,
            note: deploy_note,
        },
    );
    assert(r.deep_view() =~= stages_of(detected, confidence, targets@.len()));
    r
}

fn copy_targets(targets: &Vec<TargetPlatform>) -> (r: Vec<TargetPlatform>)
    ensures
        r@ == targets@,
{
    let mut r: Vec<TargetPlatform> = Vec::new();
    let mut i: usize = 0;
    while i < targets.len()
        invariant
            0 <= i <= targets@.len(),
            r@ == targets@.take(i as int),
        decreases targets@.len() - i,
    {
        r.push(targets[i]);
        assert(targets@.take(i + 1) =~= targets@.take(i as int).push(targets@[i as int]));
        i = i + 1;
    }
    assert(targets@.take(targets@.len() as int) =~= targets@);
    r
}

impl MigrationPlan {
    /// The plan is the one for a request.
    pub open spec fn plans(self, req: PlanRequest) -> bool {
        &&& self.app_name@ == req.app_name@
        &&& self.version@ == req.version@
        &&& (self.detected, self.confidence) == pattern_of(req.html@)
        &&& self.stages.deep_view() == stages_of(
            self.detected,
            self.confidence,
            req.targets@.len(),
        )
        &&& self.targets@ == req.targets@
    }
}

/// Plan a migration without executing its passes.
pub fn plan(req: &PlanRequest) -> (p: MigrationPlan)
    ensures
        p.plans(*req),
{
    let (detected, confidence) = detect_pattern(&req.html);
    MigrationPlan {
        app_name: req.app_name.clone(),
        version: req.version.clone(),
        detected,
        confidence,
        stages: build_stages(detected, confidence, &req.targets),
        targets: copy_targets(&req.targets),
    }
}

/// The short identifier of a pattern.
pub open spec fn short_id(p: Pattern) -> Seq<char> {
    match p {
        Pattern::P1StaticSite => "p1"@,
        Pattern::P2FormCrud => "p2"@,
        Pattern::P3DataViz => "p3"@,
        Pattern::P4MediaPlayer => "p4"@,
        Pattern::P5Realtime => "p5"@,
        Pattern::P6ComplexSpa => "p6"@,
    }
}

/// Short machine identifier for a pattern (used in feature-flag names).
fn pattern_id(p: Pattern) -> (s: &'static str)
    ensures
        s@ == short_id(p),
{
    match p {
        Pattern::P1StaticSite => "p1",
        Pattern::P2FormCrud => "p2",
        Pattern::P3DataViz => "p3",
        Pattern::P4MediaPlayer => "p4",
        Pattern::P5Realtime => "p5",
        Pattern::P6ComplexSpa => "p6",
    }
}

/// The feature flags of a migration.
pub open spec fn migration_flags(detected: Pattern, confidence: Fit) -> Seq<FlagView> {
    seq![
        FlagView {
            name: "helix-runtime"@,
            enabled: true,
            description: "Run on the Helix Runtime"@,
        },
        FlagView {
            name: "pattern-"@ + short_id(detected),
            enabled: confidence != Fit::Unmatched,
            description: "Migrated via "@ + pattern_label(detected) + " pipeline"@,
        },
    ]
}

fn build_flags(detected: Pattern, confidence: Fit) -> (r: Vec<FeatureFlag>)
    ensures
        r.deep_view() == migration_flags(detected, confidence),
{
    let mut name = String::from_str("pattern-");
    name.append(pattern_id(detected));
    let mut description = String::from_str("Migrated via ");
    description.append(detected.label());
    description.append(" pipeline");
    let mut r: Vec<FeatureFlag> = Vec::new();
    r.push(
        FeatureFlag {
            name: String::from_str("helix-runtime"),
            enabled: true,
            description: String::from_str("Run on the Helix Runtime"),
        },
    );
    r.push(FeatureFlag { name, enabled: confidence != Fit::Unmatched, description });
    assert(r.deep_view() =~= migration_flags(detected, confidence));
    r
}

/// The script of a request, or its document where it has none.
pub open spec fn script_of(req: PlanRequest) -> Seq<char> {
    match req.js {
        Some(js) => js@,
        None => req.html@,
    }
}

/// The surface of a request: by a parse of its script, or by a scan of its document.
pub open spec fn surface_of_request(req: PlanRequest) -> Surface {
    match req.js {
        Some(js) => ast_surface(js@, SourceLang::Tsx),
        None => lines_surface(lines(req.html@)),
    }
}

/// The suggestions for a request: on the struct of the first form, then on the loops of the script.
pub open spec fn suggestions_of(req: PlanRequest) -> Seq<SuggestionView> {
    let forms = forms_in(site_elements(req.html@));
    (if forms.len() > 0 {
        packing(form_fields(forms[0]))
    } else {
        Seq::empty()
    }) + loop_suggestions(lines(script_of(req)))
}

impl OrchestratedMigration {
    /// The migration is the one that a request asks for.
    pub open spec fn carries_out(self, req: PlanRequest) -> bool {
        &&& self.plan.plans(req)
        &&& self.surface@ == surface_of_request(req)
        &&& self.site.renders(req.html@)
        &&& self.equivalence_ok == equivalent(site_ops(req.html@))
        &&& self.suggestions.deep_view() == suggestions_of(req)
        &&& self.deploy_config@ == deploy_document(req.app_name@, req.version@, req.targets@)
        &&& self.feature_flags@ == flags_module(
            migration_flags(pattern_of(req.html@).0, pattern_of(req.html@).1),
        )
    }
}

/// The suggestions for a transpiled document and its script.
fn suggest(site: &TranspiledSite, req: &PlanRequest) -> (r: Vec<Suggestion>)
    requires
        site.renders(req.html@),
    ensures
        r.deep_view() == suggestions_of(*req),
{
    let ghost forms = forms_in(site_elements(req.html@));
    let mut r: Vec<Suggestion> = Vec::new();
    if site.crud.forms.len() > 0 {
        let fields = form_packing_fields(&site.crud.forms[0]);
        let count = fields.len();
        proof {
            assert(site.crud.forms.deep_view()[0] == site.crud.forms@[0].deep_view());
            assert(sizes_of(fields@).len() == count);
            lemma_small_sizes_fit(sizes_of(fields@));
        }
        r = suggest_struct_packing(&fields);
        assert(r.deep_view() == packing(form_fields(forms[0])));
    } else {
        assert(forms.len() == 0);
        assert(r.deep_view() =~= Seq::<SuggestionView>::empty());
    }
    let mut more = match &req.js {
        Some(js) => suggest_parallel_loops(js),
        None => suggest_parallel_loops(&req.html),
    };
    let ghost a = r.deep_view();
    let ghost b = more.deep_view();
    r.append(&mut more);
    assert(r.deep_view() =~= a + b);
    r
}

/// Execute the full pipeline for a request: discovery, transpilation, validation, optimisation
/// suggestions, and deployment.
pub fn orchestrate(req: &PlanRequest) -> (m: OrchestratedMigration)
    requires
        req.js is None ==> readable(req.html@),
    ensures
        m.carries_out(*req),
{
    let surface = match &req.js {
        Some(js) => discover_ast(js, SourceLang::Tsx),
        None => discover(&req.html),
    };
    let plan = plan(req);
    let site = transpile_for(plan.detected, &req.html);
    let equivalence_ok = validate_equivalence(&site);
    let suggestions = suggest(&site, req);
    let deploy_config = generate_deploy_config(
        &DeployConfig {
            app_name: req.app_name.clone(),
            version: req.version.clone(),
            targets: copy_targets(&req.targets),
        },
    );
    let feature_flags = generate_feature_flags(&build_flags(plan.detected, plan.confidence));
    OrchestratedMigration {
        plan,
        surface,
        site,
        equivalence_ok,
        suggestions,
        deploy_config,
        feature_flags,
    }
}

} // verus!
