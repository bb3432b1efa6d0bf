//! What a migration plan comes to: which pattern a document follows, what is deployed where, and what
//! is suggested.
use crate::migrate::coverage::{
    all_patterns, complete_chart, complete_form, is_supported, pattern_label, supported_of, wired,
    Pattern,
};
use crate::migrate::deploy::{
    const_char, const_name, flag_arms, flag_constants, target_tables, FlagView, TargetPlatform,
};
use crate::migrate::eve::{
    field_bytes, migration_flags, pattern_name, pattern_of, short_id, stages_of, Fit,
};
use crate::migrate::model_laws::{created, law_models_record_what_is_created};
use crate::migrate::optimize::{
    aligned, count, count_from, excerpt, fields_end, largest_first, loop_suggestions, loops,
    padded_size, seated, FieldSize, SuggestionKind,
};
use crate::migrate::site_model::{
    charts_in, escaped, forms_in, players_in, tables_in, ChartView, FormView, PlayerView, TableView,
};
use crate::migrate::transpile::{site_elements, site_ops};
use crate::runtime::stream_laws::free_of;
use crate::string_laws::{lemma_find_moves, lemma_find_mark};
use crate::strings::{before, dec, digit, find_from, lemma_find_from, lower, occurs, trim};
use vstd::arithmetic::div_mod::lemma_fundamental_div_mod;
use vstd::prelude::*;

verus! {

/// Patterns are labelled, named and identified by their priority.
pub proof fn law_patterns_go_by_priority(i: int)
    requires
        0 <= i < all_patterns().len(),
    ensures
        all_patterns().len() == 6,
        pattern_label(all_patterns()[i]).take(3) == seq!['P', digit((i + 1) as nat), ' '],
        pattern_name(all_patterns()[i]).take(2) == seq!['P', digit((i + 1) as nat)],
        short_id(all_patterns()[i]) == seq!['p', digit((i + 1) as nat)],
        wired(all_patterns()[i]) <==> i < 2,
{
    reveal_strlit("P1 static content sites");
    reveal_strlit("P2 form-based CRUD / dashboards");
    reveal_strlit("P3 data visualization");
    reveal_strlit("P4 media players");
    reveal_strlit("P5 real-time collaboration");
    reveal_strlit("P6 complex SPAs");
    reveal_strlit("P1StaticSite");
    reveal_strlit("P2FormCrud");
    reveal_strlit("P3DataViz");
    reveal_strlit("P4MediaPlayer");
    reveal_strlit("P5Realtime");
    reveal_strlit("P6ComplexSpa");
    reveal_strlit("p1");
    reveal_strlit("p2");
    reveal_strlit("p3");
    reveal_strlit("p4");
    reveal_strlit("p5");
    reveal_strlit("p6");
    let p = all_patterns()[i];
    assert(pattern_label(p).take(3) =~= seq!['P', digit((i + 1) as nat), ' ']);
    assert(pattern_name(p).take(2) =~= seq!['P', digit((i + 1) as nat)]);
    assert(short_id(p) =~= seq!['p', digit((i + 1) as nat)]);
}

/// The supported patterns of a list are those of it that are supported, in order.
pub proof fn law_supported_patterns(ps: Seq<Pattern>)
    ensures
        supported_of(ps) == ps.filter(|p: Pattern| is_supported(p)),
        forall|p: Pattern|
            supported_of(ps).contains(p) ==> p == Pattern::P1StaticSite || p == Pattern::P2FormCrud,
    decreases ps.len(),
{
    reveal(Seq::filter);
    if ps.len() > 0 {
        law_supported_patterns(ps.drop_last());
        let front = supported_of(ps.drop_last());
        assert forall|p: Pattern| supported_of(ps).contains(p) implies p == Pattern::P1StaticSite || p
            == Pattern::P2FormCrud by {
            let i = choose|i: int| 0 <= i < supported_of(ps).len() && supported_of(ps)[i] == p;
            if i < front.len() {
                assert(front[i] == p);
                assert(front.contains(p));
            }
        }
    }
    assert(supported_of(ps) =~= ps.filter(|p: Pattern| is_supported(p)));
}

/// A document with a player is a media player; else one with a chart is a visualization; else one
/// with a form or a table is a form application; and one with none of them is static.
pub proof fn law_patterns_are_found(html: Seq<char>)
    ensures
        ({
            let ops = site_ops(html);
            let players = created(ops, |t: Seq<char>| t == "video"@ || t == "audio"@).len();
            let charts = created(ops, |t: Seq<char>| t == "canvas"@ || t == "svg"@).len();
            let forms = created(ops, |t: Seq<char>| t == "form"@).len();
            let tables = created(ops, |t: Seq<char>| t == "table"@).len();
            let found = pattern_of(html).0;
            &&& players > 0 ==> found == Pattern::P4MediaPlayer
            &&& players == 0 && charts > 0 ==> found == Pattern::P3DataViz
            &&& players == 0 && charts == 0 && (forms > 0 || tables > 0) ==> found
                == Pattern::P2FormCrud
            &&& players == 0 && charts == 0 && forms == 0 && tables == 0 ==> pattern_of(html) == (
                Pattern::P1StaticSite,
                Fit::Strong,
            )
        }),
{
    law_models_record_what_is_created(html);
    let es = site_elements(html);
    assert(forms_in(es).map_values(|x: FormView| x.var).len() == forms_in(es).len());
    assert(tables_in(es).map_values(|x: TableView| x.var).len() == tables_in(es).len());
    assert(charts_in(es).map_values(|x: ChartView| x.var).len() == charts_in(es).len());
    assert(players_in(es).map_values(|x: PlayerView| x.var).len() == players_in(es).len());
}

/// A match is strong where the document has all that its pattern needs: a player with a source and
/// controls, a chart with a mount point, a size and a series, or a form that can be submitted, all
/// of whose fields have names, next to a table. Otherwise it is partial.
pub proof fn law_strong_matches(html: Seq<char>)
    ensures
        ({
            let es = site_elements(html);
            let (found, fit) = pattern_of(html);
            &&& fit == Fit::Strong || fit == Fit::Partial
            &&& found == Pattern::P4MediaPlayer ==> (fit == Fit::Strong <==> exists|i: int|
                0 <= i < players_in(es).len() && (#[trigger] players_in(es)[i]).src is Some
                    && players_in(es)[i].has_controls)
            &&& found == Pattern::P3DataViz ==> (fit == Fit::Strong <==> exists|i: int|
                {
                    let c = #[trigger] charts_in(es)[i];
                    0 <= i < charts_in(es).len() && c.id is Some && c.width is Some && c.height is Some
                        && c.series.len() > 0
                })
            &&& found == Pattern::P2FormCrud ==> (fit == Fit::Strong <==> tables_in(es).len() > 0
                && exists|i: int|
                {
                    let f = #[trigger] forms_in(es)[i];
                    0 <= i < forms_in(es).len() && f.fields.len() > 0 && f.has_submit && forall|j: int|
                        0 <= j < f.fields.len() ==> (#[trigger] f.fields[j]).name is Some
                })
        }),
{
    let es = site_elements(html);
    assert forall|i: int| 0 <= i < charts_in(es).len() implies complete_chart(
        #[trigger] charts_in(es)[i],
    ) == {
        let c = charts_in(es)[i];
        c.id is Some && c.width is Some && c.height is Some && c.series.len() > 0
    } by {}
    assert forall|i: int| 0 <= i < forms_in(es).len() implies complete_form(
        #[trigger] forms_in(es)[i],
    ) == {
        let f = forms_in(es)[i];
        f.fields.len() > 0 && f.has_submit && forall|j: int|
            0 <= j < f.fields.len() ==> (#[trigger] f.fields[j]).name is Some
    } by {}
}

/// A plan has five stages in order; what needs a pattern is on where one was found, and deployment
/// where there is a target.
pub proof fn law_stages(detected: Pattern, confidence: Fit, targets: nat)
    ensures
        ({
            let s = stages_of(detected, confidence, targets);
            &&& s.len() == 5
            &&& forall|i: int| 0 <= i < 5 ==> (#[trigger] s[i]).stage == i + 1
            &&& s[0].name == "discovery"@ && s[0].enabled
            &&& s[1].name == "transpile"@ && (s[1].enabled <==> confidence != Fit::Unmatched)
            &&& s[2].name == "validate"@ && (s[2].enabled <==> confidence != Fit::Unmatched)
            &&& s[3].name == "optimize"@ && s[3].enabled
            &&& s[4].name == "deploy"@ && (s[4].enabled <==> targets > 0)
        }),
{
}

/// A migration is switched on for the runtime, and for its pattern where one was found.
pub proof fn law_migration_flags(detected: Pattern, confidence: Fit)
    ensures
        ({
            let f = migration_flags(detected, confidence);
            &&& f.len() == 2
            &&& f[0].name == "helix-runtime"@ && f[0].enabled
            &&& f[1].name == "pattern-"@ + short_id(detected)
            &&& f[1].enabled <==> confidence != Fit::Unmatched
        }),
{
}

/// A number takes eight bytes, a switch and a position one, and every other field, whatever its type,
/// those of a string.
pub proof fn law_field_bytes(t: Seq<char>)
    ensures
        t == "number"@ ==> field_bytes(t) == 8,
        t == "checkbox"@ || t == "radio"@ || t == "range"@ ==> field_bytes(t) == 1,
        t != "number"@ && t != "checkbox"@ && t != "radio"@ && t != "range"@ ==> field_bytes(t) == 24,
{
    reveal_strlit("number");
    reveal_strlit("checkbox");
    reveal_strlit("radio");
    reveal_strlit("range");
    assert("number"@.len() == 6 && "checkbox"@.len() == 8 && "radio"@.len() == 5 && "range"@.len()
        == 5);
}

/// Each target is deployed under its own name and triple, in order.
pub proof fn law_targets(ts: Seq<TargetPlatform>)
    ensures
        target_tables(ts.push(TargetPlatform::LinuxX86_64)) == target_tables(ts)
            + "\n[[target]]\nname = \"linux-x86_64\"\ntriple = \"x86_64-unknown-linux-gnu\"\n"@,
        target_tables(ts.push(TargetPlatform::Wasm32)) == target_tables(ts)
            + "\n[[target]]\nname = \"wasm32\"\ntriple = \"wasm32-wasip2\"\n"@,
{
    reveal_strlit("\n[[target]]\nname = \"");
    reveal_strlit("\"\ntriple = \"");
    reveal_strlit("\"\n");
    reveal_strlit("linux-x86_64");
    reveal_strlit("x86_64-unknown-linux-gnu");
    reveal_strlit("wasm32");
    reveal_strlit("wasm32-wasip2");
    reveal_strlit("\n[[target]]\nname = \"linux-x86_64\"\ntriple = \"x86_64-unknown-linux-gnu\"\n");
    reveal_strlit("\n[[target]]\nname = \"wasm32\"\ntriple = \"wasm32-wasip2\"\n");
    let a = ts.push(TargetPlatform::LinuxX86_64);
    let b = ts.push(TargetPlatform::Wasm32);
    assert(a.drop_last() =~= ts);
    assert(b.drop_last() =~= ts);
    let x = "\n[[target]]\nname = \""@ + "linux-x86_64"@ + "\"\ntriple = \""@
        + "x86_64-unknown-linux-gnu"@ + "\"\n"@;
    let y = "\n[[target]]\nname = \""@ + "wasm32"@ + "\"\ntriple = \""@ + "wasm32-wasip2"@ + "\"\n"@;
    assert(x
        =~= "\n[[target]]\nname = \"linux-x86_64\"\ntriple = \"x86_64-unknown-linux-gnu\"\n"@);
    assert(y =~= "\n[[target]]\nname = \"wasm32\"\ntriple = \"wasm32-wasip2\"\n"@);
}

/// The constant of a flag is its name in capitals, digits as they are, with an underscore for
/// everything else, and a word behind it.
pub proof fn law_constant_names(name: Seq<char>, i: int)
    requires
        0 <= i < name.len(),
    ensures
        const_name(name).len() == name.len() + 8,
        ({
            let c = name[i];
            let d = const_name(name)[i];
            &&& !('a' <= d <= 'z')
            &&& 'a' <= c <= 'z' || 'A' <= c <= 'Z' || '0' <= c <= '9' ==> lower(d) == lower(c)
            &&& !('a' <= c <= 'z' || 'A' <= c <= 'Z' || '0' <= c <= '9') ==> d == '_'
        }),
        const_name(name).skip(name.len() as int) == "_ENABLED"@,
{
    reveal_strlit("_ENABLED");
    assert(const_name(name)[i] == const_char(name[i]));
    assert(const_name(name).skip(name.len() as int) =~= "_ENABLED"@);
}

/// Each flag has a constant that says whether it is on, and is looked up by its name as that constant.
pub proof fn law_flags(fs: Seq<FlagView>, name: Seq<char>, about: Seq<char>)
    ensures
        ({
            let on = FlagView { name, enabled: true, description: about };
            let off = FlagView { name, enabled: false, description: about };
            &&& flag_constants(fs.push(on)) == flag_constants(fs) + ("    /// "@ + about
                + "\n    pub const "@ + const_name(name) + ": bool = "@ + "true"@ + ";\n"@)
            &&& flag_constants(fs.push(off)) == flag_constants(fs) + ("    /// "@ + about
                + "\n    pub const "@ + const_name(name) + ": bool = "@ + "false"@ + ";\n"@)
            &&& flag_arms(fs.push(on)) == flag_arms(fs) + ("            \""@ + escaped(name)
                + "\" => "@ + const_name(name) + ",\n"@)
            &&& flag_arms(fs.push(on)) == flag_arms(fs.push(off))
        }),
{
    let on = FlagView { name, enabled: true, description: about };
    let off = FlagView { name, enabled: false, description: about };
    assert(fs.push(on).drop_last() =~= fs);
    assert(fs.push(off).drop_last() =~= fs);
}

/// What a number is aligned to is the least multiple that is not below it.
pub proof fn law_alignment(n: nat, a: nat)
    requires
        a > 0,
    ensures
        n <= aligned(n, a) < n + a,
        exists|k: nat| aligned(n, a) == #[trigger] (k * a),
{
    let x = (n + a - 1) as nat;
    let k = x / a;
    lemma_fundamental_div_mod(x as int, a as int);
    assert(a * k == k * a) by (nonlinear_arith);
    assert(aligned(n, a) == k * a);
}

/// A struct takes whole words of eight bytes, as many as its fields need where each stands on a
/// multiple of its own size.
pub proof fn law_struct_sizes(fs: Seq<FieldSize>, f: FieldSize)
    ensures
        fields_end(Seq::empty()) == 0,
        f.1 == 0 ==> fields_end(fs.push(f)) == fields_end(fs),
        f.1 > 0 ==> fields_end(fs) + f.1 <= fields_end(fs.push(f)) < fields_end(fs) + 2 * f.1,
        f.1 > 0 ==> exists|k: nat| fields_end(fs.push(f)) == #[trigger] (k * f.1),
        fields_end(fs) <= padded_size(fs) < fields_end(fs) + 8,
        padded_size(fs) % 8 == 0,
{
    assert(fs.push(f).drop_last() =~= fs);
    if f.1 > 0 {
        law_alignment(fields_end(fs), f.1);
        let k = choose|k: nat| aligned(fields_end(fs), f.1) == #[trigger] (k * f.1);
        let j = k + 1;
        assert(j * f.1 == k * f.1 + f.1) by (nonlinear_arith)
            requires
                j == k + 1,
        ;
        assert(fields_end(fs.push(f)) == j * f.1);
    } else {
        law_alignment(fields_end(fs), 1);
    }
    law_alignment(fields_end(fs), 8);
}

/// Fields of one size keep their order when fields are ordered by size.
pub proof fn law_equal_sizes_keep_order(fs: Seq<FieldSize>, n: nat)
    ensures
        largest_first(fs).filter(|f: FieldSize| f.1 == n) == fs.filter(|f: FieldSize| f.1 == n),
    decreases fs.len(),
{
    reveal(Seq::filter);
    let of = |f: FieldSize| f.1 == n;
    if fs.len() > 0 {
        let front = fs.drop_last();
        law_equal_sizes_keep_order(front, n);
        crate::migrate::optimize::law_suggested_order(front);
        lemma_seated_filter(largest_first(front), fs.last(), n);
        assert(largest_first(fs).filter(of) =~= fs.filter(of));
    }
}

proof fn lemma_seated_filter(fs: Seq<FieldSize>, f: FieldSize, n: nat)
    requires
        forall|i: int, j: int| 0 <= i < j < fs.len() ==> fs[i].1 >= fs[j].1,
    ensures
        seated(fs, f).filter(|x: FieldSize| x.1 == n) == (if f.1 == n {
            fs.filter(|x: FieldSize| x.1 == n).push(f)
        } else {
            fs.filter(|x: FieldSize| x.1 == n)
        }),
    decreases fs.len(),
{
    reveal(Seq::filter);
    let of = |x: FieldSize| x.1 == n;
    if fs.len() == 0 || fs.last().1 >= f.1 {
        assert(fs.push(f).drop_last() =~= fs);
    } else {
        let front = fs.drop_last();
        assert forall|i: int, j: int| 0 <= i < j < front.len() implies front[i].1 >= front[j].1 by {
            assert(fs[i].1 >= fs[j].1);
        }
        lemma_seated_filter(front, f, n);
        let s = seated(front, f);
        assert(s.push(fs.last()).drop_last() =~= s);
        if f.1 == n {
            assert(fs.last().1 < n);
        }
    }
}

/// A line that starts with a loop is one to look at, and so is one that holds a counted loop anywhere.
pub proof fn law_loops_are_found(a: Seq<char>, b: Seq<char>)
    ensures
        loops("for ("@ + b),
        loops("for("@ + b),
        loops("while ("@ + b),
        loops("while("@ + b),
        loops(a + "for (let"@ + b),
        loops(a + "for (const"@ + b),
        loops(a + "for (var"@ + b),
{
    reveal_strlit("for (");
    reveal_strlit("for(");
    reveal_strlit("while (");
    reveal_strlit("while(");
    reveal_strlit("for (let");
    reveal_strlit("for (const");
    reveal_strlit("for (var");
    assert(("for ("@ + b).subrange(0, 5) =~= "for ("@);
    assert(("for("@ + b).subrange(0, 4) =~= "for("@);
    assert(("while ("@ + b).subrange(0, 7) =~= "while ("@);
    assert(("while("@ + b).subrange(0, 6) =~= "while("@);
    let n = a.len() as int;
    let x = a + "for (let"@ + b;
    let y = a + "for (const"@ + b;
    let z = a + "for (var"@ + b;
    assert(x.subrange(n, n + 8) =~= "for (let"@);
    assert(occurs(x, "for (let"@, n));
    assert(y.subrange(n, n + 10) =~= "for (const"@);
    assert(occurs(y, "for (const"@, n));
    assert(z.subrange(n, n + 8) =~= "for (var"@);
    assert(occurs(z, "for (var"@, n));
}

/// A line without a loop gives no suggestion, and one with a loop gives one: by its number, counted
/// from one, with as much of its code as fits in forty-eight characters.
pub proof fn law_loop_suggestions(ls: Seq<Seq<char>>, line: Seq<char>)
    ensures
        ({
            let code = trim(before(line, "//"@));
            let all = loop_suggestions(ls.push(line));
            let front = loop_suggestions(ls);
            &&& !loops(code) ==> all == front
            &&& loops(code) ==> all.len() == front.len() + 1 && all.drop_last() == front
            &&& loops(code) ==> all.last().category == SuggestionKind::LoopParallel
                && all.last().location == Some("line "@ + dec((ls.len() + 1) as nat))
            &&& excerpt(code).len() <= 48 && excerpt(code) == code.take(excerpt(code).len() as int)
            &&& code.len() > 48 ==> excerpt(code).len() == 48
            &&& code.len() <= 48 ==> excerpt(code) == code
        }),
{
    assert(ls.push(line).drop_last() =~= ls);
    let code = trim(before(line, "//"@));
    assert(code.take(code.len() as int) =~= code);
    let all = loop_suggestions(ls.push(line));
    if loops(code) {
        assert(all.drop_last() =~= loop_suggestions(ls));
    }
}

/// Occurrences are counted one by one, each behind the last.
pub proof fn law_occurrences_are_counted(a: Seq<char>, p: Seq<char>, b: Seq<char>)
    requires
        p.len() > 0,
        forall|k: int| 0 < k < p.len() ==> #[trigger] p[k] != p[0],
        free_of(a, p),
    ensures
        count(a, p) == 0,
        count(a + p + b, p) == 1 + count(b, p),
{
    lemma_find_from(a, p, 0);
    if let Some(i) = find_from(a, p, 0) {
        assert(occurs(a, p, i));
    }
    lemma_find_mark(a, p, b);
    let h = a + p;
    assert(a + p + b =~= h + b);
    lemma_count_moves(h, b, p, 0);
}

proof fn lemma_count_moves(h: Seq<char>, s: Seq<char>, p: Seq<char>, i: int)
    requires
        0 <= i <= s.len(),
        p.len() > 0,
    ensures
        count_from(h + s, p, h.len() + i) == count_from(s, p, i),
    decreases s.len() - i,
{
    lemma_find_moves(h, s, p, i);
    lemma_find_from(s, p, i);
    if let Some(j) = find_from(s, p, i) {
        assert(occurs(s, p, j));
        lemma_count_moves(h, s, p, j + p.len());
    }
}

} // verus!
