use helix::migrate::transpile::{
    collect_text, count_nodes, parse_html, transpile_data_viz, transpile_form_app,
    transpile_media_player, transpile_static_site, DomOp,
};

#[test]
fn parses_nested_elements_and_attributes() {
    let html = r#"<html><head><title>T</title></head><body class="x"><p>Hi <b>there</b></p></body></html>"#;
    let nodes = parse_html(html);
    let (elements, texts) = count_nodes(&nodes);
    assert_eq!(elements, 6); // html, head, title, body, p, b
    assert_eq!(texts, 3); // T, Hi, there
    let text = collect_text(&nodes);
    assert_eq!(text, vec!["T", "Hi", "there"]);
}

#[test]
fn skips_comments_and_doctype_and_whitespace() {
    let html = r#"<!doctype html><!-- ignore --><div>   </div><p>real</p>"#;
    let nodes = parse_html(html);
    let (elements, texts) = count_nodes(&nodes);
    assert_eq!(elements, 2); // div, p
    assert_eq!(texts, 1); // real
}

#[test]
fn transpile_emits_ops_matching_source_shape() {
    let html = r#"<body><h1>Title</h1><p>Hello <b>world</b></p></body>"#;
    let site = transpile_static_site(html);
    let (elements, texts) = count_nodes(&parse_html(html));
    // Each element yields one Create; mixed-content text runs add a span.
    let creates = site
        .ops
        .iter()
        .filter(|o| matches!(o, DomOp::Create { .. }))
        .count();
    let set_texts = site
        .ops
        .iter()
        .filter(|o| matches!(o, DomOp::Text { .. }))
        .count();
    assert!(creates >= elements, "every element must be created");
    // Every text run maps to exactly one set_text (on element or span).
    assert_eq!(set_texts, texts, "text runs must be preserved 1:1");
    // Every Append has a defined parent (parent index < child index).
    let mut created = std::collections::HashSet::new();
    for op in &site.ops {
        if let DomOp::Create { var, .. } = op {
            created.insert(var.clone());
        }
        if let DomOp::Append { parent, child } = op {
            assert!(
                created.contains(parent),
                "append references undefined parent"
            );
            assert!(created.contains(child), "append references undefined child");
        }
    }
}

#[test]
fn generated_rust_is_well_formed() {
    let site = transpile_static_site(r#"<div class="a"><span>hi</span></div>"#);
    assert!(site.rust_source.contains("wit_bindgen::generate!"));
    assert!(site.rust_source.contains("pub extern \"C\" fn run()"));
    assert!(site.rust_source.contains("dom::create_element(&\"div\")"));
    assert!(
        site.rust_source
            .contains("dom::set_attribute(el0, &\"class\", &\"a\")")
    );
    assert!(site.rust_source.contains("dom::append_child(el0, el1)"));
    assert!(site.wit_world.contains("export run: func()"));
    // Static sites carry no interactive/CRUD structure.
    assert!(site.crud.is_empty());
}

#[test]
fn form_app_captures_fields_and_submit_handler() {
    let html = r#"
        <form onsubmit="add()">
            <label>Name</label>
            <input type="text" name="name" />
            <input type="number" name="age" />
            <button type="submit">Add</button>
        </form>"#;
    let site = transpile_form_app(html);

    // One form, carrying two fields and a submit affordance.
    assert_eq!(site.crud.forms.len(), 1);
    let form = &site.crud.forms[0];
    assert_eq!(form.fields.len(), 2);
    assert!(form.has_submit);
    assert_eq!(form.fields[0].name.as_deref(), Some("name"));
    assert_eq!(form.fields[0].input_type, "text");
    assert_eq!(form.fields[1].name.as_deref(), Some("age"));
    assert_eq!(form.fields[1].input_type, "number");

    // The form must carry an `onsubmit` handler op (not a raw attribute).
    let has_submit_handler = site.ops.iter().any(|o| {
        matches!(o, DomOp::OnSubmit { var, .. } if var == &form.var)
    });
    assert!(has_submit_handler, "form must emit a submit handler");

    // Field `name`/`type` must be present as attributes for data-binding.
    let attr_names: Vec<&str> = site
        .ops
        .iter()
        .filter_map(|o| match o {
            DomOp::Attr { name, .. } => Some(name.as_str()),
            _ => None,
        })
        .collect();
    assert!(attr_names.contains(&"name"));
    assert!(attr_names.contains(&"type"));

    // The label text is preserved exactly.
    let text: Vec<String> = site
        .ops
        .iter()
        .filter_map(|o| match o {
            DomOp::Text { text, .. } => Some(text.clone()),
            _ => None,
        })
        .collect();
    assert!(text.contains(&"Name".to_string()));
}

#[test]
fn form_app_captures_table_rows_as_entity_listing() {
    let html = r#"
        <table>
            <tr><td>a</td></tr>
            <tr><td>b</td></tr>
            <tr><td>c</td></tr>
        </table>"#;
    let site = transpile_form_app(html);

    assert_eq!(site.crud.tables.len(), 1);
    assert_eq!(site.crud.tables[0].row_count, 3);

    // Forward-reference soundness: every append resolves.
    let mut created = std::collections::HashSet::new();
    for op in &site.ops {
        if let DomOp::Create { var, .. } = op {
            created.insert(var.clone());
        }
        if let DomOp::Append { parent, child } = op {
            assert!(created.contains(parent), "append to undefined {parent}");
            assert!(created.contains(child), "append of undefined {child}");
        }
    }
}

#[test]
fn form_app_generates_handler_wiring_in_rust() {
    let html = r#"<form onsubmit="save()"><input name="x" onchange="upd()" /></form>"#;
    let site = transpile_form_app(html);
    assert!(site.rust_source.contains("dom::on_submit("));
    assert!(site.rust_source.contains("dom::on_change("));
    // Handlers must not leak as raw attributes.
    assert!(!site.rust_source.contains("set_attribute(el0, &\"onsubmit\""));
}

#[test]
fn data_viz_captures_chart_mount_and_series() {
    let html = r#"<h1>Dashboard</h1><canvas id="chart" width="800" height="600" data-series-0="revenue" data-series-1="cost"></canvas>"#;
    let site = transpile_data_viz(html);

    // One chart mount captured with resolved dimensions and series.
    assert_eq!(site.dataviz.charts.len(), 1);
    let chart = &site.dataviz.charts[0];
    assert_eq!(chart.tag, "canvas");
    assert_eq!(chart.id.as_deref(), Some("chart"));
    assert_eq!(chart.width, Some(800));
    assert_eq!(chart.height, Some(600));
    assert_eq!(chart.series.len(), 2);
    assert_eq!(chart.series[0], ("data-series-0".to_string(), "revenue".to_string()));
    assert_eq!(chart.series[1], ("data-series-1".to_string(), "cost".to_string()));

    // The chart's dimensions/series must surface as attributes on the
    // created element (so the guest can reconstruct it).
    let attrs: Vec<(String, String)> = site
        .ops
        .iter()
        .filter_map(|o| match o {
            DomOp::Attr { var, name, value } if var == &chart.var => {
                Some((name.clone(), value.clone()))
            }
            _ => None,
        })
        .collect();
    assert!(attrs.iter().any(|(k, v)| k == "id" && v == "chart"));
    assert!(attrs.iter().any(|(k, v)| k == "width" && v == "800"));
    assert!(attrs.iter().any(|(k, v)| k == "height" && v == "600"));
    assert!(attrs.iter().any(|(k, v)| k == "data-series-0" && v == "revenue"));

    // Heading text preserved exactly.
    let text: Vec<String> = site
        .ops
        .iter()
        .filter_map(|o| match o {
            DomOp::Text { text, .. } => Some(text.clone()),
            _ => None,
        })
        .collect();
    assert!(text.contains(&"Dashboard".to_string()));

    // Append soundness.
    let mut created = std::collections::HashSet::new();
    for op in &site.ops {
        if let DomOp::Create { var, .. } = op {
            created.insert(var.clone());
        }
        if let DomOp::Append { parent, child } = op {
            assert!(created.contains(parent) && created.contains(child));
        }
    }
}

#[test]
fn data_viz_also_detects_svg_charts() {
    let html = r#"<svg id="gauge" width="200" height="200"></svg>"#;
    let site = transpile_data_viz(html);
    assert_eq!(site.dataviz.charts.len(), 1);
    assert_eq!(site.dataviz.charts[0].tag, "svg");
    assert_eq!(site.dataviz.charts[0].id.as_deref(), Some("gauge"));
}

#[test]
fn media_player_captures_src_controls_and_sources() {
    let html = r#"
        <h1>Player</h1>
        <video src="main.mp4" controls>
            <source src="main.webm" type="video/webm"></source>
            <source src="main.ogg" type="video/ogg"></source>
        </video>"#;
    let site = transpile_media_player(html);

    assert_eq!(site.media.players.len(), 1);
    let player = &site.media.players[0];
    assert_eq!(player.kind, "video");
    assert_eq!(player.src.as_deref(), Some("main.mp4"));
    assert!(player.has_controls);
    assert!(!player.autoplay);
    assert!(!player.loop_playback);
    assert_eq!(player.sources.len(), 2);
    assert_eq!(player.sources[0].src, "main.webm");
    assert_eq!(player.sources[0].media_type.as_deref(), Some("video/webm"));
    assert_eq!(player.sources[1].src, "main.ogg");

    // Heading text preserved exactly.
    let text: Vec<String> = site
        .ops
        .iter()
        .filter_map(|o| match o {
            DomOp::Text { text, .. } => Some(text.clone()),
            _ => None,
        })
        .collect();
    assert!(text.contains(&"Player".to_string()));

    // Source children must not be emitted as top-level elements (they are
    // folded into the player model).
    let creates: Vec<String> = site
        .ops
        .iter()
        .filter_map(|o| match o {
            DomOp::Create { tag, .. } => Some(tag.clone()),
            _ => None,
        })
        .collect();
    assert!(!creates.contains(&"source".to_string()));

    // Append soundness.
    let mut created = std::collections::HashSet::new();
    for op in &site.ops {
        if let DomOp::Create { var, .. } = op {
            created.insert(var.clone());
        }
        if let DomOp::Append { parent, child } = op {
            assert!(created.contains(parent) && created.contains(child));
        }
    }
}

#[test]
fn media_player_wires_playback_event_handlers() {
    let html = r#"<audio src="podcast.mp3" controls onplay="started()" onpause="paused()" onended="done()"></audio>"#;
    let site = transpile_media_player(html);
    assert!(site.rust_source.contains("dom::on_play("));
    assert!(site.rust_source.contains("dom::on_pause("));
    assert!(site.rust_source.contains("dom::on_ended("));
    // Playback handlers must not leak as raw attributes.
    assert!(!site.rust_source.contains("set_attribute(el0, &\"onplay\""));
    assert_eq!(site.media.players[0].kind, "audio");
}

#[test]
fn text_keeps_the_white_space_inside_it() {
    let nodes = parse_html("<p>  Hello   world\n</p><p> </p>");
    assert_eq!(count_nodes(&nodes), (2, 1));
    let site = transpile_static_site("<p>  Hello   world\n</p>");
    assert!(site
        .ops
        .iter()
        .any(|o| matches!(o, DomOp::Text { text, .. } if text == "Hello   world")));
}
