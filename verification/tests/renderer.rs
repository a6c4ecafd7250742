use jasmin_report::events::{HeadingRecord, MdEvent, OutEvent, StructuralViolation};
use jasmin_report::extract::extract_headings;
use jasmin_report::linker::{
    add_links_to_html, add_links_with, get_safe_event_filename, link_occurrences, link_text,
    sqlid_filename, EntityGroup,
};
use jasmin_report::render::{derive_html_dir, markdown_to_html_with_toc};
use jasmin_report::toc::render_toc;

fn heading(level: u8, text: &str) -> Vec<MdEvent> {
    vec![
        MdEvent::HeadingStart(level),
        MdEvent::Text(text.to_string()),
        MdEvent::HeadingEnd,
    ]
}

#[test]
fn anchor_ids_are_sequential_and_distinct() {
    let mut events = heading(1, "Intro");
    events.extend(heading(2, "Intro"));
    events.extend(heading(2, "Intro"));
    let (_, recs) = extract_headings(&events).unwrap();
    assert_eq!(recs.len(), 3);
    assert_eq!(recs[0].anchor_id, "section-1");
    assert_eq!(recs[1].anchor_id, "section-2");
    assert_eq!(recs[2].anchor_id, "section-3");
}

#[test]
fn label_concatenates_text_and_code_only() {
    let events = vec![
        MdEvent::HeadingStart(2),
        MdEvent::Text("A ".to_string()),
        MdEvent::Other,
        MdEvent::Text("b".to_string()),
        MdEvent::Other,
        MdEvent::Text(" ".to_string()),
        MdEvent::Code("c".to_string()),
        MdEvent::HeadingEnd,
    ];
    let (plan, recs) = extract_headings(&events).unwrap();
    assert_eq!(recs.len(), 1);
    assert_eq!(recs[0].label, "A b c");
    assert_eq!(recs[0].level, 2);
    // the rewritten stream replays the six inline events between the tags
    assert!(matches!(plan[0], OutEvent::HeadingOpen(2, _)));
    assert!(matches!(plan[7], OutEvent::HeadingClose(2)));
    assert_eq!(plan.len(), 8);
}

#[test]
fn toc_entries_follow_document_order() {
    let mut events = heading(3, "Deep first");
    events.extend(heading(1, "Top later"));
    let (plan, recs) = extract_headings(&events).unwrap();
    assert_eq!(recs[0].level, 3);
    assert_eq!(recs[0].anchor_id, "section-1");
    assert_eq!(recs[1].level, 1);
    assert_eq!(recs[1].anchor_id, "section-2");
    // heading-open tags in the stream carry the same ids in the same order
    let opens: Vec<&str> = plan
        .iter()
        .filter_map(|e| match e {
            OutEvent::HeadingOpen(_, id) => Some(id.as_str()),
            _ => None,
        })
        .collect();
    assert_eq!(opens, vec!["section-1", "section-2"]);
}

#[test]
fn heading_end_without_start_is_refused() {
    let events = vec![MdEvent::Other, MdEvent::HeadingEnd];
    assert_eq!(extract_headings(&events).unwrap_err(), StructuralViolation);
}

#[test]
fn unterminated_heading_is_refused() {
    let events = vec![MdEvent::HeadingStart(1), MdEvent::Text("x".to_string())];
    assert!(extract_headings(&events).is_err());
}

#[test]
fn nested_heading_is_refused() {
    let events = vec![
        MdEvent::HeadingStart(1),
        MdEvent::HeadingStart(2),
        MdEvent::HeadingEnd,
        MdEvent::HeadingEnd,
    ];
    assert!(extract_headings(&events).is_err());
}

#[test]
fn empty_heading_gets_empty_label() {
    let events = vec![MdEvent::HeadingStart(1), MdEvent::HeadingEnd];
    let (_, recs) = extract_headings(&events).unwrap();
    assert_eq!(recs[0].label, "");
    assert_eq!(recs[0].anchor_id, "section-1");
}

#[test]
fn toc_two_levels_scenario() {
    let mut events = heading(1, "One");
    events.extend(heading(2, "Two"));
    let (_, recs) = extract_headings(&events).unwrap();
    let toc = render_toc(&recs);
    assert_eq!(
        toc,
        "<div class=\"toc\"><h2>Table of Contents</h2><ul>\
         <li class=\"level-1\"><a href=\"#section-1\">One</a></li>\
         <li class=\"level-2\"><a href=\"#section-2\">Two</a></li>\
         </ul></div>"
    );
}

#[test]
fn toc_escapes_label_markup() {
    let recs = vec![HeadingRecord {
        level: 1,
        anchor_id: "section-1".to_string(),
        label: "a<b>&c".to_string(),
    }];
    let toc = render_toc(&recs);
    assert!(toc.contains(">a&lt;b&gt;&amp;c</a>"));
    assert!(!toc.contains("a<b>"));
}

#[test]
fn safe_event_filename_scenario() {
    let name = get_safe_event_filename("dir", "db file/scattered read".to_string(), true);
    assert_eq!(name, "dir/fg_db_file_scattered_read.html");
}

#[test]
fn safe_event_filename_drops_colon_and_background() {
    let name = get_safe_event_filename("d", "log*sync: wait".to_string(), false);
    assert_eq!(name, "d/bg_log_sync_wait.html");
}

#[test]
fn sqlid_filename_is_not_sanitized() {
    assert_eq!(sqlid_filename("d", "a1b2c3"), "d/sqlid_a1b2c3.html");
}

#[test]
fn link_occurrences_wraps_every_bare_occurrence() {
    let link = link_text("d/sqlid_X.html", "X");
    assert_eq!(link, "<a href=d/sqlid_X.html target=\"_blank\">X</a>");
    let out = link_occurrences("X and X", "X", &link);
    assert_eq!(
        out,
        "<a href=d/sqlid_X.html target=\"_blank\">X</a> and <a href=d/sqlid_X.html target=\"_blank\">X</a>"
    );
}

#[test]
fn relinking_own_output_changes_nothing() {
    let link = link_text("d/fg_ev.html", "ev");
    let once = link_occurrences("an ev here, ev there", "ev", &link);
    let twice = link_occurrences(&once, "ev", &link);
    assert_eq!(once, twice);
}

#[test]
fn missing_companion_changes_nothing() {
    let groups = vec![EntityGroup {
        category: "SQL".to_string(),
        names: vec!["SQLID1".to_string()],
    }];
    let html = "Some SQLID1 text".to_string();
    // no existence flag set: byte-identical to an empty entity name set
    let unlinked = add_links_with(&html, &groups, "d", &vec![vec![false]]);
    assert_eq!(unlinked, html);
    let empty: Vec<EntityGroup> = Vec::new();
    let no_names = add_links_with(&html, &empty, "d", &Vec::new());
    assert_eq!(no_names, html);
    // the disk-checking linker finds no companion file either
    let on_disk = add_links_to_html(html.clone(), &groups, "no-such-dir.html_reports");
    assert_eq!(on_disk, html);
}

#[test]
fn unknown_category_is_skipped() {
    let groups = vec![EntityGroup {
        category: "BG".to_string(),
        names: vec!["x".to_string()],
    }];
    let out = add_links_with(&"x y x".to_string(), &groups, "d", &vec![vec![true]]);
    assert_eq!(out, "x y x");
}

#[test]
fn full_render_scenario() {
    let html = markdown_to_html_with_toc("# Title\n\nSome **SQLID1** text", "d.html_reports")
        .unwrap();
    assert!(html.contains("<h1 id=\"section-1\">Title</h1>"));
    assert!(html.contains("<li class=\"level-1\"><a href=\"#section-1\">Title</a></li>"));
    assert!(html.contains("<iframe src=\"d.html_reports/jasmin_highlight.html\""));
    assert!(html.contains("<a href=\"d.html_reports/jasmin_main.html\" target=\"_blank\">ALL CHARTS</a>"));
    assert!(html.contains("<strong>SQLID1</strong>"));
    // link the sql id as the report writer would once its companion exists
    let groups = vec![EntityGroup {
        category: "SQL".to_string(),
        names: vec!["SQLID1".to_string()],
    }];
    let linked = add_links_with(&html, &groups, "d.html_reports", &vec![vec![true]]);
    assert!(linked.contains(
        "<a href=d.html_reports/sqlid_SQLID1.html target=\"_blank\">SQLID1</a>"
    ));
}

#[test]
fn mixed_markup_label_through_real_parser() {
    let html = markdown_to_html_with_toc("# A **b** `c`\n", "d").unwrap();
    assert!(html.contains("<a href=\"#section-1\">A b c</a>"));
}

#[test]
fn heading_markup_is_replayed_inside_anchor_tag() {
    let html = markdown_to_html_with_toc("## He*ad*ing\n", "d").unwrap();
    assert!(html.contains("<h2 id=\"section-1\">He<em>ad</em>ing</h2>"));
    assert!(html.contains("<li class=\"level-2\"><a href=\"#section-1\">Heading</a></li>"));
}

#[test]
fn derive_html_dir_takes_stem_before_first_dot() {
    assert_eq!(derive_html_dir("report.txt"), "report.html_reports");
    assert_eq!(derive_html_dir("a.b.c"), "a.html_reports");
    assert_eq!(derive_html_dir("nodot"), "nodot.html_reports");
}

#[test]
fn escape_is_applied_by_the_real_encoder() {
    assert_eq!(jasmin_report::escape::escape_html_text("a > b && a < c"), "a &gt; b &amp;&amp; a &lt; c");
}

#[test]
fn section_ids_render_in_decimal() {
    assert_eq!(jasmin_report::events::section_id(12), "section-12");
    assert_eq!(jasmin_report::events::section_id(1), "section-1");
}

#[test]
fn fg_names_link_to_their_safe_filename() {
    let groups = vec![EntityGroup {
        category: "FG".to_string(),
        names: vec!["db file/scattered read".to_string()],
    }];
    let html = "waits on db file/scattered read today".to_string();
    let out = add_links_with(&html, &groups, "r.html_reports", &vec![vec![true]]);
    assert_eq!(
        out,
        "waits on <a href=r.html_reports/fg_db_file_scattered_read.html target=\"_blank\">\
         db file/scattered read</a> today"
    );
}

#[test]
fn document_template_shape_is_stable() {
    let html = markdown_to_html_with_toc("plain text only\n", "d").unwrap();
    assert!(html.starts_with("<!DOCTYPE html>\n<html lang=\"en\">"));
    assert!(html.ends_with("</body>\n</html>"));
    assert!(html.contains("<title>JAS-MIN thoughts</title>"));
    // no headings: the TOC list is present but empty
    assert!(html.contains("<div class=\"toc\"><h2>Table of Contents</h2><ul></ul></div>"));
}

#[test]
fn render_is_deterministic_per_input() {
    let first = markdown_to_html_with_toc("# T\n\nSome body\n\n## U\n", "d").unwrap();
    let second = markdown_to_html_with_toc("# T\n\nSome body\n\n## U\n", "d").unwrap();
    assert_eq!(first, second);
}
