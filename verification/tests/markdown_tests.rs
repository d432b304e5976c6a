use fink_site::markdown::{
    extract_toc, fink_blocks, render, render_checked, render_events, slugify, toc_from_events, MdEvent, Piece,
    BLOCK_CLOSE, BLOCK_MIDDLE, BLOCK_OPEN,
};
use fink_site::playground::encode_source;

fn toc_pairs(md: &str) -> Vec<(String, String)> {
    extract_toc(md).into_iter().map(|e| (e.text, e.slug)).collect()
}

fn pairs(v: &[(&str, &str)]) -> Vec<(String, String)> {
    v.iter().map(|(a, b)| (a.to_string(), b.to_string())).collect()
}

#[test]
fn slugify_lowercases_and_joins_words_with_hyphens() {
    assert_eq!(slugify("Hello, World!"), "hello-world");
    assert_eq!(slugify("  Multiple   Spaces  "), "multiple-spaces");
    assert_eq!(slugify("Type System (v2)"), "type-system-v2");
    assert_eq!(slugify("---"), "");
    assert_eq!(slugify(""), "");
    assert_eq!(slugify("a--b__c"), "a-b-c");
}

#[test]
fn slugify_keeps_non_ascii_letters() {
    assert_eq!(slugify("Über Ärger"), "über-ärger");
    assert_eq!(slugify("ÄÖ Über"), "äö-über");
    assert_eq!(slugify("naïve café"), "naïve-café");
    assert_eq!(slugify("Ω x"), "ω-x");
    assert_eq!(slugify("İ"), "i\u{307}");
}

#[test]
fn slugs_are_fixed_points() {
    for s in ["Hello, World!", "  a  b ", "--x--", "Déjà vu", "a1 B2", ""] {
        let once = slugify(s);
        assert_eq!(slugify(&once), once);
        assert!(!once.starts_with('-') && !once.ends_with('-'));
        assert!(!once.contains("--"));
        assert!(!once.chars().any(|c| c.is_uppercase()));
    }
}

#[test]
fn toc_lists_second_level_headings() {
    let md = "# Title\n\n## Getting Started\n\nText.\n\n### Detail\n\n## The `fink` CLI\n";
    assert_eq!(
        toc_pairs(md),
        pairs(&[("Getting Started", "getting-started"), ("The  CLI", "the-cli")])
    );
}

#[test]
fn toc_reads_headings_as_rendering_does() {
    let md = "## Intro {#custom}\n\ntext\n";
    let toc = extract_toc(md);
    assert_eq!(toc.len(), 1);
    assert_eq!(toc[0].text, "Intro");
    assert_eq!(toc[0].slug, "intro");
    assert!(render(md, &vec![]).starts_with("<h2 id=\"intro\">"));
}

#[test]
fn toc_of_text_without_headings_is_empty() {
    assert!(extract_toc("just text\n").is_empty());
    assert!(extract_toc("").is_empty());
}

#[test]
fn render_gives_headings_ids() {
    let html = render("## Intro\n\nSome text.\n", &vec![]);
    assert_eq!(html, "<h2 id=\"intro\">Intro</h2>\n<p>Some text.</p>\n");
}

#[test]
fn render_leaves_other_headings_alone() {
    let html = render("# Top\n### Small\n", &vec![]);
    assert_eq!(html, "<h1>Top</h1>\n<h3>Small</h3>\n");
}

#[test]
fn heading_with_inline_markup() {
    let html = render("## Hello *big* world\n", &vec![]);
    assert_eq!(html, "<h2 id=\"hello-big-world\">Hello <em>big</em> world</h2>\n");
}

#[test]
fn render_replaces_fink_blocks() {
    let md = "```fink\nx = 1\n```\n";
    assert_eq!(fink_blocks(md), vec!["x = 1".to_string()]);
    let html = render(md, &vec!["<b>hl</b>".to_string()]);
    let expected = format!("{}{}{}{}{}", BLOCK_OPEN, encode_source("x = 1"), BLOCK_MIDDLE, "<b>hl</b>", BLOCK_CLOSE);
    assert_eq!(html, expected);
}

#[test]
fn fink_block_wrapper_text() {
    let hash = encode_source("a");
    let html = render("```fink\na\n```\n", &vec!["H".to_string()]);
    let expected = format!(
        "<div class=\"code-block-wrap\"><a class=\"playground-link\" href=\"/playground/#{hash}\" title=\"Open in playground\" aria-label=\"Open in playground\"><svg xmlns=\"http://www.w3.org/2000/svg\" viewBox=\"0 0 135 135\"><g transform=\"translate(0,3)\"><path fill=\"currentColor\" d=\"M 7.6,102.4 C 34.3,81.4 46.3,56 57.8,36.3 70.8,14.2 90.6,8.3 111.9,25.6 103.8,25.3 98.5,37.4 84.1,53.9 69.7,70.5 44.6,92.5 7.6,102.4Z\"/><path fill=\"currentColor\" d=\"M 97.9,42.1 C 105.6,70.6 101.8,110.8 5.7,115.6 64.5,89.8 93.6,50 97.9,42.1Z\"/><path fill=\"#faa343\" d=\"m 102.5,50.9 c -4.6,-22.7 10.2,-26.9 26.5,-21.5 -8.2,2.8 -20.2,8 -26.5,21.5z\"/></g></svg></a><pre class=\"code-block\"><code class=\"language-fink\">H</code></pre></div>\n"
    );
    assert_eq!(html, expected);
}

#[test]
fn fink_block_sources_drop_trailing_newlines_only() {
    let md = "```fink\n  a\n\n\n```\n\n```fink\nb\n```\n";
    assert_eq!(fink_blocks(md), vec!["  a".to_string(), "b".to_string()]);
}

#[test]
fn other_code_blocks_are_not_highlighted() {
    let md = "```rust\nlet x = 1;\n```\n";
    assert!(fink_blocks(md).is_empty());
    assert_eq!(render(md, &vec![]), "<pre><code class=\"language-rust\">let x = 1;\n</code></pre>\n");
}

#[test]
fn render_checked_counts_blocks() {
    let md = "```fink\nx\n```\n";
    assert!(render_checked(md, &vec![]).is_none());
    assert!(render_checked(md, &vec!["a".to_string(), "b".to_string()]).is_none());
    assert_eq!(render_checked(md, &vec!["X".to_string()]), Some(render(md, &vec!["X".to_string()])));
}

#[test]
fn tables_and_strikethrough_are_enabled() {
    let html = render("~~old~~\n", &vec![]);
    assert_eq!(html, "<p><del>old</del></p>\n");
    let html = render("| a |\n|---|\n| b |\n", &vec![]);
    assert!(html.starts_with("<table>"));
}

#[test]
fn toc_slugs_are_the_rendered_heading_ids() {
    let md = "## First Steps\n\n```fink\nx\n```\n\n## What's  next?\n\n## Ünïcode Title\n";
    let blocks = fink_blocks(md);
    let hl: Vec<String> = blocks.iter().map(|_| "X".to_string()).collect();
    let html = render(md, &hl);
    let toc = extract_toc(md);
    assert_eq!(toc.len(), 3);
    for e in &toc {
        assert!(html.contains(&format!("<h2 id=\"{}\">", e.slug)), "{} not in {}", e.slug, html);
    }
}

#[test]
fn toc_and_rendering_over_the_same_events() {
    let evs = vec![
        MdEvent::HeadingStart(2),
        MdEvent::Text("  Padded  ".to_string()),
        MdEvent::Text("Heading ".to_string()),
        MdEvent::HeadingEnd(2),
        MdEvent::Other,
        MdEvent::HeadingStart(2),
        MdEvent::Other,
        MdEvent::Text("Two".to_string()),
        MdEvent::FencedStart("fink".to_string()),
        MdEvent::Text("code".to_string()),
        MdEvent::CodeEnd,
        MdEvent::HeadingEnd(2),
    ];
    let toc = toc_from_events(&evs);
    let got: Vec<(String, String)> = toc.iter().map(|e| (e.text.clone(), e.slug.clone())).collect();
    assert_eq!(got, pairs(&[("Padded  Heading", "padded-heading"), ("Two", "two")]));
    let plan = render_events(&evs, &vec!["X".to_string()]);
    let ids: Vec<String> = plan
        .iter()
        .filter_map(|p| match p {
            Piece::Html(h) if h.starts_with("<h2 id=\"") => Some(h["<h2 id=\"".len()..h.len() - 2].to_string()),
            _ => None,
        })
        .collect();
    assert_eq!(ids, vec!["padded-heading".to_string(), "two".to_string()]);
}

#[test]
fn render_events_plan() {
    let evs = vec![
        MdEvent::Other,
        MdEvent::FencedStart("fink".to_string()),
        MdEvent::Text("y\n".to_string()),
        MdEvent::CodeEnd,
        MdEvent::HeadingStart(2),
        MdEvent::Text("A b".to_string()),
        MdEvent::HeadingEnd(2),
        MdEvent::FencedStart("sh".to_string()),
        MdEvent::Text("ls".to_string()),
        MdEvent::CodeEnd,
        MdEvent::HeadingStart(3),
        MdEvent::Text("Sub".to_string()),
        MdEvent::HeadingEnd(3),
    ];
    let plan = render_events(&evs, &vec!["HL".to_string()]);
    let block = format!("{}{}{}HL{}", BLOCK_OPEN, encode_source("y"), BLOCK_MIDDLE, BLOCK_CLOSE);
    let expected = vec![
        Piece::Event(0),
        Piece::Html(block),
        Piece::Html("<h2 id=\"a-b\">".to_string()),
        Piece::Event(5),
        Piece::Html("</h2>\n".to_string()),
        Piece::Event(7),
        Piece::Event(8),
        Piece::Event(9),
        Piece::Event(10),
        Piece::Event(11),
        Piece::Event(12),
    ];
    assert_eq!(plan, expected);
}
