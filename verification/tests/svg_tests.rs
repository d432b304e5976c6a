use fink_site::highlight::{Token, TokenKind};
use fink_site::svg::{parse_colors, render_svg, resolve_color, svg_extent, svg_line_bodies};

fn s(x: &str) -> String {
    x.to_string()
}

fn tok(kind: TokenKind, start: usize, text: &str) -> Token {
    Token { kind, start, end: start + text.len(), text: text.to_string() }
}

fn eof(at: usize) -> Token {
    Token { kind: TokenKind::Eof, start: at, end: at, text: String::new() }
}

const CSS: &str = ":root {\n\
  --fink-bg: #1e1e1e;\n\
  --fink-text: #d4d4d4; /* default text */\n\
  --fink-kw: #C586C0;\n\
  --fink-str-esc: #d7ba7d ;\n\
  --fink-br: #ffd700;\n\
  --fink-cmt: #6A9955;\n\
  --fink-bad: red;\n\
  --other: #fff;\n\
}\n";

#[test]
fn colours_of_a_stylesheet() {
    assert_eq!(
        parse_colors(CSS),
        vec![
            (s("bg"), s("#1e1e1e")),
            (s("text"), s("#d4d4d4")),
            (s("kw"), s("#C586C0")),
            (s("str-esc"), s("#d7ba7d")),
            (s("br"), s("#ffd700")),
            (s("cmt"), s("#6A9955")),
        ]
    );
    assert!(parse_colors("").is_empty());
}

#[test]
fn colour_of_a_class() {
    let colors = parse_colors(CSS);
    assert_eq!(resolve_color(&colors, "kw", "D"), "#C586C0");
    assert_eq!(resolve_color(&colors, "str-e", "D"), "#d7ba7d");
    assert_eq!(resolve_color(&colors, "br-1", "D"), "#ffd700");
    assert_eq!(resolve_color(&colors, "kw-b", "D"), "#C586C0");
    assert_eq!(resolve_color(&colors, "rec-key", "D"), "D");
    assert_eq!(resolve_color(&colors, "ident", "D"), "D");
    assert_eq!(resolve_color(&colors, "fn", "D"), "D");
}

#[test]
fn later_declarations_override() {
    let colors = parse_colors("--fink-kw: #111;\n--fink-kw: #222;\n");
    assert_eq!(resolve_color(&colors, "kw", "D"), "#222");
}

#[test]
fn extents() {
    assert_eq!(svg_extent("ab\ncde\n"), (3, 3));
    assert_eq!(svg_extent(""), (0, 1));
    assert_eq!(svg_extent("é"), (2, 1));
}

#[test]
fn line_contents() {
    let colors = parse_colors(CSS);
    let src = "a <b\n# c \"q\"";
    let anns = vec![(2, 3, s("br")), (5, 12, s("cmt"))];
    assert_eq!(
        svg_line_bodies(src, &anns, &colors, "T"),
        vec![
            s("a <tspan fill=\"#ffd700\">&lt;</tspan>b"),
            s("<tspan fill=\"#6A9955\" font-style=\"italic\"># c &quot;q&quot;</tspan>"),
        ]
    );
}

#[test]
fn spans_over_a_line_end_carry_on_to_the_next_line() {
    let src = "x\ny";
    let anns = vec![(0, 3, s("cmt"))];
    assert_eq!(
        svg_line_bodies(src, &anns, &vec![], "T"),
        vec![s("<tspan fill=\"T\" font-style=\"italic\">x</tspan>"), s("<tspan fill=\"T\" font-style=\"italic\">y</tspan>")]
    );
}

#[test]
fn whole_document() {
    let colors = parse_colors(CSS);
    let src = "fn x";
    let tokens = vec![tok(TokenKind::Ident, 0, "fn"), tok(TokenKind::Ident, 3, "x"), eof(4)];
    let svg = render_svg(src, &tokens, &None, &colors, 100, 50, &vec![s("37.7")]);
    assert_eq!(
        svg,
        "<svg xmlns=\"http://www.w3.org/2000/svg\" viewBox=\"0 0 100 50\" width=\"100\" height=\"50\">\n\
         <rect width=\"100%\" height=\"100%\" rx=\"6\" ry=\"6\" fill=\"#1e1e1e\"/>\n\
         <text x=\"16\" y=\"37.7\" fill=\"#d4d4d4\" font-family=\"Hack, Consolas, Menlo, Monaco, monospace\" font-size=\"14\" xml:space=\"preserve\"><tspan fill=\"#C586C0\">fn</tspan> <tspan fill=\"#d4d4d4\">x</tspan></text>\n\
         </svg>\n"
    );
}

#[test]
fn document_without_colours_uses_fallbacks() {
    let src = "a\n\nb";
    let svg = render_svg(src, &vec![eof(0)], &None, &vec![], 7, 1234, &vec![s("1"), s("2"), s("3")]);
    let line = |y: &str, body: &str| {
        format!(
            "<text x=\"16\" y=\"{y}\" fill=\"#D4D4D4\" font-family=\"Hack, Consolas, Menlo, Monaco, monospace\" font-size=\"14\" xml:space=\"preserve\">{body}</text>\n"
        )
    };
    let expected = format!(
        "<svg xmlns=\"http://www.w3.org/2000/svg\" viewBox=\"0 0 7 1234\" width=\"7\" height=\"1234\">\n<rect width=\"100%\" height=\"100%\" rx=\"6\" ry=\"6\" fill=\"#1F1F1F\"/>\n{}{}{}</svg>\n",
        line("1", "a"),
        line("2", ""),
        line("3", "b")
    );
    assert_eq!(svg, expected);
}

/// Text of an XML fragment outside its tags.
fn strip_tags(xml: &str) -> String {
    let mut out = String::new();
    let mut in_tag = false;
    for c in xml.chars() {
        if in_tag {
            if c == '>' {
                in_tag = false;
            }
        } else if c == '<' {
            in_tag = true;
        } else {
            out.push(c);
        }
    }
    out
}

#[test]
fn colouring_keeps_the_text_of_every_line() {
    let colors = parse_colors(CSS);
    let src = "fn f <x> = \"s\" & t\n  # a\n\n\u{e9}\u{301} k";
    let anns = vec![(0, 2, s("kw")), (3, 4, s("fn")), (5, 6, s("br-1")), (11, 14, s("str")), (20, 26, s("cmt"))];
    let bodies = svg_line_bodies(src, &anns, &colors, "#d4d4d4");
    let lines: Vec<&str> = src.split('\n').collect();
    assert_eq!(bodies.len(), lines.len());
    for (body, line) in bodies.iter().zip(lines) {
        let escaped = line.replace('&', "&amp;").replace('<', "&lt;").replace('>', "&gt;").replace('"', "&quot;");
        assert_eq!(strip_tags(body), escaped);
    }
}

#[test]
fn multi_line_comment_is_coloured_on_every_line() {
    let colors = parse_colors(CSS);
    let src = "a ---x\ny\n\nz--- b";
    let anns = vec![(2, 14, s("cmt"))];
    assert_eq!(
        svg_line_bodies(src, &anns, &colors, "T"),
        vec![
            s("a <tspan fill=\"#6A9955\" font-style=\"italic\">---x</tspan>"),
            s("<tspan fill=\"#6A9955\" font-style=\"italic\">y</tspan>"),
            s(""),
            s("<tspan fill=\"#6A9955\" font-style=\"italic\">z---</tspan> b"),
        ]
    );
}
