use fink_site::highlight::{
    annotate, highlight, spans_fit_chars, Ann, Annotations, Class, Loc, Node, NodeKind, Token, TokenKind,
};

fn tok(kind: TokenKind, start: usize, text: &str) -> Token {
    Token { kind, start, end: start + text.len(), text: text.to_string() }
}

fn eof(at: usize) -> Token {
    Token { kind: TokenKind::Eof, start: at, end: at, text: String::new() }
}

fn ident(start: usize, end: usize) -> Node {
    Node { kind: NodeKind::Ident, loc: Loc { start, end } }
}

fn leaf(start: usize, end: usize) -> Node {
    Node { kind: NodeKind::Leaf, loc: Loc { start, end } }
}

fn loc(start: usize, end: usize) -> Loc {
    Loc { start, end }
}

fn owned(v: &[(usize, usize, &str)]) -> Vec<(usize, usize, String)> {
    v.iter().map(|(a, b, c)| (*a, *b, c.to_string())).collect()
}

/// Text of an HTML fragment outside its tags.
fn strip_tags(html: &str) -> String {
    let mut out = String::new();
    let mut in_tag = false;
    for c in html.chars() {
        if in_tag {
            if c == '>' {
                in_tag = false;
            }
        } else if c == '<' {
            in_tag = true;
        } else {
            out.push(c);
        }
    }
    out
}

fn escape(s: &str) -> String {
    s.replace('&', "&amp;").replace('<', "&lt;").replace('>', "&gt;")
}

#[test]
fn keywords_and_identifiers_from_the_lexer() {
    let src = "fn x";
    let tokens = vec![tok(TokenKind::Ident, 0, "fn"), tok(TokenKind::Ident, 3, "x"), eof(4)];
    assert_eq!(annotate(src, &tokens, &None), owned(&[(0, 2, "kw"), (3, 4, "ident")]));
    assert_eq!(
        highlight(src, &tokens, &None),
        "<span class=\"kw\">fn</span> <span class=\"ident\">x</span>"
    );
}

#[test]
fn identifier_classes() {
    let src = "true u8 and _ foo";
    let tokens = vec![
        tok(TokenKind::Ident, 0, "true"),
        tok(TokenKind::Ident, 5, "u8"),
        tok(TokenKind::Ident, 8, "and"),
        tok(TokenKind::Ident, 12, "_"),
        tok(TokenKind::Ident, 14, "foo"),
        eof(17),
    ];
    assert_eq!(
        annotate(src, &tokens, &None),
        owned(&[(0, 4, "kw-b"), (5, 7, "ty"), (8, 11, "op"), (12, 13, "wc"), (14, 17, "ident")])
    );
}

#[test]
fn separator_classes() {
    let src = "a |= b | c = d .. e . f + g";
    let seps = [(2, "|="), (7, "|"), (11, "="), (15, ".."), (20, "."), (24, "+")];
    let mut tokens: Vec<Token> = seps.iter().map(|(s, t)| tok(TokenKind::Sep, *s, t)).collect();
    tokens.push(eof(src.len()));
    assert_eq!(
        annotate(src, &tokens, &None),
        owned(&[(2, 4, "op-pipe"), (7, 8, "op-pipe"), (11, 12, "op-asgn"), (15, 17, "op-rng"), (20, 21, "op-dot"), (24, 25, "op")])
    );
}

#[test]
fn numbers_split_into_parts() {
    let src = "0x1F 1.5e3 12d 42";
    let tokens = vec![
        tok(TokenKind::Int, 0, "0x1F"),
        tok(TokenKind::Float, 5, "1.5e3"),
        tok(TokenKind::Decimal, 11, "12d"),
        tok(TokenKind::Int, 15, "42"),
        eof(17),
    ];
    assert_eq!(
        annotate(src, &tokens, &None),
        owned(&[
            (0, 1, "num"),
            (1, 2, "num-b"),
            (2, 4, "num"),
            (5, 8, "num"),
            (8, 9, "num-b"),
            (9, 10, "num"),
            (11, 13, "num"),
            (13, 14, "num-b"),
            (15, 17, "num"),
        ])
    );
}

#[test]
fn string_escapes() {
    // 'a\nb\u{41}c'
    let src = "'a\\nb\\u{41}c'";
    let tokens = vec![
        tok(TokenKind::StrStart, 0, "'"),
        tok(TokenKind::StrText, 1, "a\\nb\\u{41}c"),
        tok(TokenKind::StrEnd, 12, "'"),
        eof(13),
    ];
    assert_eq!(
        annotate(src, &tokens, &None),
        owned(&[
            (0, 1, "str"),
            (1, 2, "str"),
            (2, 4, "str-e"),
            (4, 5, "str"),
            (5, 11, "str-e"),
            (11, 12, "str"),
            (12, 13, "str"),
        ])
    );
}

#[test]
fn unicode_escape_ends_at_its_brace() {
    let src = "\\u{41}x";
    let tokens = vec![tok(TokenKind::StrText, 0, src), eof(7)];
    assert_eq!(annotate(src, &tokens, &None), owned(&[(0, 6, "str-e"), (6, 7, "str")]));
    // An escape followed by a multi-byte character leaves it whole.
    let src = "\\u{41}\u{e9}";
    let tokens = vec![tok(TokenKind::StrText, 0, src), eof(8)];
    let spans = annotate(src, &tokens, &None);
    assert_eq!(spans, owned(&[(0, 6, "str-e"), (6, 8, "str")]));
    assert!(spans_fit_chars(src, &spans));
    assert_eq!(highlight(src, &tokens, &None), "<span class=\"str-e\">\\u{41}</span><span class=\"str\">\u{e9}</span>");
    // Without a closing brace only `\u{` is the escape.
    let src = "\\u{4";
    let tokens = vec![tok(TokenKind::StrText, 0, src), eof(4)];
    assert_eq!(annotate(src, &tokens, &None), owned(&[(0, 3, "str-e"), (3, 4, "str")]));
}

#[test]
fn other_escapes_take_the_whole_next_character() {
    let src = "\\\u{e9}a\\n";
    let tokens = vec![tok(TokenKind::StrText, 0, src), eof(6)];
    let spans = annotate(src, &tokens, &None);
    assert_eq!(spans, owned(&[(0, 3, "str-e"), (3, 4, "str"), (4, 6, "str-e")]));
    assert!(spans_fit_chars(src, &spans));
}

#[test]
fn hex_byte_escapes() {
    let src = "\\x0fA";
    let tokens = vec![tok(TokenKind::StrText, 0, src), eof(5)];
    assert_eq!(annotate(src, &tokens, &None), owned(&[(0, 4, "str-e"), (4, 5, "str")]));
    // Not two hex digits: a two-byte escape.
    let src = "\\xg1";
    let tokens = vec![tok(TokenKind::StrText, 0, src), eof(4)];
    assert_eq!(annotate(src, &tokens, &None), owned(&[(0, 2, "str-e"), (2, 4, "str")]));
    let src = "\\x0";
    let tokens = vec![tok(TokenKind::StrText, 0, src), eof(3)];
    assert_eq!(annotate(src, &tokens, &None), owned(&[(0, 2, "str-e"), (2, 3, "str")]));
}

#[test]
fn comments_brackets_partials() {
    let src = "(?) # note";
    let tokens = vec![
        tok(TokenKind::BracketOpen, 0, "("),
        tok(TokenKind::Partial, 1, "?"),
        tok(TokenKind::BracketClose, 2, ")"),
        tok(TokenKind::Comment, 4, "# note"),
        eof(10),
    ];
    assert_eq!(
        annotate(src, &tokens, &None),
        owned(&[(0, 1, "br"), (1, 2, "ph"), (2, 3, "br"), (4, 10, "cmt")])
    );
}

#[test]
fn tokens_after_end_of_input_are_ignored() {
    let src = "a b";
    let tokens = vec![tok(TokenKind::Ident, 0, "a"), eof(1), tok(TokenKind::Ident, 2, "b")];
    assert_eq!(annotate(src, &tokens, &None), owned(&[(0, 1, "ident")]));
}

#[test]
fn call_site_from_the_tree_wins_over_the_lexer() {
    let src = "f x";
    let tokens = vec![tok(TokenKind::Ident, 0, "f"), tok(TokenKind::Ident, 2, "x"), eof(3)];
    let ast = Some(Node {
        kind: NodeKind::Apply { func: Box::new(ident(0, 1)), args: vec![ident(2, 3)] },
        loc: loc(0, 3),
    });
    assert_eq!(annotate(src, &tokens, &ast), owned(&[(0, 1, "fn"), (2, 3, "ident")]));
    assert_eq!(
        highlight(src, &tokens, &ast),
        "<span class=\"fn\">f</span> <span class=\"ident\">x</span>"
    );
}

#[test]
fn tagged_literals() {
    // fmt'x' (prefix tag) and 10sec (postfix tag)
    let src = "fmt'x' 10sec";
    let tokens = vec![eof(0)];
    let prefix = Node {
        kind: NodeKind::Apply { func: Box::new(ident(0, 3)), args: vec![leaf(3, 6)] },
        loc: loc(0, 6),
    };
    let postfix = Node {
        kind: NodeKind::Apply { func: Box::new(ident(9, 12)), args: vec![leaf(7, 9)] },
        loc: loc(7, 12),
    };
    let ast = Some(Node { kind: NodeKind::Nested(vec![prefix, postfix]), loc: loc(0, 12) });
    assert_eq!(annotate(src, &tokens, &ast), owned(&[(0, 3, "tag"), (9, 12, "tag")]));
}

#[test]
fn method_call_and_property() {
    // a.b c  and  a.d
    let src = "a.b c; a.d";
    let tokens = vec![eof(0)];
    let call = Node {
        kind: NodeKind::Apply {
            func: Box::new(Node {
                kind: NodeKind::Member { op: loc(1, 2), lhs: Box::new(ident(0, 1)), rhs: Box::new(ident(2, 3)) },
                loc: loc(0, 3),
            }),
            args: vec![ident(4, 5)],
        },
        loc: loc(0, 5),
    };
    let member = Node {
        kind: NodeKind::Member { op: loc(8, 9), lhs: Box::new(ident(7, 8)), rhs: Box::new(ident(9, 10)) },
        loc: loc(7, 10),
    };
    let ast = Some(Node { kind: NodeKind::Nested(vec![call, member]), loc: loc(0, 10) });
    assert_eq!(
        annotate(src, &tokens, &ast),
        owned(&[(1, 2, "op-dot"), (2, 3, "fn"), (8, 9, "op-dot"), (9, 10, "prop")])
    );
}

#[test]
fn pipes_records_and_nested_brackets() {
    // x | f ; {k: [1], j}
    let src = "x | f ; {k: [1], j}";
    let tokens = vec![eof(0)];
    let pipe = Node { kind: NodeKind::Pipe(vec![ident(0, 1), ident(4, 5)]), loc: loc(0, 5) };
    let seq = Node {
        kind: NodeKind::LitSeq { open: loc(12, 13), close: loc(14, 15), items: vec![leaf(13, 14)] },
        loc: loc(12, 15),
    };
    let arm_k = Node { kind: NodeKind::Arm { lhs: Box::new(ident(9, 10)), body: vec![seq] }, loc: loc(9, 15) };
    let arm_j = Node { kind: NodeKind::Arm { lhs: Box::new(ident(17, 18)), body: vec![] }, loc: loc(17, 18) };
    let rec = Node {
        kind: NodeKind::LitRec { open: loc(8, 9), close: loc(18, 19), items: vec![arm_k, arm_j] },
        loc: loc(8, 19),
    };
    let ast = Some(Node { kind: NodeKind::Nested(vec![pipe, rec]), loc: loc(0, 19) });
    assert_eq!(
        annotate(src, &tokens, &ast),
        owned(&[
            (0, 1, "fn"),
            (4, 5, "fn"),
            (8, 9, "br-1"),
            (9, 10, "rec-key"),
            (12, 13, "br-2"),
            (14, 15, "br-2"),
            (17, 18, "ident"),
            (18, 19, "br-1"),
        ])
    );
}

#[test]
fn groups_cycle_bracket_depths() {
    let src = "((((1))))";
    let tokens = vec![eof(0)];
    let mut node = leaf(4, 5);
    for d in 0..4 {
        let open = 3 - d;
        let close = 5 + d;
        node = Node {
            kind: NodeKind::Group { open: loc(open, open + 1), close: loc(close, close + 1), inner: Box::new(node) },
            loc: loc(open, close + 1),
        };
    }
    let ast = Some(node);
    assert_eq!(
        annotate(src, &tokens, &ast),
        owned(&[
            (0, 1, "br-1"),
            (1, 2, "br-2"),
            (2, 3, "br-3"),
            (3, 4, "br-1"),
            (5, 6, "br-1"),
            (6, 7, "br-3"),
            (7, 8, "br-2"),
            (8, 9, "br-1"),
        ])
    );
}

#[test]
fn grouped_callee_and_blocks() {
    // (g)(1) ; map x: x
    let src = "(g)(1) ; map x: x";
    let tokens = vec![eof(0)];
    let group = Node {
        kind: NodeKind::Group { open: loc(0, 1), close: loc(2, 3), inner: Box::new(ident(1, 2)) },
        loc: loc(0, 3),
    };
    let call = Node { kind: NodeKind::Apply { func: Box::new(group), args: vec![leaf(4, 5)] }, loc: loc(0, 6) };
    let block = Node {
        kind: NodeKind::Block { name: Box::new(ident(9, 12)), params: Box::new(ident(13, 14)), body: vec![ident(16, 17)] },
        loc: loc(9, 17),
    };
    let ast = Some(Node { kind: NodeKind::Nested(vec![call, block]), loc: loc(0, 17) });
    assert_eq!(annotate(src, &tokens, &ast), owned(&[(0, 1, "fn"), (2, 3, "fn"), (9, 12, "blk")]));
}

#[test]
fn overlapping_annotations_resolve_to_sorted_disjoint_spans() {
    // A long comment covering an identifier: the first span wins, the rest
    // starts after it.
    let src = "abc def";
    let tokens = vec![tok(TokenKind::Comment, 0, "abc def"), tok(TokenKind::Ident, 4, "def"), eof(7)];
    let res = annotate(src, &tokens, &None);
    assert_eq!(res, owned(&[(0, 7, "cmt")]));
    let tokens = vec![tok(TokenKind::Ident, 0, "abc"), tok(TokenKind::Comment, 1, "bc def"), eof(7)];
    // The comment starts inside the identifier: once the identifier is
    // written, no annotation starts at or after its end.
    let res = annotate(src, &tokens, &None);
    assert_eq!(res, owned(&[(0, 3, "ident")]));
}

#[test]
fn spans_are_cut_at_the_end_of_the_source() {
    let src = "ab";
    let tokens = vec![tok(TokenKind::Comment, 0, "abcd"), eof(4)];
    assert_eq!(annotate(src, &tokens, &None), owned(&[(0, 2, "cmt")]));
}

#[test]
fn html_is_escaped() {
    let src = "a<b & \"c\"";
    let tokens = vec![tok(TokenKind::Ident, 0, "a"), tok(TokenKind::Sep, 1, "<"), eof(9)];
    assert_eq!(
        highlight(src, &tokens, &None),
        "<span class=\"ident\">a</span><span class=\"op\">&lt;</span>b &amp; \"c\""
    );
}

#[test]
fn highlighting_keeps_the_text() {
    let src = "fn f(x) = 'a\\n' <> x # c & d";
    let tokens = vec![
        tok(TokenKind::Ident, 0, "fn"),
        tok(TokenKind::Ident, 3, "f"),
        tok(TokenKind::BracketOpen, 4, "("),
        tok(TokenKind::Ident, 5, "x"),
        tok(TokenKind::BracketClose, 6, ")"),
        tok(TokenKind::Sep, 8, "="),
        tok(TokenKind::StrStart, 10, "'"),
        tok(TokenKind::StrText, 11, "a\\n"),
        tok(TokenKind::StrEnd, 14, "'"),
        tok(TokenKind::Sep, 16, "<>"),
        tok(TokenKind::Ident, 19, "x"),
        tok(TokenKind::Comment, 21, "# c & d"),
        eof(28),
    ];
    let html = highlight(src, &tokens, &None);
    assert_eq!(strip_tags(&html), escape(src));
    let spans = annotate(src, &tokens, &None);
    for w in spans.windows(2) {
        assert!(w[0].1 <= w[1].0);
    }
    for s in &spans {
        assert!(s.0 < s.1 && s.1 <= src.len());
    }
}

#[test]
fn multibyte_text_keeps_its_characters() {
    let src = "é ü";
    let tokens = vec![tok(TokenKind::Ident, 0, "é"), tok(TokenKind::Ident, 3, "ü"), eof(5)];
    let spans = annotate(src, &tokens, &None);
    assert!(spans_fit_chars(src, &spans));
    assert_eq!(spans, owned(&[(0, 2, "ident"), (3, 5, "ident")]));
    assert_eq!(
        highlight(src, &tokens, &None),
        "<span class=\"ident\">é</span> <span class=\"ident\">ü</span>"
    );
    let bad = owned(&[(1, 2, "ident")]);
    assert!(!spans_fit_chars(src, &bad));
}

#[test]
fn empty_source() {
    assert_eq!(annotate("", &vec![eof(0)], &None), owned(&[]));
    assert_eq!(highlight("", &vec![eof(0)], &None), "");
}

#[test]
fn annotations_sort_by_start_then_priority_keeping_ties_in_order() {
    let mut anns = Annotations::new();
    anns.add(5, 6, Class::Op, 5);
    anns.add(0, 2, Class::Ident, 5);
    anns.add(0, 1, Class::Fn, 10);
    anns.add(0, 3, Class::Cmt, 5);
    anns.add(4, 4, Class::Str, 5);
    anns.add(5, 7, Class::Num, 5);
    anns.sort();
    let got: Vec<(usize, usize, Class, u8)> =
        anns.anns.iter().map(|a: &Ann| (a.start, a.end, a.class, a.priority)).collect();
    assert_eq!(
        got,
        vec![
            (0, 1, Class::Fn, 10),
            (0, 2, Class::Ident, 5),
            (0, 3, Class::Cmt, 5),
            (5, 6, Class::Op, 5),
            (5, 7, Class::Num, 5),
        ]
    );
}

#[test]
fn class_names() {
    assert_eq!(Class::KwB.name(), "kw-b");
    assert_eq!(Class::RecKey.name(), "rec-key");
    assert_eq!(Class::StrE.name(), "str-e");
    assert_eq!(Class::Br3.name(), "br-3");
}

#[test]
fn tokens_on_character_boundaries_give_spans_on_character_boundaries() {
    let src = "\u{e9}t 2.5e3 '\\\u{fc}x\\u{e9}\u{e9}' 7d";
    let at = |s: &str| src.find(s).unwrap();
    let text = "\\\u{fc}x\\u{e9}\u{e9}";
    let tokens = vec![
        tok(TokenKind::Ident, 0, "\u{e9}t"),
        tok(TokenKind::Float, at("2.5e3"), "2.5e3"),
        tok(TokenKind::StrStart, at("'"), "'"),
        tok(TokenKind::StrText, at(text), text),
        tok(TokenKind::StrEnd, src.rfind('\'').unwrap(), "'"),
        tok(TokenKind::Decimal, at("7d"), "7d"),
        eof(src.len()),
    ];
    let tree = Node {
        kind: NodeKind::Nested(vec![ident(0, 3), leaf(at("2.5e3"), at("2.5e3") + 5)]),
        loc: loc(0, src.len()),
    };
    let spans = annotate(src, &tokens, &Some(tree));
    assert!(spans_fit_chars(src, &spans));
    let s = at(text);
    assert!(spans.contains(&(s, s + 3, "str-e".to_string())));
    assert!(spans.contains(&(s + 3, s + 4, "str".to_string())));
    assert!(spans.contains(&(s + 4, s + 10, "str-e".to_string())));
    assert!(spans.contains(&(s + 10, s + 12, "str".to_string())));
}
