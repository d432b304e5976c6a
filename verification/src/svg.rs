//! SVG rendering of highlighted Fink code.
//!
//! Colours are read from the `--fink-*` custom properties of the site's
//! syntax stylesheet; each source line becomes a `<text>` element whose
//! highlighted parts are `<tspan>` elements in the colour of their class.
//! A span that runs over line ends (a block comment, a multi-line string)
//! is coloured on every line it covers.
//! This module computes the colour table and the content of each line;
//! the geometry of the document is laid out by the caller.

use vstd::prelude::*;
use vstd::string::*;
use vstd::utf8::{decode_utf8, is_char_boundary, valid_utf8};

use crate::highlight::{
    annotate, collected_anns, inputs_fit, lemma_resolve_ordered, snippet_spans, sorted_anns, span_triples,
    spans_on_char_boundaries, Node, Token,
};
use crate::site::{lookup, meta_get};
use crate::text::{
    byte_slice, chars_of, escape, find_seq, find_from, lemma_find_from,
    line_bounds, lines, lines_from, pairs_view, piece, push_escaped, split_once, starts_with, starts_with_exec,
    str_eq, string_of_range, strings_view, sub_chars, trim, trim_bounds, trim_char_bounds, trim_end_char,
    lemma_ascii_boundary, push_char, lemma_escape_concat, lemma_escape_no_lt, lemma_piece_concat, lemma_visible_tag,
    lemma_visible_text, visible, visible_from,
};

verus! {

// ---- colours ------------------------------------------------------------------

/// The colour a stylesheet line declares: `--fink-<name>: <colour>;` with a
/// colour starting with `#`, comments and the semicolon removed.
pub open spec fn color_of_line(line: Seq<char>) -> Option<(Seq<char>, Seq<char>)> {
    let t = trim(line);
    let pre = "--fink-"@;
    if !starts_with(t, pre) {
        None
    } else {
        match split_once(t.skip(pre.len() as int), ":"@) {
            None => None,
            Some((name, rest)) => {
                let value = match find_from(rest, "/*"@, 0) {
                    Some(k) => rest.take(k),
                    None => rest,
                };
                let color = trim(trim_end_char(trim(value), ';'));
                if starts_with(color, "#"@) {
                    Some((name, color))
                } else {
                    None
                }
            },
        }
    }
}

/// The colour declarations of stylesheet lines, in order.
pub open spec fn colors_of_lines(ls: Seq<Seq<char>>) -> Seq<(Seq<char>, Seq<char>)>
    decreases ls.len(),
{
    if ls.len() == 0 {
        seq![]
    } else {
        colors_of_lines(ls.drop_last()) + match color_of_line(ls.last()) {
            Some(c) => seq![c],
            None => seq![],
        }
    }
}

fn color_of(line: &Vec<char>) -> (r: Option<(String, String)>)
    ensures
        r matches Some(c) ==> color_of_line(line@) == Some((c.0@, c.1@)),
        r is None ==> color_of_line(line@) is None,
{
    let (ta, tb) = trim_bounds(line.as_slice(), 0, line.len());
    assert(line@.subrange(0, line@.len() as int) =~= line@);
    let t = sub_chars(line.as_slice(), ta, tb);
    let pre = chars_of("--fink-");
    if !starts_with_exec(t.as_slice(), pre.as_slice()) {
        return None;
    }
    let rest = sub_chars(t.as_slice(), pre.len(), t.len());
    assert(rest@ =~= t@.skip(pre@.len() as int));
    let colon = chars_of(":");
    proof {
        lemma_find_from(rest@, colon@, 0);
    }
    let k = match find_seq(rest.as_slice(), colon.as_slice(), 0) {
        Some(k) => k,
        None => {
            return None;
        },
    };
    let name = string_of_range(rest.as_slice(), 0, k);
    assert(rest@.subrange(0, k as int) =~= rest@.take(k as int));
    let after = sub_chars(rest.as_slice(), k + colon.len(), rest.len());
    assert(after@ =~= rest@.skip(k + colon@.len()));
    let comment = chars_of("/*");
    proof {
        lemma_find_from(after@, comment@, 0);
    }
    let vend = match find_seq(after.as_slice(), comment.as_slice(), 0) {
        Some(c) => c,
        None => after.len(),
    };
    let ghost value = after@.subrange(0, vend as int);
    assert(value =~= match find_from(after@, comment@, 0) {
        Some(c) => after@.take(c),
        None => after@,
    });
    let (a1, b1) = trim_bounds(after.as_slice(), 0, vend);
    let (a2, b2) = trim_char_bounds(after.as_slice(), a1, b1, ';', false);
    let (a3, b3) = trim_bounds(after.as_slice(), a2, b2);
    let color = sub_chars(after.as_slice(), a3, b3);
    let hash = chars_of("#");
    if starts_with_exec(color.as_slice(), hash.as_slice()) {
        Some((name, string_of_range(color.as_slice(), 0, color.len())))
    } else {
        None
    }
}

/// Colour declarations of a stylesheet: the `--fink-<name>` custom
/// properties with a `#` colour, in order (a later one overrides an earlier).
pub fn parse_colors(css: &str) -> (colors: Vec<(String, String)>)
    ensures
        pairs_view(colors@) == colors_of_lines(lines(css@)),
{
    let cs = chars_of(css);
    let mut colors: Vec<(String, String)> = Vec::new();
    let mut pos: usize = 0;
    let ghost mut read: Seq<Seq<char>> = seq![];
    assert(lines(cs@) =~= read + lines_from(cs@, 0));
    assert(pairs_view(colors@) =~= Seq::<(Seq<char>, Seq<char>)>::empty());
    while pos < cs.len()
        invariant
            pos <= cs@.len(),
            cs@ == css@,
            lines(cs@) == read + lines_from(cs@, pos as int),
            pairs_view(colors@) == colors_of_lines(read),
        decreases cs@.len() - pos,
    {
        let (end, next) = line_bounds(cs.as_slice(), pos);
        let line = sub_chars(cs.as_slice(), pos, end);
        let ghost before = colors@;
        match color_of(&line) {
            Some(c) => {
                colors.push(c);
            },
            None => {},
        }
        proof {
            let r2 = read.push(line@);
            assert(r2.drop_last() =~= read);
            assert(lines(cs@) =~= r2 + lines_from(cs@, next as int));
            assert(pairs_view(colors@) =~= colors_of_lines(r2));
            read = r2;
        }
        pos = next;
    }
    assert(lines_from(cs@, pos as int) =~= Seq::<Seq<char>>::empty());
    assert(read =~= lines(cs@));
    colors
}

/// Name of the colour variable of a highlight class.
pub open spec fn var_name(class: Seq<char>) -> Seq<char> {
    if class == "fn"@ {
        "call"@
    } else if class == "str-e"@ {
        "str-esc"@
    } else if class == "ph"@ {
        "partial"@
    } else if class == "wc"@ {
        "wldcrd"@
    } else {
        class
    }
}

/// Index of the last `c` in `s` before index `to`.
pub open spec fn char_last_before(s: Seq<char>, c: char, to: int) -> Option<int>
    decreases to,
{
    if to <= 0 || to > s.len() {
        None
    } else if s[to - 1] == c {
        Some(to - 1)
    } else {
        char_last_before(s, c, to - 1)
    }
}

/// Colour of a highlight class: that of its variable, else that of the
/// variable's part before its last hyphen, else the default.
pub open spec fn color_for(colors: Seq<(Seq<char>, Seq<char>)>, class: Seq<char>, default: Seq<char>) -> Seq<char> {
    let v = var_name(class);
    match lookup(colors, v) {
        Some(c) => c,
        None => match char_last_before(v, '-', v.len() as int) {
            Some(k) => match lookup(colors, v.take(k)) {
                Some(c) => c,
                None => default,
            },
            None => default,
        },
    }
}

proof fn lemma_colour_words()
    ensures
        "fn"@.len() == 2 && "fn"@[0] == 'f' && "fn"@[1] == 'n',
        "str-e"@.len() == 5 && "str-e"@[0] == 's' && "str-e"@[1] == 't' && "str-e"@[2] == 'r' && "str-e"@[3] == '-'
            && "str-e"@[4] == 'e',
        "ph"@.len() == 2 && "ph"@[0] == 'p' && "ph"@[1] == 'h',
        "wc"@.len() == 2 && "wc"@[0] == 'w' && "wc"@[1] == 'c',
        "call"@ == seq!['c', 'a', 'l', 'l'],
        "str-esc"@ == seq!['s', 't', 'r', '-', 'e', 's', 'c'],
        "str"@ == seq!['s', 't', 'r'],
        "partial"@ == seq!['p', 'a', 'r', 't', 'i', 'a', 'l'],
        "wldcrd"@ == seq!['w', 'l', 'd', 'c', 'r', 'd'],
{
    reveal_strlit("fn");
    reveal_strlit("str-e");
    reveal_strlit("ph");
    reveal_strlit("wc");
    reveal_strlit("call");
    reveal_strlit("str-esc");
    reveal_strlit("str");
    reveal_strlit("partial");
    reveal_strlit("wldcrd");
}

/// The colour of a highlight class comes from the stylesheet variable of
/// the class: call sites (`fn`) read `call`, string escapes (`str-e`) read
/// `str-esc` and else `str`, partials (`ph`) read `partial`, wildcards
/// (`wc`) read `wldcrd`, each else the default; every other class reads the
/// variable of its own name when the stylesheet declares it.
pub proof fn lemma_class_colours(colors: Seq<(Seq<char>, Seq<char>)>, class: Seq<char>, default: Seq<char>)
    ensures
        class == "fn"@ ==> color_for(colors, class, default) == match lookup(colors, "call"@) {
            Some(c) => c,
            None => default,
        },
        class == "str-e"@ ==> color_for(colors, class, default) == match lookup(colors, "str-esc"@) {
            Some(c) => c,
            None => match lookup(colors, "str"@) {
                Some(c) => c,
                None => default,
            },
        },
        class == "ph"@ ==> color_for(colors, class, default) == match lookup(colors, "partial"@) {
            Some(c) => c,
            None => default,
        },
        class == "wc"@ ==> color_for(colors, class, default) == match lookup(colors, "wldcrd"@) {
            Some(c) => c,
            None => default,
        },
        !(class == "fn"@ || class == "str-e"@ || class == "ph"@ || class == "wc"@) ==> (lookup(colors, class) matches Some(
            c,
        ) ==> color_for(colors, class, default) == c),
{
    lemma_colour_words();
    reveal_with_fuel(char_last_before, 8);
    if class == "str-e"@ {
        assert("str-esc"@.take(3) =~= "str"@);
    }
}

/// Colour of a highlight class.
pub fn resolve_color(colors: &Vec<(String, String)>, class: &str, default: &str) -> (r: String)
    ensures
        r@ == color_for(pairs_view(colors@), class@, default@),
{
    let v: &str = if str_eq(class, "fn") {
        "call"
    } else if str_eq(class, "str-e") {
        "str-esc"
    } else if str_eq(class, "ph") {
        "partial"
    } else if str_eq(class, "wc") {
        "wldcrd"
    } else {
        class
    };
    if let Some(c) = meta_get(colors, v) {
        return c;
    }
    let vs = chars_of(v);
    let mut k = vs.len();
    while k > 0 && vs[k - 1] != '-'
        invariant
            k <= vs@.len(),
            char_last_before(vs@, '-', vs@.len() as int) == char_last_before(vs@, '-', k as int),
        decreases k,
    {
        k -= 1;
    }
    if k == 0 {
        return default.to_owned();
    }
    let base = string_of_range(vs.as_slice(), 0, k - 1);
    assert(vs@.subrange(0, k - 1) =~= vs@.take(k - 1));
    match meta_get(colors, base.as_str()) {
        Some(c) => c,
        None => default.to_owned(),
    }
}

// ---- lines ------------------------------------------------------------------------

/// Annotation spans (start, end, class) with classes as character sequences.
pub open spec fn spans_view(a: Seq<(usize, usize, String)>) -> Seq<(usize, usize, Seq<char>)> {
    a.map_values(|t: (usize, usize, String)| (t.0, t.1, t.2@))
}

/// Index of the first span, from `idx` on, that does not end at or before `cursor`.
pub open spec fn skip_done(a: Seq<(usize, usize, Seq<char>)>, cursor: int, idx: int) -> int
    decreases a.len() - idx,
{
    if idx < 0 || idx >= a.len() || a[idx].1 > cursor {
        idx
    } else {
        skip_done(a, cursor, idx + 1)
    }
}

pub proof fn lemma_skip_done(a: Seq<(usize, usize, Seq<char>)>, cursor: int, idx: int)
    requires
        idx >= 0,
    ensures
        idx <= skip_done(a, cursor, idx) <= a.len() || skip_done(a, cursor, idx) == idx,
        skip_done(a, cursor, idx) >= idx,
        skip_done(a, cursor, idx) < a.len() ==> a[skip_done(a, cursor, idx)].1 > cursor,
    decreases a.len() - idx,
{
    if idx < a.len() && a[idx].1 <= cursor {
        lemma_skip_done(a, cursor, idx + 1);
    }
}

/// A coloured part of a line.
pub open spec fn tspan(color: Seq<char>, italic: bool, text: Seq<char>) -> Seq<char> {
    if italic {
        "<tspan fill=\""@ + color + "\" font-style=\"italic\">"@ + text + "</tspan>"@
    } else {
        "<tspan fill=\""@ + color + "\">"@ + text + "</tspan>"@
    }
}

/// Content of the line ending at byte `line_end`, from byte `cursor` on with
/// span index `idx`, and the span index after it. Spans that end at or
/// before the cursor are passed; the next span, when it starts after the
/// cursor on this line, is preceded by the escaped plain text up to it; a
/// span reaching the cursor (it may have started on an earlier line) is
/// coloured up to its end or the line's end, whichever comes first, and
/// carries on at the start of the next line; text after the last span is
/// plain.
pub open spec fn line_body(
    b: Seq<u8>,
    a: Seq<(usize, usize, Seq<char>)>,
    colors: Seq<(Seq<char>, Seq<char>)>,
    default: Seq<char>,
    line_end: int,
    cursor: int,
    idx: int,
) -> (Seq<char>, int)
    decreases line_end - cursor,
{
    if cursor >= line_end || idx < 0 {
        (seq![], idx)
    } else {
        let i = skip_done(a, cursor, idx);
        proof {
            lemma_skip_done(a, cursor, idx);
        }
        if i >= a.len() || a[i].0 >= line_end {
            (escape(piece(b, cursor, line_end), true), i)
        } else if a[i].0 > cursor {
            let rest = line_body(b, a, colors, default, line_end, a[i].0 as int, i);
            (escape(piece(b, cursor, a[i].0 as int), true) + rest.0, rest.1)
        } else {
            let seg_end: int = if a[i].1 < line_end { a[i].1 as int } else { line_end };
            let rest = line_body(b, a, colors, default, line_end, seg_end, i);
            (tspan(color_for(colors, a[i].2, default), a[i].2 == "cmt"@, escape(piece(b, cursor, seg_end), true))
                + rest.0, rest.1)
        }
    }
}

/// Index of the first line feed in `b` at or after `from`, or the length.
pub open spec fn line_end_from(b: Seq<u8>, from: int) -> int
    decreases b.len() - from,
{
    if from < 0 || from >= b.len() {
        b.len() as int
    } else if b[from] == 10 {
        from
    } else {
        line_end_from(b, from + 1)
    }
}

pub proof fn lemma_line_end_from(b: Seq<u8>, from: int)
    requires
        0 <= from <= b.len(),
    ensures
        from <= line_end_from(b, from) <= b.len(),
        line_end_from(b, from) < b.len() ==> b[line_end_from(b, from)] == 10,
    decreases b.len() - from,
{
    if from < b.len() && b[from] != 10 {
        lemma_line_end_from(b, from + 1);
    }
}

/// Contents of the lines of `b` (split at every line feed) from the line
/// starting at `start` on, with span index `idx`.
pub open spec fn line_bodies_from(
    b: Seq<u8>,
    a: Seq<(usize, usize, Seq<char>)>,
    colors: Seq<(Seq<char>, Seq<char>)>,
    default: Seq<char>,
    start: int,
    idx: int,
) -> Seq<Seq<char>>
    decreases b.len() + 1 - start,
{
    if start < 0 || start > b.len() {
        seq![]
    } else {
        proof {
            lemma_line_end_from(b, start);
        }
        let end = line_end_from(b, start);
        let body = line_body(b, a, colors, default, end, start, idx);
        if end >= b.len() {
            seq![body.0]
        } else {
            seq![body.0] + line_bodies_from(b, a, colors, default, end + 1, body.1)
        }
    }
}

/// Every span is non-empty and starts and ends on a character boundary.
pub open spec fn spans_fit(b: Seq<u8>, a: Seq<(usize, usize, Seq<char>)>) -> bool {
    forall|i: int|
        0 <= i < a.len() ==> (#[trigger] a[i]).0 < a[i].1 && is_char_boundary(b, a[i].0 as int) && is_char_boundary(
            b,
            a[i].1 as int,
        )
}

fn line_content(
    src: &str,
    anns: &Vec<(usize, usize, String)>,
    colors: &Vec<(String, String)>,
    default_color: &str,
    line_start: usize,
    line_end: usize,
    idx0: usize,
) -> (r: (String, usize))
    requires
        line_start <= line_end <= src.spec_bytes().len(),
        is_char_boundary(src.spec_bytes(), line_start as int),
        is_char_boundary(src.spec_bytes(), line_end as int),
        spans_fit(src.spec_bytes(), spans_view(anns@)),
        idx0 <= anns@.len(),
    ensures
        ({
            let full = line_body(
                src.spec_bytes(),
                spans_view(anns@),
                pairs_view(colors@),
                default_color@,
                line_end as int,
                line_start as int,
                idx0 as int,
            );
            r.0@ == full.0 && r.1 == full.1
        }),
        r.1 <= anns@.len(),
{
    let ghost b = src.spec_bytes();
    let ghost a = spans_view(anns@);
    let ghost cv = pairs_view(colors@);
    let ghost full = line_body(b, a, cv, default_color@, line_end as int, line_start as int, idx0 as int);
    let n = anns.len();
    let mut out = String::new();
    let mut cursor = line_start;
    let mut ann_idx = idx0;
    while cursor < line_end
        invariant
            b == src.spec_bytes(),
            a == spans_view(anns@),
            cv == pairs_view(colors@),
            n == anns@.len(),
            line_start <= cursor <= line_end <= b.len(),
            ann_idx <= n,
            is_char_boundary(b, cursor as int),
            is_char_boundary(b, line_end as int),
            spans_fit(b, a),
            full == line_body(b, a, cv, default_color@, line_end as int, line_start as int, idx0 as int),
            out@ + line_body(b, a, cv, default_color@, line_end as int, cursor as int, ann_idx as int).0 == full.0,
            line_body(b, a, cv, default_color@, line_end as int, cursor as int, ann_idx as int).1 == full.1,
        decreases line_end - cursor,
    {
        let ghost rest_before = line_body(b, a, cv, default_color@, line_end as int, cursor as int, ann_idx as int);
        let ghost old_out = out@;
        let ghost old_idx = ann_idx;
        // Skip past annotations.
        while ann_idx < n && anns[ann_idx].1 <= cursor
            invariant
                n == anns@.len(),
                old_idx <= ann_idx <= n,
                a == spans_view(anns@),
                skip_done(a, cursor as int, old_idx as int) == skip_done(a, cursor as int, ann_idx as int),
            decreases n - ann_idx,
        {
            ann_idx += 1;
        }
        assert(skip_done(a, cursor as int, ann_idx as int) == ann_idx);
        if ann_idx == n || anns[ann_idx].0 >= line_end {
            // Rest of line is plain text.
            let text = byte_slice(src, cursor, line_end);
            push_escaped(&mut out, text, true);
            assert(line_body(b, a, cv, default_color@, line_end as int, line_end as int, ann_idx as int).0
                =~= Seq::<char>::empty());
            cursor = line_end;
        } else {
            let start = anns[ann_idx].0;
            let end = anns[ann_idx].1;
            assert(a[ann_idx as int] == (start, end, anns@[ann_idx as int].2@));
            if start > cursor {
                // Plain text before the annotation.
                let text = byte_slice(src, cursor, start);
                push_escaped(&mut out, text, true);
                cursor = start;
            } else {
                // The annotation covers the cursor: colour it up to its end
                // or the end of the line.
                let seg_end = if end < line_end {
                    end
                } else {
                    line_end
                };
                let class = anns[ann_idx].2.as_str();
                let color = resolve_color(colors, class, default_color);
                let text = byte_slice(src, cursor, seg_end);
                if str_eq(class, "cmt") {
                    out.append("<tspan fill=\"");
                    out.append(color.as_str());
                    out.append("\" font-style=\"italic\">");
                } else {
                    out.append("<tspan fill=\"");
                    out.append(color.as_str());
                    out.append("\">");
                }
                push_escaped(&mut out, text, true);
                out.append("</tspan>");
                cursor = seg_end;
            }
        }
    }
    assert(out@ =~= full.0);
    (out, ann_idx)
}

/// Contents of the `<text>` elements of an SVG rendering of `src`: one per
/// line (split at every line feed), with the spans `anns` (as `annotate`
/// returns them) coloured from `colors`, `default_color` for the rest.
pub fn svg_line_bodies(
    src: &str,
    anns: &Vec<(usize, usize, String)>,
    colors: &Vec<(String, String)>,
    default_color: &str,
) -> (bodies: Vec<String>)
    requires
        spans_fit(src.spec_bytes(), spans_view(anns@)),
    ensures
        strings_view(bodies@) == line_bodies_from(
            src.spec_bytes(),
            spans_view(anns@),
            pairs_view(colors@),
            default_color@,
            0,
            0,
        ),
        colors_plain(pairs_view(colors@)) && no_gt(default_color@) ==> forall|k: int|
            0 <= k < bodies@.len() ==> visible(#[trigger] bodies@[k]@) == escape(
                line_texts_from(src.spec_bytes(), 0)[k],
                true,
            ),
{
    broadcast use vstd::utf8::encode_utf8_valid_utf8, vstd::utf8::is_char_boundary_start_end_of_seq;


    let ghost b = src.spec_bytes();
    let ghost a = spans_view(anns@);
    let ghost cv = pairs_view(colors@);
    let bytes = src.as_bytes();
    let len = bytes.len();
    let mut bodies: Vec<String> = Vec::new();
    let mut line_start: usize = 0;
    let mut ann_idx: usize = 0;
    assert(valid_utf8(b));
    loop
        invariant
            b == src.spec_bytes(),
            valid_utf8(b),
            bytes@ == b,
            len == b.len(),
            a == spans_view(anns@),
            cv == pairs_view(colors@),
            line_start <= len,
            ann_idx <= anns@.len(),
            is_char_boundary(b, line_start as int),
            spans_fit(b, a),
            strings_view(bodies@) + line_bodies_from(b, a, cv, default_color@, line_start as int, ann_idx as int)
                == line_bodies_from(b, a, cv, default_color@, 0, 0),
        decreases len + 1 - line_start,
    {
        let mut line_end = line_start;
        while line_end < len && bytes[line_end] != 10
            invariant
                line_start <= line_end <= len,
                len == b.len(),
                bytes@ == b,
                line_end_from(b, line_start as int) == line_end_from(b, line_end as int),
            decreases len - line_end,
        {
            line_end += 1;
        }
        proof {
            if line_end < len {
                lemma_ascii_boundary(b, line_end as int);
            } else {
                vstd::utf8::is_char_boundary_start_end_of_seq(b);
            }
            lemma_line_end_from(b, line_start as int);
        }
        let (body, next_idx) = line_content(src, anns, colors, default_color, line_start, line_end, ann_idx);
        let ghost before = bodies@;
        bodies.push(body);
        if line_end >= len {
            assert(strings_view(bodies@) =~= line_bodies_from(b, a, cv, default_color@, 0, 0));
            proof {
                if colors_plain(cv) && no_gt(default_color@) {
                    vstd::utf8::is_char_boundary_start_end_of_seq(b);
                    lemma_line_bodies_keep_text(b, a, cv, default_color@, 0, 0);
                    assert forall|k: int| 0 <= k < bodies@.len() implies visible(#[trigger] bodies@[k]@) == escape(
                        line_texts_from(b, 0)[k],
                        true,
                    ) by {
                        assert(bodies@[k]@ == strings_view(bodies@)[k]);
                    }
                }
            }
            return bodies;
        }
        assert(strings_view(bodies@) =~= strings_view(before).push(body@));
        line_start = line_end + 1;
        ann_idx = next_idx;
    }
}


// ---- text of the lines --------------------------------------------------------

/// Texts of the lines of `b` (split at every line feed) from the line
/// starting at `start` on.
pub open spec fn line_texts_from(b: Seq<u8>, start: int) -> Seq<Seq<char>>
    decreases b.len() + 1 - start,
{
    if start < 0 || start > b.len() {
        seq![]
    } else {
        proof {
            lemma_line_end_from(b, start);
        }
        let end = line_end_from(b, start);
        if end >= b.len() {
            seq![piece(b, start, end)]
        } else {
            seq![piece(b, start, end)] + line_texts_from(b, end + 1)
        }
    }
}

/// No character of the text is `>`.
pub open spec fn no_gt(s: Seq<char>) -> bool {
    forall|i: int| 0 <= i < s.len() ==> s[i] != '>'
}

/// No colour value holds `>`.
pub open spec fn colors_plain(colors: Seq<(Seq<char>, Seq<char>)>) -> bool {
    forall|i: int| 0 <= i < colors.len() ==> no_gt(#[trigger] colors[i].1)
}

proof fn lemma_lookup_plain(colors: Seq<(Seq<char>, Seq<char>)>, key: Seq<char>)
    requires
        colors_plain(colors),
    ensures
        lookup(colors, key) matches Some(c) ==> no_gt(c),
    decreases colors.len(),
{
    if colors.len() > 0 {
        assert(colors.last() == colors[colors.len() - 1]);
        let d = colors.drop_last();
        assert forall|i: int| 0 <= i < d.len() implies no_gt(#[trigger] d[i].1) by {
            assert(d[i] == colors[i]);
        }
        lemma_lookup_plain(d, key);
    }
}

proof fn lemma_color_for_plain(colors: Seq<(Seq<char>, Seq<char>)>, class: Seq<char>, default: Seq<char>)
    requires
        colors_plain(colors),
        no_gt(default),
    ensures
        no_gt(color_for(colors, class, default)),
{
    let v = var_name(class);
    lemma_lookup_plain(colors, v);
    match char_last_before(v, '-', v.len() as int) {
        Some(k) => lemma_lookup_plain(colors, v.take(k)),
        None => {},
    }
}

proof fn lemma_visible_tspan(color: Seq<char>, italic: bool, text: Seq<char>, r: Seq<char>)
    requires
        no_gt(color),
        forall|i: int| 0 <= i < text.len() ==> text[i] != '<',
    ensures
        visible_from(tspan(color, italic, text) + r, false) == text + visible_from(r, false),
{
    reveal_strlit("<tspan fill=\"");
    reveal_strlit("\" font-style=\"italic\">");
    reveal_strlit("\">");
    reveal_strlit("</tspan>");
    let open = if italic {
        "<tspan fill=\""@ + color + "\" font-style=\"italic\">"@
    } else {
        "<tspan fill=\""@ + color + "\">"@
    };
    let close = "</tspan>"@;
    assert(tspan(color, italic, text) + r =~= open + (text + (close + r)));
    assert forall|i: int| 0 < i < open.len() - 1 implies open[i] != '>' by {
        if 13 <= i < 13 + color.len() {
            assert(open[i] == color[i - 13]);
        }
    }
    lemma_visible_tag(open, text + (close + r));
    lemma_visible_text(text, close + r);
    lemma_visible_tag(close, r);
}

/// Colouring a line changes no text: outside its tags, the content of the
/// line from `cursor` to `line_end` shows exactly the escaped text there,
/// provided no colour holds a `>`.
pub proof fn lemma_line_body_keeps_text(
    b: Seq<u8>,
    a: Seq<(usize, usize, Seq<char>)>,
    colors: Seq<(Seq<char>, Seq<char>)>,
    default: Seq<char>,
    line_end: int,
    cursor: int,
    idx: int,
)
    requires
        valid_utf8(b),
        0 <= cursor <= line_end <= b.len(),
        0 <= idx,
        is_char_boundary(b, cursor),
        is_char_boundary(b, line_end),
        spans_fit(b, a),
        colors_plain(colors),
        no_gt(default),
    ensures
        visible(line_body(b, a, colors, default, line_end, cursor, idx).0) == escape(piece(b, cursor, line_end), true),
    decreases line_end - cursor,
{
    if cursor >= line_end {
        assert(b.subrange(cursor, line_end) =~= Seq::<u8>::empty());
        assert(decode_utf8(Seq::<u8>::empty()) =~= Seq::<char>::empty()) by {
            reveal(decode_utf8);
        }
    } else {
        let i = skip_done(a, cursor, idx);
        lemma_skip_done(a, cursor, idx);
        if i >= a.len() || a[i].0 >= line_end {
            let e = escape(piece(b, cursor, line_end), true);
            lemma_escape_no_lt(piece(b, cursor, line_end), true);
            lemma_visible_text(e, seq![]);
            assert(e + Seq::<char>::empty() =~= e);
            assert(visible_from(Seq::<char>::empty(), false) =~= Seq::<char>::empty());
        } else {
            let st = a[i].0 as int;
            let en = a[i].1 as int;
            assert(st < en && is_char_boundary(b, st) && is_char_boundary(b, en));
            if st > cursor {
                lemma_line_body_keeps_text(b, a, colors, default, line_end, st, i);
                let rest = line_body(b, a, colors, default, line_end, st, i);
                let e = escape(piece(b, cursor, st), true);
                lemma_escape_no_lt(piece(b, cursor, st), true);
                lemma_visible_text(e, rest.0);
                lemma_piece_concat(b, cursor, st, line_end);
                lemma_escape_concat(piece(b, cursor, st), piece(b, st, line_end), true);
            } else {
                let seg_end: int = if en < line_end { en } else { line_end };
                lemma_line_body_keeps_text(b, a, colors, default, line_end, seg_end, i);
                let rest = line_body(b, a, colors, default, line_end, seg_end, i);
                let text = escape(piece(b, cursor, seg_end), true);
                lemma_escape_no_lt(piece(b, cursor, seg_end), true);
                lemma_color_for_plain(colors, a[i].2, default);
                lemma_visible_tspan(color_for(colors, a[i].2, default), a[i].2 == "cmt"@, text, rest.0);
                lemma_piece_concat(b, cursor, seg_end, line_end);
                lemma_escape_concat(piece(b, cursor, seg_end), piece(b, seg_end, line_end), true);
            }
        }
    }
}

/// Colouring changes no text: outside their tags, the contents of the
/// lines show exactly the escaped texts of the lines, provided no colour
/// holds a `>`.
pub proof fn lemma_line_bodies_keep_text(
    b: Seq<u8>,
    a: Seq<(usize, usize, Seq<char>)>,
    colors: Seq<(Seq<char>, Seq<char>)>,
    default: Seq<char>,
    start: int,
    idx: int,
)
    requires
        valid_utf8(b),
        0 <= start <= b.len(),
        0 <= idx,
        is_char_boundary(b, start),
        spans_fit(b, a),
        colors_plain(colors),
        no_gt(default),
    ensures
        ({
            let bodies = line_bodies_from(b, a, colors, default, start, idx);
            let texts = line_texts_from(b, start);
            &&& bodies.len() == texts.len()
            &&& forall|k: int| 0 <= k < bodies.len() ==> visible(#[trigger] bodies[k]) == escape(texts[k], true)
        }),
    decreases b.len() + 1 - start,
{
    lemma_line_end_from(b, start);
    let end = line_end_from(b, start);
    if end < b.len() {
        lemma_ascii_boundary(b, end);
    } else {
        vstd::utf8::is_char_boundary_start_end_of_seq(b);
    }
    lemma_line_body_keeps_text(b, a, colors, default, end, start, idx);
    let body = line_body(b, a, colors, default, end, start, idx);
    lemma_line_body_idx(b, a, colors, default, end, start, idx);
    if end < b.len() {
        lemma_line_bodies_keep_text(b, a, colors, default, end + 1, body.1);
        let bodies = line_bodies_from(b, a, colors, default, start, idx);
        let texts = line_texts_from(b, start);
        let rb = line_bodies_from(b, a, colors, default, end + 1, body.1);
        let rt = line_texts_from(b, end + 1);
        assert forall|k: int| 0 <= k < bodies.len() implies visible(#[trigger] bodies[k]) == escape(texts[k], true) by {
            if k > 0 {
                assert(bodies[k] == rb[k - 1]);
                assert(texts[k] == rt[k - 1]);
            }
        }
    }
}

proof fn lemma_line_body_idx(
    b: Seq<u8>,
    a: Seq<(usize, usize, Seq<char>)>,
    colors: Seq<(Seq<char>, Seq<char>)>,
    default: Seq<char>,
    line_end: int,
    cursor: int,
    idx: int,
)
    requires
        0 <= idx,
    ensures
        line_body(b, a, colors, default, line_end, cursor, idx).1 >= idx,
    decreases line_end - cursor,
{
    if cursor < line_end {
        let i = skip_done(a, cursor, idx);
        lemma_skip_done(a, cursor, idx);
        if i < a.len() && a[i].0 < line_end {
            if a[i].0 > cursor {
                lemma_line_body_idx(b, a, colors, default, line_end, a[i].0 as int, i);
            } else {
                let seg_end: int = if a[i].1 < line_end { a[i].1 as int } else { line_end };
                lemma_line_body_idx(b, a, colors, default, line_end, seg_end, i);
            }
        }
    }
}

// ---- spans across lines -------------------------------------------------------

/// Spans that are each non-empty, in order and without overlap.
pub open spec fn triples_ordered(a: Seq<(usize, usize, Seq<char>)>) -> bool {
    &&& forall|i: int| 0 <= i < a.len() ==> (#[trigger] a[i]).0 < a[i].1
    &&& forall|i: int, j: int| 0 <= i < j < a.len() ==> (#[trigger] a[i]).1 <= (#[trigger] a[j]).0
}

/// `t` stands in `s` from position `p` on.
pub open spec fn occurs_at(s: Seq<char>, t: Seq<char>, p: int) -> bool {
    0 <= p && p + t.len() <= s.len() && s.subrange(p, p + t.len()) == t
}

/// `t` stands somewhere in `s`.
pub open spec fn occurs_in(s: Seq<char>, t: Seq<char>) -> bool {
    exists|p: int| #[trigger] occurs_at(s, t, p)
}

/// The `<tspan>` of the bytes `from..to` of span `k`: filled with the colour
/// of its class, in italics exactly for comments.
pub open spec fn span_part(
    b: Seq<u8>,
    a: Seq<(usize, usize, Seq<char>)>,
    colors: Seq<(Seq<char>, Seq<char>)>,
    default: Seq<char>,
    k: int,
    from: int,
    to: int,
) -> Seq<char> {
    tspan(color_for(colors, a[k].2, default), a[k].2 == "cmt"@, escape(piece(b, from, to), true))
}

proof fn lemma_occurs_prefix(t: Seq<char>, s: Seq<char>)
    ensures
        occurs_in(t + s, t),
{
    assert((t + s).subrange(0, t.len() as int) =~= t);
    assert(occurs_at(t + s, t, 0));
}

proof fn lemma_occurs_after(x: Seq<char>, s: Seq<char>, t: Seq<char>)
    requires
        occurs_in(s, t),
    ensures
        occurs_in(x + s, t),
{
    let p = choose|p: int| #[trigger] occurs_at(s, t, p);
    assert((x + s).subrange(x.len() + p, x.len() + p + t.len()) =~= s.subrange(p, p + t.len()));
    assert(occurs_at(x + s, t, x.len() + p));
}

proof fn lemma_skip_done_at_most(a: Seq<(usize, usize, Seq<char>)>, cursor: int, idx: int, k: int)
    requires
        0 <= idx <= k < a.len(),
        a[k].1 > cursor,
    ensures
        skip_done(a, cursor, idx) <= k,
    decreases k - idx,
{
    if idx < k && a[idx].1 <= cursor {
        lemma_skip_done_at_most(a, cursor, idx + 1, k);
    }
}

/// Span `k`, which reaches past the cursor and starts before the line's end,
/// is written on the line as one `<tspan>` holding its part on the line.
proof fn lemma_line_body_colours(
    b: Seq<u8>,
    a: Seq<(usize, usize, Seq<char>)>,
    colors: Seq<(Seq<char>, Seq<char>)>,
    default: Seq<char>,
    line_end: int,
    cursor: int,
    idx: int,
    k: int,
)
    requires
        triples_ordered(a),
        0 <= idx <= k < a.len(),
        cursor < line_end,
        cursor < a[k].1,
        a[k].0 < line_end,
    ensures
        occurs_in(
            line_body(b, a, colors, default, line_end, cursor, idx).0,
            span_part(
                b,
                a,
                colors,
                default,
                k,
                if cursor < a[k].0 { a[k].0 as int } else { cursor },
                if a[k].1 < line_end { a[k].1 as int } else { line_end },
            ),
        ),
    decreases line_end - cursor,
{
    lemma_skip_done(a, cursor, idx);
    lemma_skip_done_at_most(a, cursor, idx, k);
    let i = skip_done(a, cursor, idx);
    let t = span_part(
        b,
        a,
        colors,
        default,
        k,
        if cursor < a[k].0 { a[k].0 as int } else { cursor },
        if a[k].1 < line_end { a[k].1 as int } else { line_end },
    );
    let body = line_body(b, a, colors, default, line_end, cursor, idx);
    let ak = a[k];
    let ai = a[i];
    if i < k {
        assert(ai.1 <= ak.0);
    }
    if ai.0 > cursor {
        let rest = line_body(b, a, colors, default, line_end, ai.0 as int, i);
        lemma_line_body_colours(b, a, colors, default, line_end, ai.0 as int, i, k);
        assert(body.0 == escape(piece(b, cursor, ai.0 as int), true) + rest.0);
        lemma_occurs_after(escape(piece(b, cursor, ai.0 as int), true), rest.0, t);
    } else if i == k {
        let seg_end: int = if ak.1 < line_end { ak.1 as int } else { line_end };
        let rest = line_body(b, a, colors, default, line_end, seg_end, i);
        assert(body.0 == t + rest.0);
        lemma_occurs_prefix(t, rest.0);
    } else {
        let rest = line_body(b, a, colors, default, line_end, ai.1 as int, i);
        lemma_line_body_colours(b, a, colors, default, line_end, ai.1 as int, i, k);
        let head = tspan(color_for(colors, ai.2, default), ai.2 == "cmt"@, escape(piece(b, cursor, ai.1 as int), true));
        assert(body.0 == head + rest.0);
        lemma_occurs_after(head, rest.0, t);
    }
}

/// A span reaching past the line's end is not passed on that line.
proof fn lemma_line_body_keeps_span(
    b: Seq<u8>,
    a: Seq<(usize, usize, Seq<char>)>,
    colors: Seq<(Seq<char>, Seq<char>)>,
    default: Seq<char>,
    line_end: int,
    cursor: int,
    idx: int,
    k: int,
)
    requires
        0 <= idx <= k < a.len(),
        line_end < a[k].1,
    ensures
        line_body(b, a, colors, default, line_end, cursor, idx).1 <= k,
    decreases line_end - cursor,
{
    if cursor < line_end {
        lemma_skip_done(a, cursor, idx);
        lemma_skip_done_at_most(a, cursor, idx, k);
        let i = skip_done(a, cursor, idx);
        if i < a.len() && a[i].0 < line_end {
            if a[i].0 > cursor {
                lemma_line_body_keeps_span(b, a, colors, default, line_end, a[i].0 as int, i, k);
            } else {
                let seg_end: int = if a[i].1 < line_end { a[i].1 as int } else { line_end };
                lemma_line_body_keeps_span(b, a, colors, default, line_end, seg_end, i, k);
            }
        }
    }
}

/// Start of the `n`-th line of `b` counted from the line starting at `start`.
pub open spec fn line_start(b: Seq<u8>, start: int, n: nat) -> int
    decreases n,
{
    if n == 0 {
        start
    } else {
        line_start(b, line_end_from(b, start) + 1, (n - 1) as nat)
    }
}

proof fn lemma_line_start(b: Seq<u8>, start: int, n: nat)
    requires
        0 <= start <= b.len(),
        n < line_count_from(b, start),
    ensures
        start <= line_start(b, start, n) <= b.len(),
        n > 0 ==> line_end_from(b, start) < line_start(b, start, n),
    decreases n,
{
    lemma_line_end_from(b, start);
    if n > 0 {
        lemma_line_start(b, line_end_from(b, start) + 1, (n - 1) as nat);
    }
}

/// Every span is coloured on each line it covers: on the `n`-th line (from
/// the one starting at `start`), the part of span `k` on that line is one
/// `<tspan>` filled with the colour of its class, in italics exactly for
/// comments.
pub proof fn lemma_line_bodies_colour_spans(
    b: Seq<u8>,
    a: Seq<(usize, usize, Seq<char>)>,
    colors: Seq<(Seq<char>, Seq<char>)>,
    default: Seq<char>,
    start: int,
    idx: int,
    n: nat,
    k: int,
)
    requires
        triples_ordered(a),
        0 <= start <= b.len(),
        0 <= idx <= k < a.len(),
        n < line_count_from(b, start),
        line_start(b, start, n) < line_end_from(b, line_start(b, start, n)),
        a[k].0 < line_end_from(b, line_start(b, start, n)),
        line_start(b, start, n) < a[k].1,
    ensures
        ({
            let s = line_start(b, start, n);
            let e = line_end_from(b, s);
            occurs_in(
                line_bodies_from(b, a, colors, default, start, idx)[n as int],
                span_part(
                    b,
                    a,
                    colors,
                    default,
                    k,
                    if s < a[k].0 { a[k].0 as int } else { s },
                    if a[k].1 < e { a[k].1 as int } else { e },
                ),
            )
        }),
    decreases n,
{
    lemma_line_end_from(b, start);
    let end = line_end_from(b, start);
    let body = line_body(b, a, colors, default, end, start, idx);
    if n == 0 {
        lemma_line_body_colours(b, a, colors, default, end, start, idx, k);
    } else {
        lemma_line_start(b, start, n);
        lemma_line_body_keeps_span(b, a, colors, default, end, start, idx, k);
        lemma_line_body_idx(b, a, colors, default, end, start, idx);
        lemma_line_bodies_colour_spans(b, a, colors, default, end + 1, body.1, (n - 1) as nat, k);
        lemma_line_bodies_len(b, a, colors, default, end + 1, body.1);
        let rest = line_bodies_from(b, a, colors, default, end + 1, body.1);
        assert(line_bodies_from(b, a, colors, default, start, idx)[n as int] == rest[n - 1]);
    }
}

// ---- document -----------------------------------------------------------------

/// Number of lines of `b` (split at every line feed) from the line starting at `start` on.
pub open spec fn line_count_from(b: Seq<u8>, start: int) -> nat
    decreases b.len() + 1 - start,
{
    if start < 0 || start > b.len() {
        0
    } else {
        proof {
            lemma_line_end_from(b, start);
        }
        let end = line_end_from(b, start);
        if end >= b.len() {
            1
        } else {
            1 + line_count_from(b, end + 1)
        }
    }
}

/// Greatest byte length of the lines of `b` from the line starting at `start` on.
pub open spec fn max_line_len_from(b: Seq<u8>, start: int) -> nat
    decreases b.len() + 1 - start,
{
    if start < 0 || start > b.len() {
        0
    } else {
        proof {
            lemma_line_end_from(b, start);
        }
        let end = line_end_from(b, start);
        let here = (end - start) as nat;
        if end >= b.len() {
            here
        } else {
            let rest = max_line_len_from(b, end + 1);
            if here >= rest {
                here
            } else {
                rest
            }
        }
    }
}

pub proof fn lemma_line_bodies_len(
    b: Seq<u8>,
    a: Seq<(usize, usize, Seq<char>)>,
    colors: Seq<(Seq<char>, Seq<char>)>,
    default: Seq<char>,
    start: int,
    idx: int,
)
    requires
        0 <= start <= b.len(),
    ensures
        line_bodies_from(b, a, colors, default, start, idx).len() == line_count_from(b, start),
    decreases b.len() + 1 - start,
{
    lemma_line_end_from(b, start);
    let end = line_end_from(b, start);
    if end < b.len() {
        let body = line_body(b, a, colors, default, end, start, idx);
        lemma_line_bodies_len(b, a, colors, default, end + 1, body.1);
    }
}

/// Widest line (in bytes) and number of lines of `src`, split at every line
/// feed: the extent of its SVG rendering in character cells.
pub fn svg_extent(src: &str) -> (r: (usize, usize))
    requires
        src.spec_bytes().len() < usize::MAX,
    ensures
        r.0 == max_line_len_from(src.spec_bytes(), 0),
        r.1 == line_count_from(src.spec_bytes(), 0),
{
    let bytes = src.as_bytes();
    let len = bytes.len();
    let ghost b = bytes@;
    let mut line_start: usize = 0;
    let mut widest: usize = 0;
    let mut count: usize = 0;
    loop
        invariant
            bytes@ == b,
            b == src.spec_bytes(),
            len == b.len(),
            len < usize::MAX,
            line_start <= len,
            count <= line_start,
            widest <= len,
            ({
                let rest = max_line_len_from(b, line_start as int);
                &&& count + line_count_from(b, line_start as int) == line_count_from(b, 0)
                &&& (if widest >= rest { widest as nat } else { rest }) == max_line_len_from(b, 0)
            }),
        decreases len + 1 - line_start,
    {
        let mut line_end = line_start;
        while line_end < len && bytes[line_end] != 10
            invariant
                line_start <= line_end <= len,
                len == b.len(),
                bytes@ == b,
                line_end_from(b, line_start as int) == line_end_from(b, line_end as int),
            decreases len - line_end,
        {
            line_end += 1;
        }
        proof {
            lemma_line_end_from(b, line_start as int);
        }
        let here = line_end - line_start;
        if here > widest {
            widest = here;
        }
        count += 1;
        if line_end >= len {
            return (widest, count);
        }
        line_start = line_end + 1;
    }
}

/// Decimal digits of `n`.
pub open spec fn decimal(n: nat) -> Seq<char>
    decreases n,
{
    if n < 10 {
        seq![(48 + n) as char]
    } else {
        decimal(n / 10).push((48 + n % 10) as char)
    }
}

fn push_decimal(out: &mut String, n: usize)
    ensures
        final(out)@ == old(out)@ + decimal(n as nat),
    decreases n,
{
    if n >= 10 {
        push_decimal(out, n / 10);
    }
    let d: u8 = (n % 10) as u8;
    let c = (48u8 + d) as char;
    push_char(out, c);
    assert(old(out)@ + decimal(n as nat) =~= out@);
}

/// The `<text>` element of one line.
pub open spec fn svg_text_line(y: Seq<char>, fill: Seq<char>, body: Seq<char>) -> Seq<char> {
    "<text x=\"16\" y=\""@ + y + "\" fill=\""@ + fill
        + "\" font-family=\"Hack, Consolas, Menlo, Monaco, monospace\" font-size=\"14\" xml:space=\"preserve\">"@
        + body + "</text>\n"@
}

/// The `<text>` elements of the lines, each at its baseline `ys[i]`.
pub open spec fn svg_text_lines(ys: Seq<Seq<char>>, fill: Seq<char>, bodies: Seq<Seq<char>>) -> Seq<char>
    decreases bodies.len(),
{
    if bodies.len() == 0 {
        seq![]
    } else {
        svg_text_lines(ys.drop_last(), fill, bodies.drop_last()) + svg_text_line(ys.last(), fill, bodies.last())
    }
}

/// A whole SVG document: header of the given size, rounded background, lines.
pub open spec fn svg_document(
    width: Seq<char>,
    height: Seq<char>,
    bg: Seq<char>,
    fill: Seq<char>,
    ys: Seq<Seq<char>>,
    bodies: Seq<Seq<char>>,
) -> Seq<char> {
    "<svg xmlns=\"http://www.w3.org/2000/svg\" viewBox=\"0 0 "@ + width + " "@ + height + "\" width=\""@ + width
        + "\" height=\""@ + height + "\">\n"@ + "<rect width=\"100%\" height=\"100%\" rx=\"6\" ry=\"6\" fill=\""@ + bg
        + "\"/>\n"@ + svg_text_lines(ys, fill, bodies) + "</svg>\n"@
}

/// Background colour: the `bg` declaration, else a dark grey.
pub open spec fn background_of(colors: Seq<(Seq<char>, Seq<char>)>) -> Seq<char> {
    match lookup(colors, "bg"@) {
        Some(c) => c,
        None => "#1F1F1F"@,
    }
}

/// Text colour: the `text` declaration, else a light grey.
pub open spec fn text_color_of(colors: Seq<(Seq<char>, Seq<char>)>) -> Seq<char> {
    match lookup(colors, "text"@) {
        Some(c) => c,
        None => "#D4D4D4"@,
    }
}

proof fn lemma_occurs_before(s: Seq<char>, x: Seq<char>, t: Seq<char>)
    requires
        occurs_in(s, t),
    ensures
        occurs_in(s + x, t),
{
    let p = choose|p: int| #[trigger] occurs_at(s, t, p);
    assert((s + x).subrange(p, p + t.len()) =~= s.subrange(p, p + t.len()));
    assert(occurs_at(s + x, t, p));
}

proof fn lemma_text_lines_hold(ys: Seq<Seq<char>>, fill: Seq<char>, bodies: Seq<Seq<char>>, n: int)
    requires
        ys.len() == bodies.len(),
        0 <= n < bodies.len(),
    ensures
        occurs_in(svg_text_lines(ys, fill, bodies), svg_text_line(ys[n], fill, bodies[n])),
    decreases bodies.len(),
{
    let last = svg_text_line(ys.last(), fill, bodies.last());
    let front = svg_text_lines(ys.drop_last(), fill, bodies.drop_last());
    if n == bodies.len() - 1 {
        assert(front + last == front + (last + seq![]));
        lemma_occurs_prefix(last, seq![]);
        lemma_occurs_after(front, last + seq![], last);
    } else {
        lemma_text_lines_hold(ys.drop_last(), fill, bodies.drop_last(), n);
        assert(ys.drop_last()[n] == ys[n]);
        assert(bodies.drop_last()[n] == bodies[n]);
        lemma_occurs_before(front, last, svg_text_line(ys[n], fill, bodies[n]));
    }
}

/// In the SVG rendering of a snippet, every highlighted span is coloured on
/// each line it covers: the `<text>` element of the `n`-th line stands in
/// the document, and in it the part of span `k` on that line is one
/// `<tspan>` filled with the colour of the span's class (as `color_for`
/// resolves it, falling back to the text colour) and in italics exactly
/// for comments. A span within one line is thus one `<tspan>` holding its
/// whole text.
pub proof fn lemma_svg_colours_spans(
    b: Seq<u8>,
    tokens: Seq<Token>,
    ast: Option<Node>,
    colors: Seq<(Seq<char>, Seq<char>)>,
    width: nat,
    height: nat,
    ys: Seq<Seq<char>>,
    n: nat,
    k: int,
)
    requires
        ys.len() == line_count_from(b, 0),
        0 <= k < snippet_spans(b.len() as int, tokens, ast).len(),
        n < line_count_from(b, 0),
        line_start(b, 0, n) < line_end_from(b, line_start(b, 0, n)),
        snippet_spans(b.len() as int, tokens, ast)[k].start < line_end_from(b, line_start(b, 0, n)),
        line_start(b, 0, n) < snippet_spans(b.len() as int, tokens, ast)[k].end,
    ensures
        ({
            let a = span_triples(snippet_spans(b.len() as int, tokens, ast));
            let fill = text_color_of(colors);
            let bodies = line_bodies_from(b, a, colors, fill, 0, 0);
            let line = svg_text_line(ys[n as int], fill, bodies[n as int]);
            let s = line_start(b, 0, n);
            let e = line_end_from(b, s);
            &&& occurs_in(
                svg_document(decimal(width), decimal(height), background_of(colors), fill, ys, bodies),
                line,
            )
            &&& occurs_in(
                line,
                span_part(
                    b,
                    a,
                    colors,
                    fill,
                    k,
                    if s < a[k].0 { a[k].0 as int } else { s },
                    if a[k].1 < e { a[k].1 as int } else { e },
                ),
            )
            &&& (s <= a[k].0 && a[k].1 <= e ==> occurs_in(line, span_part(b, a, colors, fill, k, a[k].0 as int, a[k].1 as int)))
        }),
{
    let spans = snippet_spans(b.len() as int, tokens, ast);
    let a = span_triples(spans);
    let fill = text_color_of(colors);
    let bodies = line_bodies_from(b, a, colors, fill, 0, 0);
    lemma_resolve_ordered(sorted_anns(collected_anns(tokens, ast)), b.len() as int, 0);
    assert(triples_ordered(a)) by {
        assert forall|i: int| 0 <= i < a.len() implies (#[trigger] a[i]).0 < a[i].1 by {
            assert(a[i].0 == spans[i].start);
        }
        assert forall|i: int, j: int| 0 <= i < j < a.len() implies (#[trigger] a[i]).1 <= (#[trigger] a[j]).0 by {
            assert(spans[i].end <= spans[j].start);
        }
    }
    lemma_line_bodies_colour_spans(b, a, colors, fill, 0, 0, n, k);
    lemma_line_bodies_len(b, a, colors, fill, 0, 0);
    let line = svg_text_line(ys[n as int], fill, bodies[n as int]);
    let pre = "<text x=\"16\" y=\""@ + ys[n as int] + "\" fill=\""@ + fill
        + "\" font-family=\"Hack, Consolas, Menlo, Monaco, monospace\" font-size=\"14\" xml:space=\"preserve\">"@;
    assert(line == pre + bodies[n as int] + "</text>\n"@);
    let s = line_start(b, 0, n);
    let e = line_end_from(b, s);
    let t = span_part(
        b,
        a,
        colors,
        fill,
        k,
        if s < a[k].0 { a[k].0 as int } else { s },
        if a[k].1 < e { a[k].1 as int } else { e },
    );
    lemma_occurs_before(bodies[n as int], "</text>\n"@, t);
    lemma_occurs_after(pre, bodies[n as int] + "</text>\n"@, t);
    assert(pre + (bodies[n as int] + "</text>\n"@) == line);
    lemma_text_lines_hold(ys, fill, bodies, n as int);
    let head = "<svg xmlns=\"http://www.w3.org/2000/svg\" viewBox=\"0 0 "@ + decimal(width) + " "@ + decimal(height)
        + "\" width=\""@ + decimal(width) + "\" height=\""@ + decimal(height) + "\">\n"@
        + "<rect width=\"100%\" height=\"100%\" rx=\"6\" ry=\"6\" fill=\""@ + background_of(colors) + "\"/>\n"@;
    let lines = svg_text_lines(ys, fill, bodies);
    assert(svg_document(decimal(width), decimal(height), background_of(colors), fill, ys, bodies) == head + (lines
        + "</svg>\n"@));
    lemma_occurs_before(lines, "</svg>\n"@, line);
    lemma_occurs_after(head, lines + "</svg>\n"@, line);
}

/// Render a Fink source snippet as an SVG document: one `<text>` element per
/// line (split at every line feed) at the baseline `line_ys[i]`, highlighted
/// spans as coloured `<tspan>` elements (comments in italics), colours from
/// the stylesheet declarations `colors`, in a `width` by `height` frame.
pub fn render_svg(
    src: &str,
    tokens: &Vec<Token>,
    ast: &Option<Node>,
    colors: &Vec<(String, String)>,
    width: usize,
    height: usize,
    line_ys: &Vec<String>,
) -> (out: String)
    requires
        inputs_fit(tokens@, *ast),
        spans_on_char_boundaries(src.spec_bytes(), snippet_spans(src.spec_bytes().len() as int, tokens@, *ast)),
        line_ys@.len() == line_count_from(src.spec_bytes(), 0),
    ensures
        ({
            let cv = pairs_view(colors@);
            let b = src.spec_bytes();
            out@ == svg_document(
                decimal(width as nat),
                decimal(height as nat),
                background_of(cv),
                text_color_of(cv),
                strings_view(line_ys@),
                line_bodies_from(
                    b,
                    span_triples(snippet_spans(b.len() as int, tokens@, *ast)),
                    cv,
                    text_color_of(cv),
                    0,
                    0,
                ),
            )
        }),
{
    let ghost b = src.spec_bytes();
    let ghost cv = pairs_view(colors@);
    let anns = annotate(src, tokens, ast);
    let ghost spans = snippet_spans(b.len() as int, tokens@, *ast);
    assert(spans_view(anns@) =~= span_triples(spans));
    let bg = match meta_get(colors, "bg") {
        Some(c) => c,
        None => "#1F1F1F".to_owned(),
    };
    let fill = match meta_get(colors, "text") {
        Some(c) => c,
        None => "#D4D4D4".to_owned(),
    };
    let bodies = svg_line_bodies(src, &anns, colors, fill.as_str());
    proof {
        lemma_line_bodies_len(b, span_triples(spans), cv, fill@, 0, 0);
    }
    let mut out = String::new();
    out.append("<svg xmlns=\"http://www.w3.org/2000/svg\" viewBox=\"0 0 ");
    push_decimal(&mut out, width);
    out.append(" ");
    push_decimal(&mut out, height);
    out.append("\" width=\"");
    push_decimal(&mut out, width);
    out.append("\" height=\"");
    push_decimal(&mut out, height);
    out.append("\">\n");
    out.append("<rect width=\"100%\" height=\"100%\" rx=\"6\" ry=\"6\" fill=\"");
    out.append(bg.as_str());
    out.append("\"/>\n");
    let ghost head = out@;
    let n = bodies.len();
    let mut i: usize = 0;
    while i < n
        invariant
            n == bodies@.len(),
            n == line_ys@.len(),
            i <= n,
            out@ == head + svg_text_lines(
                strings_view(line_ys@).take(i as int),
                fill@,
                strings_view(bodies@).take(i as int),
            ),
        decreases n - i,
    {
        let ghost before = out@;
        out.append("<text x=\"16\" y=\"");
        out.append(line_ys[i].as_str());
        out.append("\" fill=\"");
        out.append(fill.as_str());
        out.append("\" font-family=\"Hack, Consolas, Menlo, Monaco, monospace\" font-size=\"14\" xml:space=\"preserve\">");
        out.append(bodies[i].as_str());
        out.append("</text>\n");
        proof {
            let ys = strings_view(line_ys@);
            let bs = strings_view(bodies@);
            assert(ys.take(i + 1).drop_last() =~= ys.take(i as int));
            assert(bs.take(i + 1).drop_last() =~= bs.take(i as int));
            assert(out@ =~= head + svg_text_lines(ys.take(i + 1), fill@, bs.take(i + 1)));
        }
        i += 1;
    }
    out.append("</svg>\n");
    proof {
        assert(strings_view(line_ys@).take(n as int) =~= strings_view(line_ys@));
        assert(strings_view(bodies@).take(n as int) =~= strings_view(bodies@));
    }
    out
}

} // verus!
