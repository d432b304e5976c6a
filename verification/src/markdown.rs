//! Markdown to HTML processing.
//!
//! Markdown is parsed with pulldown-cmark. Fink code blocks are replaced
//! with highlighted HTML and a playground link; `##` headings get `id`
//! attributes derived from their text so that the table of contents can
//! link to them. All other events go through pulldown-cmark's HTML writer.

use pulldown_cmark::{CodeBlockKind, Event, Options, Parser, Tag, TagEnd};
use vstd::prelude::*;
use vstd::string::*;
use vstd::utf8::encode_utf8;

use crate::playground::{deflate_raw, encode_source, base62_text};
use crate::text::{
    alphanumeric, ascii_lower, chars_of, is_alphanumeric, lower, push_char, str_eq, string_from, string_of_range,
    to_lowercase, trim, trim_bounds, trim_end, trim_start, whitespace,
};

verus! {

// ---- slugs -------------------------------------------------------------------

/// The words of a heading: maximal runs of alphanumeric characters, each
/// character replaced by its lower-case mapping.
pub open spec fn slug_words(s: Seq<char>) -> Seq<Seq<char>>
    decreases s.len(),
{
    if s.len() == 0 {
        seq![]
    } else {
        let w = slug_words(s.drop_last());
        let c = s.last();
        if !alphanumeric(c) {
            w
        } else if s.len() >= 2 && alphanumeric(s[s.len() - 2]) {
            w.update(w.len() - 1, w.last() + lower(c))
        } else {
            w.push(lower(c))
        }
    }
}

/// Words joined with a separator.
pub open spec fn join(ws: Seq<Seq<char>>, sep: char) -> Seq<char>
    decreases ws.len(),
{
    if ws.len() == 0 {
        seq![]
    } else if ws.len() == 1 {
        ws[0]
    } else {
        join(ws.drop_last(), sep).push(sep) + ws.last()
    }
}

/// The slug of a heading: its lower-cased words joined with hyphens.
pub open spec fn slug(s: Seq<char>) -> Seq<char> {
    join(slug_words(s), '-')
}

proof fn lemma_slug_words_nonempty_last(s: Seq<char>)
    requires
        s.len() >= 1,
        alphanumeric(s.last()),
    ensures
        slug_words(s).len() >= 1,
    decreases s.len(),
{
    if s.len() >= 2 && alphanumeric(s[s.len() - 2]) {
        assert(s.drop_last().last() == s[s.len() - 2]);
        lemma_slug_words_nonempty_last(s.drop_last());
    }
}

proof fn lemma_join_extend_last(ws: Seq<Seq<char>>, sep: char, x: Seq<char>)
    requires
        ws.len() >= 1,
    ensures
        join(ws.update(ws.len() - 1, ws.last() + x), sep) == join(ws, sep) + x,
{
    let u = ws.update(ws.len() - 1, ws.last() + x);
    if ws.len() >= 2 {
        assert(u.drop_last() =~= ws.drop_last());
        assert(join(u, sep) =~= join(ws, sep) + x);
    } else {
        assert(join(u, sep) =~= join(ws, sep) + x);
    }
}

proof fn lemma_join_push(ws: Seq<Seq<char>>, sep: char, v: Seq<char>)
    ensures
        join(ws.push(v), sep) == if ws.len() == 0 { v } else { join(ws, sep).push(sep) + v },
{
    assert(ws.push(v).drop_last() =~= ws);
}

/// Every word of a heading is non-empty.
pub open spec fn words_nonempty(ws: Seq<Seq<char>>) -> bool {
    forall|k: int| 0 <= k < ws.len() ==> (#[trigger] ws[k]).len() > 0
}

proof fn lemma_slug_words_nonempty(s: Seq<char>)
    ensures
        words_nonempty(slug_words(s)),
    decreases s.len(),
{
    if s.len() > 0 {
        lemma_slug_words_nonempty(s.drop_last());
        let w = slug_words(s.drop_last());
        let c = s.last();
        if alphanumeric(c) && s.len() >= 2 && alphanumeric(s[s.len() - 2]) {
            assert(s.drop_last().last() == s[s.len() - 2]);
            lemma_slug_words_nonempty_last(s.drop_last());
            let u = w.update(w.len() - 1, w.last() + lower(c));
            assert forall|k: int| 0 <= k < u.len() implies (#[trigger] u[k]).len() > 0 by {
                if k < w.len() - 1 {
                    assert(u[k] == w[k]);
                }
            }
        } else if alphanumeric(c) {
            let u = w.push(lower(c));
            assert forall|k: int| 0 <= k < u.len() implies (#[trigger] u[k]).len() > 0 by {
                if k < w.len() {
                    assert(u[k] == w[k]);
                }
            }
        }
    }
}

proof fn lemma_join_nonempty(ws: Seq<Seq<char>>)
    requires
        ws.len() > 0,
        words_nonempty(ws),
    ensures
        join(ws, '-').len() > 0,
    decreases ws.len(),
{
    if ws.len() == 1 {
        assert(ws[0].len() > 0);
    }
}

/// Adding a character to a heading: a letter or digit extends the last word
/// of the slug by its lower-case mapping, or starts a new word (after a
/// hyphen unless it is the first); any other character leaves the slug as
/// it is.
pub proof fn lemma_slug_push(s: Seq<char>, c: char)
    ensures
        slug(s.push(c)) == (if !alphanumeric(c) {
            slug(s)
        } else if s.len() > 0 && alphanumeric(s.last()) {
            slug(s) + lower(c)
        } else if slug(s).len() == 0 {
            lower(c)
        } else {
            slug(s).push('-') + lower(c)
        }),
{
    let t = s.push(c);
    assert(t.drop_last() =~= s);
    assert(t.last() == c);
    let w = slug_words(s);
    let l = lower(c);
    if alphanumeric(c) {
        if s.len() > 0 && alphanumeric(s.last()) {
            assert(t[t.len() - 2] == s.last());
            lemma_slug_words_nonempty_last(s);
            lemma_join_extend_last(w, '-', l);
        } else {
            if s.len() > 0 {
                assert(t[t.len() - 2] == s.last());
            }
            lemma_join_push(w, '-', l);
            if w.len() > 0 {
                lemma_slug_words_nonempty(s);
                lemma_join_nonempty(w);
            }
        }
    }
}

/// Slugify a heading: lowercase, spaces/punctuation → hyphens, collapse runs.
pub fn slugify(text: &str) -> (r: String)
    ensures
        r@ == slug(text@),
        lower_closed(text@) ==> slug_shaped(r@),
{
    proof {
        if lower_closed(text@) {
            lemma_slug_shaped(text@);
        }
    }
    let cs = chars_of(text);
    let mut out = String::new();
    let mut prev_alnum = false;
    let mut i: usize = 0;
    assert(cs@.take(0) =~= Seq::<char>::empty());
    while i < cs.len()
        invariant
            i <= cs@.len(),
            cs@ == text@,
            out@ == slug(cs@.take(i as int)),
            prev_alnum == (i > 0 && alphanumeric(cs@[i - 1])),
        decreases cs@.len() - i,
    {
        let c = cs[i];
        let ghost prefix = cs@.take(i as int);
        assert(cs@.take(i + 1) =~= prefix.push(c));
        proof {
            lemma_slug_push(prefix, c);
            if i > 0 {
                assert(prefix.last() == cs@[i - 1]);
            }
        }
        if is_alphanumeric(c) {
            let l = to_lowercase(c);
            if !prev_alnum && !out.as_str().is_empty() {
                push_char(&mut out, '-');
            }
            let ls = string_from(l.as_slice());
            out.append(ls.as_str());
            prev_alnum = true;
        } else {
            prev_alnum = false;
        }
        i += 1;
    }
    assert(cs@.take(cs@.len() as int) =~= cs@);
    out
}

/// The lower-case mapping of every letter and digit of the text is made of
/// letters and digits that map to themselves (so lower-casing a slug again
/// changes nothing); among ASCII characters this always holds.
pub open spec fn lower_closed(s: Seq<char>) -> bool {
    forall|i: int, j: int|
        0 <= i < s.len() && alphanumeric(s[i]) && 0 <= j < lower(s[i]).len() ==> {
            let x = #[trigger] lower(s[i])[j];
            alphanumeric(x) && lower(x) == seq![x]
        }
}

/// What a slug looks like: letters and digits that are their own lower
/// case, and single hyphens between them, no hyphen first or last.
pub open spec fn slug_shaped(t: Seq<char>) -> bool {
    &&& forall|i: int|
        0 <= i < t.len() ==> #[trigger] t[i] == '-' || (alphanumeric(t[i]) && lower(t[i]) == seq![t[i]])
    &&& t.len() > 0 ==> t[0] != '-' && t.last() != '-'
    &&& forall|i: int, j: int| 0 <= i && j == i + 1 && j < t.len() && #[trigger] t[i] == '-' ==> #[trigger] t[j] != '-'
}

proof fn lemma_lower_ascii(c: char)
    requires
        (c as u32) < 128,
        alphanumeric(c),
    ensures
        alphanumeric(ascii_lower(c)),
        lower(ascii_lower(c)) == seq![ascii_lower(c)],
{
}

/// Every slug is made of letters and digits that are their own lower case,
/// and single hyphens between them, when the heading's lower-case mappings
/// are closed (always for ASCII text).
pub proof fn lemma_slug_shaped(s: Seq<char>)
    requires
        lower_closed(s),
    ensures
        slug_shaped(slug(s)),
    decreases s.len(),
{
    if s.len() > 0 {
        let p = s.drop_last();
        let c = s.last();
        assert(p.push(c) =~= s);
        assert forall|i: int, j: int|
            0 <= i < p.len() && alphanumeric(p[i]) && 0 <= j < lower(p[i]).len() implies {
            let x = #[trigger] lower(p[i])[j];
            alphanumeric(x) && lower(x) == seq![x]
        } by {
            assert(p[i] == s[i]);
        }
        lemma_slug_shaped(p);
        lemma_slug_push(p, c);
        if alphanumeric(c) {
            let r = slug(s);
            let q = slug(p);
            let l = lower(c);
            assert(c == s[s.len() - 1]);
            assert forall|j: int| 0 <= j < l.len() implies #[trigger] l[j] != '-' && alphanumeric(l[j]) && lower(l[j])
                == seq![l[j]] by {
                if (c as u32) < 128 {
                    lemma_lower_ascii(c);
                } else {
                    assert(lower(s[s.len() - 1])[j] == l[j]);
                }
            }
            assert(l.len() >= 1);
            assert forall|i: int| 0 <= i < r.len() implies #[trigger] r[i] == '-' || (alphanumeric(r[i]) && lower(r[i])
                == seq![r[i]]) by {
                if i < q.len() {
                    assert(r[i] == q[i]);
                } else if r.len() == q.len() + l.len() {
                    assert(r[i] == l[i - q.len()]);
                } else if i > q.len() {
                    assert(r[i] == l[i - q.len() - 1]);
                }
            }
            assert forall|i: int, j: int| 0 <= i && j == i + 1 && j < r.len() && #[trigger] r[i] == '-' implies #[trigger] r[j]
                != '-' by {
                if j < q.len() {
                    assert(r[i] == q[i] && r[j] == q[j]);
                } else if r.len() == q.len() + l.len() {
                    if i < q.len() {
                        assert(r[i] == q[i]);
                    } else {
                        assert(r[i] == l[i - q.len()]);
                    }
                } else if j == q.len() {
                    assert(r[i] == q[i]);
                } else if i == q.len() {
                    assert(r[j] == l[0]);
                } else {
                    assert(r[i] == l[i - q.len() - 1]);
                }
            }
            if q.len() > 0 {
                assert(r[0] == q[0]);
            } else {
                assert(r[0] == l[0]);
            }
            assert(r.last() == l.last());
        }
    }
}

proof fn lemma_slug_prefix(t: Seq<char>, i: int)
    requires
        slug_shaped(t),
        0 <= i <= t.len(),
    ensures
        slug(t.take(i)) == (if i > 0 && t[i - 1] == '-' {
            t.take(i - 1)
        } else {
            t.take(i)
        }),
    decreases i,
{
    if i == 0 {
        assert(t.take(0) =~= Seq::<char>::empty());
    } else {
        lemma_slug_prefix(t, i - 1);
        let p = t.take(i - 1);
        let c = t[i - 1];
        assert(p.push(c) =~= t.take(i));
        lemma_slug_push(p, c);
        if c == '-' {
            assert(!alphanumeric(c));
            assert(i - 1 > 0) by {
                if i - 1 == 0 {
                    assert(t[0] == '-');
                }
            }
            assert(t[i - 2] != '-');
        } else {
            assert(alphanumeric(c) && lower(c) == seq![c]);
            if i >= 2 {
                assert(p.last() == t[i - 2]);
                if t[i - 2] == '-' {
                    assert(!alphanumeric(t[i - 2]));
                    assert(i - 2 > 0) by {
                        if i - 2 == 0 {
                            assert(t[0] == '-');
                        }
                    }
                    assert(t.take(i - 2).push('-') + seq![c] =~= t.take(i));
                } else {
                    assert(alphanumeric(t[i - 2]));
                    assert(p + seq![c] =~= t.take(i));
                }
            } else {
                assert(seq![c] =~= t.take(i));
            }
        }
    }
}

/// A slug is its own slug.
pub proof fn lemma_slug_fixpoint(t: Seq<char>)
    requires
        slug_shaped(t),
    ensures
        slug(t) == t,
{
    lemma_slug_prefix(t, t.len() as int);
    assert(t.take(t.len() as int) =~= t);
}

/// Slugifying is idempotent: the slug of a slug is the slug itself, when
/// the heading's lower-case mappings are closed (always for ASCII text).
pub proof fn lemma_slug_idempotent(s: Seq<char>)
    requires
        lower_closed(s),
    ensures
        slug(slug(s)) == slug(s),
{
    lemma_slug_shaped(s);
    lemma_slug_fixpoint(slug(s));
}

// ---- parser events ---------------------------------------------------------------

/// A Markdown parser event, as far as this module tells events apart.
#[derive(Debug)]
pub enum MdEvent {
    /// Start of a heading, with its level (1 to 6).
    HeadingStart(u8),
    /// End of a heading, with its level.
    HeadingEnd(u8),
    /// Start of a fenced code block, with its info string.
    FencedStart(String),
    /// End of a code block.
    CodeEnd,
    /// A text node.
    Text(String),
    /// Start of an image.
    ImageStart,
    /// Any other event.
    Other,
}

/// Value of a parser event, with texts as character sequences.
pub enum MdEventV {
    HeadingStart(u8),
    HeadingEnd(u8),
    FencedStart(Seq<char>),
    CodeEnd,
    Text(Seq<char>),
    ImageStart,
    Other,
}

impl View for MdEvent {
    type V = MdEventV;

    open spec fn view(&self) -> MdEventV {
        match self {
            MdEvent::HeadingStart(l) => MdEventV::HeadingStart(*l),
            MdEvent::HeadingEnd(l) => MdEventV::HeadingEnd(*l),
            MdEvent::FencedStart(l) => MdEventV::FencedStart(l@),
            MdEvent::CodeEnd => MdEventV::CodeEnd,
            MdEvent::Text(t) => MdEventV::Text(t@),
            MdEvent::ImageStart => MdEventV::ImageStart,
            MdEvent::Other => MdEventV::Other,
        }
    }
}

pub open spec fn events_view(evs: Seq<MdEvent>) -> Seq<MdEventV> {
    evs.map_values(|e: MdEvent| e@)
}

/// The events pulldown-cmark yields for `md` with the option bits `options`.
pub uninterp spec fn cmark_events(md: Seq<char>, options: u32) -> Seq<MdEventV>;

/// Trusted: runs pulldown-cmark's `Parser::new_ext` on `md` with the given
/// option bits and converts each event, one for one, telling apart heading
/// starts and ends (with their level), fenced code block starts (with their
/// info string), code block ends, text nodes and image starts; every other
/// event becomes `Other`. The events depend on `md` and the options alone.
#[verifier::external_body]
fn parse_events(md: &str, options: u32) -> (evs: Vec<MdEvent>)
    ensures
        events_view(evs@) == cmark_events(md@, options),
{
    Parser::new_ext(md, Options::from_bits_truncate(options)).map(|e| match e {
        Event::Start(Tag::Heading { level, .. }) => MdEvent::HeadingStart(level as u8),
        Event::End(TagEnd::Heading(level)) => MdEvent::HeadingEnd(level as u8),
        Event::Start(Tag::CodeBlock(CodeBlockKind::Fenced(lang))) => MdEvent::FencedStart(lang.to_string()),
        Event::End(TagEnd::CodeBlock) => MdEvent::CodeEnd,
        Event::Text(t) => MdEvent::Text(t.to_string()),
        Event::Start(Tag::Image { .. }) => MdEvent::ImageStart,
        _ => MdEvent::Other,
    }).collect()
}

// ---- table of contents --------------------------------------------------------------

/// A single TOC entry extracted from a ## heading.
pub struct TocEntry {
    pub text: String,
    pub slug: String,
}

/// State of the table-of-contents scan: inside a Fink code block, inside a
/// `##` heading, the heading text so far, the entries so far (text and slug).
pub struct TocScan {
    pub in_fink: bool,
    pub in_h2: bool,
    pub text: Seq<char>,
    pub entries: Seq<(Seq<char>, Seq<char>)>,
}

/// One event of the table-of-contents scan. Text inside a Fink code block
/// is code, not heading text, as in rendering.
pub open spec fn toc_step(st: TocScan, ev: MdEventV) -> TocScan {
    match ev {
        MdEventV::FencedStart(lang) if lang == "fink"@ => TocScan { in_fink: true, ..st },
        MdEventV::Text(t) if st.in_fink => st,
        MdEventV::CodeEnd if st.in_fink => TocScan { in_fink: false, ..st },
        MdEventV::HeadingStart(l) if l == 2 => TocScan { in_h2: true, text: seq![], ..st },
        MdEventV::Text(t) if st.in_h2 => TocScan { text: st.text + t, ..st },
        MdEventV::HeadingEnd(l) if l == 2 && st.in_h2 => {
            let text = trim(st.text);
            TocScan { in_h2: false, entries: st.entries.push((text, slug(text))), ..st }
        },
        _ => st,
    }
}

/// The table-of-contents scan over a sequence of events.
pub open spec fn toc_scan(evs: Seq<MdEventV>) -> TocScan
    decreases evs.len(),
{
    if evs.len() == 0 {
        TocScan { in_fink: false, in_h2: false, text: seq![], entries: seq![] }
    } else {
        toc_step(toc_scan(evs.drop_last()), evs.last())
    }
}

/// The entries of the table of contents of a sequence of events.
pub open spec fn toc_entries(evs: Seq<MdEventV>) -> Seq<(Seq<char>, Seq<char>)> {
    toc_scan(evs).entries
}

/// Table-of-contents entries collected from parser events: the trimmed text
/// of each `##` heading and its slug.
pub fn toc_from_events(evs: &Vec<MdEvent>) -> (toc: Vec<TocEntry>)
    ensures
        toc@.len() == toc_entries(events_view(evs@)).len(),
        forall|i: int|
            0 <= i < toc@.len() ==> (#[trigger] toc@[i]).text@ == toc_entries(events_view(evs@))[i].0
                && toc@[i].slug@ == toc_entries(events_view(evs@))[i].1,
{
    let ghost ev = events_view(evs@);
    let mut entries: Vec<TocEntry> = Vec::new();
    let mut in_fink = false;
    let mut in_h2 = false;
    let mut text_buf = String::new();
    let mut i: usize = 0;
    assert(ev.take(0) =~= Seq::<MdEventV>::empty());
    while i < evs.len()
        invariant
            i <= evs@.len(),
            ev == events_view(evs@),
            ({
                let st = toc_scan(ev.take(i as int));
                &&& in_fink == st.in_fink
                &&& in_h2 == st.in_h2
                &&& text_buf@ == st.text
                &&& entries@.len() == st.entries.len()
                &&& forall|k: int|
                    0 <= k < entries@.len() ==> (#[trigger] entries@[k]).text@ == st.entries[k].0
                        && entries@[k].slug@ == st.entries[k].1
            }),
        decreases evs@.len() - i,
    {
        assert(ev.take(i + 1).drop_last() =~= ev.take(i as int));
        assert(ev.take(i + 1).last() == evs@[i as int]@);
        match &evs[i] {
            MdEvent::FencedStart(lang) => {
                if str_eq(lang.as_str(), "fink") {
                    in_fink = true;
                }
            },
            MdEvent::CodeEnd => {
                in_fink = false;
            },
            MdEvent::HeadingStart(l) => {
                if *l == 2 {
                    in_h2 = true;
                    text_buf = String::new();
                }
            },
            MdEvent::Text(t) => {
                if !in_fink && in_h2 {
                    text_buf.append(t.as_str());
                }
            },
            MdEvent::HeadingEnd(l) => {
                if *l == 2 && in_h2 {
                    in_h2 = false;
                    let cs = chars_of(text_buf.as_str());
                    let (a, b) = trim_bounds(cs.as_slice(), 0, cs.len());
                    assert(cs@.subrange(0, cs@.len() as int) =~= cs@);
                    let text = string_of_range(cs.as_slice(), a, b);
                    let slug = slugify(text.as_str());
                    entries.push(TocEntry { text, slug });
                }
            },
            _ => {},
        }
        i += 1;
    }
    assert(ev.take(evs@.len() as int) =~= ev);
    entries
}

/// Extract TOC entries from ## headings in the markdown source. The source
/// is parsed with the options of rendering, so that the entries' slugs are
/// the ids the headings are rendered with (`lemma_toc_links_headings`).
pub fn extract_toc(md: &str) -> (toc: Vec<TocEntry>)
    ensures
        toc@.len() == toc_entries(cmark_events(md@, RENDER_OPTIONS)).len(),
        forall|i: int|
            0 <= i < toc@.len() ==> (#[trigger] toc@[i]).text@ == toc_entries(cmark_events(md@, RENDER_OPTIONS))[i].0
                && toc@[i].slug@ == toc_entries(cmark_events(md@, RENDER_OPTIONS))[i].1,
{
    let evs = parse_events(md, RENDER_OPTIONS);
    toc_from_events(&evs)
}

// ---- rendering -----------------------------------------------------------------

/// Parser options of rendering: tables, footnotes, strikethrough and
/// heading attributes.
pub const RENDER_OPTIONS: u32 = 78;

/// An item of the rendered event stream: a parser event passed through by
/// its index, or raw HTML.
#[derive(Debug, PartialEq, Eq)]
pub enum Piece {
    Event(usize),
    Html(String),
}

/// Value of a rendered item.
pub enum PieceV {
    Event(usize),
    Html(Seq<char>),
}

impl View for Piece {
    type V = PieceV;

    open spec fn view(&self) -> PieceV {
        match self {
            Piece::Event(i) => PieceV::Event(*i),
            Piece::Html(h) => PieceV::Html(h@),
        }
    }
}

pub open spec fn pieces_view(ps: Seq<Piece>) -> Seq<PieceV> {
    ps.map_values(|p: Piece| p@)
}

/// Every passed-through event index is an index of `evs`.
pub open spec fn pieces_in_range(ps: Seq<PieceV>, n: int) -> bool {
    forall|i: int| 0 <= i < ps.len() ==> (#[trigger] ps[i] matches PieceV::Event(k) ==> k < n)
}

/// Texts concatenated in order.
pub open spec fn concat_all(segs: Seq<Seq<char>>) -> Seq<char>
    decreases segs.len(),
{
    if segs.len() == 0 {
        seq![]
    } else {
        concat_all(segs.drop_last()) + segs.last()
    }
}

/// `segs` holds one text per item of `plan`, the text of a raw HTML item
/// being that HTML itself, and `html` is their concatenation.
pub open spec fn html_parts(html: Seq<char>, plan: Seq<PieceV>, segs: Seq<Seq<char>>) -> bool {
    &&& segs.len() == plan.len()
    &&& html == concat_all(segs)
    &&& forall|i: int| 0 <= i < plan.len() ==> (#[trigger] plan[i] matches PieceV::Html(h) ==> segs[i] == h)
}

/// `html` is the concatenation of one text per item of `plan`, the text of
/// a raw HTML item being that HTML itself.
pub open spec fn emitted(html: Seq<char>, plan: Seq<PieceV>) -> bool {
    exists|segs: Seq<Seq<char>>| #[trigger] html_parts(html, plan, segs)
}

/// No item of the plan passes an image start through.
pub open spec fn no_image_items(plan: Seq<PieceV>, evs: Seq<MdEventV>) -> bool {
    forall|i: int| 0 <= i < plan.len() ==> (#[trigger] plan[i] matches PieceV::Event(k) ==> !(evs[k as int] is ImageStart))
}

/// The HTML that pulldown-cmark writes for the rendered item stream `plan`
/// over the events of `md` parsed with `options`.
pub uninterp spec fn cmark_html(md: Seq<char>, options: u32, plan: Seq<PieceV>) -> Seq<char>;

/// Trusted: parses `md` again with pulldown-cmark (same option bits, hence
/// the same events as `parse_events`), replaces each item of `plan` by the
/// event it names or by an HTML event holding its text, and writes the
/// stream with pulldown-cmark's `html::push_html`. The result depends on
/// `md`, the options and the plan alone. `push_html` writes each event in
/// turn, an HTML event unchanged; only an image start reads on (its
/// alt text, where HTML events are dropped), so without image starts the
/// HTML is one text per item, the HTML items' own texts among them.
#[verifier::external_body]
fn write_html(md: &str, options: u32, plan: &Vec<Piece>) -> (html: String)
    requires
        pieces_in_range(pieces_view(plan@), cmark_events(md@, options).len() as int),
    ensures
        html@ == cmark_html(md@, options, pieces_view(plan@)),
        no_image_items(pieces_view(plan@), cmark_events(md@, options)) ==> emitted(html@, pieces_view(plan@)),
{
    let events: Vec<Event> = Parser::new_ext(md, Options::from_bits_truncate(options)).collect();
    let stream = plan.iter().map(|p| match p {
        Piece::Event(k) => events[*k].clone(),
        Piece::Html(h) => Event::Html(h.clone().into()),
    });
    let mut html = String::new();
    pulldown_cmark::html::push_html(&mut html, stream);
    html
}

/// Opening of the wrapper of a Fink code block, up to the playground hash.
pub const BLOCK_OPEN: &'static str = "<div class=\"code-block-wrap\"><a class=\"playground-link\" href=\"/playground/#";

/// Between the playground hash and the highlighted code.
pub const BLOCK_MIDDLE: &'static str = "\" title=\"Open in playground\" aria-label=\"Open in playground\"><svg xmlns=\"http://www.w3.org/2000/svg\" viewBox=\"0 0 135 135\"><g transform=\"translate(0,3)\"><path fill=\"currentColor\" d=\"M 7.6,102.4 C 34.3,81.4 46.3,56 57.8,36.3 70.8,14.2 90.6,8.3 111.9,25.6 103.8,25.3 98.5,37.4 84.1,53.9 69.7,70.5 44.6,92.5 7.6,102.4Z\"/><path fill=\"currentColor\" d=\"M 97.9,42.1 C 105.6,70.6 101.8,110.8 5.7,115.6 64.5,89.8 93.6,50 97.9,42.1Z\"/><path fill=\"#faa343\" d=\"m 102.5,50.9 c -4.6,-22.7 10.2,-26.9 26.5,-21.5 -8.2,2.8 -20.2,8 -26.5,21.5z\"/></g></svg></a><pre class=\"code-block\"><code class=\"language-fink\">";

/// Closing of the wrapper of a Fink code block.
pub const BLOCK_CLOSE: &'static str = "</code></pre></div>\n";

/// The text without trailing newlines.
pub open spec fn trim_newlines(s: Seq<char>) -> Seq<char>
    decreases s.len(),
{
    if s.len() > 0 && s.last() == '\n' {
        trim_newlines(s.drop_last())
    } else {
        s
    }
}

/// Playground hash of Fink source.
pub open spec fn fink_hash(src: Seq<char>) -> Seq<char> {
    base62_text(deflate_raw(encode_utf8(src)))
}

/// HTML of a Fink code block: a playground link and the highlighted code.
pub open spec fn block_html(hash: Seq<char>, code: Seq<char>) -> Seq<char> {
    BLOCK_OPEN@ + hash + BLOCK_MIDDLE@ + code + BLOCK_CLOSE@
}

/// Opening tag of a `##` heading with the id `slug`.
pub open spec fn h2_open(slug: Seq<char>) -> Seq<char> {
    "<h2 id=\""@ + slug + "\">"@
}

/// State of rendering: the items so far; inside a Fink block and its text
/// so far; inside a `##` heading, its items and its text so far; the
/// sources of the Fink blocks so far; the texts of the headings so far,
/// whose slugs are their ids, and the positions of their opening tags in
/// the items.
pub struct RenderScan {
    pub out: Seq<PieceV>,
    pub in_fink: bool,
    pub fink_buf: Seq<char>,
    pub in_h2: bool,
    pub h2_buf: Seq<PieceV>,
    pub h2_text: Seq<char>,
    pub sources: Seq<Seq<char>>,
    pub headings: Seq<Seq<char>>,
    pub heading_at: Seq<int>,
}

/// Event `i` of rendering, with `hl[k]` the highlighted HTML of Fink block `k`.
pub open spec fn render_step(st: RenderScan, ev: MdEventV, i: int, hl: Seq<Seq<char>>) -> RenderScan {
    match ev {
        MdEventV::FencedStart(lang) if lang == "fink"@ => RenderScan { in_fink: true, fink_buf: seq![], ..st },
        MdEventV::Text(t) if st.in_fink => RenderScan { fink_buf: st.fink_buf + t, ..st },
        MdEventV::CodeEnd if st.in_fink => {
            let src = trim_newlines(st.fink_buf);
            RenderScan {
                in_fink: false,
                out: st.out.push(PieceV::Html(block_html(fink_hash(src), hl[st.sources.len() as int]))),
                sources: st.sources.push(src),
                ..st
            }
        },
        MdEventV::HeadingStart(l) if l == 2 => RenderScan { in_h2: true, h2_buf: seq![], h2_text: seq![], ..st },
        MdEventV::Text(t) if st.in_h2 => RenderScan {
            h2_text: st.h2_text + t,
            h2_buf: st.h2_buf.push(PieceV::Event(i as usize)),
            ..st
        },
        MdEventV::HeadingEnd(l) if l == 2 && st.in_h2 => RenderScan {
            in_h2: false,
            h2_buf: seq![],
            out: st.out.push(PieceV::Html(h2_open(slug(st.h2_text)))) + st.h2_buf + seq![
                PieceV::Html("</h2>\n"@),
            ],
            headings: st.headings.push(st.h2_text),
            heading_at: st.heading_at.push(st.out.len() as int),
            ..st
        },
        _ => if st.in_h2 {
            RenderScan { h2_buf: st.h2_buf.push(PieceV::Event(i as usize)), ..st }
        } else {
            RenderScan { out: st.out.push(PieceV::Event(i as usize)), ..st }
        },
    }
}

pub open spec fn render_init() -> RenderScan {
    RenderScan {
        out: seq![],
        in_fink: false,
        fink_buf: seq![],
        in_h2: false,
        h2_buf: seq![],
        h2_text: seq![],
        sources: seq![],
        headings: seq![],
        heading_at: seq![],
    }
}

/// Rendering over a sequence of events.
pub open spec fn render_scan(evs: Seq<MdEventV>, hl: Seq<Seq<char>>) -> RenderScan
    decreases evs.len(),
{
    if evs.len() == 0 {
        render_init()
    } else {
        render_step(render_scan(evs.drop_last(), hl), evs.last(), evs.len() - 1, hl)
    }
}

/// Sources of the Fink blocks of a sequence of events, trailing newlines removed.
pub open spec fn fink_sources(evs: Seq<MdEventV>) -> Seq<Seq<char>> {
    render_scan(evs, seq![]).sources
}

/// What rendering keeps besides its output does not depend on the highlighted code.
pub proof fn lemma_render_scan_sources(evs: Seq<MdEventV>, hl1: Seq<Seq<char>>, hl2: Seq<Seq<char>>)
    ensures
        ({
            let a = render_scan(evs, hl1);
            let b = render_scan(evs, hl2);
            &&& a.in_fink == b.in_fink
            &&& a.fink_buf == b.fink_buf
            &&& a.in_h2 == b.in_h2
            &&& a.h2_buf == b.h2_buf
            &&& a.h2_text == b.h2_text
            &&& a.sources == b.sources
        }),
    decreases evs.len(),
{
    if evs.len() > 0 {
        lemma_render_scan_sources(evs.drop_last(), hl1, hl2);
    }
}

/// The rendered items `out` hold the Fink blocks `srcs` in order: block `k`
/// is the raw HTML item at position `at[k]`, holding the playground link of
/// its source and the highlighted code `hl[k]`.
pub open spec fn blocks_at(out: Seq<PieceV>, srcs: Seq<Seq<char>>, hl: Seq<Seq<char>>, at: Seq<int>) -> bool {
    &&& at.len() == srcs.len()
    &&& forall|k: int|
        0 <= k < at.len() ==> 0 <= #[trigger] at[k] < out.len() && out[at[k]] == PieceV::Html(
            block_html(fink_hash(srcs[k]), hl[k]),
        )
    &&& forall|j: int, k: int| 0 <= j < k < at.len() ==> #[trigger] at[j] < #[trigger] at[k]
}

proof fn lemma_block_positions(ev: Seq<MdEventV>, hl: Seq<Seq<char>>) -> (at: Seq<int>)
    ensures
        blocks_at(render_scan(ev, hl).out, render_scan(ev, hl).sources, hl, at),
    decreases ev.len(),
{
    if ev.len() == 0 {
        seq![]
    } else {
        let at0 = lemma_block_positions(ev.drop_last(), hl);
        let st = render_scan(ev.drop_last(), hl);
        let st2 = render_scan(ev, hl);
        let e = ev.last();
        assert(st2 == render_step(st, e, ev.len() - 1, hl));
        assert(st2.out.len() >= st.out.len());
        assert forall|i: int| 0 <= i < st.out.len() implies #[trigger] st2.out[i] == st.out[i] by {
        }
        if e is CodeEnd && st.in_fink {
            let at = at0.push(st.out.len() as int);
            let src = trim_newlines(st.fink_buf);
            assert(st2.sources == st.sources.push(src));
            assert(st2.out == st.out.push(PieceV::Html(block_html(fink_hash(src), hl[st.sources.len() as int]))));
            assert forall|k: int| 0 <= k < at.len() implies 0 <= #[trigger] at[k] < st2.out.len() && st2.out[at[k]]
                == PieceV::Html(block_html(fink_hash(st2.sources[k]), hl[k])) by {
                if k < at0.len() {
                    assert(at[k] == at0[k]);
                    assert(st2.sources[k] == st.sources[k]);
                }
            }
            assert forall|j: int, k: int| 0 <= j < k < at.len() implies #[trigger] at[j] < #[trigger] at[k] by {
                if k < at0.len() {
                    assert(at[j] == at0[j] && at[k] == at0[k]);
                } else {
                    assert(at[j] == at0[j]);
                }
            }
            at
        } else {
            assert(st2.sources == st.sources);
            assert forall|k: int| 0 <= k < at0.len() implies 0 <= #[trigger] at0[k] < st2.out.len() && st2.out[at0[k]]
                == PieceV::Html(block_html(fink_hash(st2.sources[k]), hl[k])) by {
                assert(st2.out[at0[k]] == st.out[at0[k]]);
            }
            at0
        }
    }
}

/// Every Fink code block of a page is rendered with its own highlighted
/// code: over any parser events, the rendered items hold, in order, one raw
/// HTML item per Fink block `k` of the events (`fink_sources(ev)[k]`, its
/// source with trailing newlines removed), made of the playground link of
/// that source and `hl[k]`.
pub proof fn lemma_blocks_rendered_in_order(ev: Seq<MdEventV>, hl: Seq<Seq<char>>)
    ensures
        exists|at: Seq<int>| #[trigger] blocks_at(render_scan(ev, hl).out, fink_sources(ev), hl, at),
{
    let at = lemma_block_positions(ev, hl);
    lemma_render_scan_sources(ev, hl, seq![]);
    assert(blocks_at(render_scan(ev, hl).out, fink_sources(ev), hl, at));
}

proof fn lemma_render_scan_in_range(evs: Seq<MdEventV>, hl: Seq<Seq<char>>)
    ensures
        pieces_in_range(render_scan(evs, hl).out, evs.len() as int),
        pieces_in_range(render_scan(evs, hl).h2_buf, evs.len() as int),
    decreases evs.len(),
{
    if evs.len() > 0 {
        lemma_render_scan_in_range(evs.drop_last(), hl);
        let st = render_scan(evs.drop_last(), hl);
        let n = evs.len() as int;
        let st2 = render_scan(evs, hl);
        assert forall|i: int| 0 <= i < st2.out.len() implies (#[trigger] st2.out[i] matches PieceV::Event(k)
            ==> k < n) by {
            if i < st.out.len() {
                assert(st2.out[i] == st.out[i]);
            } else if i < st.out.len() + 1 + st.h2_buf.len() && i > st.out.len() && st.in_h2 {
            }
        }
    }
}

/// Characters of `s` without trailing newlines.
fn strip_trailing_newlines(s: &String) -> (r: String)
    ensures
        r@ == trim_newlines(s@),
{
    let cs = chars_of(s.as_str());
    let mut end = cs.len();
    assert(cs@.subrange(0, end as int) =~= cs@);
    while end > 0 && cs[end - 1] == '\n'
        invariant
            end <= cs@.len(),
            trim_newlines(cs@) == trim_newlines(cs@.subrange(0, end as int)),
        decreases end,
    {
        assert(cs@.subrange(0, end as int).drop_last() =~= cs@.subrange(0, end - 1));
        end -= 1;
    }
    string_of_range(cs.as_slice(), 0, end)
}

/// Sources of the Fink code blocks among parser events, trailing newlines removed.
pub fn fink_blocks_of(evs: &Vec<MdEvent>) -> (srcs: Vec<String>)
    ensures
        srcs@.map_values(|s: String| s@) == fink_sources(events_view(evs@)),
{
    let ghost ev = events_view(evs@);
    let mut srcs: Vec<String> = Vec::new();
    let mut in_fink = false;
    let mut buf = String::new();
    let mut i: usize = 0;
    assert(ev.take(0) =~= Seq::<MdEventV>::empty());
    while i < evs.len()
        invariant
            i <= evs@.len(),
            ev == events_view(evs@),
            ({
                let st = render_scan(ev.take(i as int), seq![]);
                &&& in_fink == st.in_fink
                &&& buf@ == st.fink_buf
                &&& srcs@.map_values(|s: String| s@) == st.sources
            }),
        decreases evs@.len() - i,
    {
        assert(ev.take(i + 1).drop_last() =~= ev.take(i as int));
        assert(ev.take(i + 1).last() == evs@[i as int]@);
        match &evs[i] {
            MdEvent::FencedStart(lang) => {
                if str_eq(lang.as_str(), "fink") {
                    in_fink = true;
                    buf = String::new();
                }
            },
            MdEvent::Text(t) => {
                if in_fink {
                    buf.append(t.as_str());
                }
            },
            MdEvent::CodeEnd => {
                if in_fink {
                    in_fink = false;
                    let src = strip_trailing_newlines(&buf);
                    let ghost before = srcs@;
                    srcs.push(src);
                    assert(srcs@.map_values(|s: String| s@) =~= before.map_values(|s: String| s@).push(
                        trim_newlines(buf@),
                    ));
                }
            },
            _ => {},
        }
        i += 1;
    }
    assert(ev.take(evs@.len() as int) =~= ev);
    srcs
}

/// Highlighted HTML texts as character sequences.
pub open spec fn texts_view(hl: Seq<String>) -> Seq<Seq<char>> {
    hl.map_values(|s: String| s@)
}

/// The rendered item stream of parser events, with `highlighted[k]` the
/// highlighted HTML of Fink block `k`.
pub fn render_events(evs: &Vec<MdEvent>, highlighted: &Vec<String>) -> (plan: Vec<Piece>)
    requires
        highlighted@.len() == fink_sources(events_view(evs@)).len(),
    ensures
        pieces_view(plan@) == render_scan(events_view(evs@), texts_view(highlighted@)).out,
{
    let ghost ev = events_view(evs@);
    let ghost hl = texts_view(highlighted@);
    let mut out: Vec<Piece> = Vec::new();
    let mut in_fink = false;
    let mut fink_buf = String::new();
    let mut in_h2 = false;
    let mut h2_buf: Vec<Piece> = Vec::new();
    let mut h2_text = String::new();
    let mut blocks: usize = 0;
    let n_hl = highlighted.len();
    let mut i: usize = 0;
    assert(ev.take(0) =~= Seq::<MdEventV>::empty());
    proof {
        lemma_render_scan_sources(ev, hl, seq![]);
        lemma_sources_grow(ev, hl, evs@.len() as int);
        assert(ev.take(evs@.len() as int) =~= ev);
    }
    while i < evs.len()
        invariant
            i <= evs@.len(),
            ev == events_view(evs@),
            hl == texts_view(highlighted@),
            n_hl == highlighted@.len(),
            highlighted@.len() == render_scan(ev, hl).sources.len(),
            forall|j: int| 0 <= j <= evs@.len() ==> #[trigger] render_scan(ev.take(j), hl).sources.len()
                <= render_scan(ev, hl).sources.len(),
            ({
                let st = render_scan(ev.take(i as int), hl);
                &&& pieces_view(out@) == st.out
                &&& in_fink == st.in_fink
                &&& fink_buf@ == st.fink_buf
                &&& in_h2 == st.in_h2
                &&& pieces_view(h2_buf@) == st.h2_buf
                &&& h2_text@ == st.h2_text
                &&& blocks == st.sources.len()
            }),
        decreases evs@.len() - i,
    {
        assert(ev.take(i + 1).drop_last() =~= ev.take(i as int));
        assert(ev.take(i + 1).last() == evs@[i as int]@);
        let ghost st = render_scan(ev.take(i as int), hl);
        let ghost old_out = out@;
        let ghost old_h2 = h2_buf@;
        let mut handled = false;
        match &evs[i] {
            MdEvent::FencedStart(lang) => {
                if str_eq(lang.as_str(), "fink") {
                    in_fink = true;
                    fink_buf = String::new();
                    handled = true;
                }
            },
            MdEvent::Text(t) => {
                if in_fink {
                    fink_buf.append(t.as_str());
                    handled = true;
                } else if in_h2 {
                    h2_text.append(t.as_str());
                    h2_buf.push(Piece::Event(i));
                    assert(pieces_view(h2_buf@) =~= pieces_view(old_h2).push(PieceV::Event(i)));
                    handled = true;
                }
            },
            MdEvent::CodeEnd => {
                if in_fink {
                    in_fink = false;
                    let src = strip_trailing_newlines(&fink_buf);
                    let hash = encode_source(src.as_str());
                    assert(render_scan(ev.take(i + 1), hl).sources.len() == blocks + 1);
                    assert(render_scan(ev.take(i + 1), hl).sources.len() <= render_scan(ev, hl).sources.len());
                    assert(blocks + 1 <= highlighted@.len());
                    let mut html = String::new();
                    html.append(BLOCK_OPEN);
                    html.append(hash.as_str());
                    html.append(BLOCK_MIDDLE);
                    html.append(highlighted[blocks].as_str());
                    html.append(BLOCK_CLOSE);
                    assert(html@ =~= block_html(fink_hash(trim_newlines(st.fink_buf)), hl[blocks as int]));
                    out.push(Piece::Html(html));
                    assert(pieces_view(out@) =~= pieces_view(old_out).push(
                        PieceV::Html(block_html(fink_hash(trim_newlines(st.fink_buf)), hl[blocks as int])),
                    ));
                    blocks += 1;
                    handled = true;
                }
            },
            MdEvent::HeadingStart(l) => {
                if *l == 2 {
                    in_h2 = true;
                    h2_buf = Vec::new();
                    h2_text = String::new();
                    assert(pieces_view(h2_buf@) =~= Seq::<PieceV>::empty());
                    handled = true;
                }
            },
            MdEvent::HeadingEnd(l) => {
                if *l == 2 && in_h2 {
                    in_h2 = false;
                    let slug = slugify(h2_text.as_str());
                    let mut open = String::new();
                    open.append("<h2 id=\"");
                    open.append(slug.as_str());
                    open.append("\">");
                    out.push(Piece::Html(open));
                    let ghost mid = out@;
                    out.append(&mut h2_buf);
                    let mut close = String::new();
                    close.append("</h2>\n");
                    out.push(Piece::Html(close));
                    assert(pieces_view(out@) =~= pieces_view(old_out).push(PieceV::Html(h2_open(slug@)))
                        + pieces_view(old_h2) + seq![PieceV::Html("</h2>\n"@)]);
                    handled = true;
                }
            },
            MdEvent::ImageStart | MdEvent::Other => {},
        }
        if !handled {
            if in_h2 {
                h2_buf.push(Piece::Event(i));
                assert(pieces_view(h2_buf@) =~= pieces_view(old_h2).push(PieceV::Event(i)));
            } else {
                out.push(Piece::Event(i));
                assert(pieces_view(out@) =~= pieces_view(old_out).push(PieceV::Event(i)));
            }
        }
        i += 1;
    }
    assert(ev.take(evs@.len() as int) =~= ev);
    out
}

proof fn lemma_toc_render(ev: Seq<MdEventV>, hl: Seq<Seq<char>>)
    ensures
        ({
            let t = toc_scan(ev);
            let r = render_scan(ev, hl);
            &&& t.in_fink == r.in_fink
            &&& t.in_h2 == r.in_h2
            &&& t.text == r.h2_text
            &&& t.entries.len() == r.headings.len()
            &&& r.heading_at.len() == r.headings.len()
            &&& forall|k: int|
                0 <= k < t.entries.len() ==> #[trigger] t.entries[k] == (trim(r.headings[k]), slug(
                    trim(r.headings[k]),
                ))
            &&& forall|k: int|
                0 <= k < r.heading_at.len() ==> 0 <= #[trigger] r.heading_at[k] < r.out.len() && r.out[r.heading_at[k]]
                    == PieceV::Html(h2_open(slug(r.headings[k])))
            &&& forall|j: int, k: int|
                0 <= j < k < r.heading_at.len() ==> #[trigger] r.heading_at[j] < #[trigger] r.heading_at[k]
        }),
    decreases ev.len(),
{
    if ev.len() > 0 {
        let p = ev.drop_last();
        lemma_toc_render(p, hl);
        let tp = toc_scan(p);
        let rp = render_scan(p, hl);
        let t = toc_scan(ev);
        let r = render_scan(ev, hl);
        assert(r.out.len() >= rp.out.len());
        assert forall|k: int| 0 <= k < rp.out.len() implies r.out[k] == rp.out[k] by {}
        match ev.last() {
            MdEventV::HeadingEnd(l) => {
                if l == 2 && tp.in_h2 {
                    assert forall|k: int| 0 <= k < t.entries.len() implies #[trigger] t.entries[k] == (
                    trim(r.headings[k]), slug(trim(r.headings[k]))) by {
                        if k < tp.entries.len() {
                            assert(t.entries[k] == tp.entries[k]);
                            assert(r.headings[k] == rp.headings[k]);
                        }
                    }
                    assert forall|k: int| 0 <= k < r.heading_at.len() implies 0 <= #[trigger] r.heading_at[k]
                        < r.out.len() && r.out[r.heading_at[k]] == PieceV::Html(h2_open(slug(r.headings[k]))) by {
                        if k < rp.heading_at.len() {
                            assert(r.heading_at[k] == rp.heading_at[k]);
                            assert(r.headings[k] == rp.headings[k]);
                        }
                    }
                    assert forall|j: int, k: int| 0 <= j < k < r.heading_at.len() implies #[trigger] r.heading_at[j]
                        < #[trigger] r.heading_at[k] by {
                        assert(r.heading_at[j] == rp.heading_at[j]);
                        if k < rp.heading_at.len() {
                            assert(r.heading_at[k] == rp.heading_at[k]);
                        }
                    }
                }
            },
            _ => {},
        }
    }
}

proof fn lemma_slug_prepend(c: char, s: Seq<char>)
    requires
        !alphanumeric(c),
    ensures
        slug(seq![c] + s) == slug(s),
    decreases s.len(),
{
    if s.len() == 0 {
        assert(seq![c] + s =~= Seq::<char>::empty().push(c));
        lemma_slug_push(Seq::<char>::empty(), c);
    } else {
        let q = s.drop_last();
        let d = s.last();
        lemma_slug_prepend(c, q);
        assert((seq![c] + q).push(d) =~= seq![c] + s);
        assert(q.push(d) =~= s);
        lemma_slug_push(seq![c] + q, d);
        lemma_slug_push(q, d);
        if q.len() > 0 {
            assert((seq![c] + q).last() == q.last());
        } else {
            assert((seq![c] + q).last() == c);
        }
    }
}

/// Whitespace at the ends of a heading does not change its slug.
pub proof fn lemma_slug_trim(t: Seq<char>)
    ensures
        slug(trim(t)) == slug(t),
{
    lemma_slug_trim_start(t);
    lemma_slug_trim_end(trim_start(t));
}

proof fn lemma_slug_trim_start(t: Seq<char>)
    ensures
        slug(trim_start(t)) == slug(t),
    decreases t.len(),
{
    if t.len() > 0 && whitespace(t[0]) {
        let r = t.drop_first();
        lemma_slug_trim_start(r);
        assert(seq![t[0]] + r =~= t);
        lemma_slug_prepend(t[0], r);
    }
}

proof fn lemma_slug_trim_end(t: Seq<char>)
    ensures
        slug(trim_end(t)) == slug(t),
    decreases t.len(),
{
    if t.len() > 0 && whitespace(t.last()) {
        let r = t.drop_last();
        lemma_slug_trim_end(r);
        assert(r.push(t.last()) =~= t);
        lemma_slug_push(r, t.last());
    }
}

/// The table of contents links to the rendered headings. For every
/// Markdown text, over the parser events that both read, the table of
/// contents (`extract_toc`) has exactly one entry per `##` heading that
/// rendering (`render`) opens, in order: entry `k` shows the heading's text
/// trimmed, and its slug is the id of the `k`-th heading's opening tag,
/// which sits at position `heading_at[k]` of the rendered items.
pub proof fn lemma_toc_links_headings(md: Seq<char>, hl: Seq<Seq<char>>)
    ensures
        ({
            let ev = cmark_events(md, RENDER_OPTIONS);
            let toc = toc_entries(ev);
            let r = render_scan(ev, hl);
            &&& toc.len() == r.heading_at.len()
            &&& forall|k: int| 0 <= k < toc.len() ==> (#[trigger] toc[k]).0 == trim(r.headings[k])
            &&& forall|k: int|
                0 <= k < toc.len() ==> 0 <= r.heading_at[k] < r.out.len() && r.out[r.heading_at[k]] == PieceV::Html(
                    h2_open((#[trigger] toc[k]).1),
                )
            &&& forall|j: int, k: int|
                0 <= j < k < r.heading_at.len() ==> #[trigger] r.heading_at[j] < #[trigger] r.heading_at[k]
        }),
{
    let ev = cmark_events(md, RENDER_OPTIONS);
    lemma_toc_render(ev, hl);
    let toc = toc_entries(ev);
    let r = render_scan(ev, hl);
    assert forall|k: int| 0 <= k < toc.len() implies 0 <= r.heading_at[k] < r.out.len() && r.out[r.heading_at[k]]
        == PieceV::Html(h2_open((#[trigger] toc[k]).1)) by {
        lemma_slug_trim(r.headings[k]);
        assert(0 <= r.heading_at[k] < r.out.len());
    }
}

proof fn lemma_sources_grow(ev: Seq<MdEventV>, hl: Seq<Seq<char>>, n: int)
    requires
        0 <= n <= ev.len(),
    ensures
        forall|j: int| 0 <= j <= n ==> #[trigger] render_scan(ev.take(j), hl).sources.len()
            <= render_scan(ev.take(n), hl).sources.len(),
    decreases n,
{
    if n > 0 {
        lemma_sources_grow(ev, hl, n - 1);
        assert(ev.take(n).drop_last() =~= ev.take(n - 1));
    }
    if n == ev.len() {
        assert(ev.take(n) =~= ev);
    }
}

/// Sources of the Fink code blocks of the markdown source, as `render`
/// expects their highlighted HTML.
pub fn fink_blocks(md: &str) -> (srcs: Vec<String>)
    ensures
        srcs@.map_values(|s: String| s@) == fink_sources(cmark_events(md@, RENDER_OPTIONS)),
{
    let evs = parse_events(md, RENDER_OPTIONS);
    fink_blocks_of(&evs)
}

/// Render a markdown string to an HTML string.
/// Fink code blocks are replaced by `highlighted[k]` for the `k`-th block,
/// with a playground link; h2 headings get id attributes for sidebar
/// anchor links.
pub fn render(md: &str, highlighted: &Vec<String>) -> (html: String)
    requires
        highlighted@.len() == fink_sources(cmark_events(md@, RENDER_OPTIONS)).len(),
    ensures
        html@ == cmark_html(
            md@,
            RENDER_OPTIONS,
            render_scan(cmark_events(md@, RENDER_OPTIONS), texts_view(highlighted@)).out,
        ),
        no_images(cmark_events(md@, RENDER_OPTIONS)) ==> emitted(
            html@,
            render_scan(cmark_events(md@, RENDER_OPTIONS), texts_view(highlighted@)).out,
        ),
{
    let evs = parse_events(md, RENDER_OPTIONS);
    let plan = render_events(&evs, highlighted);
    proof {
        lemma_render_scan_in_range(events_view(evs@), texts_view(highlighted@));
        let ev = events_view(evs@);
        let out = pieces_view(plan@);
        if no_images(ev) {
            assert forall|i: int| 0 <= i < out.len() implies (#[trigger] out[i] matches PieceV::Event(k) ==> !(
            ev[k as int] is ImageStart)) by {
                if out[i] is Event {
                    assert(out[i]->Event_0 < ev.len());
                }
            }
        }
    }
    write_html(md, RENDER_OPTIONS, &plan)
}

/// The parser events hold no image.
pub open spec fn no_images(evs: Seq<MdEventV>) -> bool {
    forall|k: int| 0 <= k < evs.len() ==> !(#[trigger] evs[k] is ImageStart)
}

/// In the HTML of a page, every raw HTML item of the rendering stands
/// unchanged and in order, and the `k`-th opening `##` tag is
/// `<h2 id="...">` with the slug of the `k`-th table-of-contents entry: the
/// HTML is one text per rendered item, whenever it is made that way (as
/// `render` states for pages without images).
pub proof fn lemma_toc_links_html(md: Seq<char>, hl: Seq<Seq<char>>, html: Seq<char>)
    requires
        emitted(html, render_scan(cmark_events(md, RENDER_OPTIONS), hl).out),
    ensures
        ({
            let ev = cmark_events(md, RENDER_OPTIONS);
            let toc = toc_entries(ev);
            let r = render_scan(ev, hl);
            &&& toc.len() == r.heading_at.len()
            &&& forall|j: int, k: int|
                0 <= j < k < r.heading_at.len() ==> #[trigger] r.heading_at[j] < #[trigger] r.heading_at[k]
            &&& exists|segs: Seq<Seq<char>>|
                html_parts(html, r.out, segs) && #[trigger] ids_at(segs, toc, r.heading_at)
        }),
{
    let ev = cmark_events(md, RENDER_OPTIONS);
    let toc = toc_entries(ev);
    let r = render_scan(ev, hl);
    lemma_toc_links_headings(md, hl);
    let segs = choose|segs: Seq<Seq<char>>| #[trigger] html_parts(html, r.out, segs);
    assert forall|k: int| 0 <= k < toc.len() implies 0 <= #[trigger] r.heading_at[k] < r.out.len() by {
        let entry = toc[k];
    }
    let at = r.heading_at;
    assert forall|k: int| 0 <= k < toc.len() implies 0 <= at[k] < segs.len() && segs[at[k]] == h2_open(
        (#[trigger] toc[k]).1,
    ) by {
        assert(0 <= r.heading_at[k] < r.out.len() && r.out[r.heading_at[k]] == PieceV::Html(h2_open(toc[k].1)));
    }
    assert(ids_at(segs, toc, at));
}

/// The text at position `at[k]` is the opening `##` tag with the slug of
/// table-of-contents entry `k`.
pub open spec fn ids_at(segs: Seq<Seq<char>>, toc: Seq<(Seq<char>, Seq<char>)>, at: Seq<int>) -> bool {
    forall|k: int| 0 <= k < toc.len() ==> 0 <= at[k] < segs.len() && segs[at[k]] == h2_open((#[trigger] toc[k]).1)
}

/// `render` when one highlighted text is given per Fink block; `None`
/// when their number differs from the number of blocks.
pub fn render_checked(md: &str, highlighted: &Vec<String>) -> (html: Option<String>)
    ensures
        html is Some <==> highlighted@.len() == fink_sources(cmark_events(md@, RENDER_OPTIONS)).len(),
        html matches Some(h) ==> h@ == cmark_html(
            md@,
            RENDER_OPTIONS,
            render_scan(cmark_events(md@, RENDER_OPTIONS), texts_view(highlighted@)).out,
        ),
        no_images(cmark_events(md@, RENDER_OPTIONS)) ==> (html matches Some(h) ==> emitted(
            h@,
            render_scan(cmark_events(md@, RENDER_OPTIONS), texts_view(highlighted@)).out,
        )),
{
    let srcs = fink_blocks(md);
    if srcs.len() == highlighted.len() {
        Some(render(md, highlighted))
    } else {
        None
    }
}

} // verus!
