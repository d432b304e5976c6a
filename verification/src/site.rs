//! The text formats the site builder reads: page front matter, output
//! paths, asset and git dependency declarations in `Cargo.toml`, and the
//! GitHub release data used to check dependencies.

use vstd::prelude::*;
use vstd::string::*;

use crate::text::{
    char_from, chars_of, ends_with, ends_with_exec, find_char, find_from, find_seq, lemma_char_from,
    lemma_find_from, line_bounds, lines, lines_from, pairs_view, split_once, starts_with, starts_with_exec,
    str_eq, string_from, string_of_range, strings_view, sub_chars, trim, trim_bounds, trim_char_bounds,
    trim_end_char, trim_start_char, concat,
};

verus! {

// ---- front matter ----------------------------------------------------------------

/// The key-value pairs of front-matter lines `key: value`, in order, key and
/// value trimmed; lines without `": "` are skipped.
pub open spec fn meta_pairs(ls: Seq<Seq<char>>) -> Seq<(Seq<char>, Seq<char>)>
    decreases ls.len(),
{
    if ls.len() == 0 {
        seq![]
    } else {
        (match split_once(ls[0], ": "@) {
            Some((k, v)) => seq![(trim(k), trim(v))],
            None => seq![],
        }) + meta_pairs(ls.drop_first())
    }
}

/// Front matter of a page: when the source starts with `---\n` and a later
/// line is `---`, the pairs of the lines between and the text after; else
/// no pairs and the whole source.
pub open spec fn frontmatter(source: Seq<char>) -> (Seq<(Seq<char>, Seq<char>)>, Seq<char>) {
    let open = "---\n"@;
    let close = "\n---\n"@;
    if starts_with(source, open) {
        let rest = source.skip(open.len() as int);
        match find_from(rest, close, 0) {
            Some(end) => (meta_pairs(lines(rest.take(end))), rest.skip(end + close.len())),
            None => (seq![], source),
        }
    } else {
        (seq![], source)
    }
}

/// Pairs of the lines of `fm`.
fn meta_of(fm: &Vec<char>) -> (pairs: Vec<(String, String)>)
    ensures
        pairs_view(pairs@) == meta_pairs(lines(fm@)),
{
    let sep = chars_of(": ");
    let mut pairs: Vec<(String, String)> = Vec::new();
    let mut pos: usize = 0;
    assert(pairs_view(pairs@) =~= Seq::<(Seq<char>, Seq<char>)>::empty());
    while pos < fm.len()
        invariant
            pos <= fm@.len(),
            sep@ == ": "@,
            pairs_view(pairs@) + meta_pairs(lines_from(fm@, pos as int)) == meta_pairs(lines(fm@)),
        decreases fm@.len() - pos,
    {
        let (end, next) = line_bounds(fm.as_slice(), pos);
        let line = sub_chars(fm.as_slice(), pos, end);
        let ghost ls = lines_from(fm@, pos as int);
        assert(ls[0] == line@);
        assert(ls.drop_first() =~= lines_from(fm@, next as int));
        let ghost before = pairs_view(pairs@);
        match find_seq(line.as_slice(), sep.as_slice(), 0) {
            Some(k) => {
                proof {
                    lemma_find_from(line@, sep@, 0);
                }
                let (ka, kb) = trim_bounds(line.as_slice(), 0, k);
                let (va, vb) = trim_bounds(line.as_slice(), k + sep.len(), line.len());
                assert(line@.subrange(0, k as int) =~= line@.take(k as int));
                assert(line@.subrange(k + sep@.len(), line@.len() as int) =~= line@.skip(k + sep@.len()));
                let key = string_of_range(line.as_slice(), ka, kb);
                let value = string_of_range(line.as_slice(), va, vb);
                pairs.push((key, value));
                assert(pairs_view(pairs@) =~= before + seq![(trim(line@.take(k as int)), trim(line@.skip(k + sep@.len())))]);
            },
            None => {},
        }
        pos = next;
    }
    assert(lines_from(fm@, pos as int) =~= Seq::<Seq<char>>::empty());
    assert(pairs_view(pairs@) =~= pairs_view(pairs@) + Seq::<(Seq<char>, Seq<char>)>::empty());
    pairs
}

/// Splits a page into its front-matter pairs (in order; a later key
/// overrides an earlier one) and its body.
pub fn parse_frontmatter(source: &str) -> (r: (Vec<(String, String)>, String))
    ensures
        pairs_view(r.0@) == frontmatter(source@).0,
        r.1@ == frontmatter(source@).1,
{
    let cs = chars_of(source);
    let open = chars_of("---\n");
    let close = chars_of("\n---\n");
    if starts_with_exec(cs.as_slice(), open.as_slice()) {
        let rest = sub_chars(cs.as_slice(), open.len(), cs.len());
        assert(rest@ =~= cs@.skip(open@.len() as int));
        match find_seq(rest.as_slice(), close.as_slice(), 0) {
            Some(end) => {
                proof {
                    lemma_find_from(rest@, close@, 0);
                }
                let fm = sub_chars(rest.as_slice(), 0, end);
                assert(fm@ =~= rest@.take(end as int));
                let pairs = meta_of(&fm);
                let body = string_of_range(rest.as_slice(), end + close.len(), rest.len());
                assert(body@ =~= rest@.skip(end + close@.len()));
                return (pairs, body);
            },
            None => {},
        }
    }
    let pairs: Vec<(String, String)> = Vec::new();
    assert(pairs_view(pairs@) =~= Seq::<(Seq<char>, Seq<char>)>::empty());
    (pairs, string_from(cs.as_slice()))
}

/// The value of the last pair with key `key`.
pub open spec fn lookup(pairs: Seq<(Seq<char>, Seq<char>)>, key: Seq<char>) -> Option<Seq<char>>
    decreases pairs.len(),
{
    if pairs.len() == 0 {
        None
    } else if pairs.last().0 == key {
        Some(pairs.last().1)
    } else {
        lookup(pairs.drop_last(), key)
    }
}

/// The value of a front-matter key: that of its last line.
pub fn meta_get(pairs: &Vec<(String, String)>, key: &str) -> (r: Option<String>)
    ensures
        r matches Some(v) ==> lookup(pairs_view(pairs@), key@) == Some(v@),
        r is None ==> lookup(pairs_view(pairs@), key@) is None,
{
    let mut i = pairs.len();
    assert(pairs_view(pairs@).take(i as int) =~= pairs_view(pairs@));
    while i > 0
        invariant
            i <= pairs@.len(),
            lookup(pairs_view(pairs@), key@) == lookup(pairs_view(pairs@).take(i as int), key@),
        decreases i,
    {
        let ghost pv = pairs_view(pairs@);
        assert(pv.take(i as int).last() == (pairs@[i - 1].0@, pairs@[i - 1].1@));
        assert(pv.take(i as int).drop_last() =~= pv.take(i - 1));
        if str_eq(pairs[i - 1].0.as_str(), key) {
            return Some(pairs[i - 1].1.clone());
        }
        i -= 1;
    }
    None
}

/// The front-matter keys a page reads itself.
pub open spec fn is_page_key(k: Seq<char>) -> bool {
    k == "title"@ || k == "template"@ || k == "fragment"@ || k == "asset_dir"@
}

/// The pairs whose keys the page does not read itself, in order.
pub open spec fn other_pairs(pairs: Seq<(Seq<char>, Seq<char>)>) -> Seq<(Seq<char>, Seq<char>)>
    decreases pairs.len(),
{
    if pairs.len() == 0 {
        seq![]
    } else if is_page_key(pairs.last().0) {
        other_pairs(pairs.drop_last())
    } else {
        other_pairs(pairs.drop_last()).push(pairs.last())
    }
}

pub open spec fn opt_view(o: Option<String>) -> Option<Seq<char>> {
    match o {
        Some(s) => Some(s@),
        None => None,
    }
}

/// What a page takes from its front matter: title, template (`page` when
/// none is given), HTML fragment and asset directory, each the value of the
/// last line with that key, and the other pairs, passed to the template.
pub struct PageFields {
    pub title: Option<String>,
    pub template: String,
    pub fragment: Option<String>,
    pub asset_dir: Option<String>,
    pub meta: Vec<(String, String)>,
}

/// The fields of a page from its front-matter pairs.
pub fn page_fields(pairs: &Vec<(String, String)>) -> (r: PageFields)
    ensures
        opt_view(r.title) == lookup(pairs_view(pairs@), "title"@),
        r.template@ == match lookup(pairs_view(pairs@), "template"@) {
            Some(t) => t,
            None => "page"@,
        },
        opt_view(r.fragment) == lookup(pairs_view(pairs@), "fragment"@),
        opt_view(r.asset_dir) == lookup(pairs_view(pairs@), "asset_dir"@),
        pairs_view(r.meta@) == other_pairs(pairs_view(pairs@)),
{
    let ghost pv = pairs_view(pairs@);
    let title = meta_get(pairs, "title");
    let template = match meta_get(pairs, "template") {
        Some(t) => t,
        None => "page".to_owned(),
    };
    let fragment = meta_get(pairs, "fragment");
    let asset_dir = meta_get(pairs, "asset_dir");
    let mut meta: Vec<(String, String)> = Vec::new();
    let mut i: usize = 0;
    assert(pv.take(0) =~= Seq::<(Seq<char>, Seq<char>)>::empty());
    assert(pairs_view(meta@) =~= Seq::<(Seq<char>, Seq<char>)>::empty());
    while i < pairs.len()
        invariant
            i <= pairs@.len(),
            pv == pairs_view(pairs@),
            pairs_view(meta@) == other_pairs(pv.take(i as int)),
        decreases pairs@.len() - i,
    {
        let k = pairs[i].0.as_str();
        assert(pv.take(i + 1).drop_last() =~= pv.take(i as int));
        assert(pv.take(i + 1).last() == (pairs@[i as int].0@, pairs@[i as int].1@));
        proof {
            reveal_strlit("title");
            reveal_strlit("template");
            reveal_strlit("fragment");
            reveal_strlit("asset_dir");
        }
        if !(str_eq(k, "title") || str_eq(k, "template") || str_eq(k, "fragment") || str_eq(k, "asset_dir")) {
            let ghost before = meta@;
            meta.push((pairs[i].0.clone(), pairs[i].1.clone()));
            assert(pairs_view(meta@) =~= pairs_view(before).push((pairs@[i as int].0@, pairs@[i as int].1@)));
        }
        i += 1;
    }
    assert(pv.take(pairs@.len() as int) =~= pv);
    PageFields { title, template, fragment, asset_dir, meta }
}

// ---- GitHub repositories ---------------------------------------------------------

/// Prefix of GitHub URLs.
pub open spec fn github_prefix() -> Seq<char> {
    "https://github.com/"@
}

/// End of the `/`-separated part of `s` starting at `from`.
pub open spec fn part_end(s: Seq<char>, from: int) -> int {
    match char_from(s, '/', from) {
        Some(k) => k,
        None => s.len() as int,
    }
}

fn part_end_exec(s: &[char], from: usize) -> (r: usize)
    requires
        from <= s@.len(),
    ensures
        r == part_end(s@, from as int),
        from <= r <= s@.len(),
{
    proof {
        lemma_char_from(s@, '/', from as int);
    }
    match find_char(s, '/', from) {
        Some(k) => k,
        None => s.len(),
    }
}

/// `owner/repo` of a GitHub release URL `https://github.com/{owner}/{repo}/releases/...`.
pub open spec fn repo_of_release_url(url: Seq<char>) -> Option<Seq<char>> {
    if !starts_with(url, github_prefix()) {
        None
    } else {
        let rest = url.skip(github_prefix().len() as int);
        match char_from(rest, '/', 0) {
            None => None,
            Some(i1) => match char_from(rest, '/', i1 + 1) {
                None => None,
                Some(i2) => if rest.subrange(i2 + 1, part_end(rest, i2 + 1)) == "releases"@ {
                    Some(rest.take(i1) + seq!['/'] + rest.subrange(i1 + 1, i2))
                } else {
                    None
                },
            },
        }
    }
}

/// `s[a..b] + "/" + s[c..d]` as a string.
fn join_parts(s: &[char], a: usize, b: usize, c: usize, d: usize) -> (r: String)
    requires
        a <= b <= s@.len(),
        c <= d <= s@.len(),
    ensures
        r@ == s@.subrange(a as int, b as int) + seq!['/'] + s@.subrange(c as int, d as int),
{
    let mut v = sub_chars(s, a, b);
    v.push('/');
    let w = sub_chars(s, c, d);
    let mut i: usize = 0;
    let ghost start = v@;
    while i < w.len()
        invariant
            i <= w@.len(),
            v@ == start + w@.take(i as int),
        decreases w@.len() - i,
    {
        v.push(w[i]);
        assert(w@.take(i + 1) =~= w@.take(i as int).push(w@[i as int]));
        i += 1;
    }
    assert(w@.take(w@.len() as int) =~= w@);
    string_from(v.as_slice())
}

/// Extract "owner/repo" from a GitHub release URL.
pub fn github_repo_from_url(url: &str) -> (r: Option<String>)
    ensures
        r matches Some(v) ==> repo_of_release_url(url@) == Some(v@),
        r is None ==> repo_of_release_url(url@) is None,
{
    let cs = chars_of(url);
    let pre = chars_of("https://github.com/");
    if !starts_with_exec(cs.as_slice(), pre.as_slice()) {
        return None;
    }
    let rest = sub_chars(cs.as_slice(), pre.len(), cs.len());
    assert(rest@ =~= cs@.skip(pre@.len() as int));
    proof {
        lemma_char_from(rest@, '/', 0);
    }
    let i1 = match find_char(rest.as_slice(), '/', 0) {
        Some(k) => k,
        None => {
            return None;
        },
    };
    proof {
        lemma_char_from(rest@, '/', i1 + 1);
    }
    let i2 = match find_char(rest.as_slice(), '/', i1 + 1) {
        Some(k) => k,
        None => {
            return None;
        },
    };
    let e3 = part_end_exec(rest.as_slice(), i2 + 1);
    let third = sub_chars(rest.as_slice(), i2 + 1, e3);
    let releases = chars_of("releases");
    if third.len() == releases.len() && matches_all(third.as_slice(), releases.as_slice()) {
        let r = join_parts(rest.as_slice(), 0, i1, i1 + 1, i2);
        assert(rest@.subrange(0, i1 as int) =~= rest@.take(i1 as int));
        Some(r)
    } else {
        None
    }
}

/// Whether two character sequences of the same length are equal.
fn matches_all(a: &[char], b: &[char]) -> (r: bool)
    requires
        a@.len() == b@.len(),
    ensures
        r == (a@ == b@),
{
    let mut i: usize = 0;
    while i < a.len()
        invariant
            a@.len() == b@.len(),
            i <= a@.len(),
            forall|k: int| 0 <= k < i ==> a@[k] == b@[k],
        decreases a@.len() - i,
    {
        if a[i] != b[i] {
            return false;
        }
        i += 1;
    }
    assert(a@ =~= b@);
    true
}

/// `owner/repo` of a GitHub repository URL `https://github.com/owner/repo.git`.
pub open spec fn repo_of_git_url(url: Seq<char>) -> Option<Seq<char>> {
    if !starts_with(url, github_prefix()) {
        None
    } else {
        let rest0 = url.skip(github_prefix().len() as int);
        let rest = if ends_with(rest0, ".git"@) { rest0.take(rest0.len() - ".git"@.len()) } else { rest0 };
        match char_from(rest, '/', 0) {
            None => None,
            Some(i1) => Some(rest.take(i1) + seq!['/'] + rest.subrange(i1 + 1, part_end(rest, i1 + 1))),
        }
    }
}

/// Extract "owner/repo" from a GitHub .git URL.
pub fn github_repo_from_git_url(url: &str) -> (r: Option<String>)
    ensures
        r matches Some(v) ==> repo_of_git_url(url@) == Some(v@),
        r is None ==> repo_of_git_url(url@) is None,
{
    let cs = chars_of(url);
    let pre = chars_of("https://github.com/");
    if !starts_with_exec(cs.as_slice(), pre.as_slice()) {
        return None;
    }
    let rest0 = sub_chars(cs.as_slice(), pre.len(), cs.len());
    assert(rest0@ =~= cs@.skip(pre@.len() as int));
    let git = chars_of(".git");
    let rest = if ends_with_exec(rest0.as_slice(), git.as_slice()) {
        let r = sub_chars(rest0.as_slice(), 0, rest0.len() - git.len());
        assert(r@ =~= rest0@.take(rest0@.len() - git@.len()));
        r
    } else {
        rest0
    };
    proof {
        lemma_char_from(rest@, '/', 0);
    }
    match find_char(rest.as_slice(), '/', 0) {
        Some(i1) => {
            let e2 = part_end_exec(rest.as_slice(), i1 + 1);
            let r = join_parts(rest.as_slice(), 0, i1, i1 + 1, e2);
            assert(rest@.subrange(0, i1 as int) =~= rest@.take(i1 as int));
            Some(r)
        },
        None => None,
    }
}

// ---- Cargo.toml fields ------------------------------------------------------------

/// The quoted value of `field` in an inline table such as `{ git = "..." }`:
/// the text after the first `field = "` up to the next quote.
pub open spec fn field_value(s: Seq<char>, field: Seq<char>) -> Option<Seq<char>> {
    let pattern = field + " = \""@;
    match find_from(s, pattern, 0) {
        None => None,
        Some(k) => {
            let start = k + pattern.len();
            match char_from(s, '"', start) {
                None => None,
                Some(e) => Some(s.subrange(start, e)),
            }
        },
    }
}

/// Extract a quoted field value from an inline TOML table, e.g. `git` from `{ git = "..." }`.
pub fn extract_field(s: &str, field: &str) -> (r: Option<String>)
    ensures
        r matches Some(v) ==> field_value(s@, field@) == Some(v@),
        r is None ==> field_value(s@, field@) is None,
{
    let cs = chars_of(s);
    let mut pattern = chars_of(field);
    let tail = chars_of(" = \"");
    let ghost f = pattern@;
    let mut i: usize = 0;
    while i < tail.len()
        invariant
            i <= tail@.len(),
            pattern@ == f + tail@.take(i as int),
        decreases tail@.len() - i,
    {
        pattern.push(tail[i]);
        assert(tail@.take(i + 1) =~= tail@.take(i as int).push(tail@[i as int]));
        i += 1;
    }
    assert(tail@.take(tail@.len() as int) =~= tail@);
    proof {
        lemma_find_from(cs@, pattern@, 0);
    }
    match find_seq(cs.as_slice(), pattern.as_slice(), 0) {
        None => None,
        Some(k) => {
            let start = k + pattern.len();
            proof {
                lemma_char_from(cs@, '"', start as int);
            }
            match find_char(cs.as_slice(), '"', start) {
                None => None,
                Some(e) => Some(string_of_range(cs.as_slice(), start, e)),
            }
        },
    }
}

/// The latest release tag in a GitHub API answer: the quoted text after
/// the first `"tag_name"`.
pub open spec fn tag_name_of(body: Seq<char>) -> Option<Seq<char>> {
    let key = "\"tag_name\""@;
    match find_from(body, key, 0) {
        None => None,
        Some(i) => match char_from(body, '"', i + key.len()) {
            None => None,
            Some(q) => match char_from(body, '"', q + 1) {
                None => None,
                Some(e) => Some(body.subrange(q + 1, e)),
            },
        },
    }
}

/// Extract the value of `"tag_name"` from a GitHub release answer
/// (a plain text search, no JSON parsing).
pub fn extract_tag_name(body: &str) -> (r: Option<String>)
    ensures
        r matches Some(v) ==> tag_name_of(body@) == Some(v@),
        r is None ==> tag_name_of(body@) is None,
{
    let cs = chars_of(body);
    let key = chars_of("\"tag_name\"");
    proof {
        lemma_find_from(cs@, key@, 0);
    }
    let i = match find_seq(cs.as_slice(), key.as_slice(), 0) {
        Some(i) => i,
        None => {
            return None;
        },
    };
    let after = i + key.len();
    proof {
        lemma_char_from(cs@, '"', after as int);
    }
    let q = match find_char(cs.as_slice(), '"', after) {
        Some(q) => q,
        None => {
            return None;
        },
    };
    proof {
        lemma_char_from(cs@, '"', q + 1);
    }
    match find_char(cs.as_slice(), '"', q + 1) {
        Some(e) => Some(string_of_range(cs.as_slice(), q + 1, e)),
        None => None,
    }
}

/// `s` with every occurrence of `pat`, from `from` on and left to right
/// without overlap, replaced by `rep`.
pub open spec fn replace_from(s: Seq<char>, pat: Seq<char>, rep: Seq<char>, from: int) -> Seq<char>
    decreases s.len() + 1 - from,
{
    if from < 0 || from > s.len() || pat.len() == 0 {
        s.subrange(if 0 <= from <= s.len() { from } else { s.len() as int }, s.len() as int)
    } else {
        proof {
            lemma_find_from(s, pat, from);
        }
        match find_from(s, pat, from) {
            Some(k) => s.subrange(from, k) + rep + replace_from(s, pat, rep, k + pat.len()),
            None => s.subrange(from, s.len() as int),
        }
    }
}

/// Replaces every occurrence of a non-empty pattern, left to right.
pub fn replace_all(s: &str, pat: &str, rep: &str) -> (r: String)
    requires
        pat@.len() > 0,
    ensures
        r@ == replace_from(s@, pat@, rep@, 0),
{
    let cs = chars_of(s);
    let p = chars_of(pat);
    let rp = chars_of(rep);
    let mut out: Vec<char> = Vec::new();
    let mut pos: usize = 0;
    let n = cs.len();
    loop
        invariant
            n == cs@.len(),
            pos <= cs@.len(),
            p@ == pat@,
            rp@ == rep@,
            cs@ == s@,
            p@.len() > 0,
            out@ + replace_from(cs@, p@, rp@, pos as int) == replace_from(cs@, p@, rp@, 0),
        decreases cs@.len() + 1 - pos,
    {
        proof {
            lemma_find_from(cs@, p@, pos as int);
        }
        let ghost before = out@;
        match find_seq(cs.as_slice(), p.as_slice(), pos) {
            Some(k) => {
                let mut j = pos;
                while j < k
                    invariant
                        pos <= j <= k <= cs@.len(),
                        out@ == before + cs@.subrange(pos as int, j as int),
                    decreases k - j,
                {
                    out.push(cs[j]);
                    assert(cs@.subrange(pos as int, j + 1) =~= cs@.subrange(pos as int, j as int).push(cs@[j as int]));
                    j += 1;
                }
                let mut t: usize = 0;
                let ghost mid = out@;
                while t < rp.len()
                    invariant
                        t <= rp@.len(),
                        out@ == mid + rp@.take(t as int),
                    decreases rp@.len() - t,
                {
                    out.push(rp[t]);
                    assert(rp@.take(t + 1) =~= rp@.take(t as int).push(rp@[t as int]));
                    t += 1;
                }
                assert(rp@.take(rp@.len() as int) =~= rp@);
                assert(out@ =~= before + (cs@.subrange(pos as int, k as int) + rp@));
                pos = k + p.len();
            },
            None => {
                let mut j = pos;
                while j < cs.len()
                    invariant
                        pos <= j <= cs@.len(),
                        out@ == before + cs@.subrange(pos as int, j as int),
                    decreases cs@.len() - j,
                {
                    out.push(cs[j]);
                    assert(cs@.subrange(pos as int, j + 1) =~= cs@.subrange(pos as int, j as int).push(cs@[j as int]));
                    j += 1;
                }
                return string_from(out.as_slice());
            },
        }
    }
}

// ---- asset dependencies ------------------------------------------------------

/// A pinned asset dependency declared under `[package.metadata.assets.<name>]`.
#[derive(Debug)]
pub struct AssetDep {
    pub name: String,
    pub url: String,
    pub version: String,
    pub dest: String,
}

/// An asset dependency as character sequences: name, url, version, destination.
pub open spec fn asset_view(a: AssetDep) -> (Seq<char>, Seq<char>, Seq<char>, Seq<char>) {
    (a.name@, a.url@, a.version@, a.dest@)
}

/// State of the asset scan: the table being read (if any), its fields so
/// far, the complete declarations so far.
pub struct AssetScan {
    pub cur: Option<Seq<char>>,
    pub url: Seq<char>,
    pub version: Seq<char>,
    pub dest: Seq<char>,
    pub assets: Seq<(Seq<char>, Seq<char>, Seq<char>, Seq<char>)>,
}

/// The declarations with the table being read added, when it has a url, a
/// version and a destination.
pub open spec fn flush_asset(st: AssetScan) -> Seq<(Seq<char>, Seq<char>, Seq<char>, Seq<char>)> {
    match st.cur {
        Some(name) => if st.url.len() > 0 && st.version.len() > 0 && st.dest.len() > 0 {
            st.assets.push((name, st.url, st.version, st.dest))
        } else {
            st.assets
        },
        None => st.assets,
    }
}

/// Header of an asset table.
pub open spec fn asset_header() -> Seq<char> {
    "[package.metadata.assets."@
}

/// One line of the asset scan.
pub open spec fn asset_step(st: AssetScan, line: Seq<char>) -> AssetScan {
    let t = trim(line);
    if starts_with(t, asset_header()) {
        AssetScan {
            cur: Some(trim_end_char(t.skip(asset_header().len() as int), ']')),
            url: seq![],
            version: seq![],
            dest: seq![],
            assets: flush_asset(st),
        }
    } else if st.cur is Some {
        match split_once(t, "="@) {
            Some((k, v)) => {
                let k = trim(k);
                let v = trim_end_char(trim_start_char(trim(v), '"'), '"');
                if k == "url"@ {
                    AssetScan { url: v, ..st }
                } else if k == "version"@ {
                    AssetScan { version: v, ..st }
                } else if k == "dest"@ {
                    AssetScan { dest: v, ..st }
                } else {
                    st
                }
            },
            None => st,
        }
    } else {
        st
    }
}

/// The asset scan over lines.
pub open spec fn asset_scan(ls: Seq<Seq<char>>) -> AssetScan
    decreases ls.len(),
{
    if ls.len() == 0 {
        AssetScan { cur: None, url: seq![], version: seq![], dest: seq![], assets: seq![] }
    } else {
        asset_step(asset_scan(ls.drop_last()), ls.last())
    }
}

/// The asset dependencies declared in a `Cargo.toml` text.
pub open spec fn asset_deps(toml: Seq<char>) -> Seq<(Seq<char>, Seq<char>, Seq<char>, Seq<char>)> {
    flush_asset(asset_scan(lines(toml)))
}

/// The lines of `s` already read: those before the lines from `pos`.
pub open spec fn lines_before(s: Seq<char>, pos: int) -> Seq<Seq<char>> {
    lines(s).take(lines(s).len() - lines_from(s, pos).len())
}

proof fn lemma_lines_step(s: Seq<char>, pos: int, next: int, line: Seq<char>)
    requires
        lines_from(s, pos) == seq![line] + lines_from(s, next),
        lines(s) == lines_before(s, pos) + lines_from(s, pos),
    ensures
        lines_before(s, next) == lines_before(s, pos).push(line),
        lines(s) == lines_before(s, next) + lines_from(s, next),
{
    let all = lines(s);
    let k = all.len() - lines_from(s, pos).len();
    assert(lines_from(s, pos).len() == 1 + lines_from(s, next).len());
    assert(all.take(k + 1) =~= all.take(k).push(line)) by {
        assert(all[k] == lines_from(s, pos)[0]);
    }
    assert(all =~= all.take(k + 1) + lines_from(s, next)) by {
        assert forall|j: int| k + 1 <= j < all.len() implies all[j] == lines_from(s, next)[j - k - 1] by {
            assert(all[j] == lines_from(s, pos)[j - k]);
        }
    }
}

/// Parse the asset dependencies declared as `[package.metadata.assets.*]`
/// tables in a `Cargo.toml` text.
pub fn parse_asset_deps(toml: &str) -> (deps: Vec<AssetDep>)
    ensures
        deps@.map_values(|a: AssetDep| asset_view(a)) == asset_deps(toml@),
{
    let cs = chars_of(toml);
    let header = chars_of("[package.metadata.assets.");
    let eq = chars_of("=");
    let mut assets: Vec<AssetDep> = Vec::new();
    let mut cur: Option<String> = None;
    let mut url = String::new();
    let mut version = String::new();
    let mut dest = String::new();
    let mut pos: usize = 0;
    assert(lines(cs@).take(0) =~= Seq::<Seq<char>>::empty());
    assert(lines_before(cs@, 0) =~= Seq::<Seq<char>>::empty());
    assert(lines(cs@) =~= lines_before(cs@, 0) + lines_from(cs@, 0));
    while pos < cs.len()
        invariant
            pos <= cs@.len(),
            cs@ == toml@,
            header@ == asset_header(),
            eq@ == "="@,
            lines(cs@) == lines_before(cs@, pos as int) + lines_from(cs@, pos as int),
            ({
                let st = asset_scan(lines_before(cs@, pos as int));
                &&& (cur matches Some(n) ==> st.cur == Some(n@))
                &&& (cur is None ==> st.cur is None)
                &&& url@ == st.url
                &&& version@ == st.version
                &&& dest@ == st.dest
                &&& assets@.map_values(|a: AssetDep| asset_view(a)) == st.assets
            }),
        decreases cs@.len() - pos,
    {
        let (end, next) = line_bounds(cs.as_slice(), pos);
        let line = sub_chars(cs.as_slice(), pos, end);
        proof {
            lemma_lines_step(cs@, pos as int, next as int, line@);
            assert(lines_before(cs@, next as int).drop_last() =~= lines_before(cs@, pos as int));
        }
        let (ta, tb) = trim_bounds(line.as_slice(), 0, line.len());
        assert(line@.subrange(0, line@.len() as int) =~= line@);
        let t = sub_chars(line.as_slice(), ta, tb);
        let ghost st = asset_scan(lines_before(cs@, pos as int));
        if starts_with_exec(t.as_slice(), header.as_slice()) {
            // A new asset table: record the previous one if complete.
            match cur {
                Some(name) => {
                    if !url.as_str().is_empty() && !version.as_str().is_empty() && !dest.as_str().is_empty() {
                        let ghost before = assets@;
                        assets.push(AssetDep { name, url: url.clone(), version: version.clone(), dest: dest.clone() });
                        assert(assets@.map_values(|a: AssetDep| asset_view(a)) =~= before.map_values(
                            |a: AssetDep| asset_view(a),
                        ).push((st.cur->0, st.url, st.version, st.dest)));
                    }
                },
                None => {},
            }
            let (na, nb) = trim_char_bounds(t.as_slice(), header.len(), t.len(), ']', false);
            assert(t@.subrange(header@.len() as int, t@.len() as int) =~= t@.skip(header@.len() as int));
            cur = Some(string_of_range(t.as_slice(), na, nb));
            url = String::new();
            version = String::new();
            dest = String::new();
        } else if cur.is_some() {
            proof {
                lemma_find_from(t@, eq@, 0);
            }
            match find_seq(t.as_slice(), eq.as_slice(), 0) {
                Some(k) => {
                    let (ka, kb) = trim_bounds(t.as_slice(), 0, k);
                    assert(t@.subrange(0, k as int) =~= t@.take(k as int));
                    let key = sub_chars(t.as_slice(), ka, kb);
                    let (va, vb) = trim_bounds(t.as_slice(), k + eq.len(), t.len());
                    assert(t@.subrange(k + eq@.len(), t@.len() as int) =~= t@.skip(k + eq@.len()));
                    let (qa, qb) = trim_char_bounds(t.as_slice(), va, vb, '"', true);
                    let value = string_of_range(t.as_slice(), qa, qb);
                    let url_key = chars_of("url");
                    let version_key = chars_of("version");
                    let dest_key = chars_of("dest");
                    if key.len() == url_key.len() && same_chars(key.as_slice(), url_key.as_slice()) {
                        url = value;
                    } else if key.len() == version_key.len() && same_chars(key.as_slice(), version_key.as_slice()) {
                        version = value;
                    } else if key.len() == dest_key.len() && same_chars(key.as_slice(), dest_key.as_slice()) {
                        dest = value;
                    }
                },
                None => {},
            }
        }
        assert(asset_scan(lines_before(cs@, next as int)) == asset_step(st, line@));
        pos = next;
    }
    proof {
        assert(lines_from(cs@, pos as int) =~= Seq::<Seq<char>>::empty());
        assert(lines(cs@) =~= lines_before(cs@, pos as int));
    }
    let ghost st = asset_scan(lines(cs@));
    match cur {
        Some(name) => {
            if !url.as_str().is_empty() && !version.as_str().is_empty() && !dest.as_str().is_empty() {
                let ghost before = assets@;
                assets.push(AssetDep { name, url, version, dest });
                assert(assets@.map_values(|a: AssetDep| asset_view(a)) =~= before.map_values(
                    |a: AssetDep| asset_view(a),
                ).push((st.cur->0, st.url, st.version, st.dest)));
            }
        },
        None => {},
    }
    assets
}

/// Whether two character sequences of the same length are equal.
fn same_chars(a: &[char], b: &[char]) -> (r: bool)
    requires
        a@.len() == b@.len(),
    ensures
        r == (a@ == b@),
{
    matches_all(a, b)
}

// ---- git dependencies ------------------------------------------------------------

/// Whether `p` occurs in `s`.
pub open spec fn contains(s: Seq<char>, p: Seq<char>) -> bool {
    find_from(s, p, 0) is Some
}

/// The git dependency declared on a line `name = { git = "...", tag = "..." }`
/// with a GitHub URL: name, `owner/repo` and tag.
pub open spec fn git_dep_of_line(line: Seq<char>) -> Option<(Seq<char>, Seq<char>, Seq<char>)> {
    match split_once(trim(line), "="@) {
        None => None,
        Some((key, value)) => {
            let name = trim(key);
            let val = trim(value);
            if contains(val, "git ="@) && contains(val, "tag ="@) {
                match (field_value(val, "git"@), field_value(val, "tag"@)) {
                    (Some(url), Some(tag)) => match repo_of_git_url(url) {
                        Some(repo) => Some((name, repo, tag)),
                        None => None,
                    },
                    _ => None,
                }
            } else {
                None
            }
        },
    }
}

/// The git dependencies pinned to tags among lines, in order.
pub open spec fn git_deps_of_lines(ls: Seq<Seq<char>>) -> Seq<(Seq<char>, Seq<char>, Seq<char>)>
    decreases ls.len(),
{
    if ls.len() == 0 {
        seq![]
    } else {
        git_deps_of_lines(ls.drop_last()) + match git_dep_of_line(ls.last()) {
            Some(d) => seq![d],
            None => seq![],
        }
    }
}

fn git_dep_of(line: &Vec<char>) -> (r: Option<(String, String, String)>)
    ensures
        r matches Some(d) ==> git_dep_of_line(line@) == Some((d.0@, d.1@, d.2@)),
        r is None ==> git_dep_of_line(line@) is None,
{
    let (ta, tb) = trim_bounds(line.as_slice(), 0, line.len());
    assert(line@.subrange(0, line@.len() as int) =~= line@);
    let t = sub_chars(line.as_slice(), ta, tb);
    let eq = chars_of("=");
    proof {
        lemma_find_from(t@, eq@, 0);
    }
    let k = match find_seq(t.as_slice(), eq.as_slice(), 0) {
        Some(k) => k,
        None => {
            return None;
        },
    };
    let (na, nb) = trim_bounds(t.as_slice(), 0, k);
    assert(t@.subrange(0, k as int) =~= t@.take(k as int));
    let (va, vb) = trim_bounds(t.as_slice(), k + eq.len(), t.len());
    assert(t@.subrange(k + eq@.len(), t@.len() as int) =~= t@.skip(k + eq@.len()));
    let name = string_of_range(t.as_slice(), na, nb);
    let val_chars = sub_chars(t.as_slice(), va, vb);
    let git_eq = chars_of("git =");
    let tag_eq = chars_of("tag =");
    if find_seq(val_chars.as_slice(), git_eq.as_slice(), 0).is_none() || find_seq(
        val_chars.as_slice(),
        tag_eq.as_slice(),
        0,
    ).is_none() {
        return None;
    }
    let val = string_from(val_chars.as_slice());
    let url = match extract_field(val.as_str(), "git") {
        Some(u) => u,
        None => {
            return None;
        },
    };
    let tag = match extract_field(val.as_str(), "tag") {
        Some(t) => t,
        None => {
            return None;
        },
    };
    match github_repo_from_git_url(url.as_str()) {
        Some(repo) => Some((name, repo, tag)),
        None => None,
    }
}

/// Parse git dependencies with tag pins from a `Cargo.toml` text: the
/// name, `owner/repo` and pinned tag of each.
pub fn parse_git_deps(toml: &str) -> (deps: Vec<(String, String, String)>)
    ensures
        deps@.map_values(|d: (String, String, String)| (d.0@, d.1@, d.2@)) == git_deps_of_lines(lines(toml@)),
{
    let cs = chars_of(toml);
    let mut deps: Vec<(String, String, String)> = Vec::new();
    let mut pos: usize = 0;
    assert(lines(cs@).take(0) =~= Seq::<Seq<char>>::empty());
    assert(lines_before(cs@, 0) =~= Seq::<Seq<char>>::empty());
    assert(lines(cs@) =~= lines_before(cs@, 0) + lines_from(cs@, 0));
    while pos < cs.len()
        invariant
            pos <= cs@.len(),
            cs@ == toml@,
            lines(cs@) == lines_before(cs@, pos as int) + lines_from(cs@, pos as int),
            deps@.map_values(|d: (String, String, String)| (d.0@, d.1@, d.2@)) == git_deps_of_lines(
                lines_before(cs@, pos as int),
            ),
        decreases cs@.len() - pos,
    {
        let (end, next) = line_bounds(cs.as_slice(), pos);
        let line = sub_chars(cs.as_slice(), pos, end);
        proof {
            lemma_lines_step(cs@, pos as int, next as int, line@);
            assert(lines_before(cs@, next as int).drop_last() =~= lines_before(cs@, pos as int));
        }
        let ghost before = deps@;
        match git_dep_of(&line) {
            Some(d) => {
                deps.push(d);
            },
            None => {},
        }
        assert(deps@.map_values(|d: (String, String, String)| (d.0@, d.1@, d.2@)) =~= git_deps_of_lines(
            lines_before(cs@, next as int),
        ));
        pos = next;
    }
    proof {
        assert(lines_from(cs@, pos as int) =~= Seq::<Seq<char>>::empty());
        assert(lines(cs@) =~= lines_before(cs@, pos as int));
    }
    deps
}

// ---- output paths ------------------------------------------------------------------

/// Path of the page built from content file `<parent>/<stem>.md`, as
/// components under the site directory: `index` and `404` pages keep their
/// name (`<stem>.html`), other pages get a directory (`<stem>/index.html`).
pub open spec fn output_components(parent: Seq<Seq<char>>, stem: Seq<char>) -> Seq<Seq<char>> {
    if stem == "index"@ || stem == "404"@ {
        parent.push(stem + ".html"@)
    } else {
        parent.push(stem).push("index.html"@)
    }
}

/// Output path of a content page: the directories of the content file
/// (relative to the content directory) and its file stem give the path
/// under the site directory.
pub fn output_path(parent: &Vec<String>, stem: &str) -> (r: Vec<String>)
    ensures
        strings_view(r@) == output_components(strings_view(parent@), stem@),
{
    let mut r: Vec<String> = Vec::new();
    let mut i: usize = 0;
    while i < parent.len()
        invariant
            i <= parent@.len(),
            strings_view(r@) == strings_view(parent@).take(i as int),
        decreases parent@.len() - i,
    {
        let c = parent[i].clone();
        let ghost before = r@;
        r.push(c);
        assert(strings_view(r@) =~= strings_view(before).push(parent@[i as int]@));
        assert(strings_view(parent@).take(i + 1) =~= strings_view(parent@).take(i as int).push(parent@[i as int]@));
        i += 1;
    }
    assert(strings_view(parent@).take(parent@.len() as int) =~= strings_view(parent@));
    let ghost base = r@;
    if str_eq(stem, "index") || str_eq(stem, "404") {
        r.push(concat(stem, ".html"));
    } else {
        r.push(stem.to_owned());
        r.push("index.html".to_owned());
    }
    assert(strings_view(r@) =~= output_components(strings_view(parent@), stem@));
    r
}

/// `n` copies of `s`.
pub open spec fn repeat(s: Seq<char>, n: nat) -> Seq<char>
    decreases n,
{
    if n == 0 {
        seq![]
    } else {
        repeat(s, (n - 1) as nat) + s
    }
}

/// Prefix from a page at directory depth `depth` to the site root:
/// `./` at the root, one `../` per directory below it.
pub open spec fn root_prefix_of(depth: nat) -> Seq<char> {
    if depth == 0 {
        "./"@
    } else {
        repeat("../"@, depth)
    }
}

/// Root-relative prefix of a page whose output path has `depth` directories
/// under the site directory.
pub fn root_prefix(depth: usize) -> (r: String)
    ensures
        r@ == root_prefix_of(depth as nat),
{
    if depth == 0 {
        return "./".to_owned();
    }
    let mut r = String::new();
    let mut i: usize = 0;
    while i < depth
        invariant
            i <= depth,
            r@ == repeat("../"@, i as nat),
        decreases depth - i,
    {
        r.append("../");
        i += 1;
    }
    r
}

// ---- dependency checks -----------------------------------------------------------

/// Report line of a dependency pinned to `current` given the latest release
/// found (if the query succeeded).
pub open spec fn dep_line(name: Seq<char>, current: Seq<char>, latest: Option<Seq<char>>) -> Seq<char> {
    let head = "  "@ + name + " "@ + current;
    match latest {
        Some(l) => if l == current {
            head + " \u{2713}"@
        } else {
            head + " \u{2192} "@ + l + " available"@
        },
        None => head + " (failed to query GitHub API)"@,
    }
}

/// Report line of a dependency and whether a newer release is available.
pub fn dep_report(name: &str, current: &str, latest: &Option<String>) -> (r: (String, bool))
    ensures
        r.0@ == dep_line(name@, current@, match latest {
            Some(l) => Some(l@),
            None => None,
        }),
        r.1 == (latest matches Some(l) && l@ != current@),
{
    let mut line = "  ".to_owned();
    line.append(name);
    line.append(" ");
    line.append(current);
    match latest {
        Some(l) => {
            if str_eq(l.as_str(), current) {
                line.append(" \u{2713}");
                (line, false)
            } else {
                line.append(" \u{2192} ");
                line.append(l.as_str());
                line.append(" available");
                (line, true)
            }
        },
        None => {
            line.append(" (failed to query GitHub API)");
            (line, false)
        },
    }
}

/// Report line of an asset whose URL is not a GitHub release URL.
pub fn skipped_line(name: &str, version: &str) -> (r: String)
    ensures
        r@ == "  "@ + name@ + " "@ + version@ + " (skipped \u{2014} not a GitHub release URL)"@,
{
    let mut line = "  ".to_owned();
    line.append(name);
    line.append(" ");
    line.append(version);
    line.append(" (skipped \u{2014} not a GitHub release URL)");
    line
}

/// Whether every dependency is up to date: no report found a newer
/// release (`newer[i]`), and `cargo outdated` did not fail
/// (`outdated_ok` is `Some(false)` when it failed, `None` when it could not
/// be run).
pub fn all_current(newer: &Vec<bool>, outdated_ok: Option<bool>) -> (r: bool)
    ensures
        r == ((forall|i: int| 0 <= i < newer@.len() ==> !newer@[i]) && outdated_ok != Some(false)),
{
    let mut i: usize = 0;
    while i < newer.len()
        invariant
            i <= newer@.len(),
            forall|k: int| 0 <= k < i ==> !newer@[k],
        decreases newer@.len() - i,
    {
        if newer[i] {
            return false;
        }
        i += 1;
    }
    match outdated_ok {
        Some(ok) => ok,
        None => true,
    }
}

} // verus!
