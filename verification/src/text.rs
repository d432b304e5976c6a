//! Character-level helpers shared by the text processors of the crate.

use vstd::prelude::*;
use vstd::string::*;
use vstd::std_specs::iter::IteratorSpec;
use vstd::utf8::*;

verus! {

broadcast use vstd::string::group_string_axioms;

/// The characters of a string slice, in order.
pub fn chars_of(s: &str) -> (v: Vec<char>)
    ensures
        v@ == s@,
{
    let mut it = s.chars();
    let mut v: Vec<char> = Vec::new();
    loop
        invariant
            v@ + it.remaining() == s@,
            it.decrease() is Some,
        decreases it.decrease()->0,
    {
        let ghost before = it.remaining();
        match it.next() {
            Some(c) => {
                v.push(c);
                assert(v@ + it.remaining() == s@) by {
                    assert(before =~= seq![c] + it.remaining());
                    assert(v@ =~= (v@.drop_last()).push(c));
                }
            },
            None => {
                assert(v@ =~= s@);
                return v;
            },
        }
    }
}

/// Whether two byte slices hold the same bytes.
pub fn bytes_eq(a: &[u8], b: &[u8]) -> (r: bool)
    ensures
        r == (a@ == b@),
{
    if a.len() != b.len() {
        return false;
    }
    let mut i: usize = 0;
    while i < a.len()
        invariant
            a@.len() == b@.len(),
            i <= a@.len(),
            forall|k: int| 0 <= k < i ==> a@[k] == b@[k],
        decreases a@.len() - i,
    {
        if a[i] != b[i] {
            return false;
        }
        i += 1;
    }
    assert(a@ =~= b@);
    true
}

/// Whether two strings hold the same characters.
pub fn str_eq(a: &str, b: &str) -> (r: bool)
    ensures
        r == (a@ == b@),
{
    broadcast use vstd::utf8::encode_utf8_decode_utf8;

    let r = bytes_eq(a.as_bytes(), b.as_bytes());
    proof {
        if r {
            assert(vstd::utf8::decode_utf8(a.spec_bytes()) == vstd::utf8::decode_utf8(b.spec_bytes()));
        }
    }
    r
}

/// Appends a character to a string.
///
/// Trusted: calls `String::push`, which appends the character at the end.
#[verifier::external_body]
pub(crate) fn push_char(s: &mut String, c: char)
    ensures
        final(s)@ == old(s)@.push(c),
{
    s.push(c);
}

/// HTML escape of one character: `&`, `<` and `>` become entities; with
/// `quote`, `"` becomes `&quot;` too.
pub open spec fn escape_char(c: char, quote: bool) -> Seq<char> {
    if c == '&' {
        "&amp;"@
    } else if c == '<' {
        "&lt;"@
    } else if c == '>' {
        "&gt;"@
    } else if quote && c == '"' {
        "&quot;"@
    } else {
        seq![c]
    }
}

/// HTML escape of a text, character by character.
pub open spec fn escape(s: Seq<char>, quote: bool) -> Seq<char>
    decreases s.len(),
{
    if s.len() == 0 {
        seq![]
    } else {
        escape(s.drop_last(), quote) + escape_char(s.last(), quote)
    }
}

/// Appends the escape of `s` to `out`.
pub fn push_escaped(out: &mut String, s: &str, quote: bool)
    ensures
        final(out)@ == old(out)@ + escape(s@, quote),
{
    let cs = chars_of(s);
    let mut i: usize = 0;
    while i < cs.len()
        invariant
            i <= cs@.len(),
            cs@ == s@,
            out@ == old(out)@ + escape(cs@.take(i as int), quote),
        decreases cs@.len() - i,
    {
        let c = cs[i];
        if c == '&' {
            out.append("&amp;");
        } else if c == '<' {
            out.append("&lt;");
        } else if c == '>' {
            out.append("&gt;");
        } else if quote && c == '"' {
            out.append("&quot;");
        } else {
            push_char(out, c);
        }
        assert(cs@.take(i + 1).drop_last() =~= cs@.take(i as int));
        assert(out@ =~= old(out)@ + escape(cs@.take(i + 1), quote));
        i += 1;
    }
    assert(cs@.take(cs@.len() as int) =~= cs@);
}

/// The text of the bytes `from..to` of a UTF-8 byte sequence.
pub open spec fn piece(b: Seq<u8>, from: int, to: int) -> Seq<char> {
    decode_utf8(b.subrange(from, to))
}

/// The part of `s` between two byte offsets that fall on character boundaries.
pub fn byte_slice(s: &str, from: usize, to: usize) -> (r: &str)
    requires
        from <= to <= s.spec_bytes().len(),
        is_char_boundary(s.spec_bytes(), from as int),
        is_char_boundary(s.spec_bytes(), to as int),
    ensures
        r@ == piece(s.spec_bytes(), from as int, to as int),
{
    broadcast use encode_utf8_valid_utf8, encode_utf8_decode_utf8;

    let ghost b = s.spec_bytes();
    let (head, _) = s.split_at(to);
    proof {
        let h = b.subrange(0, to as int);
        valid_utf8_split(b, to as int);
        assert(head.spec_bytes() == h);
        if from == 0 {
        } else if from == to {
            is_char_boundary_start_end_of_seq(h);
        } else {
            is_char_boundary_iff_not_is_continuation_byte(b, from as int);
            is_char_boundary_iff_not_is_continuation_byte(h, from as int);
            assert(h[from as int] == b[from as int]);
        }
    }
    let (_, tail) = head.split_at(from);
    proof {
        assert(tail.spec_bytes() =~= b.subrange(from as int, to as int));
        assert(decode_utf8(encode_utf8(tail@)) == tail@);
    }
    tail
}

/// A string holding exactly the characters of `cs`.
pub fn string_from(cs: &[char]) -> (r: String)
    ensures
        r@ == cs@,
{
    let mut r = String::new();
    let mut i: usize = 0;
    while i < cs.len()
        invariant
            i <= cs@.len(),
            r@ == cs@.take(i as int),
        decreases cs@.len() - i,
    {
        push_char(&mut r, cs[i]);
        assert(cs@.take(i + 1) =~= cs@.take(i as int).push(cs@[i as int]));
        i += 1;
    }
    assert(cs@.take(cs@.len() as int) =~= cs@);
    r
}

/// A string holding the characters `from..to` of `cs`.
pub fn string_of_range(cs: &[char], from: usize, to: usize) -> (r: String)
    requires
        from <= to <= cs@.len(),
    ensures
        r@ == cs@.subrange(from as int, to as int),
{
    let mut r = String::new();
    let mut i: usize = from;
    while i < to
        invariant
            from <= i <= to <= cs@.len(),
            r@ == cs@.subrange(from as int, i as int),
        decreases to - i,
    {
        push_char(&mut r, cs[i]);
        assert(cs@.subrange(from as int, i + 1) =~= cs@.subrange(from as int, i as int).push(cs@[i as int]));
        i += 1;
    }
    r
}

/// ASCII letters and digits.
pub open spec fn is_ascii_alphanumeric(c: char) -> bool {
    ('a' <= c && c <= 'z') || ('A' <= c && c <= 'Z') || ('0' <= c && c <= '9')
}

/// Whether a character outside ASCII is alphabetic or numeric in the sense
/// of Unicode.
pub uninterp spec fn unicode_alphanumeric(c: char) -> bool;

/// Whether a character is alphabetic or numeric: among ASCII characters
/// exactly the letters and digits.
pub open spec fn alphanumeric(c: char) -> bool {
    if (c as u32) < 128 {
        is_ascii_alphanumeric(c)
    } else {
        unicode_alphanumeric(c)
    }
}

/// Trusted: calls `char::is_alphanumeric` (Unicode `Alphabetic` or a
/// numeric general category); among ASCII characters these are exactly the
/// letters and digits, the rest is named by `unicode_alphanumeric`.
#[verifier::external_body]
pub(crate) fn is_alphanumeric(c: char) -> (r: bool)
    ensures
        r == alphanumeric(c),
        (c as u32) >= 128 ==> r == unicode_alphanumeric(c),
{
    c.is_alphanumeric()
}

/// Whether a character outside ASCII has the Unicode `White_Space` property.
pub uninterp spec fn unicode_whitespace(c: char) -> bool;

/// Whether a character is whitespace: among ASCII characters exactly space,
/// tab, line feed, vertical tab, form feed and carriage return; no
/// whitespace character is a letter or digit.
pub open spec fn whitespace(c: char) -> bool {
    if (c as u32) < 128 {
        c == ' ' || ('\t' <= c && c <= '\r')
    } else {
        unicode_whitespace(c) && !unicode_alphanumeric(c)
    }
}

/// Trusted: calls `char::is_whitespace` (Unicode `White_Space`); among
/// ASCII characters these are exactly space, tab, line feed, vertical tab,
/// form feed and carriage return, the rest is named by `unicode_whitespace`.
/// Stated beyond the name: no `White_Space` character is alphabetic or
/// numeric (they are all separators or controls).
#[verifier::external_body]
pub(crate) fn is_whitespace(c: char) -> (r: bool)
    ensures
        r == whitespace(c),
        (c as u32) >= 128 ==> r == unicode_whitespace(c),
        r ==> !alphanumeric(c),
{
    c.is_whitespace()
}

/// The lower-case mapping of a character outside ASCII.
pub uninterp spec fn unicode_lower(c: char) -> Seq<char>;

/// The lower-case mapping of a character: one or more characters; among
/// ASCII characters the letters map to their lower case, the rest to
/// themselves.
pub open spec fn lower(c: char) -> Seq<char> {
    if (c as u32) < 128 {
        seq![ascii_lower(c)]
    } else if unicode_lower(c).len() >= 1 {
        unicode_lower(c)
    } else {
        seq![c]
    }
}

/// Trusted: calls `char::to_lowercase`, which yields the lower-case mapping
/// of the character as one or more characters; among ASCII characters the
/// letters map to their lower case and the rest to themselves. Outside
/// ASCII the mapping is named by `unicode_lower`.
#[verifier::external_body]
pub(crate) fn to_lowercase(c: char) -> (r: Vec<char>)
    ensures
        r@ == lower(c),
        (c as u32) >= 128 ==> r@ == unicode_lower(c),
{
    c.to_lowercase().collect()
}

/// ASCII lower case of a character; other characters are unchanged.
pub open spec fn ascii_lower(c: char) -> char {
    if 'A' <= c && c <= 'Z' {
        ((c as u32) + 32) as char
    } else {
        c
    }
}

/// The text without leading whitespace.
pub open spec fn trim_start(s: Seq<char>) -> Seq<char>
    decreases s.len(),
{
    if s.len() > 0 && whitespace(s[0]) {
        trim_start(s.drop_first())
    } else {
        s
    }
}

/// The text without trailing whitespace.
pub open spec fn trim_end(s: Seq<char>) -> Seq<char>
    decreases s.len(),
{
    if s.len() > 0 && whitespace(s.last()) {
        trim_end(s.drop_last())
    } else {
        s
    }
}

/// The text without leading and trailing whitespace.
pub open spec fn trim(s: Seq<char>) -> Seq<char> {
    trim_end(trim_start(s))
}

/// The bounds of the trimmed part of the characters `from..to` of `cs`.
pub fn trim_bounds(cs: &[char], from: usize, to: usize) -> (r: (usize, usize))
    requires
        from <= to <= cs@.len(),
    ensures
        from <= r.0 <= r.1 <= to,
        cs@.subrange(r.0 as int, r.1 as int) == trim(cs@.subrange(from as int, to as int)),
{
    let mut a = from;
    while a < to && is_whitespace(cs[a])
        invariant
            from <= a <= to <= cs@.len(),
            trim_start(cs@.subrange(from as int, to as int)) == trim_start(cs@.subrange(a as int, to as int)),
        decreases to - a,
    {
        assert(cs@.subrange(a as int, to as int).drop_first() =~= cs@.subrange(a + 1, to as int));
        a += 1;
    }
    assert(trim_start(cs@.subrange(a as int, to as int)) == cs@.subrange(a as int, to as int));
    let mut b = to;
    while b > a && is_whitespace(cs[b - 1])
        invariant
            a <= b <= to <= cs@.len(),
            trim_end(cs@.subrange(a as int, to as int)) == trim_end(cs@.subrange(a as int, b as int)),
        decreases b,
    {
        assert(cs@.subrange(a as int, b as int).drop_last() =~= cs@.subrange(a as int, b - 1));
        b -= 1;
    }
    (a, b)
}

// ---- searching -------------------------------------------------------------------

/// Index of the first `c` in `s` at or after `from`.
pub open spec fn char_from(s: Seq<char>, c: char, from: int) -> Option<int>
    decreases s.len() - from,
{
    if from < 0 || from >= s.len() {
        None
    } else if s[from] == c {
        Some(from)
    } else {
        char_from(s, c, from + 1)
    }
}

pub proof fn lemma_char_from(s: Seq<char>, c: char, from: int)
    requires
        from >= 0,
    ensures
        char_from(s, c, from) matches Some(k) ==> from <= k < s.len() && s[k] == c && forall|j: int|
            from <= j < k ==> s[j] != c,
        char_from(s, c, from) is None ==> forall|j: int| from <= j < s.len() ==> s[j] != c,
    decreases s.len() - from,
{
    if from < s.len() && s[from] != c {
        lemma_char_from(s, c, from + 1);
    }
}

pub fn find_char(s: &[char], c: char, from: usize) -> (r: Option<usize>)
    ensures
        r matches Some(k) ==> char_from(s@, c, from as int) == Some(k as int),
        r is None ==> char_from(s@, c, from as int) is None,
{
    let mut i = from;
    while i < s.len()
        invariant
            from <= i,
            char_from(s@, c, from as int) == char_from(s@, c, i as int),
        decreases s@.len() - i,
    {
        if s[i] == c {
            return Some(i);
        }
        i += 1;
    }
    None
}

/// `p` occurs in `s` at index `i`.
pub open spec fn matches_at(s: Seq<char>, p: Seq<char>, i: int) -> bool {
    0 <= i && i + p.len() <= s.len() && s.subrange(i, i + p.len()) == p
}

/// Index of the first occurrence of `p` in `s` at or after `from`.
pub open spec fn find_from(s: Seq<char>, p: Seq<char>, from: int) -> Option<int>
    decreases s.len() + 1 - from,
{
    if from < 0 || from + p.len() > s.len() {
        None
    } else if matches_at(s, p, from) {
        Some(from)
    } else {
        find_from(s, p, from + 1)
    }
}

pub proof fn lemma_find_from(s: Seq<char>, p: Seq<char>, from: int)
    requires
        from >= 0,
    ensures
        find_from(s, p, from) matches Some(k) ==> from <= k && k + p.len() <= s.len() && matches_at(s, p, k),
    decreases s.len() + 1 - from,
{
    if from + p.len() <= s.len() && !matches_at(s, p, from) {
        lemma_find_from(s, p, from + 1);
    }
}

/// Whether `p` occurs in `s` at index `i`.
pub fn matches_at_exec(s: &[char], p: &[char], i: usize) -> (r: bool)
    ensures
        r == matches_at(s@, p@, i as int),
{
    if i > s.len() || p.len() > s.len() - i {
        return false;
    }
    let n = s.len();
    let mut j: usize = 0;
    while j < p.len()
        invariant
            n == s@.len(),
            i + p@.len() <= s@.len(),
            j <= p@.len(),
            forall|k: int| 0 <= k < j ==> s@[i + k] == p@[k],
        decreases p@.len() - j,
    {
        if s[i + j] != p[j] {
            assert(s@.subrange(i as int, i + p@.len())[j as int] != p@[j as int]);
            return false;
        }
        j += 1;
    }
    assert(s@.subrange(i as int, i + p@.len()) =~= p@);
    true
}

pub fn find_seq(s: &[char], p: &[char], from: usize) -> (r: Option<usize>)
    ensures
        r matches Some(k) ==> find_from(s@, p@, from as int) == Some(k as int),
        r is None ==> find_from(s@, p@, from as int) is None,
{
    if p.len() > s.len() || from > s.len() - p.len() {
        return None;
    }
    let last = s.len() - p.len();
    let mut i = from;
    loop
        invariant
            from <= i <= last,
            last + p@.len() == s@.len(),
            find_from(s@, p@, from as int) == find_from(s@, p@, i as int),
        decreases last - i,
    {
        if matches_at_exec(s, p, i) {
            return Some(i);
        }
        if i == last {
            assert(find_from(s@, p@, i + 1) is None);
            return None;
        }
        i += 1;
    }
}

/// Whether `s` starts with `p`.
pub open spec fn starts_with(s: Seq<char>, p: Seq<char>) -> bool {
    p.len() <= s.len() && s.take(p.len() as int) == p
}

pub fn starts_with_exec(s: &[char], p: &[char]) -> (r: bool)
    ensures
        r == starts_with(s@, p@),
{
    let r = matches_at_exec(s, p, 0);
    proof {
        if p@.len() <= s@.len() {
            assert(s@.subrange(0, p@.len() as int) =~= s@.take(p@.len() as int));
        }
    }
    r
}

/// Whether `s` ends with `p`.
pub open spec fn ends_with(s: Seq<char>, p: Seq<char>) -> bool {
    p.len() <= s.len() && s.skip(s.len() - p.len()) == p
}

pub fn ends_with_exec(s: &[char], p: &[char]) -> (r: bool)
    ensures
        r == ends_with(s@, p@),
{
    if p.len() > s.len() {
        return false;
    }
    let r = matches_at_exec(s, p, s.len() - p.len());
    proof {
        assert(s@.subrange(s@.len() - p@.len(), s@.len() as int) =~= s@.skip(s@.len() - p@.len()));
    }
    r
}

/// The line starting at `i` (up to a line feed, a carriage return before it removed).
pub open spec fn strip_cr(line: Seq<char>) -> Seq<char> {
    if line.len() > 0 && line.last() == '\r' {
        line.drop_last()
    } else {
        line
    }
}

/// The lines of `s` from index `from` on: split at line feeds, a carriage
/// return before a line feed removed, no line after a final line feed.
pub open spec fn lines_from(s: Seq<char>, from: int) -> Seq<Seq<char>>
    decreases s.len() - from,
{
    if from < 0 || from >= s.len() {
        seq![]
    } else {
        proof {
            lemma_char_from(s, '\n', from);
        }
        match char_from(s, '\n', from) {
            Some(k) => seq![strip_cr(s.subrange(from, k))] + lines_from(s, k + 1),
            None => seq![s.subrange(from, s.len() as int)],
        }
    }
}

/// The lines of a text.
pub open spec fn lines(s: Seq<char>) -> Seq<Seq<char>> {
    lines_from(s, 0)
}

/// The end of the line starting at `from` and the start of the next line.
pub fn line_bounds(s: &[char], from: usize) -> (r: (usize, usize))
    requires
        from < s@.len(),
    ensures
        from <= r.0 <= r.1 <= s@.len(),
        r.1 > from,
        lines_from(s@, from as int) == seq![s@.subrange(from as int, r.0 as int)] + lines_from(s@, r.1 as int),
{
    let n = s.len();
    proof {
        lemma_char_from(s@, '\n', from as int);
    }
    match find_char(s, '\n', from) {
        Some(k) => {
            let end = if k > from && s[k - 1] == '\r' {
                k - 1
            } else {
                k
            };
            assert(strip_cr(s@.subrange(from as int, k as int)) =~= s@.subrange(from as int, end as int));
            (end, k + 1)
        },
        None => {
            assert(lines_from(s@, s@.len() as int) =~= Seq::<Seq<char>>::empty());
            (s.len(), s.len())
        },
    }
}

/// The characters `from..to` of `s`, as a vector.
pub fn sub_chars(s: &[char], from: usize, to: usize) -> (r: Vec<char>)
    requires
        from <= to <= s@.len(),
    ensures
        r@ == s@.subrange(from as int, to as int),
{
    let mut r: Vec<char> = Vec::new();
    let mut i = from;
    while i < to
        invariant
            from <= i <= to <= s@.len(),
            r@ == s@.subrange(from as int, i as int),
        decreases to - i,
    {
        r.push(s[i]);
        assert(s@.subrange(from as int, i + 1) =~= s@.subrange(from as int, i as int).push(s@[i as int]));
        i += 1;
    }
    r
}

/// The parts of `s` before and after the first occurrence of `p`.
pub open spec fn split_once(s: Seq<char>, p: Seq<char>) -> Option<(Seq<char>, Seq<char>)> {
    match find_from(s, p, 0) {
        Some(k) => Some((s.take(k), s.skip(k + p.len()))),
        None => None,
    }
}

/// Pairs of strings as pairs of character sequences.
pub open spec fn pairs_view(v: Seq<(String, String)>) -> Seq<(Seq<char>, Seq<char>)> {
    v.map_values(|p: (String, String)| (p.0@, p.1@))
}

/// Strings as character sequences.
pub open spec fn strings_view(v: Seq<String>) -> Seq<Seq<char>> {
    v.map_values(|s: String| s@)
}

/// The text without leading characters `c`.
pub open spec fn trim_start_char(s: Seq<char>, c: char) -> Seq<char>
    decreases s.len(),
{
    if s.len() > 0 && s[0] == c {
        trim_start_char(s.drop_first(), c)
    } else {
        s
    }
}

/// The text without trailing characters `c`.
pub open spec fn trim_end_char(s: Seq<char>, c: char) -> Seq<char>
    decreases s.len(),
{
    if s.len() > 0 && s.last() == c {
        trim_end_char(s.drop_last(), c)
    } else {
        s
    }
}

/// The bounds of the characters `from..to` of `cs` without leading (when
/// `start`) and trailing characters `c`.
pub fn trim_char_bounds(cs: &[char], from: usize, to: usize, c: char, start: bool) -> (r: (usize, usize))
    requires
        from <= to <= cs@.len(),
    ensures
        from <= r.0 <= r.1 <= to,
        start ==> cs@.subrange(r.0 as int, r.1 as int) == trim_end_char(
            trim_start_char(cs@.subrange(from as int, to as int), c),
            c,
        ),
        !start ==> cs@.subrange(r.0 as int, r.1 as int) == trim_end_char(cs@.subrange(from as int, to as int), c),
{
    let mut a = from;
    if start {
        while a < to && cs[a] == c
            invariant
                from <= a <= to <= cs@.len(),
                trim_start_char(cs@.subrange(from as int, to as int), c) == trim_start_char(
                    cs@.subrange(a as int, to as int),
                    c,
                ),
            decreases to - a,
        {
            assert(cs@.subrange(a as int, to as int).drop_first() =~= cs@.subrange(a + 1, to as int));
            a += 1;
        }
    }
    let mut b = to;
    while b > a && cs[b - 1] == c
        invariant
            a <= b <= to <= cs@.len(),
            trim_end_char(cs@.subrange(a as int, to as int), c) == trim_end_char(cs@.subrange(a as int, b as int), c),
        decreases b,
    {
        assert(cs@.subrange(a as int, b as int).drop_last() =~= cs@.subrange(a as int, b - 1));
        b -= 1;
    }
    (a, b)
}

/// A string with the characters of `a` followed by those of `b`.
pub fn concat(a: &str, b: &str) -> (r: String)
    ensures
        r@ == a@ + b@,
{
    let mut r = a.to_owned();
    r.append(b);
    r
}

/// In valid UTF-8, the position after an ASCII byte at a character boundary
/// is a character boundary too.
pub proof fn lemma_ascii_boundary_next(b: Seq<u8>, i: int)
    requires
        valid_utf8(b),
        0 <= i < b.len(),
        is_char_boundary(b, i),
        b[i] < 128,
    ensures
        is_char_boundary(b, i + 1),
    decreases b.len(),
{
    reveal_with_fuel(is_char_boundary, 2);
    let l = length_of_first_scalar(b);
    let rest = pop_first_scalar(b);
    if i == 0 {
        assert(l == 1);
        assert(is_char_boundary(rest, 0));
    } else {
        assert(is_char_boundary(rest, i - l));
        assert(rest.len() < b.len()) by {
            assert(rest.len() == b.len() - l);
        }
        assert(rest[i - l] == b[i]);
        lemma_ascii_boundary_next(rest, i - l);
    }
}

/// In valid UTF-8, an ASCII byte starts a character.
pub proof fn lemma_ascii_boundary(b: Seq<u8>, i: int)
    requires
        valid_utf8(b),
        0 <= i < b.len(),
        b[i] < 128,
    ensures
        is_char_boundary(b, i),
        is_char_boundary(b, i + 1),
{
    is_char_boundary_iff_not_is_continuation_byte(b, i);
    lemma_ascii_boundary_next(b, i);
}

/// Number of bytes of the UTF-8 character whose first byte is `x`.
pub open spec fn utf8_width(x: u8) -> int {
    if x >= 240u8 {
        4
    } else if x >= 224u8 {
        3
    } else if x >= 192u8 {
        2
    } else {
        1
    }
}

/// In valid UTF-8, the character starting at a boundary is `utf8_width` of
/// its first byte long, and the next character starts right after it.
pub proof fn lemma_char_boundary_next(b: Seq<u8>, i: int)
    requires
        valid_utf8(b),
        0 <= i < b.len(),
        is_char_boundary(b, i),
    ensures
        i + utf8_width(b[i]) <= b.len(),
        is_char_boundary(b, i + utf8_width(b[i])),
    decreases b.len(),
{
    reveal_with_fuel(is_char_boundary, 2);
    let l = length_of_first_scalar(b);
    let rest = pop_first_scalar(b);
    assert(rest.len() == b.len() - l);
    if i == 0 {
        assert(l == utf8_width(b[0]));
        assert(is_char_boundary(rest, 0));
    } else {
        assert(is_char_boundary(rest, i - l));
        assert(rest[i - l] == b[i]);
        lemma_char_boundary_next(rest, i - l);
    }
}

/// A boundary of a piece of valid UTF-8 standing in a text, whose end is a
/// boundary of the text, is a boundary of the text.
pub proof fn lemma_boundary_in(b: Seq<u8>, s: int, t: Seq<u8>, o: int)
    requires
        valid_utf8(b),
        valid_utf8(t),
        0 <= s,
        s + t.len() <= b.len(),
        b.subrange(s, s + t.len()) == t,
        is_char_boundary(b, s + t.len()),
        0 <= o <= t.len(),
        is_char_boundary(t, o),
    ensures
        is_char_boundary(b, s + o),
{
    if o < t.len() {
        is_char_boundary_iff_not_is_continuation_byte(t, o);
        is_char_boundary_iff_not_is_continuation_byte(b, s + o);
        assert(b.subrange(s, s + t.len())[o] == b[s + o]);
    }
}

// ---- visible text -----------------------------------------------------------------

/// The escape of a concatenation is the concatenation of the escapes.
pub proof fn lemma_escape_concat(a: Seq<char>, b: Seq<char>, quote: bool)
    ensures
        escape(a + b, quote) == escape(a, quote) + escape(b, quote),
    decreases b.len(),
{
    if b.len() == 0 {
        assert(a + b =~= a);
        assert(escape(a, quote) + escape(b, quote) =~= escape(a, quote));
    } else {
        lemma_escape_concat(a, b.drop_last(), quote);
        assert((a + b).drop_last() =~= a + b.drop_last());
        assert((a + b).last() == b.last());
        assert(escape(a, quote) + escape(b, quote) =~= escape(a, quote) + escape(b.drop_last(), quote) + escape_char(
            b.last(),
            quote,
        ));
    }
}

/// An escaped text holds no `<`.
pub proof fn lemma_escape_no_lt(s: Seq<char>, quote: bool)
    ensures
        forall|i: int| 0 <= i < escape(s, quote).len() ==> escape(s, quote)[i] != '<',
    decreases s.len(),
{
    if s.len() > 0 {
        lemma_escape_no_lt(s.drop_last(), quote);
        reveal_strlit("&amp;");
        reveal_strlit("&lt;");
        reveal_strlit("&gt;");
        reveal_strlit("&quot;");
        let e = escape(s.drop_last(), quote);
        let c = escape_char(s.last(), quote);
        assert forall|i: int| 0 <= i < escape(s, quote).len() implies escape(s, quote)[i] != '<' by {
            if i < e.len() {
                assert(escape(s, quote)[i] == e[i]);
            } else {
                assert(escape(s, quote)[i] == c[i - e.len()]);
            }
        }
    }
}

/// What an HTML fragment shows: its characters outside tags, a tag running
/// from a `<` to the next `>`; `in_tag` when the fragment starts inside one.
pub open spec fn visible_from(s: Seq<char>, in_tag: bool) -> Seq<char>
    decreases s.len(),
{
    if s.len() == 0 {
        seq![]
    } else if in_tag {
        visible_from(s.drop_first(), s[0] != '>')
    } else if s[0] == '<' {
        visible_from(s.drop_first(), true)
    } else {
        seq![s[0]] + visible_from(s.drop_first(), false)
    }
}

/// What an HTML fragment shows outside its tags.
pub open spec fn visible(s: Seq<char>) -> Seq<char> {
    visible_from(s, false)
}

/// Text without `<` shows as it is.
pub proof fn lemma_visible_text(e: Seq<char>, r: Seq<char>)
    requires
        forall|i: int| 0 <= i < e.len() ==> e[i] != '<',
    ensures
        visible_from(e + r, false) == e + visible_from(r, false),
    decreases e.len(),
{
    if e.len() == 0 {
        assert(e + r =~= r);
        assert(e + visible_from(r, false) =~= visible_from(r, false));
    } else {
        let t = e.drop_first();
        assert forall|i: int| 0 <= i < t.len() implies t[i] != '<' by {
            assert(t[i] == e[i + 1]);
        }
        lemma_visible_text(t, r);
        assert((e + r).drop_first() =~= t + r);
        assert((e + r)[0] == e[0]);
        assert(e + visible_from(r, false) =~= seq![e[0]] + (t + visible_from(r, false)));
    }
}

proof fn lemma_visible_in_tag(u: Seq<char>, r: Seq<char>)
    requires
        u.len() >= 1,
        u.last() == '>',
        forall|i: int| 0 <= i < u.len() - 1 ==> u[i] != '>',
    ensures
        visible_from(u + r, true) == visible_from(r, false),
    decreases u.len(),
{
    assert((u + r)[0] == u[0]);
    assert((u + r).drop_first() =~= u.drop_first() + r);
    if u.len() == 1 {
        assert(u.drop_first() + r =~= r);
    } else {
        let t = u.drop_first();
        assert forall|i: int| 0 <= i < t.len() - 1 implies t[i] != '>' by {
            assert(t[i] == u[i + 1]);
        }
        assert(t.last() == u.last());
        lemma_visible_in_tag(t, r);
    }
}

/// A tag shows nothing.
pub proof fn lemma_visible_tag(t: Seq<char>, r: Seq<char>)
    requires
        t.len() >= 2,
        t[0] == '<',
        t.last() == '>',
        forall|i: int| 0 < i < t.len() - 1 ==> t[i] != '>',
    ensures
        visible_from(t + r, false) == visible_from(r, false),
{
    let u = t.drop_first();
    assert((t + r)[0] == '<');
    assert((t + r).drop_first() =~= u + r);
    assert forall|i: int| 0 <= i < u.len() - 1 implies u[i] != '>' by {
        assert(u[i] == t[i + 1]);
    }
    assert(u.last() == t.last());
    lemma_visible_in_tag(u, r);
}

/// Splitting a valid byte sequence at character boundaries keeps the
/// boundaries in between.
pub proof fn lemma_boundary_sub(b: Seq<u8>, x: int, z: int, i: int)
    requires
        valid_utf8(b),
        0 <= x <= i <= z <= b.len(),
        is_char_boundary(b, x),
        is_char_boundary(b, z),
        is_char_boundary(b, i),
    ensures
        valid_utf8(b.subrange(x, z)),
        is_char_boundary(b.subrange(x, z), i - x),
{
    let h = b.subrange(0, z);
    valid_utf8_split(b, z);
    if x == z {
        is_char_boundary_start_end_of_seq(h);
    } else if x > 0 {
        is_char_boundary_iff_not_is_continuation_byte(b, x);
        is_char_boundary_iff_not_is_continuation_byte(h, x);
        assert(h[x] == b[x]);
    }
    valid_utf8_split(h, x);
    let m = h.subrange(x, h.len() as int);
    assert(m =~= b.subrange(x, z));
    if i == z {
        is_char_boundary_start_end_of_seq(m);
    } else if i > x {
        is_char_boundary_iff_not_is_continuation_byte(b, i);
        is_char_boundary_iff_not_is_continuation_byte(m, i - x);
        assert(m[i - x] == b[i]);
    }
}

/// The texts of adjacent byte ranges, split at character boundaries, make
/// up the text of their union.
pub proof fn lemma_piece_concat(b: Seq<u8>, x: int, y: int, z: int)
    requires
        valid_utf8(b),
        0 <= x <= y <= z <= b.len(),
        is_char_boundary(b, x),
        is_char_boundary(b, y),
        is_char_boundary(b, z),
    ensures
        piece(b, x, y) + piece(b, y, z) == piece(b, x, z),
{
    lemma_boundary_sub(b, x, z, y);
    let m = b.subrange(x, z);
    decode_utf8_split(m, y - x);
    assert(m.subrange(0, y - x) =~= b.subrange(x, y));
    assert(m.subrange(y - x, m.len() as int) =~= b.subrange(y, z));
}

} // verus!
